//! Text as a sequence of characters: comparison, prefixes, decimal numbers.

use std::sync::Arc;
use vstd::prelude::*;

verus! {

/// `String::push` of std: the character is appended to the end of the string.
pub assume_specification[ std::string::String::push ](s: &mut String, ch: char)
    ensures
        final(s)@ == old(s)@.push(ch),
;

/// `String::push_str` of std: the characters of `t` are appended in order.
pub assume_specification[ std::string::String::push_str ](s: &mut String, t: &str)
    ensures
        final(s)@ == old(s)@ + t@,
;

/// `String::into_boxed_str` of std: the same text, without spare capacity.
#[verifier::external_body]
pub(crate) fn boxed(text: String) -> (out: Box<str>)
    ensures
        (*out)@ == text@,
{
    text.into_boxed_str()
}

/// `Arc::<str>::from` of std: a shared copy of the text.
#[verifier::external_body]
pub(crate) fn shared(text: &str) -> (out: Arc<str>)
    ensures
        (*out)@ == text@,
{
    Arc::from(text)
}

/// The characters of a string, one by one.
pub fn chars_of(text: &str) -> (out: Vec<char>)
    ensures
        out@ == text@,
{
    let mut out: Vec<char> = Vec::new();
    for c in it: text.chars()
        invariant
            out@ == it.seq().take(it.index() as int),
    {
        out.push(c);
    }
    out
}

/// Whether two strings hold the same characters.
pub fn same_text(a: &str, b: &str) -> (same: bool)
    ensures
        same == (a@ == b@),
{
    let x: &[u8] = a.as_bytes();
    let y: &[u8] = b.as_bytes();
    proof {
        vstd::utf8::encode_utf8_decode_utf8(a@);
        vstd::utf8::encode_utf8_decode_utf8(b@);
    }
    if x.len() != y.len() {
        return false;
    }
    let mut i: usize = 0;
    while i < x.len()
        invariant
            i <= x@.len(),
            x@.len() == y@.len(),
            x@ == vstd::utf8::encode_utf8(a@),
            y@ == vstd::utf8::encode_utf8(b@),
            forall|k: int| 0 <= k < i ==> x@[k] == y@[k],
        decreases x@.len() - i,
    {
        if x[i] != y[i] {
            return false;
        }
        i = i + 1;
    }
    assert(x@ =~= y@);
    true
}

/// Whether `text` begins with `prefix`.
pub fn has_prefix(text: &str, prefix: &str) -> (yes: bool)
    ensures
        yes == prefix@.is_prefix_of(text@),
{
    let t: Vec<char> = chars_of(text);
    let p: Vec<char> = chars_of(prefix);
    if p.len() > t.len() {
        return false;
    }
    let mut i: usize = 0;
    while i < p.len()
        invariant
            i <= p@.len() <= t@.len(),
            t@ == text@,
            p@ == prefix@,
            forall|k: int| 0 <= k < i ==> p@[k] == t@[k],
        decreases p@.len() - i,
    {
        if p[i] != t[i] {
            assert(prefix@[i as int] != text@.subrange(0, prefix@.len() as int)[i as int]);
            return false;
        }
        i = i + 1;
    }
    true
}

/// Whether `text` ends with `suffix`.
pub fn has_suffix(text: &str, suffix: &str) -> (yes: bool)
    ensures
        yes == suffix@.is_suffix_of(text@),
{
    let t: Vec<char> = chars_of(text);
    let s: Vec<char> = chars_of(suffix);
    if s.len() > t.len() {
        return false;
    }
    let total: usize = t.len();
    let from: usize = total - s.len();
    let mut i: usize = 0;
    while i < s.len()
        invariant
            i <= s@.len() <= t@.len(),
            total == t@.len(),
            from == t@.len() - s@.len(),
            t@ == text@,
            s@ == suffix@,
            forall|k: int| 0 <= k < i ==> s@[k] == t@[from + k],
        decreases s@.len() - i,
    {
        if s[i] != t[from + i] {
            assert(suffix@[i as int] != text@.subrange(from as int, text@.len() as int)[i as int]);
            return false;
        }
        i = i + 1;
    }
    true
}

/// The decimal digit of a number below ten.
pub open spec fn digit(d: int) -> char {
    (48 + d) as char
}

/// A number in decimal, without leading zeros.
pub open spec fn decimal(n: nat) -> Seq<char>
    decreases n,
{
    if n < 10 {
        seq![digit(n as int)]
    } else {
        decimal(n / 10).push(digit((n % 10) as int))
    }
}

/// Whether a character is an ASCII decimal digit.
pub open spec fn is_digit(c: char) -> bool {
    '0' <= c <= '9'
}

/// The number written by a run of decimal digits.
pub open spec fn digits_value(s: Seq<char>) -> nat
    decreases s.len(),
{
    if s.len() == 0 {
        0
    } else {
        digits_value(s.drop_last()) * 10 + (s.last() as int - 48) as nat
    }
}

/// The digits of a decimal numeral: everything behind one optional plus sign.
pub open spec fn numeral_digits(s: Seq<char>) -> Seq<char> {
    if s.len() > 0 && s[0] == '+' {
        s.skip(1)
    } else {
        s
    }
}

/// A 64-bit unsigned numeral: an optional plus, then at least one digit and
/// nothing else, with a value that fits.
pub open spec fn numeral(s: Seq<char>) -> Option<u64> {
    let digits = numeral_digits(s);
    if digits.len() > 0 && (forall|i: int| 0 <= i < digits.len() ==> is_digit(#[trigger] digits[i]))
        && digits_value(digits) <= u64::MAX {
        Some(digits_value(digits) as u64)
    } else {
        None
    }
}

/// The characters of the Unicode property `White_Space`.
pub open spec fn is_white_space(c: char) -> bool {
    let u = c as u32;
    ||| 0x9 <= u <= 0xd
    ||| u == 0x20
    ||| u == 0x85
    ||| u == 0xa0
    ||| u == 0x1680
    ||| 0x2000 <= u <= 0x200a
    ||| u == 0x2028
    ||| u == 0x2029
    ||| u == 0x202f
    ||| u == 0x205f
    ||| u == 0x3000
}

/// Text without its leading white space.
pub open spec fn trim_start(s: Seq<char>) -> Seq<char>
    decreases s.len(),
{
    if s.len() > 0 && is_white_space(s[0]) {
        trim_start(s.skip(1))
    } else {
        s
    }
}

/// Everything before the first white space.
pub open spec fn until_space(s: Seq<char>) -> Seq<char>
    decreases s.len(),
{
    if s.len() == 0 || is_white_space(s[0]) {
        Seq::empty()
    } else {
        seq![s[0]] + until_space(s.skip(1))
    }
}

/// The first word of a text: a run of characters that are not white space.
pub open spec fn first_word(s: Seq<char>) -> Seq<char> {
    until_space(trim_start(s))
}

/// Whether a character has the Unicode property `White_Space`.
pub fn white_space(c: char) -> (yes: bool)
    ensures
        yes == is_white_space(c),
{
    let u: u32 = c as u32;
    (0x9 <= u && u <= 0xd) || u == 0x20 || u == 0x85 || u == 0xa0 || u == 0x1680 || (0x2000 <= u
        && u <= 0x200a) || u == 0x2028 || u == 0x2029 || u == 0x202f || u == 0x205f || u == 0x3000
}

/// The first word of the characters from `start` on; `None` where there is none.
pub fn take_first_word(text: &Vec<char>, start: usize) -> (word: Option<Vec<char>>)
    requires
        start <= text@.len(),
    ensures
        match word {
            Some(w) => w@ == first_word(text@.skip(start as int)) && w@.len() > 0,
            None => first_word(text@.skip(start as int)).len() == 0,
        },
{
    let mut i: usize = start;
    while i < text.len() && white_space(text[i])
        invariant
            start <= i <= text@.len(),
            trim_start(text@.skip(start as int)) == trim_start(text@.skip(i as int)),
        decreases text@.len() - i,
    {
        assert(text@.skip(i as int).skip(1) =~= text@.skip(i + 1));
        i = i + 1;
    }
    assert(trim_start(text@.skip(i as int)) == text@.skip(i as int));
    let mut word: Vec<char> = Vec::new();
    while i < text.len() && !white_space(text[i])
        invariant
            i <= text@.len(),
            first_word(text@.skip(start as int)) == word@ + until_space(text@.skip(i as int)),
        decreases text@.len() - i,
    {
        assert(text@.skip(i as int).skip(1) =~= text@.skip(i + 1));
        assert(word@.push(text@[i as int]) + until_space(text@.skip(i + 1)) =~= word@
            + until_space(text@.skip(i as int)));
        word.push(text[i]);
        i = i + 1;
    }
    assert(until_space(text@.skip(i as int)) =~= Seq::empty());
    assert(word@ =~= first_word(text@.skip(start as int)));
    if word.len() == 0 {
        None
    } else {
        Some(word)
    }
}

/// Digits only make a number larger.
proof fn lemma_value_grows(s: Seq<char>, k: int)
    requires
        0 <= k <= s.len(),
        forall|i: int| 0 <= i < s.len() ==> is_digit(#[trigger] s[i]),
    ensures
        digits_value(s.take(k)) <= digits_value(s),
    decreases s.len(),
{
    if k < s.len() {
        assert(s.drop_last().take(k) =~= s.take(k));
        lemma_value_grows(s.drop_last(), k);
    } else {
        assert(s.take(k) =~= s);
    }
}

/// Reads a 64-bit unsigned numeral.
pub fn parse_numeral(text: &Vec<char>) -> (value: Option<u64>)
    ensures
        value == numeral(text@),
{
    let start: usize = if text.len() > 0 && text[0] == '+' {
        1
    } else {
        0
    };
    let ghost digits = numeral_digits(text@);
    assert(digits =~= text@.skip(start as int));
    if start >= text.len() {
        return None;
    }
    let mut acc: u64 = 0;
    let mut i: usize = start;
    assert(digits.take(0) =~= Seq::<char>::empty());
    while i < text.len()
        invariant
            start <= i <= text@.len(),
            digits == numeral_digits(text@),
            digits == text@.skip(start as int),
            forall|k: int| 0 <= k < i - start ==> is_digit(#[trigger] digits[k]),
            acc as nat == digits_value(digits.take(i - start)),
        decreases text@.len() - i,
    {
        let c: char = text[i];
        assert(digits[i - start] == c);
        if !(c >= '0' && c <= '9') {
            return None;
        }
        let d: u64 = (c as u32 - 48) as u64;
        let ghost next = digits.take(i - start + 1);
        assert(next.drop_last() =~= digits.take(i - start));
        assert(digits_value(next) == acc as nat * 10 + d as nat);
        if acc > (u64::MAX - d) / 10 {
            proof {
                if forall|k: int| 0 <= k < digits.len() ==> is_digit(#[trigger] digits[k]) {
                    lemma_value_grows(digits, i - start + 1);
                }
            }
            return None;
        }
        acc = acc * 10 + d;
        i = i + 1;
    }
    assert(digits.take(digits.len() as int) =~= digits);
    Some(acc)
}

/// Appends a number in decimal.
pub fn push_decimal(out: &mut String, n: u64)
    ensures
        final(out)@ == old(out)@ + decimal(n as nat),
    decreases n,
{
    if n >= 10 {
        push_decimal(out, n / 10);
    }
    let ghost before = out@;
    let c: char = (48u8 + (n % 10) as u8) as char;
    out.push(c);
    assert(out@ =~= old(out)@ + decimal(n as nat));
}

/// A decimal numeral consists of digits and has its number as value.
pub proof fn lemma_decimal(n: nat)
    ensures
        decimal(n).len() > 0,
        forall|i: int| 0 <= i < decimal(n).len() ==> is_digit(#[trigger] decimal(n)[i]),
        digits_value(decimal(n)) == n,
    decreases n,
{
    if n < 10 {
        assert(decimal(n).drop_last() =~= Seq::<char>::empty());
        assert(digits_value(decimal(n).drop_last()) == 0);
    } else {
        lemma_decimal(n / 10);
        assert(decimal(n).drop_last() =~= decimal(n / 10));
    }
}

/// Reading a number written in decimal gives the number back.
pub proof fn law_decimal_reads_back(n: u64)
    ensures
        numeral(decimal(n as nat)) == Some(n),
{
    lemma_decimal(n as nat);
    assert(is_digit(decimal(n as nat)[0]));
}

/// A word in front of white space is the first word of the text.
pub proof fn lemma_word_in_front(word: Seq<char>, rest: Seq<char>)
    requires
        forall|i: int| 0 <= i < word.len() ==> !is_white_space(#[trigger] word[i]),
        word.len() > 0,
        rest.len() > 0,
        is_white_space(rest[0]),
    ensures
        first_word(word + rest) == word,
{
    assert((word + rest)[0] == word[0]);
    lemma_until_space(word, rest);
}

proof fn lemma_until_space(word: Seq<char>, rest: Seq<char>)
    requires
        forall|i: int| 0 <= i < word.len() ==> !is_white_space(#[trigger] word[i]),
        rest.len() > 0,
        is_white_space(rest[0]),
    ensures
        until_space(word + rest) == word,
    decreases word.len(),
{
    if word.len() > 0 {
        assert((word + rest).skip(1) =~= word.skip(1) + rest);
        assert forall|i: int| 0 <= i < word.skip(1).len() implies !is_white_space(
            #[trigger] word.skip(1)[i],
        ) by {
            assert(word.skip(1)[i] == word[i + 1]);
        }
        lemma_until_space(word.skip(1), rest);
        assert(seq![word[0]] + word.skip(1) =~= word);
    } else {
        assert(word + rest =~= rest);
        assert(word =~= Seq::<char>::empty());
    }
}

/// A number is written in ordinary decimal: the digits from zero to nine by their own characters,
/// and behind a number its next digit.
pub proof fn law_numbers_are_written_in_decimal(n: nat, d: nat)
    requires
        d < 10,
    ensures
        decimal(0) == seq!['0'],
        decimal(1) == seq!['1'],
        decimal(9) == seq!['9'],
        decimal(d) == seq![('0' as u32 + d) as char],
        n > 0 ==> decimal(n * 10 + d) == decimal(n).push(('0' as u32 + d) as char),
        digits_value(decimal(d)) == d,
{
    reveal_with_fuel(digits_value, 2);
    assert(seq![digit(d as int)].drop_last() =~= Seq::<char>::empty());
    if n > 0 {
        assert((n * 10 + d) / 10 == n && (n * 10 + d) % 10 == d) by (nonlinear_arith)
            requires
                d < 10,
        ;
    }
}

/// White space is what separates words: blanks, tabs, line ends, and the wide and narrow blanks of
/// other scripts. No letter, digit or mark of ASCII is.
pub proof fn law_white_space_is_blank(c: char)
    ensures
        c == ' ' || c == '\t' || c == '\n' || c == '\r' ==> is_white_space(c),
        0x21 <= (c as u32) <= 0x7e ==> !is_white_space(c),
        (c as u32) < 9 || 0xd < (c as u32) < 0x20 ==> !is_white_space(c),
        9 <= (c as u32) <= 0xd || (c as u32) == 0x85 || (c as u32) == 0xa0 ==> is_white_space(c),
        0xa0 < (c as u32) < 0x1680 || 0x1680 < (c as u32) < 0x2000 || 0x3000 < (c as u32)
            ==> !is_white_space(c),
        0x2000 <= (c as u32) <= 0x200a || (c as u32) == 0x1680 || (c as u32) == 0x2028 || (c as u32)
            == 0x2029 || (c as u32) == 0x202f || (c as u32) == 0x205f || (c as u32) == 0x3000
            ==> is_white_space(c),
        0x200a < (c as u32) < 0x2028 || 0x202f < (c as u32) < 0x205f || 0x205f < (c as u32) < 0x3000
            ==> !is_white_space(c),
{
}

proof fn lemma_until_the_end(word: Seq<char>)
    requires
        forall|i: int| 0 <= i < word.len() ==> !is_white_space(#[trigger] word[i]),
    ensures
        until_space(word) == word,
    decreases word.len(),
{
    if word.len() > 0 {
        assert forall|i: int| 0 <= i < word.skip(1).len() implies !is_white_space(
            #[trigger] word.skip(1)[i],
        ) by {
            assert(word.skip(1)[i] == word[i + 1]);
        }
        lemma_until_the_end(word.skip(1));
        assert(seq![word[0]] + word.skip(1) =~= word);
    } else {
        assert(word =~= Seq::<char>::empty());
    }
}

/// The first word of a text is what stands between its leading white space and the next.
pub proof fn law_the_first_word_stands_between_blanks(blank: Seq<char>, word: Seq<char>, rest: Seq<char>)
    requires
        forall|i: int| 0 <= i < blank.len() ==> is_white_space(#[trigger] blank[i]),
        forall|i: int| 0 <= i < word.len() ==> !is_white_space(#[trigger] word[i]),
        word.len() > 0,
        rest.len() > 0 ==> is_white_space(rest[0]),
    ensures
        first_word(blank + word + rest) == word,
        first_word(blank) == Seq::<char>::empty(),
    decreases blank.len(),
{
    if blank.len() == 0 {
        assert(blank + word + rest =~= word + rest);
        assert((word + rest)[0] == word[0]);
        if rest.len() == 0 {
            assert(word + rest =~= word);
            lemma_until_the_end(word);
        } else {
            lemma_until_space(word, rest);
        }
    } else {
        let text = blank + word + rest;
        assert(text[0] == blank[0]);
        assert(text.skip(1) =~= blank.skip(1) + word + rest);
        law_the_first_word_stands_between_blanks(blank.skip(1), word, rest);
    }
}

/// A numeral is digits and nothing else, but for one plus in front; a number too large to hold is
/// none.
pub proof fn law_a_numeral_is_digits_and_nothing_else(s: Seq<char>, n: u64, i: int)
    ensures
        numeral(Seq::empty()) is None,
        numeral(seq!['+']) is None,
        1 <= i < s.len() && !('0' <= s[i] <= '9') ==> numeral(s) is None,
        s.len() > 0 && !('0' <= s[0] <= '9') && s[0] != '+' ==> numeral(s) is None,
        numeral(seq!['+'] + decimal(n as nat)) == Some(n),
        numeral(decimal(n as nat)) == Some(n),
        digits_value(s) > u64::MAX && s.len() > 0 && s[0] != '+' ==> numeral(s) is None,
{
    let digits = numeral_digits(s);
    if 1 <= i < s.len() {
        if s[0] == '+' {
            assert(digits[i - 1] == s[i]);
        } else {
            assert(digits[i] == s[i]);
        }
    }
    if s.len() > 0 && s[0] != '+' {
        assert(digits[0] == s[0]);
    }
    law_decimal_reads_back(n);
    lemma_decimal(n as nat);
    let d = decimal(n as nat);
    assert((seq!['+'] + d).skip(1) =~= d);
    assert(is_digit(d[0]));
    assert(seq!['+'].skip(1) =~= Seq::<char>::empty());
}

} // verus!
