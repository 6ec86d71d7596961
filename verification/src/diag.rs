//! The engine's own notices in the record stream.
//!
//! A lost record is announced in the stream itself, as a text record with the
//! target [`TARGET`]: a hole nobody mentions is indistinguishable from silence.
//! The text of a notice is a contract between writer and reader, so it is
//! assembled and parsed here, in one place.

use crate::text;
use vstd::prelude::*;

verus! {

/// The target of the engine's own records: how a reader tells a notice from a
/// word that merely matched.
pub const TARGET: &'static str = "dduroc";

const LEAD: &'static str = "records lost: ";

const TAIL: &'static str = " (the queue overflowed)";

/// The text of a notice about lost records.
pub open spec fn notice_text(count: u64) -> Seq<char> {
    "records lost: "@ + text::decimal(count as nat) + " (the queue overflowed)"@
}

/// The number a notice speaks of: the first word behind the lead, if it is a
/// number.
pub open spec fn notice_count(target: Seq<char>, text: Seq<char>) -> Option<u64> {
    if target == TARGET@ && "records lost: "@.is_prefix_of(text) {
        text::numeral(text::first_word(text.skip("records lost: "@.len() as int)))
    } else {
        None
    }
}

/// The text of a notice about `count` lost records.
pub fn drop_notice(count: u64) -> (text: String)
    ensures
        text@ == notice_text(count),
{
    let mut out: String = String::new();
    out.push_str(LEAD);
    text::push_decimal(&mut out, count);
    out.push_str(TAIL);
    proof {
        assert(out@ =~= notice_text(count));
    }
    out
}

/// Parses a loss notice back into a number. `None` means this is no loss notice:
/// a foreign target, or other text.
pub fn parse_drop_notice(target: &str, text: &str) -> (count: Option<u64>)
    ensures
        count == notice_count(target@, text@),
{
    if !text::same_text(target, TARGET) || !text::has_prefix(text, LEAD) {
        return None;
    }
    let chars: Vec<char> = text::chars_of(text);
    let skip: usize = text::chars_of(LEAD).len();
    match text::take_first_word(&chars, skip) {
        None => None,
        Some(word) => text::parse_numeral(&word),
    }
}

/// A notice read back gives the number it was written with, and only under the
/// engine's own target.
pub proof fn law_a_notice_reads_back(count: u64, target: Seq<char>)
    ensures
        notice_count(TARGET@, notice_text(count)) == Some(count),
        target != TARGET@ ==> notice_count(target, notice_text(count)) is None,
{
    reveal_strlit("records lost: ");
    reveal_strlit(" (the queue overflowed)");
    let lead = "records lost: "@;
    let tail = " (the queue overflowed)"@;
    let digits = text::decimal(count as nat);
    let notice = notice_text(count);
    text::lemma_decimal(count as nat);
    assert(notice.take(lead.len() as int) =~= lead);
    assert(notice.skip(lead.len() as int) =~= digits + tail);
    assert forall|i: int| 0 <= i < digits.len() implies !text::is_white_space(
        #[trigger] digits[i],
    ) by {
        assert(text::is_digit(digits[i]));
    }
    text::lemma_word_in_front(digits, tail);
    text::law_decimal_reads_back(count);
}

} // verus!
