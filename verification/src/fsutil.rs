//! The names and permissions of files.

use crate::text;
use vstd::prelude::*;

verus! {

/// Permissions on created files: read and write for the owner, read for the group,
/// nothing for anyone else. They are set explicitly rather than left to the
/// process: a device's journal is diagnostics of a working installation.
pub const FILE_MODE: u32 = 0o640;

/// Permissions on directories: the same plus traversal for owner and group.
pub const DIR_MODE: u32 = 0o750;

/// The end of the name of a temporary file.
pub const TMP: &'static str = ".tmp";

/// The last component of a path.
pub open spec fn last_component(path: Seq<char>) -> Seq<char>
    decreases path.len(),
{
    if path.len() == 0 || path.last() == '/' {
        Seq::empty()
    } else {
        last_component(path.drop_last()).push(path.last())
    }
}

/// A path without what names nothing at its end: separators, and the directory itself.
pub open spec fn trimmed(path: Seq<char>) -> Seq<char>
    decreases path.len(),
{
    if path.len() > 0 && path.last() == '/' {
        trimmed(path.drop_last())
    } else if path.len() > 1 && path.last() == '.' && path[path.len() - 2] == '/' {
        trimmed(path.drop_last())
    } else {
        path
    }
}

/// The name of the file a path leads to; the root, the directory itself and its parent
/// have none.
pub open spec fn file_name_of(path: Seq<char>) -> Option<Seq<char>> {
    let name = last_component(trimmed(path));
    if name.len() == 0 || name == seq!['.'] || name == seq!['.', '.'] {
        None
    } else {
        Some(name)
    }
}

/// The directory of the file a path leads to.
pub open spec fn parent_of(path: Seq<char>) -> Seq<char> {
    let rest = trimmed(path);
    let dir = trimmed(rest.take(rest.len() - last_component(rest).len()));
    if dir.len() == 0 && path.len() > 0 && path[0] == '/' {
        seq!['/']
    } else {
        dir
    }
}

/// A name in a directory.
pub open spec fn joined(dir: Seq<char>, name: Seq<char>) -> Seq<char> {
    if dir.len() > 0 && dir.last() != '/' {
        dir.push('/') + name
    } else {
        dir + name
    }
}

/// The path of the temporary file: beside the target, or in it where the path names no
/// file.
pub open spec fn temporary(path: Seq<char>) -> Seq<char> {
    match file_name_of(path) {
        Some(name) => joined(parent_of(path), name + TMP@),
        None => joined(path, TMP@),
    }
}

/// The path of a name in a directory.
pub fn join(dir: &str, name: &str) -> (path: String)
    ensures
        path@ == joined(dir@, name@),
{
    let chars: Vec<char> = text::chars_of(dir);
    let n: usize = chars.len();
    let mut path: String = String::new();
    path.push_str(dir);
    if n > 0 && chars[n - 1] != '/' {
        path.push('/');
    }
    path.push_str(name);
    assert(path@ =~= joined(dir@, name@));
    path
}

/// How much of the first `n` characters is left without what names nothing at the end.
fn trimmed_len(path: &Vec<char>, n: usize) -> (m: usize)
    requires
        n <= path@.len(),
    ensures
        m <= n,
        trimmed(path@.take(n as int)) == path@.take(m as int),
{
    let mut m: usize = n;
    loop
        invariant
            m <= n <= path@.len(),
            trimmed(path@.take(n as int)) == trimmed(path@.take(m as int)),
        ensures
            m <= n,
            trimmed(path@.take(n as int)) == path@.take(m as int),
        decreases m,
    {
        let ghost left = path@.take(m as int);
        if m > 0 && path[m - 1] == '/' {
            assert(left.drop_last() =~= path@.take(m - 1));
            m = m - 1;
        } else if m > 1 && path[m - 1] == '.' && path[m - 2] == '/' {
            assert(left.drop_last() =~= path@.take(m - 1));
            m = m - 1;
        } else {
            break ;
        }
    }
    m
}

/// How long the last component of the first `n` characters is.
fn name_len(path: &Vec<char>, n: usize) -> (k: usize)
    requires
        n <= path@.len(),
    ensures
        k <= n,
        last_component(path@.take(n as int)) == path@.subrange(n - k, n as int),
{
    let mut i: usize = n;
    assert(path@.subrange(n as int, n as int) =~= Seq::<char>::empty());
    assert(last_component(path@.take(n as int)) =~= last_component(path@.take(n as int))
        + path@.subrange(n as int, n as int));
    while i > 0 && path[i - 1] != '/'
        invariant
            i <= n <= path@.len(),
            last_component(path@.take(n as int)) == last_component(path@.take(i as int))
                + path@.subrange(i as int, n as int),
        decreases i,
    {
        proof {
            let left = path@.take(i as int);
            assert(left.drop_last() =~= path@.take(i - 1));
            assert(last_component(left) == last_component(path@.take(i - 1)).push(path@[i - 1]));
            assert(last_component(path@.take(i as int)) + path@.subrange(i as int, n as int)
                =~= last_component(path@.take(i - 1)) + path@.subrange(i - 1, n as int));
        }
        i = i - 1;
    }
    proof {
        assert(last_component(path@.take(i as int)) =~= Seq::<char>::empty());
        assert(Seq::<char>::empty() + path@.subrange(i as int, n as int) =~= path@.subrange(
            i as int,
            n as int,
        ));
    }
    n - i
}

/// Appends a run of characters.
fn push_chars(out: &mut String, chars: &Vec<char>, from: usize, to: usize)
    requires
        from <= to <= chars@.len(),
    ensures
        final(out)@ == old(out)@ + chars@.subrange(from as int, to as int),
{
    let mut i: usize = from;
    assert(chars@.subrange(from as int, from as int) =~= Seq::<char>::empty());
    assert(out@ + Seq::<char>::empty() =~= out@);
    while i < to
        invariant
            from <= i <= to <= chars@.len(),
            out@ == old(out)@ + chars@.subrange(from as int, i as int),
        decreases to - i,
    {
        out.push(chars[i]);
        i = i + 1;
        assert(out@ =~= old(out)@ + chars@.subrange(from as int, i as int));
    }
}

/// The path of a temporary file next to the target: a rename works only within
/// one filesystem.
pub fn tmp_path(path: &str) -> (tmp: String)
    ensures
        tmp@ == temporary(path@),
{
    let chars: Vec<char> = text::chars_of(path);
    let n: usize = chars.len();
    let mut out: String = String::new();
    assert(chars@.take(n as int) =~= path@);
    let end: usize = trimmed_len(&chars, n);
    let k: usize = name_len(&chars, end);
    let begin: usize = end - k;
    let ghost name = chars@.subrange(begin as int, end as int);
    assert(last_component(trimmed(path@)) == name);
    let is_dot: bool = k == 1 && chars[begin] == '.';
    let is_up: bool = k == 2 && chars[begin] == '.' && chars[begin + 1] == '.';
    proof {
        assert(is_dot == (name == seq!['.'])) by {
            if is_dot {
                assert(name =~= seq!['.']);
            } else if name == seq!['.'] {
                assert(name[0] == '.');
            }
        }
        assert(is_up == (name == seq!['.', '.'])) by {
            if is_up {
                assert(name =~= seq!['.', '.']);
            } else if name == seq!['.', '.'] {
                assert(name[0] == '.' && name[1] == '.');
            }
        }
    }
    if k == 0 || is_dot || is_up {
        assert(file_name_of(path@) is None);
        out.push_str(path);
        if n > 0 && chars[n - 1] != '/' {
            out.push('/');
        }
        out.push_str(TMP);
        assert(out@ =~= temporary(path@));
        return out;
    }
    assert(file_name_of(path@) == Some(name));
    let dir: usize = trimmed_len(&chars, begin);
    proof {
        let rest = trimmed(path@);
        assert(rest.take(rest.len() - name.len()) =~= chars@.take(begin as int));
    }
    if dir == 0 {
        if chars[0] == '/' {
            out.push('/');
        }
        assert(out@ =~= parent_of(path@));
    } else {
        push_chars(&mut out, &chars, 0, dir);
        assert(out@ =~= parent_of(path@));
        if chars[dir - 1] != '/' {
            out.push('/');
        }
    }
    push_chars(&mut out, &chars, begin, end);
    out.push_str(TMP);
    assert(out@ =~= temporary(path@));
    out
}

/// A name that an interrupted operation left behind. A name that is nothing but
/// the ending is an ordinary hidden file.
pub open spec fn is_left_behind(name: Seq<char>) -> bool {
    TMP@.is_suffix_of(name) && name.len() > TMP@.len()
}

/// Whether a file of this name is the trace of an interrupted operation: its
/// content is incomplete and nothing addresses it.
pub fn is_temporary(name: &str) -> (yes: bool)
    ensures
        yes == is_left_behind(name@),
{
    text::has_suffix(name, TMP) && text::chars_of(name).len() > text::chars_of(TMP).len()
}

proof fn lemma_last_component_grows(path: Seq<char>, tail: Seq<char>)
    requires
        forall|i: int| 0 <= i < tail.len() ==> tail[i] != '/',
    ensures
        last_component(path + tail) == last_component(path) + tail,
    decreases tail.len(),
{
    if tail.len() == 0 {
        assert(path + tail =~= path);
        assert(last_component(path) + tail =~= last_component(path));
    } else {
        lemma_last_component_grows(path, tail.drop_last());
        assert((path + tail).drop_last() =~= path + tail.drop_last());
        assert((path + tail).last() == tail.last());
        assert(last_component(path + tail) =~= last_component(path) + tail);
    }
}

proof fn lemma_last_component_is_last(path: Seq<char>)
    ensures
        forall|i: int|
            0 <= i < last_component(path).len() ==> #[trigger] last_component(path)[i] != '/',
    decreases path.len(),
{
    if path.len() > 0 && path.last() != '/' {
        let rest = last_component(path.drop_last());
        lemma_last_component_is_last(path.drop_last());
        assert forall|i: int|
            0 <= i < last_component(path).len() implies #[trigger] last_component(path)[i] != '/' by {
            if i < rest.len() {
                assert(last_component(path)[i] == rest[i]);
            }
        }
    }
}

/// The temporary file of a path that leads to a file bears its name, and is recognised
/// as left behind: a cleanup finds what an interrupted replacement leaves.
pub proof fn law_a_temporary_file_is_found_again(path: Seq<char>)
    requires
        file_name_of(path) is Some,
    ensures
        last_component(temporary(path)) == file_name_of(path)->0 + TMP@,
        is_left_behind(last_component(temporary(path))),
{
    reveal_strlit(".tmp");
    let name = file_name_of(path)->0;
    let dir = parent_of(path);
    let base = if dir.len() > 0 && dir.last() != '/' {
        dir.push('/')
    } else {
        dir
    };
    lemma_last_component_is_last(trimmed(path));
    let tail = name + TMP@;
    assert forall|i: int| 0 <= i < tail.len() implies tail[i] != '/' by {
        if i < name.len() {
            assert(tail[i] == name[i]);
        }
    }
    assert(temporary(path) =~= base + tail);
    lemma_last_component_grows(base, tail);
    assert(last_component(base) =~= Seq::<char>::empty());
    assert(last_component(base) + tail =~= tail);
    assert(tail.skip(name.len() as int) =~= TMP@);
    assert(TMP@.is_suffix_of(tail));
}

/// A name joined to a directory lies in it: the path begins with the directory and ends with the
/// name, with one separator in between and none where the directory is empty or ends in one.
pub proof fn law_a_joined_path_leads_into_the_directory(dir: Seq<char>, name: Seq<char>)
    ensures
        joined(dir, name).take(dir.len() as int) == dir,
        joined(dir, name).skip(joined(dir, name).len() - name.len()) == name,
        dir.len() > 0 && dir.last() != '/' ==> {
            &&& joined(dir, name).len() == dir.len() + 1 + name.len()
            &&& joined(dir, name)[dir.len() as int] == '/'
        },
        dir.len() == 0 || dir.last() == '/' ==> joined(dir, name).len() == dir.len() + name.len(),
{
    assert(joined(dir, name).take(dir.len() as int) =~= dir);
    assert(joined(dir, name).skip(joined(dir, name).len() - name.len()) =~= name);
}

/// Different names in one directory are different paths.
pub proof fn law_different_names_are_different_paths(dir: Seq<char>, a: Seq<char>, b: Seq<char>)
    requires
        joined(dir, a) == joined(dir, b),
    ensures
        a == b,
{
    law_a_joined_path_leads_into_the_directory(dir, a);
    law_a_joined_path_leads_into_the_directory(dir, b);
}

proof fn lemma_last_component_of(dir: Seq<char>, name: Seq<char>)
    requires
        forall|i: int| 0 <= i < name.len() ==> (#[trigger] name[i]) != '/',
    ensures
        last_component(dir.push('/') + name) == name,
    decreases name.len(),
{
    let path = dir.push('/') + name;
    if name.len() == 0 {
        assert(path =~= dir.push('/'));
    } else {
        assert(path.drop_last() =~= dir.push('/') + name.drop_last());
        lemma_last_component_of(dir, name.drop_last());
        assert(path.last() == name[name.len() - 1]);
        assert(name.drop_last().push(name.last()) =~= name);
    }
}

/// The temporary file lies beside the one it becomes, under its name and one extension more; what
/// names nothing at the end of the path makes no difference.
pub proof fn law_a_temporary_file_lies_beside_its_target(dir: Seq<char>, name: Seq<char>)
    requires
        dir.len() > 0 && dir.last() != '/',
        !(dir.len() > 1 && dir.last() == '.' && dir[dir.len() - 2] == '/'),
        forall|i: int| 0 <= i < name.len() ==> (#[trigger] name[i]) != '/',
        name.len() > 0 && name != seq!['.'] && name != seq!['.', '.'],
    ensures
        temporary(dir.push('/') + name) == dir.push('/') + name + ".tmp"@,
        temporary((dir.push('/') + name).push('/')) == dir.push('/') + name + ".tmp"@,
        temporary((dir.push('/') + name).push('/').push('.')) == dir.push('/') + name + ".tmp"@,
{
    let path = dir.push('/') + name;
    lemma_last_component_of(dir, name);
    assert(path.last() == name[name.len() - 1]);
    assert(trimmed(path) == path) by {
        if path.last() == '.' {
            if name.len() == 1 {
                assert(name =~= seq!['.']);
            } else {
                assert(path[path.len() - 2] == name[name.len() - 2]);
            }
        }
    }
    assert(path.take(path.len() - name.len()) =~= dir.push('/'));
    assert(dir.push('/').drop_last() =~= dir);
    assert(trimmed(dir) == dir);
    assert(trimmed(dir.push('/')) == dir);
    let slash = path.push('/');
    assert(slash.drop_last() =~= path);
    assert(trimmed(slash) == path);
    let dot = slash.push('.');
    assert(dot.drop_last() =~= slash);
    assert(dot[dot.len() - 2] == '/');
    assert(trimmed(dot) == path);
    assert(slash[0] == path[0] && dot[0] == path[0]);
    assert(dir.push('/') + (name + TMP@) =~= dir.push('/') + name + ".tmp"@);
}

} // verus!
