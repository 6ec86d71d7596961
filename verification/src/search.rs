//! The first index at which something holds.

use vstd::prelude::*;

verus! {

/// The first index from `i` on, below `n`, at which `p` holds; `n` where there
/// is none.
pub open spec fn first_at(p: spec_fn(int) -> bool, i: int, n: int) -> int
    decreases n - i,
{
    if i >= n {
        n
    } else if p(i) {
        i
    } else {
        first_at(p, i + 1, n)
    }
}

/// What [`first_at`] finds: nothing before it holds, and it holds itself unless
/// the range ran out.
pub proof fn lemma_first_at(p: spec_fn(int) -> bool, i: int, n: int)
    requires
        i <= n,
    ensures
        i <= first_at(p, i, n) <= n,
        first_at(p, i, n) < n ==> p(first_at(p, i, n)),
        forall|k: int| i <= k < first_at(p, i, n) ==> !#[trigger] p(k),
    decreases n - i,
{
    if i < n && !p(i) {
        lemma_first_at(p, i + 1, n);
    }
}

/// An index with nothing before it is the first one.
pub proof fn lemma_first_is(p: spec_fn(int) -> bool, i: int, n: int, k: int)
    requires
        i <= k <= n,
        k < n ==> p(k),
        forall|j: int| i <= j < k ==> !#[trigger] p(j),
    ensures
        first_at(p, i, n) == k,
    decreases n - i,
{
    if i < k {
        assert(!p(i));
        lemma_first_is(p, i + 1, n, k);
    }
}

/// Where halving a list between two indices finds a key.
pub open spec fn halved(keys: Seq<u32>, want: u32, lo: int, hi: int) -> Option<int>
    decreases hi - lo,
{
    if lo >= hi {
        None
    } else {
        let mid = lo + (hi - lo) / 2;
        if keys[mid] == want {
            Some(mid)
        } else if keys[mid] < want {
            halved(keys, want, mid + 1, hi)
        } else {
            halved(keys, want, lo, mid)
        }
    }
}

/// A list holds a key at an index.
pub open spec fn is_key(keys: Seq<u32>, want: u32) -> spec_fn(int) -> bool {
    |i: int| keys[i] == want
}

/// Where a key is found: by halving the list, or else by walking over it.
pub open spec fn looked_up(keys: Seq<u32>, want: u32) -> Option<int> {
    match halved(keys, want, 0, keys.len() as int) {
        Some(k) => Some(k),
        None => {
            let k = first_at(is_key(keys, want), 0, keys.len() as int);
            if k < keys.len() {
                Some(k)
            } else {
                None
            }
        },
    }
}

proof fn lemma_halved(keys: Seq<u32>, want: u32, lo: int, hi: int)
    requires
        0 <= lo <= hi <= keys.len(),
    ensures
        halved(keys, want, lo, hi) matches Some(k) ==> lo <= k < hi && keys[k] == want,
    decreases hi - lo,
{
    if lo < hi {
        let mid = lo + (hi - lo) / 2;
        if keys[mid] < want {
            lemma_halved(keys, want, mid + 1, hi);
        } else if keys[mid] != want {
            lemma_halved(keys, want, lo, mid);
        }
    }
}

/// A key is found if and only if it is there.
pub proof fn lemma_looked_up(keys: Seq<u32>, want: u32)
    ensures
        match looked_up(keys, want) {
            Some(k) => 0 <= k < keys.len() && keys[k] == want,
            None => forall|i: int| 0 <= i < keys.len() ==> #[trigger] keys[i] != want,
        },
{
    lemma_halved(keys, want, 0, keys.len() as int);
    lemma_first_at(is_key(keys, want), 0, keys.len() as int);
    if looked_up(keys, want) is None {
        assert forall|i: int| 0 <= i < keys.len() implies #[trigger] keys[i] != want by {
            assert(!is_key(keys, want)(i));
        }
    }
}

} // verus!
