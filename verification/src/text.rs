//! Case-sensitive substring containment, the matching rule of the word query.

use vstd::prelude::*;

verus! {

/// The pattern `p` occurs in `t` starting at position `i`.
pub open spec fn match_at(t: Seq<char>, p: Seq<char>, i: int) -> bool {
    0 <= i && i + p.len() <= t.len() && t.subrange(i, i + p.len()) == p
}

/// The pattern `p` occurs somewhere in `t`. An empty pattern occurs in
/// every text.
pub open spec fn contains_sub(t: Seq<char>, p: Seq<char>) -> bool {
    exists|i: int| match_at(t, p, i)
}

/// Whether `p` occurs in `t` starting at position `i`.
fn match_here(t: &str, p: &str, i: usize, tl: usize, pl: usize) -> (r: bool)
    requires
        tl == t@.len(),
        pl == p@.len(),
        i + pl <= tl,
    ensures
        r == match_at(t@, p@, i as int),
{
    let mut j: usize = 0;
    while j < pl
        invariant
            tl == t@.len(),
            pl == p@.len(),
            i + pl <= tl,
            j <= pl,
            forall|k: int| 0 <= k < j ==> t@[i + k] == p@[k],
        decreases pl - j,
    {
        if t.get_char(i + j) != p.get_char(j) {
            assert(!match_at(t@, p@, i as int)) by {
                if t@.subrange(i as int, i + pl) == p@ {
                    assert(t@.subrange(i as int, i + pl)[j as int] == t@[i + j]);
                }
            }
            return false;
        }
        j += 1;
    }
    assert(t@.subrange(i as int, i + pl) =~= p@);
    true
}

/// Case-sensitive substring test: does `p` occur in `t`?
pub fn contains_str(t: &str, p: &str) -> (r: bool)
    ensures
        r == contains_sub(t@, p@),
{
    let tl = t.unicode_len();
    let pl = p.unicode_len();
    if pl > tl {
        assert(forall|i: int| !match_at(t@, p@, i));
        return false;
    }
    if pl == 0 {
        assert(t@.subrange(0, 0) =~= p@);
        assert(match_at(t@, p@, 0));
        return true;
    }
    let mut i: usize = 0;
    while i <= tl - pl
        invariant
            tl == t@.len(),
            pl == p@.len(),
            0 < pl <= tl,
            i <= tl - pl + 1,
            forall|k: int| 0 <= k < i ==> !match_at(t@, p@, k),
        decreases tl - pl + 1 - i,
    {
        if match_here(t, p, i, tl, pl) {
            return true;
        }
        i += 1;
    }
    assert(forall|k: int| !match_at(t@, p@, k));
    false
}

} // verus!
