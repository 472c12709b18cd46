//! Searching byte strings for markers.
use vstd::prelude::*;

verus! {

/// `p` stands in `s` starting at position `i`.
pub open spec fn occurs_at(s: Seq<u8>, p: Seq<u8>, i: int) -> bool {
    0 <= i && i + p.len() <= s.len() && s.subrange(i, i + p.len()) == p
}

/// `i` is the leftmost position at which `p` stands in `s`.
pub open spec fn is_first_occurrence(s: Seq<u8>, p: Seq<u8>, i: int) -> bool {
    occurs_at(s, p, i) && forall|k: int| 0 <= k < i ==> !occurs_at(s, p, k)
}

/// The leftmost position of `p` in `s`, or `-1` when `p` does not occur.
pub open spec fn first_occurrence(s: Seq<u8>, p: Seq<u8>) -> int {
    if exists|i: int| is_first_occurrence(s, p, i) {
        choose|i: int| is_first_occurrence(s, p, i)
    } else {
        -1
    }
}

/// Whether the bytes of `s` in `[at, at + p.len())` are those of `p`.
fn matches_at(s: &[u8], p: &[u8], at: usize) -> (r: bool)
    requires
        at + p@.len() <= s@.len(),
    ensures
        r == occurs_at(s@, p@, at as int),
{
    let n = s.len();
    let mut k: usize = 0;
    while k < p.len()
        invariant
            n == s@.len(),
            at + p@.len() <= s@.len(),
            0 <= k <= p@.len(),
            forall|j: int| 0 <= j < k ==> s@[at + j] == p@[j],
        decreases p@.len() - k,
    {
        if s[at + k] != p[k] {
            assert(s@.subrange(at as int, at + p@.len())[k as int] != p@[k as int]);
            return false;
        }
        k = k + 1;
    }
    assert(s@.subrange(at as int, at + p@.len()) =~= p@);
    true
}

/// The leftmost position of `p` within `s[lo..hi]`, counted from the start of `s`.
pub fn find_in(s: &[u8], p: &[u8], lo: usize, hi: usize) -> (r: Option<usize>)
    requires
        lo <= hi <= s@.len(),
    ensures
        match r {
            Some(i) => lo <= i && i - lo == first_occurrence(s@.subrange(lo as int, hi as int), p@),
            None => first_occurrence(s@.subrange(lo as int, hi as int), p@) == -1,
        },
{
    let ghost sub = s@.subrange(lo as int, hi as int);
    let n = s.len();
    let m = p.len();
    if m > hi - lo {
        assert(!exists|c: int| is_first_occurrence(sub, p@, c));
        return None;
    }
    if m == 0 {
        assert(sub.subrange(0, 0) =~= p@);
        assert(is_first_occurrence(sub, p@, 0));
        let ghost c = choose|c: int| is_first_occurrence(sub, p@, c);
        assert(c == 0) by {
            if c > 0 {
                assert(!occurs_at(sub, p@, 0));
            }
        }
        return Some(lo);
    }
    let end = hi - m + 1;
    let mut i: usize = lo;
    while i < end
        invariant
            n == s@.len(),
            m == p@.len(),
            m > 0,
            lo <= i <= end,
            end + m == hi + 1,
            hi <= n,
            sub == s@.subrange(lo as int, hi as int),
            forall|k: int| 0 <= k < i - lo ==> !occurs_at(sub, p@, k),
        decreases end - i,
    {
        let hit = matches_at(s, p, i);
        assert(sub.subrange(i - lo, i - lo + m) =~= s@.subrange(i as int, i + m));
        if hit {
            let ghost j = i - lo;
            assert(is_first_occurrence(sub, p@, j));
            let ghost c = choose|c: int| is_first_occurrence(sub, p@, c);
            assert(c == j) by {
                if c < j {
                    assert(!occurs_at(sub, p@, c));
                } else if c > j {
                    assert(!occurs_at(sub, p@, j));
                }
            }
            return Some(i);
        }
        i = i + 1;
    }
    assert(forall|k: int| 0 <= k ==> !occurs_at(sub, p@, k));
    assert(!exists|c: int| is_first_occurrence(sub, p@, c));
    None
}

} // verus!
