//! Strictly increasing sequences of frame indices, used as the per-order free index.
use vstd::prelude::*;

verus! {

/// The sequence is strictly increasing, so it holds each index at most once.
pub open spec fn strictly_sorted(s: Seq<usize>) -> bool {
    forall|i: int, j: int| 0 <= i < j < s.len() ==> s[i] < s[j]
}

/// Inserts `x` at its place in a strictly increasing vector.
pub fn sorted_insert(v: &mut Vec<usize>, x: usize)
    requires
        strictly_sorted(old(v)@),
        !old(v)@.contains(x),
    ensures
        strictly_sorted(final(v)@),
        forall|y: usize| #[trigger] final(v)@.contains(y) <==> (old(v)@.contains(y) || y == x),
{
    let mut pos: usize = 0;
    while pos < v.len() && v[pos] < x
        invariant
            pos <= v@.len(),
            forall|i: int| 0 <= i < pos ==> v@[i] < x,
        decreases v@.len() - pos,
    {
        pos = pos + 1;
    }
    proof {
        assert forall|i: int| pos <= i < v@.len() implies v@[i] > x by {
            if v@[i] == x {
                assert(v@.contains(x));
            }
            if i > pos {
                assert(v@[pos as int] < v@[i]);
            }
        }
    }
    let ghost before = v@;
    v.insert(pos, x);
    proof {
        assert forall|y: usize| v@.contains(y) <==> (before.contains(y) || y == x) by {
            if v@.contains(y) {
                let k = choose|k: int| 0 <= k < v@.len() && v@[k] == y;
                if k < pos {
                    assert(before[k] == y);
                } else if k > pos {
                    assert(before[k - 1] == y);
                }
            }
            if before.contains(y) {
                let k = choose|k: int| 0 <= k < before.len() && before[k] == y;
                if k < pos {
                    assert(v@[k] == y);
                } else {
                    assert(v@[k + 1] == y);
                }
            }
            if y == x {
                assert(v@[pos as int] == x);
            }
        }
    }
}

/// Removes `x` from a strictly increasing vector that holds it.
pub fn sorted_remove(v: &mut Vec<usize>, x: usize)
    requires
        strictly_sorted(old(v)@),
        old(v)@.contains(x),
    ensures
        strictly_sorted(final(v)@),
        forall|y: usize| #[trigger] final(v)@.contains(y) <==> (old(v)@.contains(y) && y != x),
{
    let mut pos: usize = 0;
    while pos < v.len() && v[pos] != x
        invariant
            pos <= v@.len(),
            forall|i: int| 0 <= i < pos ==> v@[i] != x,
        decreases v@.len() - pos,
    {
        pos = pos + 1;
    }
    proof {
        if pos == v@.len() {
            let k = choose|k: int| 0 <= k < v@.len() && v@[k] == x;
            assert(v@[k] != x);
        }
    }
    let ghost before = v@;
    v.remove(pos);
    proof {
        assert forall|y: usize| v@.contains(y) <==> (before.contains(y) && y != x) by {
            if v@.contains(y) {
                let k = choose|k: int| 0 <= k < v@.len() && v@[k] == y;
                if k < pos {
                    assert(before[k] == y);
                    assert(before[k] < before[pos as int]);
                } else {
                    assert(before[k + 1] == y);
                    assert(before[pos as int] < before[k + 1]);
                }
            }
            if before.contains(y) && y != x {
                let k = choose|k: int| 0 <= k < before.len() && before[k] == y;
                if k < pos {
                    assert(v@[k] == y);
                } else {
                    assert(k != pos);
                    assert(v@[k - 1] == y);
                }
            }
        }
    }
}

} // verus!
