//! The deletion edit: removing one position of a token that keeps at
//! least one letter.

use vstd::prelude::*;

verus! {

/// `m` arises from `t` by deleting one position.  A single-letter token
/// has no deletions: its removal would leave an empty token.
pub open spec fn is_delete(t: Seq<u8>, m: Seq<u8>) -> bool {
    t.len() >= 2 && exists|i: int| 0 <= i < t.len() && m == #[trigger] t.remove(i)
}

/// All deletion results for one token, exactly.
pub fn remove_char_mutations(t: &Vec<u8>) -> (r: Vec<Vec<u8>>)
    ensures
        forall|m: Seq<u8>| #[trigger] r.deep_view().contains(m) <==> is_delete(t@, m),
        r@.len() <= t@.len(),
{
    let mut r: Vec<Vec<u8>> = Vec::new();
    let n = t.len();
    if n < 2 {
        proof {
            assert(r.deep_view() =~~= Seq::<Seq<u8>>::empty());
        }
        return r;
    }
    let mut i: usize = 0;
    while i < n
        invariant
            n == t.len(),
            n >= 2,
            i <= n,
            forall|k: int|
                0 <= k < r.deep_view().len() ==> is_delete(t@, #[trigger] r.deep_view()[k]),
            forall|i0: int| 0 <= i0 < i ==> r.deep_view().contains(#[trigger] t@.remove(i0)),
            r@.len() == i,
        decreases n - i,
    {
        let mut m: Vec<u8> = Vec::new();
        let mut k: usize = 0;
        while k < n
            invariant
                n == t.len(),
                i < n,
                k <= n,
                m@ == if k <= i {
                    t@.take(k as int)
                } else {
                    t@.remove(i as int).take(k - 1)
                },
            decreases n - k,
        {
            if k != i {
                m.push(t[k]);
            }
            proof {
                if k < i {
                    assert(m@ =~= t@.take(k + 1));
                } else if k == i {
                    assert(m@ =~= t@.remove(i as int).take(k as int));
                } else {
                    assert(t@.remove(i as int)[k - 1] == t@[k as int]);
                    assert(m@ =~= t@.remove(i as int).take(k as int));
                }
            }
            k += 1;
        }
        proof {
            assert(m@ =~= t@.remove(i as int));
        }
        let ghost old_dv = r.deep_view();
        r.push(m);
        proof {
            assert(r.deep_view() =~~= old_dv.push(t@.remove(i as int)));
            assert forall|x: Seq<u8>| old_dv.contains(x) implies r.deep_view().contains(x) by {
                let j = choose|j: int| 0 <= j < old_dv.len() && old_dv[j] == x;
                assert(r.deep_view()[j] == x);
            }
            assert(r.deep_view()[old_dv.len() as int] == t@.remove(i as int));
            assert(r.deep_view().contains(t@.remove(i as int)));
        }
        i += 1;
    }
    proof {
        assert forall|m: Seq<u8>| #[trigger] r.deep_view().contains(m) implies is_delete(
            t@,
            m,
        ) by {
            let k = choose|k: int| 0 <= k < r.deep_view().len() && r.deep_view()[k] == m;
        }
        assert forall|m: Seq<u8>| is_delete(t@, m) implies r.deep_view().contains(m) by {
            let i0 = choose|i0: int| 0 <= i0 < t@.len() && m == #[trigger] t@.remove(i0);
            assert(r.deep_view().contains(t@.remove(i0)));
        }
    }
    r
}

} // verus!
