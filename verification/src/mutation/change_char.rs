//! The substitution edit: replacing one letter of a token with a
//! different letter.

use vstd::prelude::*;

use crate::phrase::is_letter;

verus! {

/// `m` arises from `t` by substituting one position with a different
/// letter.
pub open spec fn is_subst(t: Seq<u8>, m: Seq<u8>) -> bool {
    exists|i: int, c: u8|
        0 <= i < t.len() && is_letter(c) && c != t[i] && m == #[trigger] t.update(i, c)
}

/// All substitution results for one token, exactly.
pub fn change_char_mutations(t: &Vec<u8>) -> (r: Vec<Vec<u8>>)
    ensures
        forall|m: Seq<u8>| #[trigger] r.deep_view().contains(m) <==> is_subst(t@, m),
        r@.len() <= 26 * t@.len(),
{
    let mut r: Vec<Vec<u8>> = Vec::new();
    let n = t.len();
    let mut i: usize = 0;
    while i < n
        invariant
            n == t.len(),
            i <= n,
            forall|k: int| 0 <= k < r.deep_view().len() ==> is_subst(t@, #[trigger] r.deep_view()[k]),
            forall|i0: int, c0: u8|
                0 <= i0 < i && is_letter(c0) && c0 != t@[i0] ==> r.deep_view().contains(
                    #[trigger] t@.update(i0, c0),
                ),
            r@.len() <= 26 * i,
        decreases n - i,
    {
        let mut c: u8 = 97;
        while c <= 122
            invariant
                n == t.len(),
                i < n,
                97 <= c <= 123,
                forall|k: int|
                    0 <= k < r.deep_view().len() ==> is_subst(t@, #[trigger] r.deep_view()[k]),
                forall|i0: int, c0: u8|
                    0 <= i0 < i && is_letter(c0) && c0 != t@[i0] ==> r.deep_view().contains(
                        #[trigger] t@.update(i0, c0),
                    ),
                forall|c0: u8|
                    97 <= c0 < c && c0 != t@[i as int] ==> r.deep_view().contains(
                        #[trigger] t@.update(i as int, c0),
                    ),
                r@.len() <= 26 * i + (c - 97),
            decreases 123 - c,
        {
            if c != t[i] {
                let mut m: Vec<u8> = Vec::new();
                let mut k: usize = 0;
                while k < n
                    invariant
                        n == t.len(),
                        i < n,
                        k <= n,
                        m@ == t@.update(i as int, c).take(k as int),
                    decreases n - k,
                {
                    if k == i {
                        m.push(c);
                    } else {
                        m.push(t[k]);
                    }
                    proof {
                        assert(m@ =~= t@.update(i as int, c).take(k + 1));
                    }
                    k += 1;
                }
                proof {
                    assert(m@ =~= t@.update(i as int, c));
                }
                let ghost old_dv = r.deep_view();
                r.push(m);
                proof {
                    assert(r.deep_view() =~~= old_dv.push(t@.update(i as int, c)));
                    assert forall|x: Seq<u8>| old_dv.contains(x) implies r.deep_view().contains(
                        x,
                    ) by {
                        let j = choose|j: int| 0 <= j < old_dv.len() && old_dv[j] == x;
                        assert(r.deep_view()[j] == x);
                    }
                    assert(r.deep_view()[old_dv.len() as int] == t@.update(i as int, c));
                    assert(r.deep_view().contains(t@.update(i as int, c)));
                }
            }
            c += 1;
        }
        i += 1;
    }
    proof {
        assert forall|m: Seq<u8>| #[trigger] r.deep_view().contains(m) implies is_subst(
            t@,
            m,
        ) by {
            let k = choose|k: int| 0 <= k < r.deep_view().len() && r.deep_view()[k] == m;
        }
        assert forall|m: Seq<u8>| is_subst(t@, m) implies r.deep_view().contains(m) by {
            let (i0, c0): (int, u8) = choose|i0: int, c0: u8|
                0 <= i0 < t@.len() && is_letter(c0) && c0 != t@[i0] && m == #[trigger] t@.update(
                    i0,
                    c0,
                );
            assert(r.deep_view().contains(t@.update(i0, c0)));
        }
    }
    r
}

} // verus!
