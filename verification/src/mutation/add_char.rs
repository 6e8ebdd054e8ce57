//! The insertion edit: inserting one letter at any gap of a token,
//! including both ends.

use vstd::prelude::*;

use crate::phrase::is_letter;

verus! {

/// `m` arises from `t` by inserting one letter at one gap.
pub open spec fn is_insert(t: Seq<u8>, m: Seq<u8>) -> bool {
    exists|i: int, c: u8| 0 <= i <= t.len() && is_letter(c) && m == #[trigger] t.insert(i, c)
}

/// All insertion results for one token, exactly.
pub fn add_char_mutations(t: &Vec<u8>) -> (r: Vec<Vec<u8>>)
    requires
        t@.len() < usize::MAX,
    ensures
        forall|m: Seq<u8>| #[trigger] r.deep_view().contains(m) <==> is_insert(t@, m),
        r@.len() == 26 * (t@.len() + 1),
{
    let mut r: Vec<Vec<u8>> = Vec::new();
    let n = t.len();
    let mut i: usize = 0;
    while i <= n
        invariant
            n == t.len(),
            n < usize::MAX,
            i <= n + 1,
            forall|k: int|
                0 <= k < r.deep_view().len() ==> is_insert(t@, #[trigger] r.deep_view()[k]),
            forall|i0: int, c0: u8|
                0 <= i0 < i && is_letter(c0) ==> r.deep_view().contains(#[trigger] t@.insert(
                    i0,
                    c0,
                )),
            r@.len() == 26 * i,
        decreases n + 1 - i,
    {
        let mut c: u8 = 97;
        while c <= 122
            invariant
                n == t.len(),
                n < usize::MAX,
                i <= n,
                97 <= c <= 123,
                forall|k: int|
                    0 <= k < r.deep_view().len() ==> is_insert(t@, #[trigger] r.deep_view()[k]),
                forall|i0: int, c0: u8|
                    0 <= i0 < i && is_letter(c0) ==> r.deep_view().contains(#[trigger] t@.insert(
                        i0,
                        c0,
                    )),
                forall|c0: u8|
                    97 <= c0 < c ==> r.deep_view().contains(#[trigger] t@.insert(i as int, c0)),
                r@.len() == 26 * i + (c - 97),
            decreases 123 - c,
        {
            let mut m: Vec<u8> = Vec::new();
            let mut k: usize = 0;
            while k < n + 1
                invariant
                    n == t.len(),
                    n < usize::MAX,
                    i <= n,
                    k <= n + 1,
                    m@ == t@.insert(i as int, c).take(k as int),
                decreases n + 1 - k,
            {
                if k < i {
                    m.push(t[k]);
                } else if k == i {
                    m.push(c);
                } else {
                    m.push(t[k - 1]);
                }
                proof {
                    assert(m@ =~= t@.insert(i as int, c).take(k + 1));
                }
                k += 1;
            }
            proof {
                assert(m@ =~= t@.insert(i as int, c));
            }
            let ghost old_dv = r.deep_view();
            r.push(m);
            proof {
                assert(r.deep_view() =~~= old_dv.push(t@.insert(i as int, c)));
                assert forall|x: Seq<u8>| old_dv.contains(x) implies r.deep_view().contains(x) by {
                    let j = choose|j: int| 0 <= j < old_dv.len() && old_dv[j] == x;
                    assert(r.deep_view()[j] == x);
                }
                assert(r.deep_view()[old_dv.len() as int] == t@.insert(i as int, c));
                assert(r.deep_view().contains(t@.insert(i as int, c)));
            }
            c += 1;
        }
        i += 1;
    }
    proof {
        assert forall|m: Seq<u8>| #[trigger] r.deep_view().contains(m) implies is_insert(
            t@,
            m,
        ) by {
            let k = choose|k: int| 0 <= k < r.deep_view().len() && r.deep_view()[k] == m;
        }
        assert forall|m: Seq<u8>| is_insert(t@, m) implies r.deep_view().contains(m) by {
            let (i0, c0): (int, u8) = choose|i0: int, c0: u8|
                0 <= i0 <= t@.len() && is_letter(c0) && m == #[trigger] t@.insert(i0, c0);
            assert(r.deep_view().contains(t@.insert(i0, c0)));
        }
    }
    r
}

} // verus!
