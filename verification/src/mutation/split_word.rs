//! The split edit: inserting a new boundary inside a token.  Without an
//! override, a token of length at least 8 may be split at any interior
//! position that leaves at least 3 letters on each side; an override can
//! force one exact position or forbid one position for a named token.

use vstd::prelude::*;

use crate::phrase::SPACE;
use crate::types::{has_key, key_index, value_of, Overrides};

verus! {

/// The positions at which a token may be split when no override names
/// the token.
pub open spec fn default_split_ok(t: Seq<u8>, k: int) -> bool {
    t.len() >= 8 && 3 <= k && k + 3 <= t.len()
}

/// The positions at which a token may be split, honoring overrides.
pub open spec fn split_pos_ok(ov: Overrides, t: Seq<u8>, k: int) -> bool {
    if has_key(ov.allow_split@, t) {
        k == value_of(ov.allow_split@, t) as int
    } else if has_key(ov.forbid_split@, t) {
        default_split_ok(t, k) && k != value_of(ov.forbid_split@, t) as int
    } else {
        default_split_ok(t, k)
    }
}

/// `m` arises from `t` by inserting a boundary at a permitted position.
pub open spec fn is_split(ov: Overrides, t: Seq<u8>, m: Seq<u8>) -> bool {
    exists|k: int| split_pos_ok(ov, t, k) && m == #[trigger] t.insert(k, SPACE)
}

/// Inserts one byte at a gap of a token.
pub(crate) fn insert_byte(t: &Vec<u8>, i: usize, c: u8) -> (m: Vec<u8>)
    requires
        i <= t@.len(),
        t@.len() < usize::MAX,
    ensures
        m@ == t@.insert(i as int, c),
{
    let n = t.len();
    let mut m: Vec<u8> = Vec::new();
    let mut k: usize = 0;
    while k < n + 1
        invariant
            n == t.len(),
            n < usize::MAX,
            i <= n,
            k <= n + 1,
            m@ == t@.insert(i as int, c).take(k as int),
        decreases n + 1 - k,
    {
        if k < i {
            m.push(t[k]);
        } else if k == i {
            m.push(c);
        } else {
            m.push(t[k - 1]);
        }
        proof {
            assert(m@ =~= t@.insert(i as int, c).take(k + 1));
        }
        k += 1;
    }
    proof {
        assert(m@ =~= t@.insert(i as int, c));
    }
    m
}

/// All split results for one token, exactly.
pub fn split_word_mutations(t: &Vec<u8>, ov: &Overrides) -> (r: Vec<Vec<u8>>)
    requires
        ov.wf(),
        t@.len() < usize::MAX,
    ensures
        forall|m: Seq<u8>| #[trigger] r.deep_view().contains(m) <==> is_split(*ov, t@, m),
        r@.len() <= t@.len() + 1,
{
    let mut r: Vec<Vec<u8>> = Vec::new();
    if let Some(f) = ov.forced_split(t) {
        proof {
            let ki = key_index(ov.allow_split@, t@);
            assert(0 <= ki < ov.allow_split@.len() && ov.allow_split@[ki].0@ == t@);
            assert(0 < ov.allow_split@[ki].1 < t@.len());
        }
        let m = insert_byte(t, f, SPACE);
        let ghost mv = m@;
        r.push(m);
        proof {
            assert(r.deep_view() =~~= seq![mv]);
            assert forall|m0: Seq<u8>| #[trigger] r.deep_view().contains(m0) implies is_split(
                *ov,
                t@,
                m0,
            ) by {
                assert(m0 == mv);
                assert(split_pos_ok(*ov, t@, f as int));
            }
            assert forall|m0: Seq<u8>| is_split(*ov, t@, m0) implies r.deep_view().contains(
                m0,
            ) by {
                let k = choose|k: int| split_pos_ok(*ov, t@, k) && m0 == #[trigger] t@.insert(
                    k,
                    SPACE,
                );
                assert(k == f as int);
                assert(r.deep_view()[0] == m0);
            }
        }
        return r;
    }
    let n = t.len();
    if n < 8 {
        proof {
            assert(r.deep_view() =~~= Seq::<Seq<u8>>::empty());
            assert forall|m0: Seq<u8>| !is_split(*ov, t@, m0) by {
                if is_split(*ov, t@, m0) {
                    let k = choose|k: int| split_pos_ok(*ov, t@, k) && m0 == #[trigger] t@.insert(
                        k,
                        SPACE,
                    );
                }
            }
        }
        return r;
    }
    let forb = ov.forbidden_split(t);
    let mut k: usize = 3;
    while k <= n - 3
        invariant
            n == t.len(),
            n < usize::MAX,
            n >= 8,
            3 <= k <= n,
            ov.wf(),
            !has_key(ov.allow_split@, t@),
            match forb {
                Some(v) => has_key(ov.forbid_split@, t@) && v == value_of(ov.forbid_split@, t@),
                None => !has_key(ov.forbid_split@, t@),
            },
            forall|j: int|
                0 <= j < r.deep_view().len() ==> is_split(*ov, t@, #[trigger] r.deep_view()[j]),
            forall|k0: int|
                3 <= k0 < k && split_pos_ok(*ov, t@, k0) ==> r.deep_view().contains(
                    #[trigger] t@.insert(k0, SPACE),
                ),
            r@.len() + 3 <= k,
        decreases n - k,
    {
        let skip = match forb {
            Some(v) => v == k,
            None => false,
        };
        if !skip {
            let m = insert_byte(t, k, SPACE);
            let ghost mv = m@;
            let ghost old_dv = r.deep_view();
            r.push(m);
            proof {
                assert(r.deep_view() =~~= old_dv.push(mv));
                assert forall|x: Seq<u8>| old_dv.contains(x) implies r.deep_view().contains(x) by {
                    let j = choose|j: int| 0 <= j < old_dv.len() && old_dv[j] == x;
                    assert(r.deep_view()[j] == x);
                }
                assert(split_pos_ok(*ov, t@, k as int));
                assert(r.deep_view()[old_dv.len() as int] == t@.insert(k as int, SPACE));
                assert(r.deep_view().contains(t@.insert(k as int, SPACE)));
            }
        }
        k += 1;
    }
    proof {
        assert forall|m0: Seq<u8>| is_split(*ov, t@, m0) implies r.deep_view().contains(m0) by {
            let k0 = choose|k0: int| split_pos_ok(*ov, t@, k0) && m0 == #[trigger] t@.insert(
                k0,
                SPACE,
            );
            assert(3 <= k0 && k0 + 3 <= n);
            assert(r.deep_view().contains(t@.insert(k0, SPACE)));
        }
    }
    r
}

} // verus!
