//! Single-edit neighbors of a whole phrase: per-token edits (with
//! literal-list overrides), boundary deletions that merge two tokens,
//! and boundary substitutions that merge two tokens around a new letter.

use vstd::prelude::*;

use crate::mutation::add_char::{add_char_mutations, is_insert};
use crate::mutation::change_char::{change_char_mutations, is_subst};
use crate::mutation::remove_char::{is_delete, remove_char_mutations};
use crate::mutation::split_word::{is_split, split_word_mutations};
use crate::phrase::{clone_bytes, is_letter, join, lemma_tokens_lens, spec_contains_bytes, tokenize, tokens, SPACE};
use crate::types::{has_key, value_of, Overrides};

verus! {

/// All single-edit results for one token: the literal override list if
/// one is named, else every substitution, insertion, deletion and split.
pub open spec fn is_token_mutation(ov: Overrides, t: Seq<u8>, m: Seq<u8>) -> bool {
    if has_key(ov.literal_mutations@, t) {
        spec_contains_bytes(value_of(ov.literal_mutations@, t)@, m)
    } else {
        is_subst(t, m) || is_insert(t, m) || is_delete(t, m) || is_split(ov, t, m)
    }
}

proof fn lemma_concat_contains(a: Seq<Seq<u8>>, b: Seq<Seq<u8>>)
    ensures
        forall|x: Seq<u8>| #[trigger] (a + b).contains(x) <==> a.contains(x) || b.contains(x),
{
    assert forall|x: Seq<u8>| #[trigger] (a + b).contains(x) implies a.contains(x) || b.contains(
        x,
    ) by {
        let i = choose|i: int| 0 <= i < (a + b).len() && (a + b)[i] == x;
        if i < a.len() {
            assert(a[i] == x);
        } else {
            assert(b[i - a.len()] == x);
        }
    }
    assert forall|x: Seq<u8>| a.contains(x) || b.contains(x) implies #[trigger] (a + b).contains(
        x,
    ) by {
        if a.contains(x) {
            let i = choose|i: int| 0 <= i < a.len() && a[i] == x;
            assert((a + b)[i] == x);
        } else {
            let i = choose|i: int| 0 <= i < b.len() && b[i] == x;
            assert((a + b)[a.len() + i] == x);
        }
    }
}

/// Computes the complete single-edit mutation list for one token.
pub fn token_mutations(t: &Vec<u8>, ov: &Overrides) -> (r: Vec<Vec<u8>>)
    requires
        ov.wf(),
        t@.len() < usize::MAX,
    ensures
        forall|m: Seq<u8>| #[trigger] r.deep_view().contains(m) <==> is_token_mutation(
            *ov,
            t@,
            m,
        ),
        !has_key(ov.literal_mutations@, t@) ==> r@.len() <= 54 * t@.len() + 27,
{
    if let Some(li) = ov.literal_index(t) {
        let list = &ov.literal_mutations[li].1;
        let mut r: Vec<Vec<u8>> = Vec::new();
        let n = list.len();
        let mut i: usize = 0;
        while i < n
            invariant
                n == list.len(),
                i <= n,
                r.deep_view() == list.deep_view().take(i as int),
            decreases n - i,
        {
            let cb = clone_bytes(&list[i]);
            let ghost cbv = cb@;
            let ghost old_dv = r.deep_view();
            r.push(cb);
            proof {
                assert(cbv =~= list.deep_view()[i as int]);
                assert(r.deep_view() =~~= old_dv.push(cbv));
                assert(r.deep_view() =~~= list.deep_view().take(i + 1));
            }
            i += 1;
        }
        proof {
            assert(r.deep_view() =~~= list.deep_view());
            assert forall|m: Seq<u8>| #[trigger] r.deep_view().contains(m) implies
                spec_contains_bytes(list@, m) by {
                let j = choose|j: int| 0 <= j < r.deep_view().len() && r.deep_view()[j] == m;
                assert(list@[j]@ == m);
            }
            assert forall|m: Seq<u8>| spec_contains_bytes(list@, m) implies
                r.deep_view().contains(m) by {
                let j = choose|j: int| 0 <= j < list@.len() && list@[j]@ == m;
                assert(r.deep_view()[j] == m);
            }
        }
        return r;
    }
    let mut r = change_char_mutations(t);
    let mut a = add_char_mutations(t);
    let mut d = remove_char_mutations(t);
    let mut s = split_word_mutations(t, ov);
    let ghost cv = r.deep_view();
    let ghost av = a.deep_view();
    let ghost dv = d.deep_view();
    let ghost sv = s.deep_view();
    r.append(&mut a);
    proof {
        assert(r.deep_view() =~~= cv + av);
        lemma_concat_contains(cv, av);
    }
    let ghost r1 = r.deep_view();
    r.append(&mut d);
    proof {
        assert(r.deep_view() =~~= r1 + dv);
        lemma_concat_contains(r1, dv);
    }
    let ghost r2 = r.deep_view();
    r.append(&mut s);
    proof {
        assert(r.deep_view() =~~= r2 + sv);
        lemma_concat_contains(r2, sv);
    }
    r
}

/// The token sequence after merging tokens `j` and `j + 1` around the
/// bytes `mid`.
pub open spec fn merge_at(ts: Seq<Seq<u8>>, j: int, mid: Seq<u8>) -> Seq<Seq<u8>> {
    ts.take(j) + seq![ts[j] + mid + ts[j + 1]] + ts.skip(j + 2)
}

/// `q` arises from `p` by one edit: a mutation of one token, the
/// deletion of one boundary, or the substitution of one boundary by a
/// letter.
pub open spec fn is_neighbor(ov: Overrides, p: Seq<u8>, q: Seq<u8>) -> bool {
    let ts = tokens(p);
    ||| exists|j: int, m: Seq<u8>|
        0 <= j < ts.len() && is_token_mutation(ov, ts[j], m) && q == join(
            #[trigger] ts.update(j, m),
        )
    ||| exists|j: int|
        0 <= j < ts.len() - 1 && q == join(#[trigger] merge_at(ts, j, Seq::<u8>::empty()))
    ||| exists|j: int, c: u8|
        0 <= j < ts.len() - 1 && is_letter(c) && q == join(#[trigger] merge_at(ts, j, seq![c]))
}

fn extend_bytes(dst: &mut Vec<u8>, src: &Vec<u8>)
    ensures
        final(dst)@ == old(dst)@ + src@,
{
    let n = src.len();
    let mut i: usize = 0;
    while i < n
        invariant
            n == src.len(),
            i <= n,
            dst@ == old(dst)@ + src@.take(i as int),
        decreases n - i,
    {
        dst.push(src[i]);
        proof {
            assert(old(dst)@ + src@.take(i + 1) =~= (old(dst)@ + src@.take(i as int)).push(
                src@[i as int],
            ));
        }
        i += 1;
    }
    proof {
        assert(old(dst)@ + src@.take(n as int) =~= old(dst)@ + src@);
    }
}

fn join_with_replacement(ts: &Vec<Vec<u8>>, j: usize, m: &Vec<u8>) -> (r: Vec<u8>)
    requires
        j < ts.len(),
    ensures
        r@ == join(ts.deep_view().update(j as int, m@)),
{
    let mut ts2: Vec<Vec<u8>> = Vec::new();
    let n = ts.len();
    let mut k: usize = 0;
    while k < n
        invariant
            n == ts.len(),
            j < n,
            k <= n,
            ts2.deep_view() == ts.deep_view().update(j as int, m@).take(k as int),
        decreases n - k,
    {
        let ghost old_dv = ts2.deep_view();
        if k == j {
            let cb = clone_bytes(m);
            let ghost cbv = cb@;
            ts2.push(cb);
            proof {
                assert(ts2.deep_view() =~~= old_dv.push(cbv));
            }
        } else {
            let cb = clone_bytes(&ts[k]);
            let ghost cbv = cb@;
            ts2.push(cb);
            proof {
                assert(cbv =~= ts.deep_view()[k as int]);
                assert(ts2.deep_view() =~~= old_dv.push(cbv));
            }
        }
        proof {
            assert(ts2.deep_view() =~~= ts.deep_view().update(j as int, m@).take(k + 1));
        }
        k += 1;
    }
    proof {
        assert(ts2.deep_view() =~~= ts.deep_view().update(j as int, m@));
    }
    crate::phrase::join_tokens(&ts2)
}

fn join_with_merge(ts: &Vec<Vec<u8>>, j: usize, mid: &Vec<u8>) -> (r: Vec<u8>)
    requires
        j + 1 < ts.len(),
    ensures
        r@ == join(merge_at(ts.deep_view(), j as int, mid@)),
{
    let ghost target = merge_at(ts.deep_view(), j as int, mid@);
    let mut ts2: Vec<Vec<u8>> = Vec::new();
    let n = ts.len();
    let mut k: usize = 0;
    while k < j
        invariant
            n == ts.len(),
            j + 1 < n,
            k <= j,
            ts2.deep_view() == ts.deep_view().take(k as int),
        decreases j - k,
    {
        let cb = clone_bytes(&ts[k]);
        let ghost cbv = cb@;
        let ghost old_dv = ts2.deep_view();
        ts2.push(cb);
        proof {
            assert(cbv =~= ts.deep_view()[k as int]);
            assert(ts2.deep_view() =~~= old_dv.push(cbv));
            assert(ts2.deep_view() =~~= ts.deep_view().take(k + 1));
        }
        k += 1;
    }
    let mut merged = clone_bytes(&ts[j]);
    extend_bytes(&mut merged, mid);
    extend_bytes(&mut merged, &ts[j + 1]);
    let ghost mergedv = merged@;
    let ghost pre_dv = ts2.deep_view();
    ts2.push(merged);
    proof {
        assert(mergedv =~= ts.deep_view()[j as int] + mid@ + ts.deep_view()[j + 1]);
        assert(ts2.deep_view() =~~= pre_dv.push(mergedv));
        assert(ts.deep_view().subrange(j + 2, j + 2) =~~= Seq::<Seq<u8>>::empty());
        assert(ts2.deep_view() =~~= ts.deep_view().take(j as int) + seq![
            ts.deep_view()[j as int] + mid@ + ts.deep_view()[j + 1],
        ] + ts.deep_view().subrange(j + 2, j + 2));
    }
    let mut k2: usize = j + 2;
    while k2 < n
        invariant
            n == ts.len(),
            j + 1 < n,
            j + 2 <= k2 <= n,
            ts2.deep_view() == ts.deep_view().take(j as int) + seq![
                ts.deep_view()[j as int] + mid@ + ts.deep_view()[j + 1],
            ] + ts.deep_view().subrange(j + 2, k2 as int),
        decreases n - k2,
    {
        let cb = clone_bytes(&ts[k2]);
        let ghost cbv = cb@;
        let ghost old_dv = ts2.deep_view();
        ts2.push(cb);
        proof {
            assert(cbv =~= ts.deep_view()[k2 as int]);
            assert(ts2.deep_view() =~~= old_dv.push(cbv));
            assert(ts2.deep_view() =~~= ts.deep_view().take(j as int) + seq![
                ts.deep_view()[j as int] + mid@ + ts.deep_view()[j + 1],
            ] + ts.deep_view().subrange(j + 2, k2 + 1));
        }
        k2 += 1;
    }
    proof {
        assert(ts.deep_view().subrange(j + 2, n as int) =~~= ts.deep_view().skip(j + 2));
        assert(ts2.deep_view() =~~= target);
    }
    crate::phrase::join_tokens(&ts2)
}

/// Computes the complete single-edit neighbor list of a phrase.
pub fn phrase_neighbors(
    p: &Vec<u8>,
    ov: &Overrides,
    cache: Option<&crate::cache::TokenCache>,
) -> (r: Vec<Vec<u8>>)
    requires
        ov.wf(),
        p@.len() < usize::MAX,
    ensures
        forall|q: Seq<u8>| #[trigger] r.deep_view().contains(q) <==> is_neighbor(*ov, p@, q),
        cache is None && ov.literal_mutations@.len() == 0 ==> r@.len() <= 54 * (p@.len() + 1),
{
    let ts = tokenize(p);
    let ghost tsv = tokens(p@);
    proof {
        lemma_tokens_lens(p@);
    }
    let mut r: Vec<Vec<u8>> = Vec::new();
    let n = ts.len();

    // Per-token mutations.
    let mut j: usize = 0;
    while j < n
        invariant
            n == ts.len(),
            ts.deep_view() == tsv,
            tsv == tokens(p@),
            p@.len() < usize::MAX,
            ov.wf(),
            forall|i: int| 0 <= i < tsv.len() ==> (#[trigger] tsv[i]).len() <= p@.len(),
            j <= n,
            forall|k: int| 0 <= k < r.deep_view().len() ==> is_neighbor(*ov, p@, #[trigger] r.deep_view()[k]),
            forall|j0: int, m: Seq<u8>|
                0 <= j0 < j && is_token_mutation(*ov, tsv[j0], m) ==> r.deep_view().contains(
                    join(#[trigger] tsv.update(j0, m)),
                ),
            cache is None && ov.literal_mutations@.len() == 0 ==> r@.len() <= 54
                * crate::phrase::sum_lens(tsv.take(j as int)) + 27 * j,
        decreases n - j,
    {
        proof {
            assert(ts@[j as int]@ =~= tsv[j as int]);
            assert(tsv.take(0) =~~= Seq::<Seq<u8>>::empty());
        }
        let muts = match cache {
            Some(c) => token_mutations_cached(c, &ts[j], ov),
            None => token_mutations(&ts[j], ov),
        };
        let ghost mv = muts.deep_view();
        let ghost r_base = r@.len() as int;
        let mn = muts.len();
        let mut mi: usize = 0;
        while mi < mn
            invariant
                n == ts.len(),
                ts.deep_view() == tsv,
                tsv == tokens(p@),
                p@.len() < usize::MAX,
                ov.wf(),
                j < n,
                mn == muts.len(),
                mv == muts.deep_view(),
                forall|m: Seq<u8>| #[trigger] mv.contains(m) <==> is_token_mutation(
                    *ov,
                    tsv[j as int],
                    m,
                ),
                mi <= mn,
                forall|k: int|
                    0 <= k < r.deep_view().len() ==> is_neighbor(
                        *ov,
                        p@,
                        #[trigger] r.deep_view()[k],
                    ),
                forall|j0: int, m: Seq<u8>|
                    0 <= j0 < j && is_token_mutation(*ov, tsv[j0], m) ==> r.deep_view().contains(
                        join(#[trigger] tsv.update(j0, m)),
                    ),
                forall|i0: int|
                    0 <= i0 < mi ==> r.deep_view().contains(join(tsv.update(j as int, #[trigger] mv[i0]))),
                r@.len() == r_base + mi,
                cache is None && ov.literal_mutations@.len() == 0 ==> r_base <= 54
                    * crate::phrase::sum_lens(tsv.take(j as int)) + 27 * j && mn <= 54
                    * tsv[j as int].len() + 27,
            decreases mn - mi,
        {
            let cand = join_with_replacement(&ts, j, &muts[mi]);
            let ghost cq = cand@;
            let ghost old_dv = r.deep_view();
            r.push(cand);
            proof {
                assert(muts@[mi as int]@ =~= mv[mi as int]);
                assert(cq == join(tsv.update(j as int, mv[mi as int])));
                assert(r.deep_view() =~~= old_dv.push(cq));
                assert forall|x: Seq<u8>| old_dv.contains(x) implies r.deep_view().contains(x) by {
                    let kk = choose|kk: int| 0 <= kk < old_dv.len() && old_dv[kk] == x;
                    assert(r.deep_view()[kk] == x);
                }
                assert(mv.contains(mv[mi as int]));
                assert(is_token_mutation(*ov, tsv[j as int], mv[mi as int]));
                assert(r.deep_view()[old_dv.len() as int] == cq);
                assert(r.deep_view().contains(join(tsv.update(j as int, mv[mi as int]))));
                assert(is_neighbor(*ov, p@, cq));
            }
            mi += 1;
        }
        proof {
            assert forall|m: Seq<u8>| is_token_mutation(*ov, tsv[j as int], m) implies
                r.deep_view().contains(join(tsv.update(j as int, m))) by {
                assert(mv.contains(m));
                let i0 = choose|i0: int| 0 <= i0 < mv.len() && mv[i0] == m;
                assert(r.deep_view().contains(join(tsv.update(j as int, mv[i0]))));
            }
            assert(tsv.take(j + 1).drop_last() =~= tsv.take(j as int));
            assert(tsv.take(j + 1).last() == tsv[j as int]);
        }
        j += 1;
    }

    proof {
        assert(tsv.take(n as int) =~~= tsv);
    }

    // Boundary deletions and boundary substitutions.
    if n >= 2 {
        let mut b: usize = 0;
        while b < n - 1
            invariant
                n == ts.len(),
                ts.deep_view() == tsv,
                tsv == tokens(p@),
                ov.wf(),
                n >= 2,
                b <= n - 1,
                forall|k: int|
                    0 <= k < r.deep_view().len() ==> is_neighbor(
                        *ov,
                        p@,
                        #[trigger] r.deep_view()[k],
                    ),
                forall|j0: int, m: Seq<u8>|
                    0 <= j0 < tsv.len() && is_token_mutation(*ov, tsv[j0], m)
                        ==> r.deep_view().contains(join(#[trigger] tsv.update(j0, m))),
                forall|b0: int|
                    0 <= b0 < b ==> r.deep_view().contains(
                        join(#[trigger] merge_at(tsv, b0, Seq::<u8>::empty())),
                    ),
                forall|b0: int, c0: u8|
                    0 <= b0 < b && is_letter(c0) ==> r.deep_view().contains(
                        join(#[trigger] merge_at(tsv, b0, seq![c0])),
                    ),
                cache is None && ov.literal_mutations@.len() == 0 ==> r@.len() <= 54
                    * crate::phrase::sum_lens(tsv) + 27 * tsv.len() + 27 * b,
            decreases n - 1 - b,
        {
            let ghost b_base = r@.len() as int;
            let empty_mid: Vec<u8> = Vec::new();
            let cand = join_with_merge(&ts, b, &empty_mid);
            let ghost cq = cand@;
            let ghost old_dv = r.deep_view();
            r.push(cand);
            proof {
                assert(r.deep_view() =~~= old_dv.push(cq));
                assert forall|x: Seq<u8>| old_dv.contains(x) implies r.deep_view().contains(x) by {
                    let kk = choose|kk: int| 0 <= kk < old_dv.len() && old_dv[kk] == x;
                    assert(r.deep_view()[kk] == x);
                }
                assert(r.deep_view()[old_dv.len() as int] == cq);
                assert(r.deep_view().contains(join(merge_at(tsv, b as int, Seq::<u8>::empty()))));
            }
            let mut c: u8 = 97;
            while c <= 122
                invariant
                    n == ts.len(),
                    ts.deep_view() == tsv,
                    tsv == tokens(p@),
                    ov.wf(),
                    n >= 2,
                    b < n - 1,
                    97 <= c <= 123,
                    forall|k: int|
                        0 <= k < r.deep_view().len() ==> is_neighbor(
                            *ov,
                            p@,
                            #[trigger] r.deep_view()[k],
                        ),
                    forall|j0: int, m: Seq<u8>|
                        0 <= j0 < tsv.len() && is_token_mutation(*ov, tsv[j0], m)
                            ==> r.deep_view().contains(join(#[trigger] tsv.update(j0, m))),
                    forall|b0: int|
                        0 <= b0 <= b ==> r.deep_view().contains(
                            join(#[trigger] merge_at(tsv, b0, Seq::<u8>::empty())),
                        ),
                    forall|b0: int, c0: u8|
                        0 <= b0 < b && is_letter(c0) ==> r.deep_view().contains(
                            join(#[trigger] merge_at(tsv, b0, seq![c0])),
                        ),
                    forall|c0: u8|
                        97 <= c0 < c ==> r.deep_view().contains(
                            join(#[trigger] merge_at(tsv, b as int, seq![c0])),
                        ),
                    r@.len() == b_base + 1 + (c - 97),
                    cache is None && ov.literal_mutations@.len() == 0 ==> b_base <= 54
                        * crate::phrase::sum_lens(tsv) + 27 * tsv.len() + 27 * b,
                decreases 123 - c,
            {
                let mut mid: Vec<u8> = Vec::new();
                mid.push(c);
                proof {
                    assert(mid@ =~= seq![c]);
                }
                let cand2 = join_with_merge(&ts, b, &mid);
                let ghost cq2 = cand2@;
                let ghost old_dv2 = r.deep_view();
                r.push(cand2);
                proof {
                    assert(r.deep_view() =~~= old_dv2.push(cq2));
                    assert forall|x: Seq<u8>| old_dv2.contains(x) implies r.deep_view().contains(
                        x,
                    ) by {
                        let kk = choose|kk: int| 0 <= kk < old_dv2.len() && old_dv2[kk] == x;
                        assert(r.deep_view()[kk] == x);
                    }
                    assert(r.deep_view()[old_dv2.len() as int] == cq2);
                    assert(r.deep_view().contains(join(merge_at(tsv, b as int, seq![c]))));
                }
                c += 1;
            }
            b += 1;
        }
    }
    proof {
        assert forall|q: Seq<u8>| #[trigger] r.deep_view().contains(q) implies is_neighbor(
            *ov,
            p@,
            q,
        ) by {
            let k = choose|k: int| 0 <= k < r.deep_view().len() && r.deep_view()[k] == q;
        }
        if cache is None && ov.literal_mutations@.len() == 0 {
            crate::phrase::lemma_join_tokens(p@);
            crate::phrase::lemma_tokens_len(p@);
            crate::phrase::lemma_join_len(tsv);
            assert(p@.len() == crate::phrase::sum_lens(tsv) + tsv.len() - 1);
        }
        assert forall|q: Seq<u8>| is_neighbor(*ov, p@, q) implies r.deep_view().contains(q) by {
            let ts0 = tokens(p@);
            if exists|j0: int, m: Seq<u8>|
                0 <= j0 < ts0.len() && is_token_mutation(*ov, ts0[j0], m) && q == join(
                    #[trigger] ts0.update(j0, m),
                ) {
                let (j0, m): (int, Seq<u8>) = choose|j0: int, m: Seq<u8>|
                    0 <= j0 < ts0.len() && is_token_mutation(*ov, ts0[j0], m) && q == join(
                        #[trigger] ts0.update(j0, m),
                    );
                assert(r.deep_view().contains(join(tsv.update(j0, m))));
            } else if exists|j0: int|
                0 <= j0 < ts0.len() - 1 && q == join(#[trigger] merge_at(ts0, j0, Seq::<u8>::empty())) {
                let j0 = choose|j0: int|
                    0 <= j0 < ts0.len() - 1 && q == join(
                        #[trigger] merge_at(ts0, j0, Seq::<u8>::empty()),
                    );
                assert(r.deep_view().contains(join(merge_at(tsv, j0, Seq::<u8>::empty()))));
            } else {
                let (j0, c0): (int, u8) = choose|j0: int, c0: u8|
                    0 <= j0 < ts0.len() - 1 && is_letter(c0) && q == join(
                        #[trigger] merge_at(ts0, j0, seq![c0]),
                    );
                assert(r.deep_view().contains(join(merge_at(tsv, j0, seq![c0]))));
            }
        }
    }
    r
}

/// A single edit lengthens a phrase by at most one byte.
pub proof fn lemma_neighbor_len(ov: Overrides, p: Seq<u8>, q: Seq<u8>)
    requires
        ov.wf(),
        is_neighbor(ov, p, q),
    ensures
        q.len() <= p.len() + 1,
{
    let ts = tokens(p);
    crate::phrase::lemma_join_tokens(p);
    crate::phrase::lemma_tokens_len(p);
    crate::phrase::lemma_join_len(ts);
    if exists|j: int, m: Seq<u8>|
        0 <= j < ts.len() && is_token_mutation(ov, ts[j], m) && q == join(
            #[trigger] ts.update(j, m),
        ) {
        let (j, m): (int, Seq<u8>) = choose|j: int, m: Seq<u8>|
            0 <= j < ts.len() && is_token_mutation(ov, ts[j], m) && q == join(
                #[trigger] ts.update(j, m),
            );
        let t = ts[j];
        assert(m.len() <= t.len() + 1) by {
            if has_key(ov.literal_mutations@, t) {
                let ki = crate::types::key_index(ov.literal_mutations@, t);
                assert(0 <= ki < ov.literal_mutations@.len() && ov.literal_mutations@[ki].0@ == t);
                let list = value_of(ov.literal_mutations@, t);
                let li = choose|li: int| 0 <= li < list@.len() && list@[li]@ == m;
            } else {
                if is_subst(t, m) {
                    let (i0, c0): (int, u8) = choose|i0: int, c0: u8|
                        0 <= i0 < t.len() && is_letter(c0) && c0 != t[i0] && m
                            == #[trigger] t.update(i0, c0);
                } else if is_insert(t, m) {
                    let (i0, c0): (int, u8) = choose|i0: int, c0: u8|
                        0 <= i0 <= t.len() && is_letter(c0) && m == #[trigger] t.insert(i0, c0);
                } else if is_delete(t, m) {
                    let i0 = choose|i0: int| 0 <= i0 < t.len() && m == #[trigger] t.remove(i0);
                } else {
                    let k = choose|k: int|
                        crate::mutation::split_word::split_pos_ok(ov, t, k) && m
                            == #[trigger] t.insert(k, SPACE);
                }
            }
        }
        crate::phrase::lemma_sum_lens_update(ts, j, m);
        crate::phrase::lemma_join_len(ts.update(j, m));
    } else {
        let (j, mid): (int, Seq<u8>) = if exists|j: int|
            0 <= j < ts.len() - 1 && q == join(#[trigger] merge_at(ts, j, Seq::<u8>::empty())) {
            (
                choose|j: int|
                    0 <= j < ts.len() - 1 && q == join(
                        #[trigger] merge_at(ts, j, Seq::<u8>::empty()),
                    ),
                Seq::<u8>::empty(),
            )
        } else {
            let (j, c): (int, u8) = choose|j: int, c: u8|
                0 <= j < ts.len() - 1 && is_letter(c) && q == join(
                    #[trigger] merge_at(ts, j, seq![c]),
                );
            (j, seq![c])
        };
        let merged = merge_at(ts, j, mid);
        assert(ts =~= ts.take(j) + seq![ts[j]] + seq![ts[j + 1]] + ts.skip(j + 2));
        crate::phrase::lemma_sum_lens_concat(ts.take(j) + seq![ts[j]] + seq![ts[j + 1]], ts.skip(j + 2));
        crate::phrase::lemma_sum_lens_concat(ts.take(j) + seq![ts[j]], seq![ts[j + 1]]);
        crate::phrase::lemma_sum_lens_concat(ts.take(j), seq![ts[j]]);
        crate::phrase::lemma_sum_lens_concat(ts.take(j) + seq![ts[j] + mid + ts[j + 1]], ts.skip(j + 2));
        crate::phrase::lemma_sum_lens_concat(ts.take(j), seq![ts[j] + mid + ts[j + 1]]);
        crate::phrase::lemma_sum_lens_single(ts[j]);
        assert(merged.len() == ts.len() - 1);
        crate::phrase::lemma_join_len(merged);
        crate::phrase::lemma_sum_lens_single(ts[j] + mid + ts[j + 1]);
        crate::phrase::lemma_sum_lens_single(ts[j + 1]);
    }
}

/// All single-edit results for one token when no overrides are given.
pub open spec fn is_plain_token_mutation(t: Seq<u8>, m: Seq<u8>) -> bool {
    ||| is_subst(t, m)
    ||| is_insert(t, m)
    ||| is_delete(t, m)
    ||| exists|k: int|
        crate::mutation::split_word::default_split_ok(t, k) && m == #[trigger] t.insert(k, SPACE)
}

/// For a token that no override table names, the override-sensitive
/// mutation set is the plain one.
pub proof fn lemma_plain_token_mutation(ov: Overrides, t: Seq<u8>, m: Seq<u8>)
    requires
        !has_key(ov.literal_mutations@, t),
        !has_key(ov.allow_split@, t),
        !has_key(ov.forbid_split@, t),
    ensures
        is_token_mutation(ov, t, m) == is_plain_token_mutation(t, m),
{
    assert forall|k: int| #[trigger] crate::mutation::split_word::split_pos_ok(ov, t, k)
        == crate::mutation::split_word::default_split_ok(t, k) by {}
    if is_split(ov, t, m) {
        let k = choose|k: int|
            crate::mutation::split_word::split_pos_ok(ov, t, k) && m == #[trigger] t.insert(
                k,
                SPACE,
            );
        assert(crate::mutation::split_word::default_split_ok(t, k) && m == t.insert(k, SPACE));
    }
    if exists|k: int|
        crate::mutation::split_word::default_split_ok(t, k) && m == #[trigger] t.insert(k, SPACE) {
        let k = choose|k: int|
            crate::mutation::split_word::default_split_ok(t, k) && m == #[trigger] t.insert(
                k,
                SPACE,
            );
        assert(crate::mutation::split_word::split_pos_ok(ov, t, k));
        assert(is_split(ov, t, m));
    }
}

/// Computes a token's default mutation list, with no overrides.
pub fn plain_token_mutations(t: &Vec<u8>) -> (r: Vec<Vec<u8>>)
    requires
        t@.len() < usize::MAX,
    ensures
        forall|m: Seq<u8>| #[trigger] r.deep_view().contains(m) <==> is_plain_token_mutation(
            t@,
            m,
        ),
        r@.len() <= 54 * t@.len() + 27,
{
    let ov = Overrides::none();
    let r = token_mutations(t, &ov);
    proof {
        assert forall|m: Seq<u8>| #[trigger] r.deep_view().contains(m) == is_plain_token_mutation(
            t@,
            m,
        ) by {
            lemma_plain_token_mutation(ov, t@, m);
        }
    }
    r
}

/// Computes a token's mutation list, consulting the shared cache for
/// tokens that no override names.
pub fn token_mutations_cached(
    cache: &crate::cache::TokenCache,
    t: &Vec<u8>,
    ov: &Overrides,
) -> (r: Vec<Vec<u8>>)
    requires
        ov.wf(),
        t@.len() < usize::MAX,
    ensures
        forall|m: Seq<u8>| #[trigger] r.deep_view().contains(m) <==> is_token_mutation(
            *ov,
            t@,
            m,
        ),
{
    let plain = ov.literal_index(t).is_none() && ov.forced_split(t).is_none()
        && ov.forbidden_split(t).is_none();
    if plain {
        let r = cache.get_or_compute(t);
        proof {
            assert forall|m: Seq<u8>| #[trigger] r.deep_view().contains(m) == is_token_mutation(
                *ov,
                t@,
                m,
            ) by {
                lemma_plain_token_mutation(*ov, t@, m);
            }
        }
        r
    } else {
        token_mutations(t, ov)
    }
}

/// `is_neighbor` specialized to empty override tables.
pub open spec fn is_plain_neighbor(p: Seq<u8>, q: Seq<u8>) -> bool {
    let ts = tokens(p);
    ||| exists|j: int, m: Seq<u8>|
        0 <= j < ts.len() && is_plain_token_mutation(ts[j], m) && q == join(
            #[trigger] ts.update(j, m),
        )
    ||| exists|j: int|
        0 <= j < ts.len() - 1 && q == join(#[trigger] merge_at(ts, j, Seq::<u8>::empty()))
    ||| exists|j: int, c: u8|
        0 <= j < ts.len() - 1 && is_letter(c) && q == join(#[trigger] merge_at(ts, j, seq![c]))
}

/// With empty override tables, the neighbor relation is the plain one.
pub proof fn lemma_plain_neighbor(ov: Overrides, p: Seq<u8>, q: Seq<u8>)
    requires
        ov.allow_split@.len() == 0,
        ov.forbid_split@.len() == 0,
        ov.literal_mutations@.len() == 0,
    ensures
        is_neighbor(ov, p, q) == is_plain_neighbor(p, q),
{
    assert forall|t: Seq<u8>, m: Seq<u8>| #[trigger] is_token_mutation(ov, t, m)
        == is_plain_token_mutation(t, m) by {
        assert(!has_key(ov.literal_mutations@, t));
        assert(!has_key(ov.allow_split@, t));
        assert(!has_key(ov.forbid_split@, t));
        lemma_plain_token_mutation(ov, t, m);
    }
    let ts = tokens(p);
    if is_neighbor(ov, p, q) && !(exists|j: int|
        0 <= j < ts.len() - 1 && q == join(#[trigger] merge_at(ts, j, Seq::<u8>::empty())))
        && !(exists|j: int, c: u8|
        0 <= j < ts.len() - 1 && is_letter(c) && q == join(#[trigger] merge_at(ts, j, seq![c]))) {
        let (j, m): (int, Seq<u8>) = choose|j: int, m: Seq<u8>|
            0 <= j < ts.len() && is_token_mutation(ov, ts[j], m) && q == join(
                #[trigger] ts.update(j, m),
            );
        assert(is_plain_token_mutation(ts[j], m));
    }
    if is_plain_neighbor(p, q) && !(exists|j: int|
        0 <= j < ts.len() - 1 && q == join(#[trigger] merge_at(ts, j, Seq::<u8>::empty())))
        && !(exists|j: int, c: u8|
        0 <= j < ts.len() - 1 && is_letter(c) && q == join(#[trigger] merge_at(ts, j, seq![c]))) {
        let (j, m): (int, Seq<u8>) = choose|j: int, m: Seq<u8>|
            0 <= j < ts.len() && is_plain_token_mutation(ts[j], m) && q == join(
                #[trigger] ts.update(j, m),
            );
        assert(is_token_mutation(ov, ts[j], m));
    }
}

/// An iterator over the single-edit neighbors of a phrase, with no
/// overrides applied.  The whole neighbor set is computed up front; the
/// iterator hands its elements out one by one.
pub struct MutateStringIter {
    items: Vec<Vec<u8>>,
    idx: usize,
}

impl MutateStringIter {
    /// The neighbor list this iterator walks.
    pub closed spec fn items_view(&self) -> Seq<Seq<u8>> {
        self.items.deep_view()
    }

    /// How many neighbors have been handed out already.
    pub closed spec fn pos(&self) -> int {
        self.idx as int
    }

    /// Builds the iterator over all single-edit neighbors of a phrase.
    pub fn new(chars: &[u8]) -> (r: MutateStringIter)
        requires
            chars@.len() < usize::MAX,
        ensures
            r.pos() == 0,
            forall|q: Seq<u8>| #[trigger] r.items_view().contains(q) <==> is_plain_neighbor(
                chars@,
                q,
            ),
            r.items_view().len() <= 54 * (chars@.len() + 1),
    {
        let ov = Overrides::none();
        let p = vstd::slice::slice_to_vec(chars);
        let items = phrase_neighbors(&p, &ov, None);
        proof {
            assert forall|q: Seq<u8>| #[trigger] items.deep_view().contains(q)
                == is_plain_neighbor(chars@, q) by {
                lemma_plain_neighbor(ov, chars@, q);
            }
        }
        MutateStringIter { items, idx: 0 }
    }

    /// Hands out the next neighbor, or `None` when all have been seen.
    pub fn next(&mut self) -> (r: Option<Vec<u8>>)
        ensures
            final(self).items_view() == old(self).items_view(),
            old(self).pos() < old(self).items_view().len() ==> {
                &&& final(self).pos() == old(self).pos() + 1
                &&& r is Some
                &&& r.unwrap()@ == old(self).items_view()[old(self).pos()]
            },
            old(self).pos() >= old(self).items_view().len() ==> {
                &&& final(self).pos() == old(self).pos()
                &&& r is None
            },
    {
        if self.idx < self.items.len() {
            let out = clone_bytes(&self.items[self.idx]);
            self.idx += 1;
            Some(out)
        } else {
            None
        }
    }
}

} // verus!
