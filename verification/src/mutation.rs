//! The mutation generator: bounded breadth-first exploration of the
//! single-edit neighborhood of a phrase, reporting every candidate at
//! the least depth at which it is reachable.

pub mod add_char;
pub mod change_char;
pub mod mutate_string;
pub mod remove_char;
pub mod split_word;

use vstd::prelude::*;

use crate::mutation::mutate_string::{is_neighbor, lemma_neighbor_len, phrase_neighbors};
use crate::phrase::{clone_bytes, contains_bytes, join, spec_contains_bytes, sum_lens, tokens};
use crate::spellchecking::{aligned_sev, AnyChecker, CheckResult, SpellChecker};
use crate::types::{MutationConfig, MutationError, Overrides};

verus! {

/// `q` is reachable from `src` by a chain of at most `k` single edits.
pub open spec fn reach(ov: Overrides, src: Seq<u8>, q: Seq<u8>, k: nat) -> bool
    decreases k,
{
    if k == 0 {
        q == src
    } else {
        reach(ov, src, q, (k - 1) as nat) || exists|m: Seq<u8>|
            reach(ov, src, m, (k - 1) as nat) && #[trigger] is_neighbor(ov, m, q)
    }
}

/// `q` is first reached at exactly depth `k`.
pub open spec fn layer(ov: Overrides, src: Seq<u8>, q: Seq<u8>, k: nat) -> bool {
    if k == 0 {
        q == src
    } else {
        reach(ov, src, q, k) && !reach(ov, src, q, (k - 1) as nat)
    }
}

pub proof fn lemma_reach_mono(ov: Overrides, src: Seq<u8>, q: Seq<u8>, k1: nat, k2: nat)
    requires
        k1 <= k2,
        reach(ov, src, q, k1),
    ensures
        reach(ov, src, q, k2),
    decreases k2,
{
    if k2 > k1 {
        lemma_reach_mono(ov, src, q, k1, (k2 - 1) as nat);
    }
}

/// One breadth-first round: what is reachable within `k` edits is what
/// was reachable within `k - 1`, plus the neighbors of the phrases
/// first reached at `k - 1`.
pub proof fn lemma_reach_step(ov: Overrides, src: Seq<u8>, q: Seq<u8>, k: nat)
    requires
        k >= 1,
    ensures
        reach(ov, src, q, k) <==> (reach(ov, src, q, (k - 1) as nat) || exists|m: Seq<u8>|
            layer(ov, src, m, (k - 1) as nat) && #[trigger] is_neighbor(ov, m, q)),
{
    if reach(ov, src, q, k) && !reach(ov, src, q, (k - 1) as nat) {
        let m = choose|m: Seq<u8>|
            reach(ov, src, m, (k - 1) as nat) && #[trigger] is_neighbor(ov, m, q);
        if k == 1 {
            assert(layer(ov, src, m, 0));
        } else {
            if reach(ov, src, m, (k - 2) as nat) {
                assert(reach(ov, src, q, (k - 1) as nat));
            } else {
                assert(layer(ov, src, m, (k - 1) as nat));
            }
        }
    }
    if exists|m: Seq<u8>| layer(ov, src, m, (k - 1) as nat) && #[trigger] is_neighbor(ov, m, q) {
        let m = choose|m: Seq<u8>|
            layer(ov, src, m, (k - 1) as nat) && #[trigger] is_neighbor(ov, m, q);
        if k == 1 {
            assert(reach(ov, src, m, 0));
        }
        assert(reach(ov, src, m, (k - 1) as nat));
        assert(reach(ov, src, q, k));
    }
}

/// Any phrase reached within `k` edits is at most `k` bytes longer
/// than the source.
pub proof fn lemma_reach_len(ov: Overrides, src: Seq<u8>, q: Seq<u8>, k: nat)
    requires
        ov.wf(),
        reach(ov, src, q, k),
    ensures
        q.len() <= src.len() + k,
    decreases k,
{
    if k > 0 {
        if reach(ov, src, q, (k - 1) as nat) {
            lemma_reach_len(ov, src, q, (k - 1) as nat);
        } else {
            let m = choose|m: Seq<u8>|
                reach(ov, src, m, (k - 1) as nat) && #[trigger] is_neighbor(ov, m, q);
            lemma_reach_len(ov, src, m, (k - 1) as nat);
            lemma_neighbor_len(ov, m, q);
        }
    }
}

/// Whether the result list holds the pair of a candidate and a depth.
pub open spec fn has_pair(rs: Seq<(Vec<u8>, usize)>, q: Seq<u8>, d: int) -> bool {
    exists|i: int| 0 <= i < rs.len() && (#[trigger] rs[i]).0@ == q && rs[i].1 == d
}

/// What `generate` promises of its result: a pair `(q, d)` is reported
/// exactly when `q` is first reachable from the source at depth `d`,
/// for depths up to the budget.  The source itself is never reported,
/// since it is reachable at depth zero.
pub open spec fn generate_post(
    ov: Overrides,
    src: Seq<u8>,
    rs: Seq<(Vec<u8>, usize)>,
    max_depth: int,
) -> bool {
    forall|q: Seq<u8>, d: int|
        #[trigger] has_pair(rs, q, d) <==> (1 <= d <= max_depth && reach(ov, src, q, d as nat)
            && !reach(ov, src, q, (d - 1) as nat))
}

/// No two entries of the result list name the same candidate.
pub open spec fn distinct_candidates(rs: Seq<(Vec<u8>, usize)>) -> bool {
    forall|i: int, j: int|
        0 <= i < j < rs.len() ==> (#[trigger] rs[i]).0@ != (#[trigger] rs[j]).0@
}

/// Depth-limited breadth-first expansion of the single-edit
/// neighborhood of `src`, with a process-wide visited set: every
/// distinct candidate phrase reachable within `max_depth` edits is
/// reported exactly once, at its minimal discovery depth.
pub fn generate(
    src: &Vec<u8>,
    max_depth: usize,
    ov: &Overrides,
    cache: Option<&crate::cache::TokenCache>,
) -> (r: Vec<(Vec<u8>, usize)>)
    requires
        ov.wf(),
        max_depth >= 1,
        src@.len() + max_depth < usize::MAX,
    ensures
        generate_post(*ov, src@, r@, max_depth as int),
        distinct_candidates(r@),
{
    let mut visited: Vec<Vec<u8>> = Vec::new();
    visited.push(clone_bytes(src));
    let mut frontier: Vec<Vec<u8>> = Vec::new();
    frontier.push(clone_bytes(src));
    let mut out: Vec<(Vec<u8>, usize)> = Vec::new();
    let mut d: usize = 1;
    proof {
        assert forall|q: Seq<u8>| spec_contains_bytes(visited@, q) <==> reach(
            *ov,
            src@,
            q,
            0,
        ) by {
            if spec_contains_bytes(visited@, q) {
                let i = choose|i: int| 0 <= i < visited@.len() && visited@[i]@ == q;
                assert(i == 0);
            }
            if reach(*ov, src@, q, 0) {
                assert(visited@[0]@ == q);
            }
        }
        assert forall|q: Seq<u8>| spec_contains_bytes(frontier@, q) <==> layer(
            *ov,
            src@,
            q,
            0,
        ) by {
            if spec_contains_bytes(frontier@, q) {
                let i = choose|i: int| 0 <= i < frontier@.len() && frontier@[i]@ == q;
                assert(i == 0);
            }
            if layer(*ov, src@, q, 0) {
                assert(frontier@[0]@ == q);
            }
        }
    }
    while d <= max_depth
        invariant
            ov.wf(),
            1 <= d <= max_depth + 1,
            src@.len() + max_depth < usize::MAX,
            forall|q: Seq<u8>| #[trigger] spec_contains_bytes(visited@, q) <==> reach(
                *ov,
                src@,
                q,
                (d - 1) as nat,
            ),
            forall|q: Seq<u8>| #[trigger] spec_contains_bytes(frontier@, q) <==> layer(
                *ov,
                src@,
                q,
                (d - 1) as nat,
            ),
            forall|q: Seq<u8>, dd: int|
                #[trigger] has_pair(out@, q, dd) <==> (1 <= dd <= d - 1 && reach(
                    *ov,
                    src@,
                    q,
                    dd as nat,
                ) && !reach(*ov, src@, q, (dd - 1) as nat)),
            distinct_candidates(out@),
            forall|q: Seq<u8>, dd: int| #[trigger] has_pair(out@, q, dd)
                ==> spec_contains_bytes(visited@, q),
        decreases max_depth + 1 - d,
    {
        let mut next: Vec<Vec<u8>> = Vec::new();
        let fl = frontier.len();
        let mut fi: usize = 0;
        while fi < fl
            invariant
                ov.wf(),
                1 <= d <= max_depth,
                src@.len() + max_depth < usize::MAX,
                fl == frontier.len(),
                fi <= fl,
                forall|q: Seq<u8>| #[trigger] spec_contains_bytes(frontier@, q) <==> layer(
                    *ov,
                    src@,
                    q,
                    (d - 1) as nat,
                ),
                forall|q: Seq<u8>| #[trigger] spec_contains_bytes(visited@, q) <==> (reach(
                    *ov,
                    src@,
                    q,
                    (d - 1) as nat,
                ) || exists|i: int|
                    0 <= i < fi && #[trigger] is_neighbor(*ov, frontier@[i]@, q)),
                forall|q: Seq<u8>| #[trigger] spec_contains_bytes(next@, q) <==> (
                spec_contains_bytes(visited@, q) && !reach(*ov, src@, q, (d - 1) as nat)),
                forall|q: Seq<u8>, dd: int|
                    #[trigger] has_pair(out@, q, dd) <==> ((1 <= dd <= d - 1 && reach(
                        *ov,
                        src@,
                        q,
                        dd as nat,
                    ) && !reach(*ov, src@, q, (dd - 1) as nat)) || (dd == d
                        && spec_contains_bytes(next@, q))),
                distinct_candidates(out@),
                forall|q: Seq<u8>, dd: int| #[trigger] has_pair(out@, q, dd)
                    ==> spec_contains_bytes(visited@, q),
            decreases fl - fi,
        {
            proof {
                assert(spec_contains_bytes(frontier@, frontier@[fi as int]@)) by {
                    assert(frontier@[fi as int]@ == frontier@[fi as int]@);
                }
                assert(layer(*ov, src@, frontier@[fi as int]@, (d - 1) as nat));
                assert(reach(*ov, src@, frontier@[fi as int]@, (d - 1) as nat)) by {
                    if d == 1 {
                        assert(frontier@[fi as int]@ == src@);
                    }
                }
                lemma_reach_len(*ov, src@, frontier@[fi as int]@, (d - 1) as nat);
            }
            let nbrs = phrase_neighbors(&frontier[fi], ov, cache);
            let ghost nv = nbrs.deep_view();
            let nl = nbrs.len();
            let mut ni: usize = 0;
            while ni < nl
                invariant
                    ov.wf(),
                    1 <= d <= max_depth,
                    src@.len() + max_depth < usize::MAX,
                    fl == frontier.len(),
                    fi < fl,
                    nl == nbrs.len(),
                    nv == nbrs.deep_view(),
                    ni <= nl,
                    forall|q: Seq<u8>| #[trigger] nv.contains(q) <==> is_neighbor(
                        *ov,
                        frontier@[fi as int]@,
                        q,
                    ),
                    layer(*ov, src@, frontier@[fi as int]@, (d - 1) as nat),
                    forall|q: Seq<u8>| #[trigger] spec_contains_bytes(frontier@, q) <==> layer(
                        *ov,
                        src@,
                        q,
                        (d - 1) as nat,
                    ),
                    forall|q: Seq<u8>| #[trigger] spec_contains_bytes(visited@, q) <==> (reach(
                        *ov,
                        src@,
                        q,
                        (d - 1) as nat,
                    ) || (exists|i: int|
                        0 <= i < fi && #[trigger] is_neighbor(*ov, frontier@[i]@, q)) || (
                    exists|k: int| 0 <= k < ni && nv[k] == q)),
                    forall|q: Seq<u8>| #[trigger] spec_contains_bytes(next@, q) <==> (
                    spec_contains_bytes(visited@, q) && !reach(*ov, src@, q, (d - 1) as nat)),
                    forall|q: Seq<u8>, dd: int|
                        #[trigger] has_pair(out@, q, dd) <==> ((1 <= dd <= d - 1 && reach(
                            *ov,
                            src@,
                            q,
                            dd as nat,
                        ) && !reach(*ov, src@, q, (dd - 1) as nat)) || (dd == d
                            && spec_contains_bytes(next@, q))),
                    distinct_candidates(out@),
                    forall|q: Seq<u8>, dd: int| #[trigger] has_pair(out@, q, dd)
                        ==> spec_contains_bytes(visited@, q),
                decreases nl - ni,
            {
                proof {
                    assert(nbrs@[ni as int]@ =~= nv[ni as int]);
                }
                if !contains_bytes(&visited, &nbrs[ni]) {
                    let ghost old_vis = visited@;
                    let ghost old_next = next@;
                    let ghost old_out = out@;
                    let ghost q0 = nv[ni as int];
                    visited.push(clone_bytes(&nbrs[ni]));
                    next.push(clone_bytes(&nbrs[ni]));
                    out.push((clone_bytes(&nbrs[ni]), d));
                    proof {
                        assert(visited@.drop_last() =~= old_vis);
                        assert(next@.drop_last() =~= old_next);
                        assert(out@.drop_last() =~= old_out);
                        assert(visited@.last()@ == q0);
                        assert(next@.last()@ == q0);
                        assert(out@.last().0@ == q0 && out@.last().1 == d);
                        assert(nv.contains(q0));
                        assert(is_neighbor(*ov, frontier@[fi as int]@, q0));
                        // The new candidate is reachable at depth d but
                        // was not reachable at depth d - 1.
                        assert(reach(*ov, src@, q0, d as nat)) by {
                            assert(layer(*ov, src@, frontier@[fi as int]@, (d - 1) as nat));
                            if d == 1 {
                                assert(reach(*ov, src@, frontier@[fi as int]@, 0));
                            }
                            assert(reach(*ov, src@, frontier@[fi as int]@, (d - 1) as nat));
                        }
                        assert(!reach(*ov, src@, q0, (d - 1) as nat));
                        assert forall|q: Seq<u8>| #[trigger] spec_contains_bytes(visited@, q)
                            <==> (reach(*ov, src@, q, (d - 1) as nat) || (exists|i: int|
                            0 <= i < fi && #[trigger] is_neighbor(*ov, frontier@[i]@, q)) || (
                        exists|k: int| 0 <= k < ni + 1 && nv[k] == q)) by {
                            if spec_contains_bytes(visited@, q) {
                                let i = choose|i: int|
                                    0 <= i < visited@.len() && visited@[i]@ == q;
                                if i < old_vis.len() {
                                    assert(spec_contains_bytes(old_vis, q)) by {
                                        assert(old_vis[i]@ == q);
                                    }
                                } else {
                                    assert(q == q0);
                                    assert(nv[ni as int] == q);
                                }
                            }
                            if reach(*ov, src@, q, (d - 1) as nat) || (exists|i: int|
                                0 <= i < fi && #[trigger] is_neighbor(*ov, frontier@[i]@, q)) {
                                assert(spec_contains_bytes(old_vis, q));
                                let i = choose|i: int| 0 <= i < old_vis.len() && old_vis[i]@ == q;
                                assert(visited@[i]@ == q);
                            } else if exists|k: int| 0 <= k < ni + 1 && nv[k] == q {
                                let k = choose|k: int| 0 <= k < ni + 1 && nv[k] == q;
                                if k < ni {
                                    assert(spec_contains_bytes(old_vis, q));
                                    let i = choose|i: int|
                                        0 <= i < old_vis.len() && old_vis[i]@ == q;
                                    assert(visited@[i]@ == q);
                                } else {
                                    assert(visited@.last()@ == q);
                                }
                            }
                        }
                        assert forall|q: Seq<u8>| #[trigger] spec_contains_bytes(next@, q) <==> (
                        spec_contains_bytes(visited@, q) && !reach(
                            *ov,
                            src@,
                            q,
                            (d - 1) as nat,
                        )) by {
                            if spec_contains_bytes(next@, q) {
                                let i = choose|i: int| 0 <= i < next@.len() && next@[i]@ == q;
                                if i < old_next.len() {
                                    assert(spec_contains_bytes(old_next, q)) by {
                                        assert(old_next[i]@ == q);
                                    }
                                    assert(spec_contains_bytes(old_vis, q));
                                    let vi = choose|vi: int|
                                        0 <= vi < old_vis.len() && old_vis[vi]@ == q;
                                    assert(visited@[vi]@ == q);
                                } else {
                                    assert(q == q0);
                                }
                            }
                            if spec_contains_bytes(visited@, q) && !reach(
                                *ov,
                                src@,
                                q,
                                (d - 1) as nat,
                            ) {
                                if q == q0 {
                                    assert(next@.last()@ == q);
                                } else {
                                    let i = choose|i: int|
                                        0 <= i < visited@.len() && visited@[i]@ == q;
                                    assert(i < old_vis.len());
                                    assert(spec_contains_bytes(old_vis, q)) by {
                                        assert(old_vis[i]@ == q);
                                    }
                                    assert(spec_contains_bytes(old_next, q));
                                    let j = choose|j: int|
                                        0 <= j < old_next.len() && old_next[j]@ == q;
                                    assert(next@[j]@ == q);
                                }
                            }
                        }
                        assert forall|q: Seq<u8>, dd: int| #[trigger] has_pair(out@, q, dd) <==> ((
                        1 <= dd <= d - 1 && reach(*ov, src@, q, dd as nat) && !reach(
                            *ov,
                            src@,
                            q,
                            (dd - 1) as nat,
                        )) || (dd == d && spec_contains_bytes(next@, q))) by {
                            if has_pair(out@, q, dd) {
                                let i = choose|i: int|
                                    0 <= i < out@.len() && (#[trigger] out@[i]).0@ == q
                                        && out@[i].1 == dd;
                                if i < old_out.len() {
                                    assert(has_pair(old_out, q, dd)) by {
                                        assert(old_out[i].0@ == q && old_out[i].1 == dd);
                                    }
                                    if dd == d {
                                        assert(spec_contains_bytes(old_next, q));
                                        let j = choose|j: int|
                                            0 <= j < old_next.len() && old_next[j]@ == q;
                                        assert(next@[j]@ == q);
                                    }
                                } else {
                                    assert(q == q0 && dd == d);
                                    assert(next@.last()@ == q);
                                }
                            }
                            if (1 <= dd <= d - 1 && reach(*ov, src@, q, dd as nat) && !reach(
                                *ov,
                                src@,
                                q,
                                (dd - 1) as nat,
                            )) || (dd == d && spec_contains_bytes(next@, q)) {
                                if dd == d && q == q0 {
                                    assert(out@.last().0@ == q && out@.last().1 == dd);
                                    assert(has_pair(out@, q, dd)) by {
                                        assert(out@[out@.len() - 1].0@ == q && out@[out@.len()
                                            - 1].1 == dd);
                                    }
                                } else {
                                    assert(has_pair(old_out, q, dd)) by {
                                        if dd == d {
                                            let i = choose|i: int|
                                                0 <= i < next@.len() && next@[i]@ == q;
                                            assert(i < old_next.len());
                                            assert(old_next[i]@ == q);
                                            assert(spec_contains_bytes(old_next, q));
                                        }
                                    }
                                    let i = choose|i: int|
                                        0 <= i < old_out.len() && (#[trigger] old_out[i]).0@ == q
                                            && old_out[i].1 == dd;
                                    assert(out@[i].0@ == q && out@[i].1 == dd);
                                }
                            }
                        }
                        assert(distinct_candidates(out@)) by {
                            assert forall|i: int, j: int| 0 <= i < j < out@.len() implies (
                            #[trigger] out@[i]).0@ != (#[trigger] out@[j]).0@ by {
                                if j == out@.len() - 1 {
                                    assert(out@[i].0@ == old_out[i].0@);
                                    if out@[i].0@ == q0 {
                                        assert(has_pair(old_out, q0, old_out[i].1 as int)) by {
                                            assert(old_out[i].0@ == q0);
                                        }
                                        assert(spec_contains_bytes(old_vis, q0));
                                    }
                                }
                            }
                        }
                        assert forall|q: Seq<u8>, dd: int| #[trigger] has_pair(out@, q, dd)
                            implies spec_contains_bytes(visited@, q) by {
                            let i = choose|i: int|
                                0 <= i < out@.len() && (#[trigger] out@[i]).0@ == q && out@[i].1
                                    == dd;
                            if i < old_out.len() {
                                assert(has_pair(old_out, q, dd)) by {
                                    assert(old_out[i].0@ == q && old_out[i].1 == dd);
                                }
                                assert(spec_contains_bytes(old_vis, q));
                                let vi = choose|vi: int|
                                    0 <= vi < old_vis.len() && old_vis[vi]@ == q;
                                assert(visited@[vi]@ == q);
                            } else {
                                assert(visited@.last()@ == q);
                            }
                        }
                    }
                }
                ni += 1;
            }
            proof {
                assert forall|q: Seq<u8>| #[trigger] spec_contains_bytes(visited@, q) <==> (reach(
                    *ov,
                    src@,
                    q,
                    (d - 1) as nat,
                ) || exists|i: int|
                    0 <= i < fi + 1 && #[trigger] is_neighbor(*ov, frontier@[i]@, q)) by {
                    if spec_contains_bytes(visited@, q) {
                        if !reach(*ov, src@, q, (d - 1) as nat) && !(exists|i: int|
                            0 <= i < fi && #[trigger] is_neighbor(*ov, frontier@[i]@, q)) {
                            let k = choose|k: int| 0 <= k < nl && nv[k] == q;
                            assert(nv.contains(q)) by {
                                assert(nv[k] == q);
                            }
                            assert(is_neighbor(*ov, frontier@[fi as int]@, q));
                        }
                    }
                    if exists|i: int|
                        0 <= i < fi + 1 && #[trigger] is_neighbor(*ov, frontier@[i]@, q) {
                        let i = choose|i: int|
                            0 <= i < fi + 1 && #[trigger] is_neighbor(*ov, frontier@[i]@, q);
                        if i == fi && !reach(*ov, src@, q, (d - 1) as nat) && !(exists|i0: int|
                            0 <= i0 < fi && #[trigger] is_neighbor(*ov, frontier@[i0]@, q)) {
                            assert(nv.contains(q));
                            let k = choose|k: int| 0 <= k < nv.len() && nv[k] == q;
                        }
                    }
                }
            }
            fi += 1;
        }
        // End of the round: the visited set is exactly what is
        // reachable within d edits, and `next` is the new layer.
        proof {
            assert forall|q: Seq<u8>| #[trigger] spec_contains_bytes(visited@, q) <==> reach(
                *ov,
                src@,
                q,
                d as nat,
            ) by {
                lemma_reach_step(*ov, src@, q, d as nat);
                if spec_contains_bytes(visited@, q) {
                    if !reach(*ov, src@, q, (d - 1) as nat) {
                        let i = choose|i: int|
                            0 <= i < fl && #[trigger] is_neighbor(*ov, frontier@[i]@, q);
                        assert(spec_contains_bytes(frontier@, frontier@[i]@)) by {
                            assert(frontier@[i]@ == frontier@[i]@);
                        }
                        assert(layer(*ov, src@, frontier@[i]@, (d - 1) as nat));
                    }
                } else {
                    assert(!reach(*ov, src@, q, (d - 1) as nat));
                    if reach(*ov, src@, q, d as nat) {
                        let m = choose|m: Seq<u8>|
                            layer(*ov, src@, m, (d - 1) as nat) && #[trigger] is_neighbor(
                                *ov,
                                m,
                                q,
                            );
                        assert(spec_contains_bytes(frontier@, m));
                        let i = choose|i: int| 0 <= i < frontier@.len() && frontier@[i]@ == m;
                        assert(is_neighbor(*ov, frontier@[i]@, q));
                        assert(spec_contains_bytes(visited@, q));
                    }
                }
            }
            assert forall|q: Seq<u8>| #[trigger] spec_contains_bytes(next@, q) <==> layer(
                *ov,
                src@,
                q,
                d as nat,
            ) by {}
            assert forall|q: Seq<u8>, dd: int|
                #[trigger] has_pair(out@, q, dd) <==> (1 <= dd <= d && reach(
                    *ov,
                    src@,
                    q,
                    dd as nat,
                ) && !reach(*ov, src@, q, (dd - 1) as nat)) by {}
        }
        frontier = next;
        d += 1;
    }
    out
}

/// A byte string over the supported alphabet: letters and boundaries.
pub open spec fn valid_input(p: Seq<u8>) -> bool {
    forall|i: int|
        0 <= i < p.len() ==> crate::phrase::is_letter(#[trigger] p[i]) || p[i]
            == crate::phrase::SPACE
}

/// The forced pre-splits of one word, applied repeatedly to the
/// remainder, as the normalizer performs them.
pub open spec fn split_word_spec(ov: Overrides, w: Seq<u8>) -> Seq<Seq<u8>>
    decreases w.len(),
{
    if crate::types::has_key(ov.allow_split@, w) && 0 < crate::types::value_of(ov.allow_split@, w)
        < w.len() {
        let idx = crate::types::value_of(ov.allow_split@, w) as int;
        seq![w.take(idx)] + split_word_spec(ov, w.skip(idx))
    } else {
        seq![w]
    }
}

/// The forced pre-splits applied to every token in order.
pub open spec fn split_tokens_spec(ov: Overrides, ts: Seq<Seq<u8>>) -> Seq<Seq<u8>>
    decreases ts.len(),
{
    if ts.len() == 0 {
        Seq::<Seq<u8>>::empty()
    } else {
        split_tokens_spec(ov, ts.drop_last()) + split_word_spec(ov, ts.last())
    }
}

/// Validates a source phrase and splits it into words, honoring the
/// forced pre-split overrides.  A character outside the supported
/// alphabet is a fatal input-validation failure.
pub fn process_split(string: &Vec<u8>, overrides: &Overrides) -> (r: Result<
    Vec<Vec<u8>>,
    crate::types::MutationError,
>)
    requires
        overrides.wf(),
    ensures
        match r {
            Ok(ts) => valid_input(string@) && ts.deep_view() == split_tokens_spec(
                *overrides,
                crate::phrase::tokens(string@),
            ),
            Err(e) => e == crate::types::MutationError::InvalidInputCharacter && !valid_input(
                string@,
            ),
        },
{
    let n = string.len();
    let mut i: usize = 0;
    while i < n
        invariant
            n == string.len(),
            i <= n,
            forall|j: int|
                0 <= j < i ==> crate::phrase::is_letter(#[trigger] string@[j]) || string@[j]
                    == crate::phrase::SPACE,
        decreases n - i,
    {
        let c = string[i];
        if !(97 <= c && c <= 122) && c != crate::phrase::SPACE {
            return Err(crate::types::MutationError::InvalidInputCharacter);
        }
        i += 1;
    }
    let toks = crate::phrase::tokenize(string);
    let ghost tsv = crate::phrase::tokens(string@);
    let mut result: Vec<Vec<u8>> = Vec::new();
    let tn = toks.len();
    let mut ti: usize = 0;
    while ti < tn
        invariant
            tn == toks.len(),
            toks.deep_view() == tsv,
            overrides.wf(),
            ti <= tn,
            result.deep_view() == split_tokens_spec(*overrides, tsv.take(ti as int)),
        decreases tn - ti,
    {
        proof {
            assert(toks@[ti as int]@ =~= tsv[ti as int]);
        }
        let mut word = clone_bytes(&toks[ti]);
        let ghost base = result.deep_view();
        let ghost target = split_word_spec(*overrides, tsv[ti as int]);
        let mut done = false;
        while !done
            invariant
                overrides.wf(),
                base + split_word_spec(*overrides, tsv[ti as int]) == result.deep_view()
                    + if done {
                    Seq::<Seq<u8>>::empty()
                } else {
                    split_word_spec(*overrides, word@)
                },
            decreases word@.len() + if done {
                0int
            } else {
                1int
            },
        {
            let ghost old_word = word@;
            let ghost old_dv = result.deep_view();
            match overrides.forced_split(&word) {
                Some(idx) => {
                    proof {
                        let ki = crate::types::key_index(overrides.allow_split@, word@);
                        assert(0 <= ki < overrides.allow_split@.len()
                            && overrides.allow_split@[ki].0@ == word@);
                        assert(0 < overrides.allow_split@[ki].1 < word@.len());
                    }
                    let first = crate::phrase::take_bytes(&word, idx);
                    let rest = crate::phrase::skip_bytes(&word, idx);
                    let ghost fv = first@;
                    result.push(first);
                    word = rest;
                    proof {
                        assert(result.deep_view() =~~= old_dv.push(fv));
                        assert(split_word_spec(*overrides, old_word) == seq![old_word.take(
                            idx as int,
                        )] + split_word_spec(*overrides, old_word.skip(idx as int)));
                        assert(old_dv + seq![fv] + split_word_spec(*overrides, word@)
                            =~~= result.deep_view() + split_word_spec(*overrides, word@));
                        assert(old_dv + (seq![fv] + split_word_spec(*overrides, word@)) =~~= (
                        old_dv + seq![fv]) + split_word_spec(*overrides, word@));
                    }
                },
                None => {
                    let ghost wv = word@;
                    result.push(word);
                    word = Vec::new();
                    done = true;
                    proof {
                        assert(split_word_spec(*overrides, wv) =~~= seq![wv]);
                        assert(result.deep_view() =~~= old_dv.push(wv));
                        assert(old_dv + seq![wv] =~~= result.deep_view());
                    }
                },
            }
        }
        proof {
            assert(result.deep_view() =~~= base + split_word_spec(*overrides, tsv[ti as int]));
            assert(tsv.take(ti + 1).drop_last() =~= tsv.take(ti as int));
            assert(tsv.take(ti + 1).last() == tsv[ti as int]);
            assert(result.deep_view() =~~= split_tokens_spec(*overrides, tsv.take(ti + 1)));
        }
        ti += 1;
    }
    proof {
        assert(tsv.take(tn as int) =~= tsv);
    }
    Ok(result)
}

/// The generator never reports the source phrase itself, at any depth.
pub proof fn lemma_no_self_mutation(
    ov: Overrides,
    src: Seq<u8>,
    rs: Seq<(Vec<u8>, usize)>,
    max_depth: int,
)
    requires
        generate_post(ov, src, rs, max_depth),
    ensures
        forall|d: int| !has_pair(rs, src, d),
{
    assert forall|d: int| !has_pair(rs, src, d) by {
        if has_pair(rs, src, d) {
            assert(1 <= d && !reach(ov, src, src, (d - 1) as nat));
            lemma_reach_mono(ov, src, src, 0, (d - 1) as nat);
        }
    }
}

/// Two runs on identical inputs report identical candidate/depth sets.
pub proof fn lemma_determinism(
    ov: Overrides,
    src: Seq<u8>,
    rs1: Seq<(Vec<u8>, usize)>,
    rs2: Seq<(Vec<u8>, usize)>,
    max_depth: int,
)
    requires
        generate_post(ov, src, rs1, max_depth),
        generate_post(ov, src, rs2, max_depth),
    ensures
        forall|q: Seq<u8>, d: int| has_pair(rs1, q, d) <==> has_pair(rs2, q, d),
{
}

proof fn lemma_first_reach(ov: Overrides, src: Seq<u8>, q: Seq<u8>, k: nat)
    requires
        reach(ov, src, q, k),
        q != src,
    ensures
        exists|d: nat|
            1 <= d <= k && reach(ov, src, q, d) && !reach(ov, src, q, #[trigger] ((d - 1) as nat)),
    decreases k,
{
    if k == 0 {
    } else if reach(ov, src, q, (k - 1) as nat) {
        lemma_first_reach(ov, src, q, (k - 1) as nat);
        let d = choose|d: nat|
            1 <= d <= k - 1 && reach(ov, src, q, d) && !reach(
                ov,
                src,
                q,
                #[trigger] ((d - 1) as nat),
            );
        assert(1 <= d <= k && reach(ov, src, q, d) && !reach(ov, src, q, (d - 1) as nat));
    } else {
        assert(1 <= k <= k && reach(ov, src, q, k) && !reach(ov, src, q, (k - 1) as nat));
    }
}

/// A candidate reachable within `k` edits is reported at some depth at
/// most `k`, and at no more than one depth.
pub proof fn lemma_minimal_depth(
    ov: Overrides,
    src: Seq<u8>,
    rs: Seq<(Vec<u8>, usize)>,
    max_depth: int,
    q: Seq<u8>,
    k: int,
)
    requires
        generate_post(ov, src, rs, max_depth),
        1 <= k <= max_depth,
        reach(ov, src, q, k as nat),
        q != src,
    ensures
        exists|d: int| 1 <= d <= k && #[trigger] has_pair(rs, q, d),
        forall|d1: int, d2: int| has_pair(rs, q, d1) && has_pair(rs, q, d2) ==> d1 == d2,
{
    lemma_first_reach(ov, src, q, k as nat);
    let d = choose|d: nat|
        1 <= d <= k && reach(ov, src, q, d) && !reach(ov, src, q, #[trigger] ((d - 1) as nat));
    assert(has_pair(rs, q, d as int));
    assert(1 <= d as int <= k && has_pair(rs, q, d as int));
    assert forall|d1: int, d2: int| has_pair(rs, q, d1) && has_pair(rs, q, d2) implies d1
        == d2 by {
        if d1 != d2 && has_pair(rs, q, d1) && has_pair(rs, q, d2) {
            if d1 < d2 {
                lemma_reach_mono(ov, src, q, d1 as nat, (d2 - 1) as nat);
            } else {
                lemma_reach_mono(ov, src, q, d2 as nat, (d1 - 1) as nat);
            }
        }
    }
}

proof fn lemma_sum_lens_nonneg(ts: Seq<Seq<u8>>)
    ensures
        sum_lens(ts) >= 0,
    decreases ts.len(),
{
    if ts.len() > 0 {
        lemma_sum_lens_nonneg(ts.drop_last());
    }
}

proof fn lemma_split_word_len(ov: Overrides, w: Seq<u8>)
    ensures
        sum_lens(split_word_spec(ov, w)) == w.len(),
        1 <= split_word_spec(ov, w).len(),
        split_word_spec(ov, w).len() <= if w.len() == 0 {
            1int
        } else {
            w.len() as int
        },
    decreases w.len(),
{
    if crate::types::has_key(ov.allow_split@, w) && 0 < crate::types::value_of(ov.allow_split@, w)
        < w.len() {
        let idx = crate::types::value_of(ov.allow_split@, w) as int;
        lemma_split_word_len(ov, w.skip(idx));
        crate::phrase::lemma_sum_lens_single(w.take(idx));
        crate::phrase::lemma_sum_lens_concat(seq![w.take(idx)], split_word_spec(ov, w.skip(idx)));
    } else {
        crate::phrase::lemma_sum_lens_single(w);
    }
}

proof fn lemma_split_tokens_len(ov: Overrides, ts: Seq<Seq<u8>>)
    ensures
        sum_lens(split_tokens_spec(ov, ts)) == sum_lens(ts),
        split_tokens_spec(ov, ts).len() <= ts.len() + sum_lens(ts),
        ts.len() >= 1 ==> split_tokens_spec(ov, ts).len() >= 1,
    decreases ts.len(),
{
    lemma_sum_lens_nonneg(ts);
    if ts.len() > 0 {
        lemma_split_tokens_len(ov, ts.drop_last());
        lemma_split_word_len(ov, ts.last());
        crate::phrase::lemma_sum_lens_concat(
            split_tokens_spec(ov, ts.drop_last()),
            split_word_spec(ov, ts.last()),
        );
        lemma_sum_lens_nonneg(ts.drop_last());
    }
}

/// The source phrase after normalizer pre-splitting.
pub open spec fn mutated_source(ov: Overrides, s: Seq<u8>) -> Seq<u8> {
    join(split_tokens_spec(ov, tokens(s)))
}

/// Forced pre-splitting at most doubles a phrase's length.
pub proof fn lemma_processed_len(ov: Overrides, p: Seq<u8>)
    ensures
        mutated_source(ov, p).len() <= 2 * p.len() + 1,
{
    let ts = tokens(p);
    crate::phrase::lemma_join_tokens(p);
    crate::phrase::lemma_tokens_len(p);
    crate::phrase::lemma_join_len(ts);
    let st = split_tokens_spec(ov, ts);
    lemma_split_tokens_len(ov, ts);
    crate::phrase::lemma_join_len(st);
    lemma_sum_lens_nonneg(ts);
}

/// One accepted candidate: its phrase, its minimal discovery depth,
/// and the severity an oracle assigned it.
pub struct MutationRecord {
    pub candidate: Vec<u8>,
    pub depth: usize,
    pub severity: CheckResult,
}

impl MutationRecord {
    /// A clean accept: severity zero.
    pub fn is_clean(&self) -> (r: bool)
        ensures
            r == (self.severity.v() == 0),
    {
        self.severity.value() == 0
    }

    /// Accepted but flagged: a severity strictly between the clean
    /// accept and the rejection.
    pub fn is_flagged(&self) -> (r: bool)
        ensures
            r == (0 < self.severity.v() < 255),
    {
        let v = self.severity.value();
        0 < v && v < 255
    }
}

/// Whether a record list holds a candidate at a depth with a severity.
pub open spec fn has_record(rs: Seq<MutationRecord>, q: Seq<u8>, d: int, s: u8) -> bool {
    exists|i: int|
        0 <= i < rs.len() && (#[trigger] rs[i]).candidate@ == q && rs[i].depth == d
            && rs[i].severity.v() == s
}

/// One oracle together with the sink-side bookkeeping of its verdicts.
pub struct MutationTarget {
    pub spellchecker: AnyChecker,
}

impl MutationTarget {
    pub fn new(spellchecker: AnyChecker) -> (r: MutationTarget)
        ensures
            r.spellchecker == spellchecker,
    {
        MutationTarget { spellchecker }
    }

    /// Judges one candidate phrase: a candidate equal to the processed
    /// source, or one whose aligned severity rejects it, yields no
    /// record; every other candidate yields its record with the
    /// aligned severity.
    pub fn submit(&self, processed: &Vec<u8>, mutation: &Vec<u8>, depth: usize) -> (r: Option<
        MutationRecord,
    >)
        ensures
            match r {
                None => processed@ == mutation@ || aligned_sev(
                    self.spellchecker,
                    tokens(processed@),
                    tokens(mutation@),
                    tokens(mutation@).len() as int,
                ) == 255,
                Some(rec) => processed@ != mutation@ && rec.candidate@ == mutation@ && rec.depth
                    == depth && rec.severity.v() == aligned_sev(
                    self.spellchecker,
                    tokens(processed@),
                    tokens(mutation@),
                    tokens(mutation@).len() as int,
                ) && rec.severity.v() != 255,
            },
    {
        if crate::phrase::bytes_eq(processed, mutation) {
            return None;
        }
        let cr = crate::spellchecking::aligned_check(&self.spellchecker, processed, mutation);
        if cr.is_fail() {
            None
        } else {
            Some(MutationRecord { candidate: clone_bytes(mutation), depth, severity: cr })
        }
    }
}

/// The per-run generation state: the overrides, the configuration, the
/// configured oracles, and the shared token-mutation cache.
pub struct MutationContext {
    pub overrides: Overrides,
    pub config: MutationConfig,
    pub targets: Vec<MutationTarget>,
    pub cache: crate::cache::TokenCache,
}

impl MutationContext {
    pub fn new(config: MutationConfig, overrides: Overrides, targets: Vec<MutationTarget>) -> (r:
        MutationContext)
        ensures
            r.overrides == overrides,
            r.config == config,
            r.targets == targets,
    {
        MutationContext { overrides, config, targets, cache: crate::cache::TokenCache::new() }
    }

    /// Judges one candidate against every configured oracle.
    pub fn submit(&self, processed: &Vec<u8>, mutation: &Vec<u8>, depth: usize) -> (r: Vec<
        Option<MutationRecord>,
    >)
        ensures
            r@.len() == self.targets@.len(),
            forall|k: int|
                0 <= k < r@.len() ==> match #[trigger] r@[k] {
                    None => processed@ == mutation@ || aligned_sev(
                        self.targets@[k].spellchecker,
                        tokens(processed@),
                        tokens(mutation@),
                        tokens(mutation@).len() as int,
                    ) == 255,
                    Some(rec) => processed@ != mutation@ && rec.candidate@ == mutation@
                        && rec.depth == depth && rec.severity.v() == aligned_sev(
                        self.targets@[k].spellchecker,
                        tokens(processed@),
                        tokens(mutation@),
                        tokens(mutation@).len() as int,
                    ) && rec.severity.v() != 255,
                },
    {
        let mut r: Vec<Option<MutationRecord>> = Vec::new();
        let n = self.targets.len();
        let mut k: usize = 0;
        while k < n
            invariant
                n == self.targets@.len(),
                k <= n,
                r@.len() == k,
                forall|kk: int|
                    0 <= kk < k ==> match #[trigger] r@[kk] {
                        None => processed@ == mutation@ || aligned_sev(
                            self.targets@[kk].spellchecker,
                            tokens(processed@),
                            tokens(mutation@),
                            tokens(mutation@).len() as int,
                        ) == 255,
                        Some(rec) => processed@ != mutation@ && rec.candidate@ == mutation@
                            && rec.depth == depth && rec.severity.v() == aligned_sev(
                            self.targets@[kk].spellchecker,
                            tokens(processed@),
                            tokens(mutation@),
                            tokens(mutation@).len() as int,
                        ) && rec.severity.v() != 255,
                    },
            decreases n - k,
        {
            r.push(self.targets[k].submit(processed, mutation, depth));
            k += 1;
        }
        r
    }

    /// Runs the whole pipeline for one source phrase: validation and
    /// forced pre-splits, depth-limited generation, and one verdict
    /// list per configured oracle, rejected candidates dropped.
    pub fn mutate(&self, string: &Vec<u8>, depth: usize) -> (r: Result<
        Vec<Vec<MutationRecord>>,
        MutationError,
    >)
        requires
            self.overrides.wf(),
            1 <= depth <= self.config.mutation_depth,
            2 * string@.len() + depth + 2 < usize::MAX,
        ensures
            match r {
                Err(e) => e == MutationError::InvalidInputCharacter && !valid_input(string@),
                Ok(out) => valid_input(string@) && out@.len() == self.targets@.len() && forall|
                    k: int,
                    q: Seq<u8>,
                    d: int,
                    s: u8,
                |
                    0 <= k < out@.len() ==> (#[trigger] has_record(out@[k]@, q, d, s) <==> (1 <= d
                        <= depth && reach(self.overrides, mutated_source(self.overrides, string@), q, d as nat)
                        && !reach(
                        self.overrides,
                        mutated_source(self.overrides, string@),
                        q,
                        (d - 1) as nat,
                    ) && s == aligned_sev(
                        self.targets@[k].spellchecker,
                        tokens(mutated_source(self.overrides, string@)),
                        tokens(q),
                        tokens(q).len() as int,
                    ) && s != 255)),
            },
    {
        let toks = match process_split(string, &self.overrides) {
            Ok(ts) => ts,
            Err(e) => {
                return Err(e);
            },
        };
        let processed = crate::phrase::join_tokens(&toks);
        let ghost src = mutated_source(self.overrides, string@);
        proof {
            assert(processed@ == src);
            lemma_processed_len(self.overrides, string@);
        }
        let gen = generate(&processed, depth, &self.overrides, Some(&self.cache));
        let gn = gen.len();
        let mut out: Vec<Vec<MutationRecord>> = Vec::new();
        let tn = self.targets.len();
        let mut k: usize = 0;
        while k < tn
            invariant
                tn == self.targets@.len(),
                gn == gen@.len(),
                k <= tn,
                out@.len() == k,
                self.overrides.wf(),
                1 <= depth,
                processed@ == src,
                generate_post(self.overrides, src, gen@, depth as int),
                distinct_candidates(gen@),
                forall|kk: int, q: Seq<u8>, d: int, s: u8|
                    0 <= kk < k ==> (#[trigger] has_record(out@[kk]@, q, d, s) <==> (1 <= d
                        <= depth && reach(self.overrides, src, q, d as nat) && !reach(
                        self.overrides,
                        src,
                        q,
                        (d - 1) as nat,
                    ) && s == aligned_sev(
                        self.targets@[kk].spellchecker,
                        tokens(src),
                        tokens(q),
                        tokens(q).len() as int,
                    ) && s != 255)),
            decreases tn - k,
        {
            let mut recs: Vec<MutationRecord> = Vec::new();
            let mut gi: usize = 0;
            while gi < gn
                invariant
                    tn == self.targets@.len(),
                    gn == gen@.len(),
                    k < tn,
                    gi <= gn,
                    self.overrides.wf(),
                    1 <= depth,
                    processed@ == src,
                    generate_post(self.overrides, src, gen@, depth as int),
                    distinct_candidates(gen@),
                    forall|q: Seq<u8>, d: int, s: u8|
                        has_record(recs@, q, d, s) <==> (exists|i: int|
                            0 <= i < gi && (#[trigger] gen@[i]).0@ == q && gen@[i].1 == d) && q
                            != src && s == aligned_sev(
                            self.targets@[k as int].spellchecker,
                            tokens(src),
                            tokens(q),
                            tokens(q).len() as int,
                        ) && s != 255,
                decreases gn - gi,
            {
                let ghost old_recs = recs@;
                let r = self.targets[k].submit(&processed, &gen[gi].0, gen[gi].1);
                proof {
                    // every generated candidate differs from the source
                    assert(has_pair(gen@, gen@[gi as int].0@, gen@[gi as int].1 as int)) by {
                        assert((gen@[gi as int]).0@ == gen@[gi as int].0@);
                    }
                    assert(gen@[gi as int].0@ != src) by {
                        if gen@[gi as int].0@ == src {
                            lemma_reach_mono(
                                self.overrides,
                                src,
                                src,
                                0,
                                (gen@[gi as int].1 - 1) as nat,
                            );
                        }
                    }
                }
                match r {
                    Some(rec) => {
                        recs.push(rec);
                        proof {
                            assert(recs@.drop_last() =~= old_recs);
                            assert forall|q: Seq<u8>, d: int, s: u8|
                                has_record(recs@, q, d, s) <==> ((exists|i: int|
                                    0 <= i < gi + 1 && (#[trigger] gen@[i]).0@ == q && gen@[i].1
                                        == d) && q != src && s == aligned_sev(
                                    self.targets@[k as int].spellchecker,
                                    tokens(src),
                                    tokens(q),
                                    tokens(q).len() as int,
                                ) && s != 255) by {
                                if has_record(recs@, q, d, s) {
                                    let i = choose|i: int|
                                        0 <= i < recs@.len() && (#[trigger] recs@[i]).candidate@
                                            == q && recs@[i].depth == d && recs@[i].severity.v()
                                            == s;
                                    if i < old_recs.len() {
                                        assert(has_record(old_recs, q, d, s)) by {
                                            assert(old_recs[i].candidate@ == q && old_recs[i].depth
                                                == d && old_recs[i].severity.v() == s);
                                        }
                                    } else {
                                        assert(gen@[gi as int].0@ == q && gen@[gi as int].1 == d);
                                    }
                                }
                                if (exists|i: int|
                                    0 <= i < gi + 1 && (#[trigger] gen@[i]).0@ == q && gen@[i].1
                                        == d) && q != src && s == aligned_sev(
                                    self.targets@[k as int].spellchecker,
                                    tokens(src),
                                    tokens(q),
                                    tokens(q).len() as int,
                                ) && s != 255 {
                                    let i = choose|i: int|
                                        0 <= i < gi + 1 && (#[trigger] gen@[i]).0@ == q
                                            && gen@[i].1 == d;
                                    if i < gi {
                                        assert(has_record(old_recs, q, d, s));
                                        let j = choose|j: int|
                                            0 <= j < old_recs.len() && (
                                            #[trigger] old_recs[j]).candidate@ == q
                                                && old_recs[j].depth == d
                                                && old_recs[j].severity.v() == s;
                                        assert(recs@[j].candidate@ == q && recs@[j].depth == d
                                            && recs@[j].severity.v() == s);
                                    } else {
                                        assert(q == gen@[gi as int].0@ && d == gen@[gi as int].1);
                                        assert(recs@.last().candidate@ == q && recs@.last().depth
                                            == d && recs@.last().severity.v() == s);
                                        assert(has_record(recs@, q, d, s)) by {
                                            assert(recs@[recs@.len() - 1].candidate@ == q
                                                && recs@[recs@.len() - 1].depth == d
                                                && recs@[recs@.len() - 1].severity.v() == s);
                                        }
                                    }
                                }
                            }
                        }
                    },
                    None => {
                        proof {
                            assert forall|q: Seq<u8>, d: int, s: u8|
                                has_record(recs@, q, d, s) <==> ((exists|i: int|
                                    0 <= i < gi + 1 && (#[trigger] gen@[i]).0@ == q && gen@[i].1
                                        == d) && q != src && s == aligned_sev(
                                    self.targets@[k as int].spellchecker,
                                    tokens(src),
                                    tokens(q),
                                    tokens(q).len() as int,
                                ) && s != 255) by {
                                if (exists|i: int|
                                    0 <= i < gi + 1 && (#[trigger] gen@[i]).0@ == q && gen@[i].1
                                        == d) && q != src && s == aligned_sev(
                                    self.targets@[k as int].spellchecker,
                                    tokens(src),
                                    tokens(q),
                                    tokens(q).len() as int,
                                ) && s != 255 {
                                    let i = choose|i: int|
                                        0 <= i < gi + 1 && (#[trigger] gen@[i]).0@ == q
                                            && gen@[i].1 == d;
                                    assert(i < gi);
                                }
                            }
                        }
                    },
                }
                gi += 1;
            }
            out.push(recs);
            proof {
                assert(out@.drop_last() =~= out@.take(out@.len() - 1));
                assert forall|kk: int, q: Seq<u8>, d: int, s: u8|
                    0 <= kk < k + 1 implies (#[trigger] has_record(out@[kk]@, q, d, s) <==> (1
                    <= d <= depth && reach(self.overrides, src, q, d as nat) && !reach(
                    self.overrides,
                    src,
                    q,
                    (d - 1) as nat,
                ) && s == aligned_sev(
                    self.targets@[kk].spellchecker,
                    tokens(src),
                    tokens(q),
                    tokens(q).len() as int,
                ) && s != 255)) by {
                    if kk == k {
                        assert(out@[kk] == recs);
                        if has_record(recs@, q, d, s) {
                            let i = choose|i: int|
                                0 <= i < gn && (#[trigger] gen@[i]).0@ == q && gen@[i].1 == d;
                            assert(has_pair(gen@, q, d)) by {
                                assert(gen@[i].0@ == q && gen@[i].1 == d);
                            }
                        }
                        if 1 <= d <= depth && reach(self.overrides, src, q, d as nat) && !reach(
                            self.overrides,
                            src,
                            q,
                            (d - 1) as nat,
                        ) {
                            assert(has_pair(gen@, q, d));
                            let i = choose|i: int|
                                0 <= i < gen@.len() && (#[trigger] gen@[i]).0@ == q && gen@[i].1
                                    == d;
                            assert(q != src) by {
                                if q == src {
                                    lemma_reach_mono(self.overrides, src, src, 0, (d - 1) as nat);
                                }
                            }
                        }
                    }
                }
            }
            k += 1;
        }
        Ok(out)
    }
}

} // verus!
