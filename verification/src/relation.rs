//! The relation graph: an online union-merge of dictionary groups into
//! connected components of related words, with tier annotations.

use vstd::prelude::*;

use crate::phrase::{bytes_eq, clone_bytes, contains_bytes};

verus! {

/// One parsed dictionary group: a tier and the words it relates.
pub struct RelationGroup {
    pub tier: u8,
    pub members: Vec<Vec<u8>>,
}

/// One known word with its tier and its connected-component id.
pub struct RelEntry {
    pub word: Vec<u8>,
    pub tier: u8,
    pub comp: usize,
}

/// Whether a word is a member of a group.
pub open spec fn in_group(g: RelationGroup, w: Seq<u8>) -> bool {
    exists|k: int| 0 <= k < g.members@.len() && g.members@[k]@ == w
}

/// Whether a word is a member of any group of the list.
pub open spec fn in_some_group(groups: Seq<RelationGroup>, w: Seq<u8>) -> bool {
    exists|gi: int| 0 <= gi < groups.len() && in_group(#[trigger] groups[gi], w)
}

/// Two words co-occur in one group of the list.
pub open spec fn step(groups: Seq<RelationGroup>, a: Seq<u8>, b: Seq<u8>) -> bool {
    exists|gi: int|
        0 <= gi < groups.len() && in_group(#[trigger] groups[gi], a) && in_group(groups[gi], b)
}

/// A chain of co-occurrences from `a` to `b`.
pub open spec fn is_path(
    groups: Seq<RelationGroup>,
    p: Seq<Seq<u8>>,
    a: Seq<u8>,
    b: Seq<u8>,
) -> bool {
    &&& p.len() >= 1
    &&& p[0] == a
    &&& p.last() == b
    &&& forall|i: int| 0 <= i < p.len() - 1 ==> step(groups, #[trigger] p[i], p[i + 1])
}

/// Two words are related when some chain of co-occurrences joins them,
/// directly or transitively through shared members.  The relation does
/// not depend on the order of the group list, only on which groups are
/// in it.
pub open spec fn related(groups: Seq<RelationGroup>, a: Seq<u8>, b: Seq<u8>) -> bool {
    exists|p: Seq<Seq<u8>>| #[trigger] is_path(groups, p, a, b)
}

/// The tier of the last group of the list that contains the word.
pub open spec fn last_tier(groups: Seq<RelationGroup>, w: Seq<u8>) -> u8
    decreases groups.len(),
{
    if groups.len() == 0 {
        0
    } else if in_group(groups.last(), w) {
        groups.last().tier
    } else {
        last_tier(groups.drop_last(), w)
    }
}

pub proof fn lemma_related_refl(groups: Seq<RelationGroup>, a: Seq<u8>)
    ensures
        related(groups, a, a),
{
    assert(is_path(groups, seq![a], a, a));
}

pub proof fn lemma_related_sym(groups: Seq<RelationGroup>, a: Seq<u8>, b: Seq<u8>)
    requires
        related(groups, a, b),
    ensures
        related(groups, b, a),
{
    let p = choose|p: Seq<Seq<u8>>| #[trigger] is_path(groups, p, a, b);
    lemma_path_reverse(groups, p, a, b);
}

proof fn lemma_path_reverse(groups: Seq<RelationGroup>, p: Seq<Seq<u8>>, a: Seq<u8>, b: Seq<u8>)
    requires
        is_path(groups, p, a, b),
    ensures
        related(groups, b, a),
    decreases p.len(),
{
    if p.len() == 1 {
        assert(is_path(groups, seq![b], b, a));
    } else {
        let q = p.drop_last();
        assert(is_path(groups, q, a, p[p.len() - 2])) by {
            assert(q[0] == a);
            assert(q.last() == p[p.len() - 2]);
        }
        lemma_path_reverse(groups, q, a, p[p.len() - 2]);
        let rq = choose|rq: Seq<Seq<u8>>| #[trigger] is_path(groups, rq, p[p.len() - 2], a);
        let r = seq![b] + rq;
        assert(is_path(groups, r, b, a)) by {
            assert(r[0] == b);
            assert(r.last() == rq.last());
            assert(step(groups, p[p.len() - 2], p[p.len() - 1]));
            assert forall|i: int| 0 <= i < r.len() - 1 implies step(
                groups,
                #[trigger] r[i],
                r[i + 1],
            ) by {
                if i == 0 {
                    assert(r[0] == b && r[1] == rq[0]);
                    assert(rq[0] == p[p.len() - 2]);
                    assert(b == p.last());
                    assert(step(groups, p[p.len() - 2], b));
                } else {
                    assert(r[i] == rq[i - 1] && r[i + 1] == rq[i]);
                }
            }
        }
    }
}

pub proof fn lemma_related_trans(groups: Seq<RelationGroup>, a: Seq<u8>, b: Seq<u8>, c: Seq<u8>)
    requires
        related(groups, a, b),
        related(groups, b, c),
    ensures
        related(groups, a, c),
{
    let p1 = choose|p: Seq<Seq<u8>>| #[trigger] is_path(groups, p, a, b);
    let p2 = choose|p: Seq<Seq<u8>>| #[trigger] is_path(groups, p, b, c);
    if p2.len() == 1 {
        assert(is_path(groups, p1, a, c));
    } else {
        let p = p1 + p2.skip(1);
        assert(is_path(groups, p, a, c)) by {
            assert(p[0] == p1[0]);
            assert(p.last() == p2.last());
            assert forall|i: int| 0 <= i < p.len() - 1 implies step(
                groups,
                #[trigger] p[i],
                p[i + 1],
            ) by {
                if i < p1.len() - 1 {
                    assert(p[i] == p1[i] && p[i + 1] == p1[i + 1]);
                } else if i == p1.len() - 1 {
                    assert(p[i] == p1.last() && p[i + 1] == p2.skip(1)[0]);
                    assert(p2.skip(1)[0] == p2[1]);
                    assert(step(groups, p2[0], p2[1]));
                } else {
                    assert(p[i] == p2.skip(1)[i - p1.len()]);
                    assert(p[i] == p2[i - p1.len() + 1]);
                    assert(p[i + 1] == p2[i - p1.len() + 2]);
                    assert(step(groups, p2[i - p1.len() + 1], p2[i - p1.len() + 2]));
                }
            }
        }
    }
}

/// A word related to a different word occurs in some group.
pub proof fn lemma_related_known(groups: Seq<RelationGroup>, a: Seq<u8>, b: Seq<u8>)
    requires
        related(groups, a, b),
        a != b,
    ensures
        in_some_group(groups, a),
        in_some_group(groups, b),
{
    let p = choose|p: Seq<Seq<u8>>| #[trigger] is_path(groups, p, a, b);
    lemma_path_ends_known(groups, p, a, b);
}

proof fn lemma_path_ends_known(
    groups: Seq<RelationGroup>,
    p: Seq<Seq<u8>>,
    a: Seq<u8>,
    b: Seq<u8>,
)
    requires
        is_path(groups, p, a, b),
        a != b,
    ensures
        in_some_group(groups, a),
        in_some_group(groups, b),
{
    assert(p.len() >= 2);
    assert(step(groups, p[0], p[1]));
    let gi = choose|gi: int|
        0 <= gi < groups.len() && in_group(#[trigger] groups[gi], p[0]) && in_group(
            groups[gi],
            p[1],
        );
    assert(in_some_group(groups, a));
    assert(step(groups, p[p.len() - 2], p[p.len() - 1]));
    let gj = choose|gj: int|
        0 <= gj < groups.len() && in_group(#[trigger] groups[gj], p[p.len() - 2]) && in_group(
            groups[gj],
            p[p.len() - 1],
        );
    assert(in_group(groups[gj], b));
    assert(in_some_group(groups, b));
}

/// `x` is connected to the new group `g`: related (under the old list)
/// to some member of `g`.
pub open spec fn conn(groups: Seq<RelationGroup>, g: RelationGroup, x: Seq<u8>) -> bool {
    exists|m: Seq<u8>| in_group(g, m) && #[trigger] related(groups, x, m)
}

proof fn lemma_step_mono(groups: Seq<RelationGroup>, g: RelationGroup, a: Seq<u8>, b: Seq<u8>)
    requires
        step(groups, a, b),
    ensures
        step(groups.push(g), a, b),
{
    let gi = choose|gi: int|
        0 <= gi < groups.len() && in_group(#[trigger] groups[gi], a) && in_group(groups[gi], b);
    assert(groups.push(g)[gi] == groups[gi]);
    assert(in_group(groups.push(g)[gi], a) && in_group(groups.push(g)[gi], b));
}

proof fn lemma_related_mono(groups: Seq<RelationGroup>, g: RelationGroup, a: Seq<u8>, b: Seq<u8>)
    requires
        related(groups, a, b),
    ensures
        related(groups.push(g), a, b),
{
    let p = choose|p: Seq<Seq<u8>>| #[trigger] is_path(groups, p, a, b);
    assert(is_path(groups.push(g), p, a, b)) by {
        assert forall|i: int| 0 <= i < p.len() - 1 implies step(
            groups.push(g),
            #[trigger] p[i],
            p[i + 1],
        ) by {
            lemma_step_mono(groups, g, p[i], p[i + 1]);
        }
    }
}

/// Appending one group relates two words exactly when the old list
/// already related them, or both are connected to the new group.
pub proof fn lemma_related_extend(
    groups: Seq<RelationGroup>,
    g: RelationGroup,
    a: Seq<u8>,
    b: Seq<u8>,
)
    ensures
        related(groups.push(g), a, b) <==> (related(groups, a, b) || (conn(groups, g, a) && conn(
            groups,
            g,
            b,
        ))),
{
    if related(groups.push(g), a, b) {
        let p = choose|p: Seq<Seq<u8>>| #[trigger] is_path(groups.push(g), p, a, b);
        lemma_path_split(groups, g, p, a, b);
    }
    if related(groups, a, b) {
        lemma_related_mono(groups, g, a, b);
    } else if conn(groups, g, a) && conn(groups, g, b) {
        let ma = choose|m: Seq<u8>| in_group(g, m) && #[trigger] related(groups, a, m);
        let mb = choose|m: Seq<u8>| in_group(g, m) && #[trigger] related(groups, b, m);
        lemma_related_mono(groups, g, a, ma);
        lemma_related_mono(groups, g, b, mb);
        assert(step(groups.push(g), ma, mb)) by {
            let n = groups.len() as int;
            assert(groups.push(g)[n] == g);
        }
        assert(related(groups.push(g), ma, mb)) by {
            assert(is_path(groups.push(g), seq![ma, mb], ma, mb));
        }
        lemma_related_trans(groups.push(g), a, ma, mb);
        lemma_related_sym(groups.push(g), b, mb);
        lemma_related_sym(groups.push(g), mb, b);
        lemma_related_trans(groups.push(g), a, mb, b);
    }
}

/// Whether an entry list holds a word.
pub open spec fn has_entry(es: Seq<RelEntry>, w: Seq<u8>) -> bool {
    exists|i: int| 0 <= i < es.len() && (#[trigger] es[i]).word@ == w
}

/// The index of a word's entry.
pub open spec fn entry_index(es: Seq<RelEntry>, w: Seq<u8>) -> int {
    choose|i: int| 0 <= i < es.len() && (#[trigger] es[i]).word@ == w
}

/// Entry words are pairwise distinct.
pub open spec fn distinct_entries(es: Seq<RelEntry>) -> bool {
    forall|i: int, j: int|
        0 <= i < j < es.len() ==> (#[trigger] es[i]).word@ != (#[trigger] es[j]).word@
}

/// The word-relation graph: every known word with its tier and its
/// connected-component id.
pub struct RelationGraph {
    pub entries: Vec<RelEntry>,
}

impl RelationGraph {
    /// Well-formedness: one entry per word.
    pub open spec fn wf(self) -> bool {
        distinct_entries(self.entries@)
    }

    /// Whether the graph knows a word.
    pub open spec fn has_word(self, w: Seq<u8>) -> bool {
        has_entry(self.entries@, w)
    }

    /// A known word's tier.
    pub open spec fn tier_of(self, w: Seq<u8>) -> u8 {
        self.entries@[entry_index(self.entries@, w)].tier
    }

    /// A known word's connected-component id.
    pub open spec fn comp_of(self, w: Seq<u8>) -> usize {
        self.entries@[entry_index(self.entries@, w)].comp
    }

    /// Finds a word's entry.
    pub fn find(&self, w: &Vec<u8>) -> (r: Option<usize>)
        requires
            self.wf(),
        ensures
            match r {
                Some(i) => i < self.entries@.len() && self.entries@[i as int].word@ == w@
                    && self.has_word(w@) && self.entries@[i as int].tier == self.tier_of(w@)
                    && self.entries@[i as int].comp == self.comp_of(w@),
                None => !self.has_word(w@),
            },
    {
        let n = self.entries.len();
        let mut i: usize = 0;
        while i < n
            invariant
                n == self.entries.len(),
                i <= n,
                self.wf(),
                forall|j: int| 0 <= j < i ==> (#[trigger] self.entries@[j]).word@ != w@,
            decreases n - i,
        {
            if bytes_eq(&self.entries[i].word, w) {
                proof {
                    let k = entry_index(self.entries@, w@);
                    assert(0 <= k < n && self.entries@[k].word@ == w@);
                    assert(k == i);
                }
                return Some(i);
            }
            i += 1;
        }
        None
    }
}

/// What `RelationGraph::build` promises: the graph knows exactly the
/// words of the groups; two known words share a component exactly when
/// the groups relate them, in any order of processing; and each word
/// carries the tier of the last group that named it.
pub open spec fn build_post(groups: Seq<RelationGroup>, gr: RelationGraph) -> bool {
    &&& gr.wf()
    &&& forall|w: Seq<u8>| #[trigger] gr.has_word(w) <==> in_some_group(groups, w)
    &&& forall|a: Seq<u8>, b: Seq<u8>|
        gr.has_word(a) && gr.has_word(b) ==> ((gr.comp_of(a) == gr.comp_of(b)) <==> #[trigger]
        related(groups, a, b))
    &&& forall|w: Seq<u8>| #[trigger] gr.has_word(w) ==> gr.tier_of(w) == last_tier(groups, w)
}

fn contains_usize(v: &Vec<usize>, x: usize) -> (r: bool)
    ensures
        r == v@.contains(x),
{
    let n = v.len();
    let mut i: usize = 0;
    while i < n
        invariant
            n == v.len(),
            i <= n,
            forall|j: int| 0 <= j < i ==> v@[j] != x,
        decreases n - i,
    {
        if v[i] == x {
            return true;
        }
        i += 1;
    }
    false
}

fn has_word_exec(es: &Vec<RelEntry>, w: &Vec<u8>) -> (r: bool)
    ensures
        r == has_entry(es@, w@),
{
    let n = es.len();
    let mut i: usize = 0;
    while i < n
        invariant
            n == es.len(),
            i <= n,
            forall|j: int| 0 <= j < i ==> (#[trigger] es@[j]).word@ != w@,
        decreases n - i,
    {
        if bytes_eq(&es[i].word, w) {
            return true;
        }
        i += 1;
    }
    false
}

proof fn lemma_path_split(
    groups: Seq<RelationGroup>,
    g: RelationGroup,
    p: Seq<Seq<u8>>,
    a: Seq<u8>,
    b: Seq<u8>,
)
    requires
        is_path(groups.push(g), p, a, b),
    ensures
        related(groups, a, b) || (conn(groups, g, a) && conn(groups, g, b)),
    decreases p.len(),
{
    if p.len() == 1 {
        lemma_related_refl(groups, a);
        assert(related(groups, a, b));
    } else {
        let q = p.skip(1);
        assert(is_path(groups.push(g), q, p[1], b)) by {
            assert(q[0] == p[1]);
            assert(q.last() == p.last());
            assert forall|i: int| 0 <= i < q.len() - 1 implies step(
                groups.push(g),
                #[trigger] q[i],
                q[i + 1],
            ) by {
                assert(q[i] == p[i + 1] && q[i + 1] == p[i + 2]);
                assert(step(groups.push(g), p[i + 1], p[i + 2]));
            }
        }
        lemma_path_split(groups, g, q, p[1], b);
        assert(step(groups.push(g), p[0], p[1]));
        let gi = choose|gi: int|
            0 <= gi < groups.push(g).len() && in_group(#[trigger] groups.push(g)[gi], p[0])
                && in_group(groups.push(g)[gi], p[1]);
        if gi < groups.len() {
            // the first step already exists in the old list
            assert(step(groups, p[0], p[1])) by {
                assert(groups.push(g)[gi] == groups[gi]);
            }
            assert(related(groups, a, p[1])) by {
                assert(is_path(groups, seq![a, p[1]], a, p[1]));
            }
            if related(groups, p[1], b) {
                lemma_related_trans(groups, a, p[1], b);
            } else {
                assert(conn(groups, g, p[1]) && conn(groups, g, b));
                let m = choose|m: Seq<u8>| in_group(g, m) && #[trigger] related(groups, p[1], m);
                lemma_related_trans(groups, a, p[1], m);
                assert(conn(groups, g, a));
            }
        } else {
            // the first step crosses the new group
            assert(groups.push(g)[gi] == g);
            assert(in_group(g, p[0]) && in_group(g, p[1]));
            lemma_related_refl(groups, a);
            assert(conn(groups, g, a)) by {
                assert(in_group(g, p[0]) && related(groups, a, p[0]));
            }
            if related(groups, p[1], b) {
                lemma_related_sym(groups, p[1], b);
                assert(conn(groups, g, b)) by {
                    assert(in_group(g, p[1]) && related(groups, b, p[1]));
                }
            } else {
                assert(conn(groups, g, b));
            }
        }
    }
}

/// Maintenance of the builder's invariants over one group: the fresh
/// component `c` is exactly the union of the components touched by the
/// group, and tiers follow the last write.
proof fn lemma_group_invariants(
    prefix: Seq<RelationGroup>,
    g: RelationGroup,
    oldes: Seq<RelEntry>,
    es2: Seq<RelEntry>,
    ids: Seq<usize>,
    c: usize,
)
    requires
        distinct_entries(oldes),
        forall|i: int| 0 <= i < oldes.len() ==> (#[trigger] oldes[i]).comp < c,
        forall|w: Seq<u8>| #[trigger] has_entry(oldes, w) <==> in_some_group(prefix, w),
        forall|i: int|
            0 <= i < oldes.len() ==> (#[trigger] oldes[i]).tier == last_tier(
                prefix,
                oldes[i].word@,
            ),
        forall|i: int, j: int|
            0 <= i < oldes.len() && 0 <= j < oldes.len() ==> (((#[trigger] oldes[i]).comp == (
            #[trigger] oldes[j]).comp) <==> related(prefix, oldes[i].word@, oldes[j].word@)),
        forall|x: usize| #[trigger] ids.contains(x) <==> exists|i: int|
            0 <= i < oldes.len() && in_group(g, (#[trigger] oldes[i]).word@) && oldes[i].comp == x,
        es2.len() >= oldes.len(),
        forall|i: int|
            0 <= i < oldes.len() ==> (#[trigger] es2[i]).word@ == oldes[i].word@ && es2[i].tier
                == (if in_group(g, oldes[i].word@) {
                g.tier
            } else {
                oldes[i].tier
            }) && es2[i].comp == (if ids.contains(oldes[i].comp) {
                c
            } else {
                oldes[i].comp
            }),
        forall|i: int|
            oldes.len() <= i < es2.len() ==> in_group(g, (#[trigger] es2[i]).word@) && !has_entry(
                oldes,
                es2[i].word@,
            ) && es2[i].tier == g.tier && es2[i].comp == c,
        distinct_entries(es2),
        forall|k: int| 0 <= k < g.members@.len() ==> has_entry(es2, (#[trigger] g.members@[k])@),
    ensures
        forall|i: int| 0 <= i < es2.len() ==> (#[trigger] es2[i]).comp <= c,
        forall|w: Seq<u8>| #[trigger] has_entry(es2, w) <==> in_some_group(prefix.push(g), w),
        forall|i: int|
            0 <= i < es2.len() ==> (#[trigger] es2[i]).tier == last_tier(
                prefix.push(g),
                es2[i].word@,
            ),
        forall|i: int, j: int|
            0 <= i < es2.len() && 0 <= j < es2.len() ==> (((#[trigger] es2[i]).comp == (
            #[trigger] es2[j]).comp) <==> related(prefix.push(g), es2[i].word@, es2[j].word@)),
{
    let push = prefix.push(g);
    assert(push.last() == g);
    assert(push.drop_last() =~= prefix);

    // For an old entry, being relabeled is the same as being connected
    // to the new group under the old list.
    assert forall|i: int| 0 <= i < oldes.len() implies (ids.contains(
        #[trigger] oldes[i].comp,
    ) <==> conn(prefix, g, oldes[i].word@)) by {
        if ids.contains(oldes[i].comp) {
            let k = choose|k: int|
                0 <= k < oldes.len() && in_group(g, (#[trigger] oldes[k]).word@) && oldes[k].comp
                    == oldes[i].comp;
            assert(related(prefix, oldes[i].word@, oldes[k].word@));
            assert(conn(prefix, g, oldes[i].word@));
        }
        if conn(prefix, g, oldes[i].word@) {
            let m = choose|m: Seq<u8>|
                in_group(g, m) && #[trigger] related(prefix, oldes[i].word@, m);
            if m == oldes[i].word@ {
                assert(ids.contains(oldes[i].comp)) by {
                    assert(in_group(g, oldes[i].word@) && oldes[i].comp == oldes[i].comp);
                }
            } else {
                lemma_related_known(prefix, oldes[i].word@, m);
                assert(has_entry(oldes, m));
                let k = choose|k: int| 0 <= k < oldes.len() && (#[trigger] oldes[k]).word@ == m;
                assert(oldes[k].comp == oldes[i].comp);
                assert(ids.contains(oldes[k].comp)) by {
                    assert(in_group(g, oldes[k].word@) && oldes[k].comp == oldes[k].comp);
                }
            }
        }
    }

    // Every entry's component is c exactly when the entry's word is
    // connected to the new group.
    assert forall|i: int| 0 <= i < es2.len() implies ((#[trigger] es2[i]).comp == c <==> conn(
        prefix,
        g,
        es2[i].word@,
    )) by {
        if i < oldes.len() {
            if ids.contains(oldes[i].comp) {
                assert(es2[i].comp == c);
            } else {
                assert(es2[i].comp == oldes[i].comp < c);
            }
        } else {
            lemma_related_refl(prefix, es2[i].word@);
            assert(conn(prefix, g, es2[i].word@)) by {
                assert(in_group(g, es2[i].word@) && related(prefix, es2[i].word@, es2[i].word@));
            }
        }
    }

    // Known words.
    assert forall|w: Seq<u8>| #[trigger] has_entry(es2, w) <==> in_some_group(push, w) by {
        if has_entry(es2, w) {
            let i = choose|i: int| 0 <= i < es2.len() && (#[trigger] es2[i]).word@ == w;
            if i < oldes.len() {
                assert(has_entry(oldes, w)) by {
                    assert(oldes[i].word@ == w);
                }
                assert(in_some_group(prefix, w));
                let gj = choose|gj: int|
                    0 <= gj < prefix.len() && in_group(#[trigger] prefix[gj], w);
                assert(push[gj] == prefix[gj]);
                assert(in_some_group(push, w));
            } else {
                assert(in_group(g, w));
                assert(push[prefix.len() as int] == g);
                assert(in_some_group(push, w));
            }
        }
        if in_some_group(push, w) {
            let gj = choose|gj: int| 0 <= gj < push.len() && in_group(#[trigger] push[gj], w);
            if gj < prefix.len() {
                assert(push[gj] == prefix[gj]);
                assert(in_some_group(prefix, w));
                assert(has_entry(oldes, w));
                let i = choose|i: int| 0 <= i < oldes.len() && (#[trigger] oldes[i]).word@ == w;
                assert(es2[i].word@ == w);
                assert(has_entry(es2, w));
            } else {
                assert(in_group(g, w));
                let k = choose|k: int| 0 <= k < g.members@.len() && (#[trigger] g.members@[k])@ == w;
                assert(has_entry(es2, g.members@[k]@));
            }
        }
    }

    // Tiers: last write wins.
    assert forall|i: int| 0 <= i < es2.len() implies (#[trigger] es2[i]).tier == last_tier(
        push,
        es2[i].word@,
    ) by {
        if in_group(g, es2[i].word@) {
            assert(last_tier(push, es2[i].word@) == g.tier);
        } else {
            assert(i < oldes.len());
            assert(last_tier(push, es2[i].word@) == last_tier(prefix, es2[i].word@));
        }
    }

    // Components: the merged component is exactly the union.
    assert forall|i: int, j: int| 0 <= i < es2.len() && 0 <= j < es2.len() implies (((
    #[trigger] es2[i]).comp == (#[trigger] es2[j]).comp) <==> related(
        push,
        es2[i].word@,
        es2[j].word@,
    )) by {
        let wi = es2[i].word@;
        let wj = es2[j].word@;
        lemma_related_extend(prefix, g, wi, wj);
        let ti = es2[i].comp == c;
        let tj = es2[j].comp == c;
        if ti && tj {
            assert(es2[i].comp == es2[j].comp);
            assert(conn(prefix, g, wi) && conn(prefix, g, wj));
            assert(related(push, wi, wj));
        } else if ti != tj {
            assert(es2[i].comp != es2[j].comp) by {
                if i < oldes.len() && !ti {
                    assert(es2[i].comp < c);
                }
                if j < oldes.len() && !tj {
                    assert(es2[j].comp < c);
                }
            }
            assert(!related(push, wi, wj)) by {
                assert(!(conn(prefix, g, wi) && conn(prefix, g, wj)));
                if related(prefix, wi, wj) {
                    if i < oldes.len() && j < oldes.len() {
                        assert(oldes[i].comp == oldes[j].comp);
                        assert(ids.contains(oldes[i].comp) == ids.contains(oldes[j].comp));
                        assert(ti == tj);
                    } else if i >= oldes.len() {
                        assert(wi != wj) by {
                            if i < j {
                            } else {
                                assert(j < i);
                            }
                        }
                        lemma_related_known(prefix, wi, wj);
                        assert(has_entry(oldes, wi));
                        assert(false);
                    } else {
                        assert(j >= oldes.len());
                        assert(wi != wj);
                        lemma_related_known(prefix, wi, wj);
                        assert(has_entry(oldes, wj));
                        assert(false);
                    }
                }
            }
        } else {
            // neither component is the fresh one
            assert(i < oldes.len() && j < oldes.len());
            assert(es2[i].comp == oldes[i].comp && es2[j].comp == oldes[j].comp);
            assert(!conn(prefix, g, wi));
            assert((es2[i].comp == es2[j].comp) <==> related(prefix, wi, wj));
            assert(related(push, wi, wj) <==> related(prefix, wi, wj));
        }
    }
}

/// Lifts the builder's entry-level invariants to the word level.
proof fn lemma_entry_to_word_level(groups: Seq<RelationGroup>, gr: RelationGraph)
    requires
        distinct_entries(gr.entries@),
        forall|w: Seq<u8>| #[trigger] has_entry(gr.entries@, w) <==> in_some_group(groups, w),
        forall|i: int|
            0 <= i < gr.entries@.len() ==> (#[trigger] gr.entries@[i]).tier == last_tier(
                groups,
                gr.entries@[i].word@,
            ),
        forall|i: int, j: int|
            0 <= i < gr.entries@.len() && 0 <= j < gr.entries@.len() ==> (((
            #[trigger] gr.entries@[i]).comp == (#[trigger] gr.entries@[j]).comp) <==> related(
                groups,
                gr.entries@[i].word@,
                gr.entries@[j].word@,
            )),
    ensures
        build_post(groups, gr),
{
    assert forall|a: Seq<u8>, b: Seq<u8>| gr.has_word(a) && gr.has_word(b) implies ((gr.comp_of(a)
        == gr.comp_of(b)) <==> #[trigger] related(groups, a, b)) by {
        let ia = entry_index(gr.entries@, a);
        let ib = entry_index(gr.entries@, b);
        assert(0 <= ia < gr.entries@.len() && gr.entries@[ia].word@ == a);
        assert(0 <= ib < gr.entries@.len() && gr.entries@[ib].word@ == b);
        assert((gr.entries@[ia].comp == gr.entries@[ib].comp) <==> related(groups, a, b));
    }
    assert forall|w: Seq<u8>| #[trigger] gr.has_word(w) implies gr.tier_of(w) == last_tier(
        groups,
        w,
    ) by {
        let iw = entry_index(gr.entries@, w);
        assert(0 <= iw < gr.entries@.len() && gr.entries@[iw].word@ == w);
    }
}

impl RelationGraph {
    /// Builds the relation graph by processing the groups in order:
    /// for each group, the components of its already-known members are
    /// merged with its new members into one fresh component, and every
    /// member's tier is set to the group's tier (last write wins).
    pub fn build(groups: &Vec<RelationGroup>) -> (gr: RelationGraph)
        ensures
            build_post(groups@, gr),
    {
        let mut entries: Vec<RelEntry> = Vec::new();
        let gn = groups.len();
        let mut gi: usize = 0;
        proof {
            assert(groups@.take(0) =~= Seq::<RelationGroup>::empty());
        }
        while gi < gn
            invariant
                gn == groups.len(),
                gi <= gn,
                distinct_entries(entries@),
                forall|i: int| 0 <= i < entries@.len() ==> (#[trigger] entries@[i]).comp <= gi,
                forall|w: Seq<u8>| #[trigger] has_entry(entries@, w) <==> in_some_group(
                    groups@.take(gi as int),
                    w,
                ),
                forall|i: int|
                    0 <= i < entries@.len() ==> (#[trigger] entries@[i]).tier == last_tier(
                        groups@.take(gi as int),
                        entries@[i].word@,
                    ),
                forall|i: int, j: int|
                    0 <= i < entries@.len() && 0 <= j < entries@.len() ==> (((
                    #[trigger] entries@[i]).comp == (#[trigger] entries@[j]).comp) <==> related(
                        groups@.take(gi as int),
                        entries@[i].word@,
                        entries@[j].word@,
                    )),
            decreases gn - gi,
        {
            let ghost prefix = groups@.take(gi as int);
            let ghost oldes = entries@;
            let g = &groups[gi];
            let c = gi + 1;

            // Collect the component ids of the group's known members.
            let mut ids: Vec<usize> = Vec::new();
            let en = entries.len();
            let mut ei: usize = 0;
            while ei < en
                invariant
                    en == entries.len(),
                    ei <= en,
                    gi < gn == groups.len(),
                    forall|x: usize| #[trigger] ids@.contains(x) <==> exists|i: int|
                        0 <= i < ei && in_group(groups@[gi as int], (#[trigger] entries@[i]).word@)
                            && entries@[i].comp == x,
                decreases en - ei,
            {
                if contains_bytes(&groups[gi].members, &entries[ei].word) {
                    let ghost old_ids = ids@;
                    ids.push(entries[ei].comp);
                    proof {
                        assert(in_group(groups@[gi as int], entries@[ei as int].word@));
                        assert forall|x: usize| #[trigger] ids@.contains(x) <==> exists|i: int|
                            0 <= i < ei + 1 && in_group(
                                groups@[gi as int],
                                (#[trigger] entries@[i]).word@,
                            ) && entries@[i].comp == x by {
                            if ids@.contains(x) {
                                let k = choose|k: int| 0 <= k < ids@.len() && ids@[k] == x;
                                if k < old_ids.len() {
                                    assert(old_ids.contains(x)) by {
                                        assert(old_ids[k] == x);
                                    }
                                } else {
                                    assert(x == entries@[ei as int].comp);
                                }
                            }
                            if exists|i: int|
                                0 <= i < ei + 1 && in_group(
                                    groups@[gi as int],
                                    (#[trigger] entries@[i]).word@,
                                ) && entries@[i].comp == x {
                                let i = choose|i: int|
                                    0 <= i < ei + 1 && in_group(
                                        groups@[gi as int],
                                        (#[trigger] entries@[i]).word@,
                                    ) && entries@[i].comp == x;
                                if i < ei {
                                    assert(old_ids.contains(x));
                                    let k = choose|k: int|
                                        0 <= k < old_ids.len() && old_ids[k] == x;
                                    assert(ids@[k] == x);
                                } else {
                                    assert(ids@.last() == x);
                                }
                            }
                        }
                    }
                } else {
                    proof {
                        assert(!in_group(groups@[gi as int], entries@[ei as int].word@));
                    }
                }
                ei += 1;
            }

            // Relabel touched components and update known members' tiers.
            let mut es2: Vec<RelEntry> = Vec::new();
            let mut ri: usize = 0;
            while ri < en
                invariant
                    en == entries.len(),
                    ri <= en,
                    gi < gn == groups.len(),
                    c == gi + 1,
                    es2@.len() == ri,
                    forall|i: int|
                        0 <= i < ri ==> (#[trigger] es2@[i]).word@ == entries@[i].word@,
                    forall|i: int|
                        0 <= i < ri ==> (#[trigger] es2@[i]).tier == (if in_group(
                            groups@[gi as int],
                            entries@[i].word@,
                        ) {
                            groups@[gi as int].tier
                        } else {
                            entries@[i].tier
                        }),
                    forall|i: int|
                        0 <= i < ri ==> (#[trigger] es2@[i]).comp == (if ids@.contains(
                            entries@[i].comp,
                        ) {
                            (gi + 1) as usize
                        } else {
                            entries@[i].comp
                        }),
                decreases en - ri,
            {
                let is_member = contains_bytes(&groups[gi].members, &entries[ri].word);
                let touched = contains_usize(&ids, entries[ri].comp);
                let tier = if is_member {
                    groups[gi].tier
                } else {
                    entries[ri].tier
                };
                let comp = if touched {
                    c
                } else {
                    entries[ri].comp
                };
                let ghost old_es2 = es2@;
                es2.push(RelEntry { word: clone_bytes(&entries[ri].word), tier, comp });
                proof {
                    assert(es2@.drop_last() =~= old_es2);
                    assert forall|i: int| 0 <= i < old_es2.len() implies (#[trigger] es2@[i])
                        == old_es2[i] by {}
                }
                ri += 1;
            }

            proof {
                assert(distinct_entries(es2@)) by {
                    assert forall|i: int, j: int| 0 <= i < j < es2@.len() implies (
                    #[trigger] es2@[i]).word@ != (#[trigger] es2@[j]).word@ by {
                        assert(es2@[i].word@ == entries@[i].word@);
                        assert(es2@[j].word@ == entries@[j].word@);
                    }
                }
            }

            // Append the group's new words.
            let ghost base_len = es2@.len();
            let mn = groups[gi].members.len();
            let mut mi: usize = 0;
            while mi < mn
                invariant
                    mn == groups@[gi as int].members.len(),
                    mi <= mn,
                    gi < gn == groups.len(),
                    c == gi + 1,
                    en == oldes.len(),
                    base_len == en,
                    es2@.len() >= base_len,
                    forall|i: int|
                        0 <= i < base_len ==> (#[trigger] es2@[i]).word@ == oldes[i].word@
                            && es2@[i].tier == (if in_group(groups@[gi as int], oldes[i].word@) {
                            groups@[gi as int].tier
                        } else {
                            oldes[i].tier
                        }) && es2@[i].comp == (if ids@.contains(oldes[i].comp) {
                            (gi + 1) as usize
                        } else {
                            oldes[i].comp
                        }),
                    forall|i: int|
                        base_len <= i < es2@.len() ==> in_group(
                            groups@[gi as int],
                            (#[trigger] es2@[i]).word@,
                        ) && !has_entry(oldes, es2@[i].word@) && es2@[i].tier
                            == groups@[gi as int].tier && es2@[i].comp == (gi + 1) as usize,
                    distinct_entries(oldes),
                    distinct_entries(es2@),
                    forall|k: int|
                        0 <= k < mi ==> has_entry(
                            es2@,
                            (#[trigger] groups@[gi as int].members@[k])@,
                        ),
                decreases mn - mi,
            {
                let ghost old2 = es2@;
                if !has_word_exec(&es2, &groups[gi].members[mi]) {
                    es2.push(
                        RelEntry {
                            word: clone_bytes(&groups[gi].members[mi]),
                            tier: groups[gi].tier,
                            comp: c,
                        },
                    );
                    proof {
                        assert(es2@.drop_last() =~= old2);
                        assert(es2@.last().word@ == groups@[gi as int].members@[mi as int]@);
                        assert(in_group(
                            groups@[gi as int],
                            groups@[gi as int].members@[mi as int]@,
                        ));
                        assert(!has_entry(oldes, es2@.last().word@)) by {
                            if has_entry(oldes, es2@.last().word@) {
                                let i = choose|i: int|
                                    0 <= i < oldes.len() && (#[trigger] oldes[i]).word@
                                        == es2@.last().word@;
                                assert(old2[i].word@ == es2@.last().word@);
                                assert(has_entry(old2, es2@.last().word@));
                            }
                        }
                        assert forall|i: int| 0 <= i < old2.len() implies (#[trigger] es2@[i])
                            == old2[i] by {}
                        assert(distinct_entries(es2@)) by {
                            assert forall|i: int, j: int|
                                0 <= i < j < es2@.len() implies (#[trigger] es2@[i]).word@ != (
                            #[trigger] es2@[j]).word@ by {
                                if j == es2@.len() - 1 {
                                    if es2@[i].word@ == es2@[j].word@ {
                                        assert(has_entry(old2, es2@[j].word@)) by {
                                            assert(old2[i].word@ == es2@[j].word@);
                                        }
                                    }
                                }
                            }
                        }
                        assert forall|k: int|
                            0 <= k < mi + 1 implies has_entry(
                            es2@,
                            (#[trigger] groups@[gi as int].members@[k])@,
                        ) by {
                            if k < mi {
                                let i = choose|i: int|
                                    0 <= i < old2.len() && (#[trigger] old2[i]).word@
                                        == groups@[gi as int].members@[k]@;
                                assert(es2@[i].word@ == groups@[gi as int].members@[k]@);
                            } else {
                                assert(es2@.last().word@ == groups@[gi as int].members@[k]@);
                            }
                        }
                    }
                } else {
                    proof {
                        assert forall|k: int|
                            0 <= k < mi + 1 implies has_entry(
                            es2@,
                            (#[trigger] groups@[gi as int].members@[k])@,
                        ) by {}
                    }
                }
                mi += 1;
            }

            proof {
                lemma_group_invariants(prefix, groups@[gi as int], oldes, es2@, ids@, (gi + 1) as usize);
                assert(groups@.take(gi + 1) =~= prefix.push(groups@[gi as int]));
            }
            entries = es2;
            gi += 1;
        }
        proof {
            assert(groups@.take(gn as int) =~= groups@);
        }
        let gr = RelationGraph { entries };
        proof {
            lemma_entry_to_word_level(groups@, gr);
        }
        gr
    }
}

proof fn lemma_swap_path(g1: RelationGroup, g2: RelationGroup, p: Seq<Seq<u8>>, a: Seq<u8>, b: Seq<u8>)
    requires
        is_path(seq![g1, g2], p, a, b),
    ensures
        is_path(seq![g2, g1], p, a, b),
{
    let s12 = seq![g1, g2];
    let s21 = seq![g2, g1];
    assert forall|i: int| 0 <= i < p.len() - 1 implies step(
        seq![g2, g1],
        #[trigger] p[i],
        p[i + 1],
    ) by {
        assert(step(s12, p[i], p[i + 1]));
        let gi = choose|gi: int|
            0 <= gi < s12.len() && in_group(#[trigger] s12[gi], p[i]) && in_group(
                s12[gi],
                p[i + 1],
            );
        assert(s21[1 - gi] == s12[gi]);
        assert(in_group(s21[1 - gi], p[i]) && in_group(s21[1 - gi], p[i + 1]));
    }
}

proof fn lemma_swap_related(g1: RelationGroup, g2: RelationGroup, a: Seq<u8>, b: Seq<u8>)
    ensures
        related(seq![g1, g2], a, b) <==> related(seq![g2, g1], a, b),
{
    let s12 = seq![g1, g2];
    let s21 = seq![g2, g1];
    if related(s12, a, b) {
        let p = choose|p: Seq<Seq<u8>>| #[trigger] is_path(s12, p, a, b);
        lemma_swap_path(g1, g2, p, a, b);
    }
    if related(s21, a, b) {
        let p = choose|p: Seq<Seq<u8>>| #[trigger] is_path(s21, p, a, b);
        lemma_swap_path(g2, g1, p, a, b);
    }
}

proof fn lemma_two_tier(g1: RelationGroup, g2: RelationGroup, w: Seq<u8>)
    ensures
        last_tier(seq![g1, g2], w) == (if in_group(g2, w) {
            g2.tier
        } else if in_group(g1, w) {
            g1.tier
        } else {
            0u8
        }),
{
    let s12 = seq![g1, g2];
    let s1 = seq![g1];
    let e = Seq::<RelationGroup>::empty();
    assert(s12.last() == g2);
    assert(s12.drop_last() =~= s1);
    assert(s1.last() == g1);
    assert(s1.drop_last() =~= e);
    assert(last_tier(e, w) == 0);
    assert(last_tier(s1, w) == (if in_group(g1, w) {
        g1.tier
    } else {
        0u8
    }));
    assert(last_tier(s12, w) == (if in_group(g2, w) {
        g2.tier
    } else {
        last_tier(s1, w)
    }));
}

/// Order independence of the relation graph: building from two groups
/// in either order yields the same known words and the same connected
/// components; tiers follow the processing order, the last write
/// winning.
pub proof fn lemma_relation_graph_order_independence(
    g1: RelationGroup,
    g2: RelationGroup,
    ga: RelationGraph,
    gb: RelationGraph,
)
    requires
        build_post(seq![g1, g2], ga),
        build_post(seq![g2, g1], gb),
    ensures
        forall|w: Seq<u8>| ga.has_word(w) <==> gb.has_word(w),
        forall|a: Seq<u8>, b: Seq<u8>|
            ga.has_word(a) && ga.has_word(b) ==> ((#[trigger] ga.comp_of(a) == #[trigger] ga.comp_of(b))
                <==> (gb.comp_of(a) == gb.comp_of(b))),
        forall|w: Seq<u8>| #[trigger] ga.has_word(w) && in_group(g2, w) ==> ga.tier_of(w) == g2.tier,
        forall|w: Seq<u8>| #[trigger] ga.has_word(w) && !in_group(g2, w) ==> ga.tier_of(w) == g1.tier,
        forall|w: Seq<u8>| #[trigger] gb.has_word(w) && in_group(g1, w) ==> gb.tier_of(w) == g1.tier,
        forall|w: Seq<u8>| #[trigger] gb.has_word(w) && !in_group(g1, w) ==> gb.tier_of(w) == g2.tier,
{
    let s12 = seq![g1, g2];
    let s21 = seq![g2, g1];
    assert forall|w: Seq<u8>| ga.has_word(w) <==> gb.has_word(w) by {
        if in_some_group(s12, w) {
            let gi = choose|gi: int| 0 <= gi < s12.len() && in_group(#[trigger] s12[gi], w);
            assert(s21[1 - gi] == s12[gi]);
            assert(in_some_group(s21, w));
        }
        if in_some_group(s21, w) {
            let gi = choose|gi: int| 0 <= gi < s21.len() && in_group(#[trigger] s21[gi], w);
            assert(s12[1 - gi] == s21[gi]);
            assert(in_some_group(s12, w));
        }
    }
    assert forall|a: Seq<u8>, b: Seq<u8>| ga.has_word(a) && ga.has_word(b) implies ((
    #[trigger] ga.comp_of(a) == #[trigger] ga.comp_of(b)) <==> (gb.comp_of(a) == gb.comp_of(
        b,
    ))) by {
        lemma_swap_related(g1, g2, a, b);
    }
    assert forall|w: Seq<u8>| #[trigger] ga.has_word(w) implies ga.tier_of(w) == last_tier(
        seq![g1, g2],
        w,
    ) by {}
    assert forall|w: Seq<u8>| ga.has_word(w) implies (if in_group(g2, w) {
        ga.tier_of(w) == g2.tier
    } else {
        ga.tier_of(w) == g1.tier
    }) by {
        lemma_two_tier(g1, g2, w);
        if !in_group(g2, w) {
            let gi = choose|gi: int| 0 <= gi < s12.len() && in_group(#[trigger] s12[gi], w);
            assert(gi == 0);
            assert(in_group(g1, w));
        }
    }
    assert forall|w: Seq<u8>| gb.has_word(w) implies (if in_group(g1, w) {
        gb.tier_of(w) == g1.tier
    } else {
        gb.tier_of(w) == g2.tier
    }) by {
        lemma_two_tier(g2, g1, w);
        if !in_group(g1, w) {
            let gi = choose|gi: int| 0 <= gi < s21.len() && in_group(#[trigger] s21[gi], w);
            assert(gi == 0);
            assert(in_group(g2, w));
        }
    }
}

} // verus!
