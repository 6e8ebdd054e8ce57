//! The lemma-relation oracle: candidates are judged against a relation
//! graph built from lemmatized dictionary records, and a verified
//! parser for that record format.

use vstd::prelude::*;

use crate::phrase::split_on;
use crate::relation::{build_post, RelationGraph, RelationGroup};
use crate::spellchecking::{CheckResult, SpellChecker};
use crate::types::{strip_cr, MutationError};

verus! {

/// The lemma-relation severity: an unknown candidate is rejected; a
/// known candidate related to a known original is flagged with 1; any
/// other known candidate is clean.  A candidate equal to its original
/// is always clean.
pub open spec fn lemma_check_spec(gr: RelationGraph, original: Seq<u8>, word: Seq<u8>) -> u8 {
    if word == original {
        0
    } else if !gr.has_word(word) {
        255
    } else if gr.has_word(original) && gr.comp_of(word) == gr.comp_of(original) {
        1
    } else {
        0
    }
}

/// The lemma-relation oracle.
pub struct LemmaSpellChecker {
    graph: RelationGraph,
}

impl LemmaSpellChecker {
    #[verifier::type_invariant]
    spec fn type_inv(self) -> bool {
        self.graph.wf()
    }

    /// The relation graph this oracle consults.
    pub closed spec fn graph(self) -> RelationGraph {
        self.graph
    }

    /// Builds the oracle's relation graph from the parsed groups.
    pub fn new(groups: &Vec<RelationGroup>) -> (r: LemmaSpellChecker)
        ensures
            build_post(groups@, r.graph()),
    {
        LemmaSpellChecker { graph: RelationGraph::build(groups) }
    }
}

impl SpellChecker for LemmaSpellChecker {
    open spec fn check_spec(&self, original: Seq<u8>, word: Seq<u8>) -> u8 {
        lemma_check_spec(self.graph(), original, word)
    }

    fn name(&self) -> (r: &'static str) {
        "Lemma"
    }

    fn check(&self, original: &Vec<u8>, word: &Vec<u8>) -> (r: CheckResult) {
        proof {
            use_type_invariant(self);
        }
        if crate::phrase::bytes_eq(original, word) {
            return CheckResult::success();
        }
        let wi = match self.graph.find(word) {
            Some(i) => i,
            None => {
                return CheckResult::fail();
            },
        };
        match self.graph.find(original) {
            Some(oi) => {
                if self.graph.entries[wi].comp == self.graph.entries[oi].comp {
                    CheckResult::new(1)
                } else {
                    CheckResult::success()
                }
            },
            None => CheckResult::success(),
        }
    }
}

/// A byte the lemmatized record grammar allows in a word: an ASCII
/// letter or a hyphen.
pub open spec fn lemma_word_byte(c: u8) -> bool {
    (65 <= c && c <= 90) || (97 <= c && c <= 122) || c == 45
}

pub open spec fn alpha_byte(c: u8) -> bool {
    (65 <= c && c <= 90) || (97 <= c && c <= 122)
}

/// A well-formed dictionary word: nonempty, over the grammar's
/// alphabet, with at least one letter.
pub open spec fn wf_dict_word(w: Seq<u8>) -> bool {
    w.len() > 0 && (forall|i: int| 0 <= i < w.len() ==> lemma_word_byte(#[trigger] w[i])) && exists|
        i: int,
    | 0 <= i < w.len() && alpha_byte(#[trigger] w[i])
}

pub open spec fn wf_lemma_group(g: RelationGroup) -> bool {
    forall|k: int| 0 <= k < g.members@.len() ==> wf_dict_word((#[trigger] g.members@[k])@)
}

/// Whether a collected run holds at least one letter.
pub open spec fn run_has_alpha(w: Seq<u8>) -> bool {
    exists|i: int| 0 <= i < w.len() && alpha_byte(#[trigger] w[i])
}

/// The scanner state after the given bytes: whether a bracketed
/// cross-reference list is open, the run being collected, and the
/// words flushed so far.  A run is flushed at every non-word byte and
/// kept only when it holds a letter; bytes inside brackets are
/// skipped.
pub open spec fn scan_state(l: Seq<u8>) -> (bool, Seq<u8>, Seq<Seq<u8>>)
    decreases l.len(),
{
    if l.len() == 0 {
        (false, Seq::<u8>::empty(), Seq::<Seq<u8>>::empty())
    } else {
        let prev = scan_state(l.drop_last());
        let c = l.last();
        if prev.0 {
            (c != 93, prev.1, prev.2)
        } else if lemma_word_byte(c) {
            (prev.0, prev.1.push(c), prev.2)
        } else {
            let flushed = if prev.1.len() > 0 && run_has_alpha(prev.1) {
                prev.2.push(prev.1)
            } else {
                prev.2
            };
            (c == 91, Seq::<u8>::empty(), flushed)
        }
    }
}

/// The words of one record line, in order.
pub open spec fn line_words(l: Seq<u8>) -> Seq<Seq<u8>> {
    let st = scan_state(l);
    if st.1.len() > 0 && run_has_alpha(st.1) {
        st.2.push(st.1)
    } else {
        st.2
    }
}

/// The words of one record line: maximal runs of word bytes holding at
/// least one letter, with bracketed cross-reference lists skipped.
fn scan_lemma_words(line: &Vec<u8>) -> (r: Vec<Vec<u8>>)
    ensures
        forall|k: int| 0 <= k < r@.len() ==> wf_dict_word((#[trigger] r@[k])@),
        r.deep_view() == line_words(line@),
{
    let mut words: Vec<Vec<u8>> = Vec::new();
    let mut cur: Vec<u8> = Vec::new();
    let mut has_alpha = false;
    let mut in_brackets = false;
    let n = line.len();
    let mut i: usize = 0;
    while i < n
        invariant
            n == line.len(),
            i <= n,
            forall|j: int| 0 <= j < cur@.len() ==> lemma_word_byte(#[trigger] cur@[j]),
            has_alpha == exists|j: int| 0 <= j < cur@.len() && alpha_byte(#[trigger] cur@[j]),
            forall|k: int| 0 <= k < words@.len() ==> wf_dict_word((#[trigger] words@[k])@),
            in_brackets == scan_state(line@.take(i as int)).0,
            cur@ == scan_state(line@.take(i as int)).1,
            words.deep_view() == scan_state(line@.take(i as int)).2,
        decreases n - i,
    {
        proof {
            assert(line@.take(i + 1).drop_last() =~= line@.take(i as int));
            assert(line@.take(i + 1).last() == line@[i as int]);
        }
        let c = line[i];
        if in_brackets {
            if c == 93 {
                in_brackets = false;
            }
        } else if (65 <= c && c <= 90) || (97 <= c && c <= 122) || c == 45 {
            let ghost oldcur = cur@;
            let ghost old_has = has_alpha;
            cur.push(c);
            if c != 45 {
                has_alpha = true;
                proof {
                    assert(alpha_byte(cur@[cur@.len() - 1]));
                }
            } else {
                proof {
                    assert(cur@.drop_last() =~= oldcur);
                    if exists|j: int| 0 <= j < cur@.len() && alpha_byte(#[trigger] cur@[j]) {
                        let j = choose|j: int|
                            0 <= j < cur@.len() && alpha_byte(#[trigger] cur@[j]);
                        if j < oldcur.len() {
                            assert(alpha_byte(oldcur[j]));
                        } else {
                            assert(cur@[j] == 45u8);
                        }
                    }
                    if old_has {
                        let j = choose|j: int|
                            0 <= j < oldcur.len() && alpha_byte(#[trigger] oldcur[j]);
                        assert(alpha_byte(cur@[j]));
                    }
                }
            }
        } else {
            if c == 91 {
                in_brackets = true;
            }
            if cur.len() > 0 && has_alpha {
                let ghost old_dv = words.deep_view();
                let ghost cv = cur@;
                words.push(cur);
                cur = Vec::new();
                proof {
                    assert(words.deep_view() =~~= old_dv.push(cv));
                }
            } else {
                cur = Vec::new();
            }
            has_alpha = false;
        }
        proof {
            assert(words.deep_view() =~~= scan_state(line@.take(i + 1)).2);
        }
        i += 1;
    }
    proof {
        assert(line@.take(n as int) =~= line@);
    }
    if cur.len() > 0 && has_alpha {
        let ghost old_dv = words.deep_view();
        let ghost cv = cur@;
        words.push(cur);
        proof {
            assert(words.deep_view() =~~= old_dv.push(cv));
            assert(words.deep_view() =~~= line_words(line@));
        }
    } else {
        proof {
            assert(words.deep_view() =~~= line_words(line@));
        }
    }
    words
}

/// A continuation line: four leading spaces.
pub open spec fn indented_line(l: Seq<u8>) -> bool {
    l.len() >= 4 && l[0] == 32 && l[1] == 32 && l[2] == 32 && l[3] == 32
}

/// A record head line: nonempty and not indented.
pub open spec fn head_line(l: Seq<u8>) -> bool {
    l.len() > 0 && !indented_line(l)
}

/// How many record head lines the text holds.
pub open spec fn head_count(lines: Seq<Seq<u8>>) -> int
    decreases lines.len(),
{
    if lines.len() == 0 {
        0
    } else {
        head_count(lines.drop_last()) + if head_line(strip_cr(lines.last())) {
            1int
        } else {
            0int
        }
    }
}

/// A continuation line with no record head line anywhere before it.
pub open spec fn stray_continuation(lines: Seq<Seq<u8>>) -> bool {
    exists|i: int|
        0 <= i < lines.len() && indented_line(strip_cr(#[trigger] lines[i])) && forall|j: int|
            0 <= j < i ==> !head_line(strip_cr(#[trigger] lines[j]))
}

proof fn lemma_head_count_zero(lines: Seq<Seq<u8>>)
    ensures
        head_count(lines) == 0 <==> forall|j: int|
            0 <= j < lines.len() ==> !head_line(strip_cr(#[trigger] lines[j])),
        head_count(lines) >= 0,
    decreases lines.len(),
{
    if lines.len() > 0 {
        lemma_head_count_zero(lines.drop_last());
        if head_count(lines) == 0 {
            assert forall|j: int| 0 <= j < lines.len() implies !head_line(
                strip_cr(#[trigger] lines[j]),
            ) by {
                if j < lines.len() - 1 {
                    assert(lines.drop_last()[j] == lines[j]);
                }
            }
        }
        if forall|j: int| 0 <= j < lines.len() ==> !head_line(strip_cr(#[trigger] lines[j])) {
            assert forall|j: int| 0 <= j < lines.drop_last().len() implies !head_line(
                strip_cr(#[trigger] lines.drop_last()[j]),
            ) by {
                assert(lines.drop_last()[j] == lines[j]);
            }
        }
    }
}

/// The member lists of the records, line by line: a head line starts
/// a record with its scanned words; a continuation line appends its
/// words to the record above it; blank lines contribute nothing.
pub open spec fn lemma_groups_spec(lines: Seq<Seq<u8>>) -> Seq<Seq<Seq<u8>>>
    decreases lines.len(),
{
    if lines.len() == 0 {
        Seq::<Seq<Seq<u8>>>::empty()
    } else {
        let prev = lemma_groups_spec(lines.drop_last());
        let l = strip_cr(lines.last());
        if l.len() == 0 {
            prev
        } else if indented_line(l) {
            if prev.len() == 0 {
                prev
            } else {
                prev.update(prev.len() - 1, prev.last() + line_words(l))
            }
        } else {
            prev.push(line_words(l))
        }
    }
}

/// Parses a lemmatized record text: each non-indented line starts a
/// record of a head word and its inflections; an indented continuation
/// line extends the record above it; bracketed cross-references are
/// skipped.  The parse yields one group per head line; a continuation
/// before any record is malformed, and nothing else is.
pub fn parse_lemma_dict(text: &Vec<u8>) -> (r: Result<Vec<RelationGroup>, MutationError>)
    ensures
        match r {
            Ok(gs) => {
                &&& gs@.len() == head_count(split_on(text@, 10))
                &&& gs@.len() == lemma_groups_spec(split_on(text@, 10)).len()
                &&& !stray_continuation(split_on(text@, 10))
                &&& forall|i: int|
                    0 <= i < gs@.len() ==> wf_lemma_group(#[trigger] gs@[i]) && gs@[i].tier == 0
                        && gs@[i].members.deep_view() == lemma_groups_spec(split_on(text@, 10))[i]
            },
            Err(e) => e == MutationError::ResourceLoad && stray_continuation(
                split_on(text@, 10),
            ),
        },
{
    let lines = crate::phrase::split_bytes_on(text, 10);
    let ghost lv = lines.deep_view();
    let mut groups: Vec<RelationGroup> = Vec::new();
    let ln = lines.len();
    let mut li: usize = 0;
    while li < ln
        invariant
            ln == lines@.len(),
            lines.deep_view() == lv,
            lv == split_on(text@, 10),
            li <= ln,
            groups@.len() == head_count(lv.take(li as int)),
            groups@.len() == lemma_groups_spec(lv.take(li as int)).len(),
            !stray_continuation(lv.take(li as int)),
            forall|gi: int|
                0 <= gi < groups@.len() ==> wf_lemma_group(#[trigger] groups@[gi])
                    && groups@[gi].tier == 0 && groups@[gi].members.deep_view()
                    == lemma_groups_spec(lv.take(li as int))[gi],
        decreases ln - li,
    {
        proof {
            assert(lv.take(li + 1).drop_last() =~= lv.take(li as int));
            assert(lv.take(li + 1).last() == lv[li as int]);
            assert(lines@[li as int]@ =~= lv[li as int]);
        }
        let mut line = crate::phrase::clone_bytes(&lines[li]);
        if line.len() > 0 && line[line.len() - 1] == 13 {
            let _ = line.pop();
        }
        proof {
            assert(line@ =~= strip_cr(lv[li as int]));
        }
        let ghost old_groups = groups@;
        if line.len() == 0 {
            proof {
                lemma_no_new_stray(lv, li as int);
            }
            li += 1;
            continue;
        }
        let indented = line.len() >= 4 && line[0] == 32 && line[1] == 32 && line[2] == 32
            && line[3] == 32;
        let words = scan_lemma_words(&line);
        if indented {
            match groups.pop() {
                Some(mut g) => {
                    let ghost old_members = g.members.deep_view();
                    let ghost popped = old_groups;
                    let wn = words.len();
                    let mut wi: usize = 0;
                    while wi < wn
                        invariant
                            wn == words@.len(),
                            wi <= wn,
                            forall|k: int|
                                0 <= k < words@.len() ==> wf_dict_word((#[trigger] words@[k])@),
                            wf_lemma_group(g),
                            g.tier == 0,
                            words.deep_view() == line_words(strip_cr(lv[li as int])),
                            g.members.deep_view() == old_members + words.deep_view().take(
                                wi as int,
                            ),
                        decreases wn - wi,
                    {
                        let cb = crate::phrase::clone_bytes(&words[wi]);
                        let ghost cbv = cb@;
                        let ghost old_dv = g.members.deep_view();
                        g.members.push(cb);
                        proof {
                            assert((g.members@[g.members@.len() - 1])@ == words@[wi as int]@);
                            assert(cbv =~= words.deep_view()[wi as int]);
                            assert(g.members.deep_view() =~~= old_dv.push(cbv));
                            assert(g.members.deep_view() =~~= old_members
                                + words.deep_view().take(wi + 1));
                        }
                        wi += 1;
                    }
                    proof {
                        assert(words.deep_view().take(wn as int) =~~= words.deep_view());
                        assert(g.members.deep_view() =~~= old_members + line_words(
                            strip_cr(lv[li as int]),
                        ));
                    }
                    groups.push(g);
                    proof {
                        let sp = lemma_groups_spec(lv.take(li as int));
                        let sp2 = lemma_groups_spec(lv.take(li + 1));
                        assert(sp2 == sp.update(sp.len() - 1, sp.last() + line_words(
                            strip_cr(lv[li as int]),
                        )));
                        assert(groups@.len() == old_groups.len());
                        assert forall|gi: int| 0 <= gi < groups@.len() implies wf_lemma_group(
                            #[trigger] groups@[gi],
                        ) && groups@[gi].tier == 0 && groups@[gi].members.deep_view()
                            == sp2[gi] by {
                            if gi < groups@.len() - 1 {
                                assert(groups@[gi] == old_groups[gi]);
                                assert(sp2[gi] == sp[gi]);
                            } else {
                                assert(groups@[gi] == g);
                                assert(old_members == sp.last());
                            }
                        }
                    }
                },
                None => {
                    proof {
                        lemma_head_count_zero(lv.take(li as int));
                        assert(indented_line(strip_cr(lv[li as int])));
                        assert(stray_continuation(lv)) by {
                            assert forall|j: int| 0 <= j < li implies !head_line(
                                strip_cr(#[trigger] lv[j]),
                            ) by {
                                assert(lv.take(li as int)[j] == lv[j]);
                            }
                        }
                    }
                    return Err(MutationError::ResourceLoad);
                },
            }
            proof {
                lemma_no_new_stray(lv, li as int);
            }
        } else {
            groups.push(RelationGroup { tier: 0, members: words });
            proof {
                lemma_no_new_stray(lv, li as int);
            }
        }
        li += 1;
    }
    proof {
        assert(lv.take(ln as int) =~= lv);
    }
    Ok(groups)
}

/// A prefix free of stray continuations stays free when the next line
/// is not a stray continuation itself.
proof fn lemma_no_new_stray(lv: Seq<Seq<u8>>, li: int)
    requires
        0 <= li < lv.len(),
        !stray_continuation(lv.take(li)),
        indented_line(strip_cr(lv[li])) ==> head_count(lv.take(li)) > 0,
    ensures
        !stray_continuation(lv.take(li + 1)),
{
    if stray_continuation(lv.take(li + 1)) {
        let i = choose|i: int|
            0 <= i < lv.take(li + 1).len() && indented_line(
                strip_cr(#[trigger] lv.take(li + 1)[i]),
            ) && forall|j: int|
                0 <= j < i ==> !head_line(strip_cr(#[trigger] lv.take(li + 1)[j]));
        if i < li {
            assert(stray_continuation(lv.take(li))) by {
                assert(indented_line(strip_cr(lv.take(li)[i])));
                assert forall|j: int| 0 <= j < i implies !head_line(
                    strip_cr(#[trigger] lv.take(li)[j]),
                ) by {
                    assert(lv.take(li + 1)[j] == lv.take(li)[j]);
                }
            }
        } else {
            assert(indented_line(strip_cr(lv[li])));
            lemma_head_count_zero(lv.take(li));
            assert(exists|j: int|
                0 <= j < li && head_line(strip_cr(#[trigger] lv.take(li)[j])));
            let j = choose|j: int| 0 <= j < li && head_line(strip_cr(#[trigger] lv.take(li)[j]));
            assert(lv.take(li + 1)[j] == lv.take(li)[j]);
        }
    }
}

impl LemmaSpellChecker {
    /// Judges a whole candidate phrase against the original phrase:
    /// tokens are paired positionally, extra candidate tokens are
    /// checked against an empty original token, and the phrase
    /// severity is the worst pair severity.  In correct use the
    /// original never has more tokens than the candidate.
    pub fn check_split(&self, original: &Vec<u8>, string: &Vec<u8>) -> (r: CheckResult)
        requires
            crate::phrase::tokens(original@).len() <= crate::phrase::tokens(string@).len(),
        ensures
            r.v() == crate::spellchecking::aligned_sev(
                *self,
                crate::phrase::tokens(original@),
                crate::phrase::tokens(string@),
                crate::phrase::tokens(string@).len() as int,
            ),
    {
        crate::spellchecking::aligned_check(self, original, string)
    }
}

} // verus!
