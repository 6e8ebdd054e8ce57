//! The frequency-relation oracle: candidates are judged against a
//! relation graph built from frequency-tier dictionary records, with a
//! severity derived from the candidate's tier.

use vstd::prelude::*;

use crate::phrase::split_on;
use crate::relation::{build_post, RelationGraph, RelationGroup};
use crate::spellchecking::lemma::indented_line;
use crate::spellchecking::{CheckResult, SpellChecker};
use crate::types::{strip_cr, MutationError};

verus! {

/// The flagged severity of a related candidate in the given tier: an
/// offset of 100 plus the tier beyond the common bands, saturated
/// below the rejection value.
pub open spec fn freq_sev(t: u8) -> u8 {
    let base: u8 = if t >= 16 {
        (t - 16) as u8
    } else {
        0
    };
    if base >= 154 {
        254
    } else {
        (100 + base) as u8
    }
}

/// The frequency-relation severity: an unknown candidate is rejected;
/// a known candidate related to a known original is flagged by its
/// tier; any other known candidate is clean.  A candidate equal to its
/// original is always clean.
pub open spec fn freq_check_spec(gr: RelationGraph, original: Seq<u8>, word: Seq<u8>) -> u8 {
    if word == original {
        0
    } else if !gr.has_word(word) {
        255
    } else if gr.has_word(original) && gr.comp_of(word) == gr.comp_of(original) {
        freq_sev(gr.tier_of(word))
    } else {
        0
    }
}

/// The frequency-relation oracle.
pub struct FreqSpellChecker {
    graph: RelationGraph,
}

impl FreqSpellChecker {
    #[verifier::type_invariant]
    spec fn type_inv(self) -> bool {
        self.graph.wf()
    }

    /// The relation graph this oracle consults.
    pub closed spec fn graph(self) -> RelationGraph {
        self.graph
    }

    /// Builds the oracle's relation graph from the parsed groups.
    pub fn new(groups: &Vec<RelationGroup>) -> (r: FreqSpellChecker)
        ensures
            build_post(groups@, r.graph()),
    {
        FreqSpellChecker { graph: RelationGraph::build(groups) }
    }
}

impl SpellChecker for FreqSpellChecker {
    open spec fn check_spec(&self, original: Seq<u8>, word: Seq<u8>) -> u8 {
        freq_check_spec(self.graph(), original, word)
    }

    fn name(&self) -> (r: &'static str) {
        "Frequency"
    }

    fn check(&self, original: &Vec<u8>, word: &Vec<u8>) -> (r: CheckResult) {
        proof {
            use_type_invariant(self);
        }
        if crate::phrase::bytes_eq(original, word) {
            return CheckResult::success();
        }
        let wi = match self.graph.find(word) {
            Some(i) => i,
            None => {
                return CheckResult::fail();
            },
        };
        match self.graph.find(original) {
            Some(oi) => {
                if self.graph.entries[wi].comp == self.graph.entries[oi].comp {
                    let t = self.graph.entries[wi].tier;
                    let base: u8 = if t >= 16 {
                        t - 16
                    } else {
                        0
                    };
                    if base >= 154 {
                        CheckResult::new(254)
                    } else {
                        CheckResult::new(100 + base)
                    }
                } else {
                    CheckResult::success()
                }
            },
            None => CheckResult::success(),
        }
    }
}

/// A well-formed frequency word: nonempty ASCII letters only.
pub open spec fn wf_freq_word(w: Seq<u8>) -> bool {
    w.len() > 0 && forall|i: int|
        0 <= i < w.len() ==> (65 <= #[trigger] w[i] <= 90) || (97 <= w[i] <= 122)
}

pub open spec fn wf_freq_group(g: RelationGroup) -> bool {
    forall|k: int| 0 <= k < g.members@.len() ==> wf_freq_word((#[trigger] g.members@[k])@)
}

/// An entry with its leading spaces removed.
pub open spec fn trim_lead(e: Seq<u8>) -> Seq<u8>
    decreases e.len(),
{
    if e.len() > 0 && e[0] == 32 {
        trim_lead(e.skip(1))
    } else {
        e
    }
}

/// An entry with its trailing spaces and `!`/`*` marks removed.
pub open spec fn trim_tail(e: Seq<u8>) -> Seq<u8>
    decreases e.len(),
{
    if e.len() > 0 && (e.last() == 32 || e.last() == 33 || e.last() == 42) {
        trim_tail(e.drop_last())
    } else {
        e
    }
}

/// What one comma-separated entry cleans to: the trimmed text if it is
/// a nonempty run of ASCII letters, nothing otherwise.
pub open spec fn clean_spec(e: Seq<u8>) -> Option<Seq<u8>> {
    let t = trim_tail(trim_lead(e));
    if t.len() > 0 && (forall|j: int| 0 <= j < t.len() ==> (65 <= #[trigger] t[j] <= 90) || (97
        <= t[j] <= 122)) {
        Some(t)
    } else {
        None
    }
}

/// Cleans one comma-separated entry: spaces are trimmed, trailing `!`
/// and `*` marks are stripped, and anything but a pure run of ASCII
/// letters is dropped.
fn clean_freq_entry(e: &Vec<u8>) -> (r: Option<Vec<u8>>)
    ensures
        match r {
            Some(w) => wf_freq_word(w@) && clean_spec(e@) == Some(w@),
            None => clean_spec(e@) is None,
        },
{
    let mut start: usize = 0;
    let mut end: usize = e.len();
    proof {
        assert(e@.subrange(0, e@.len() as int) =~= e@);
    }
    while start < end && e[start] == 32
        invariant
            end == e.len(),
            start <= end,
            trim_lead(e@) == trim_lead(e@.subrange(start as int, e@.len() as int)),
        decreases end - start,
    {
        proof {
            let sub = e@.subrange(start as int, e@.len() as int);
            assert(sub[0] == e@[start as int]);
            assert(sub.skip(1) =~= e@.subrange(start + 1, e@.len() as int));
        }
        start += 1;
    }
    proof {
        let sub = e@.subrange(start as int, e@.len() as int);
        if sub.len() > 0 {
            assert(sub[0] == e@[start as int]);
        }
        assert(trim_lead(e@) == sub);
    }
    while end > start && (e[end - 1] == 32 || e[end - 1] == 33 || e[end - 1] == 42)
        invariant
            end <= e.len(),
            start <= end,
            trim_tail(trim_lead(e@)) == trim_tail(e@.subrange(start as int, end as int)),
        decreases end,
    {
        proof {
            let sub = e@.subrange(start as int, end as int);
            assert(sub.last() == e@[end - 1]);
            assert(sub.drop_last() =~= e@.subrange(start as int, end - 1));
        }
        end -= 1;
    }
    let ghost t = e@.subrange(start as int, end as int);
    proof {
        if t.len() > 0 {
            assert(t.last() == e@[end - 1]);
        }
        assert(trim_tail(trim_lead(e@)) == t);
    }
    if start == end {
        proof {
            assert(t =~= Seq::<u8>::empty());
        }
        return None;
    }
    let mut w: Vec<u8> = Vec::new();
    let mut i: usize = start;
    while i < end
        invariant
            start <= i <= end <= e.len(),
            t == e@.subrange(start as int, end as int),
            trim_tail(trim_lead(e@)) == t,
            w@ == e@.subrange(start as int, i as int),
            forall|j: int| 0 <= j < w@.len() ==> (65 <= #[trigger] w@[j] <= 90) || (97 <= w@[j] <= 122),
        decreases end - i,
    {
        let c = e[i];
        if !((65 <= c && c <= 90) || (97 <= c && c <= 122)) {
            proof {
                assert(t[i - start] == e@[i as int]);
                assert(!((65 <= t[i - start] && t[i - start] <= 90) || (97 <= t[i - start]
                    && t[i - start] <= 122)));
                assert(clean_spec(e@) is None);
            }
            return None;
        }
        w.push(c);
        proof {
            assert(w@ =~= e@.subrange(start as int, i + 1));
        }
        i += 1;
    }
    proof {
        assert(w@ =~= t);
        assert(clean_spec(e@) == Some(t));
    }
    Some(w)
}

/// The scanner state after the given bytes: the entry being collected
/// and the words kept so far.  A comma closes the entry, which is
/// cleaned and kept if usable.
pub open spec fn freq_scan_state(l: Seq<u8>) -> (Seq<u8>, Seq<Seq<u8>>)
    decreases l.len(),
{
    if l.len() == 0 {
        (Seq::<u8>::empty(), Seq::<Seq<u8>>::empty())
    } else {
        let prev = freq_scan_state(l.drop_last());
        let c = l.last();
        if c == 44 {
            (
                Seq::<u8>::empty(),
                match clean_spec(prev.0) {
                    Some(w) => prev.1.push(w),
                    None => prev.1,
                },
            )
        } else {
            (prev.0.push(c), prev.1)
        }
    }
}

/// The cleaned words of one record line, in order.
pub open spec fn freq_line_words(l: Seq<u8>) -> Seq<Seq<u8>> {
    let st = freq_scan_state(l);
    match clean_spec(st.0) {
        Some(w) => st.1.push(w),
        None => st.1,
    }
}

/// The cleaned words of one record line: entries split on commas, each
/// cleaned, the unusable ones dropped.
fn scan_freq_words(line: &Vec<u8>) -> (r: Vec<Vec<u8>>)
    ensures
        forall|k: int| 0 <= k < r@.len() ==> wf_freq_word((#[trigger] r@[k])@),
        r.deep_view() == freq_line_words(line@),
{
    let mut words: Vec<Vec<u8>> = Vec::new();
    let mut cur: Vec<u8> = Vec::new();
    let n = line.len();
    let mut i: usize = 0;
    while i < n
        invariant
            n == line.len(),
            i <= n,
            forall|k: int| 0 <= k < words@.len() ==> wf_freq_word((#[trigger] words@[k])@),
            cur@ == freq_scan_state(line@.take(i as int)).0,
            words.deep_view() == freq_scan_state(line@.take(i as int)).1,
        decreases n - i,
    {
        proof {
            assert(line@.take(i + 1).drop_last() =~= line@.take(i as int));
            assert(line@.take(i + 1).last() == line@[i as int]);
        }
        let c = line[i];
        if c == 44 {
            if let Some(w) = clean_freq_entry(&cur) {
                let ghost old_dv = words.deep_view();
                let ghost wv = w@;
                words.push(w);
                proof {
                    assert(words.deep_view() =~~= old_dv.push(wv));
                }
            }
            cur = Vec::new();
            proof {
                assert(words.deep_view() =~~= freq_scan_state(line@.take(i + 1)).1);
            }
        } else {
            cur.push(c);
        }
        i += 1;
    }
    proof {
        assert(line@.take(n as int) =~= line@);
    }
    if let Some(w) = clean_freq_entry(&cur) {
        let ghost old_dv = words.deep_view();
        let ghost wv = w@;
        words.push(w);
        proof {
            assert(words.deep_view() =~~= old_dv.push(wv));
            assert(words.deep_view() =~~= freq_line_words(line@));
        }
    } else {
        proof {
            assert(words.deep_view() =~~= freq_line_words(line@));
        }
    }
    words
}

/// A section marker line: it opens with a dash.
pub open spec fn header_line(l: Seq<u8>) -> bool {
    l.len() > 0 && l[0] == 45
}

/// A record head line: nonempty, not indented, not a section marker.
pub open spec fn word_line(l: Seq<u8>) -> bool {
    l.len() > 0 && !indented_line(l) && l[0] != 45
}

/// How many record head lines the text holds.
pub open spec fn word_count(lines: Seq<Seq<u8>>) -> int
    decreases lines.len(),
{
    if lines.len() == 0 {
        0
    } else {
        word_count(lines.drop_last()) + if word_line(strip_cr(lines.last())) {
            1int
        } else {
            0int
        }
    }
}

/// Whether any section marker appears in the lines.
pub open spec fn has_header(lines: Seq<Seq<u8>>) -> bool {
    exists|i: int| 0 <= i < lines.len() && header_line(strip_cr(#[trigger] lines[i]))
}

/// A record head line with no section marker anywhere before it.
pub open spec fn stray_word(lines: Seq<Seq<u8>>) -> bool {
    exists|i: int|
        0 <= i < lines.len() && word_line(strip_cr(#[trigger] lines[i])) && forall|j: int|
            0 <= j < i ==> !header_line(strip_cr(#[trigger] lines[j]))
}

/// A continuation line with no record head line anywhere before it.
pub open spec fn stray_freq_continuation(lines: Seq<Seq<u8>>) -> bool {
    exists|i: int|
        0 <= i < lines.len() && indented_line(strip_cr(#[trigger] lines[i])) && forall|j: int|
            0 <= j < i ==> !word_line(strip_cr(#[trigger] lines[j]))
}

proof fn lemma_word_count_zero(lines: Seq<Seq<u8>>)
    ensures
        word_count(lines) == 0 <==> forall|j: int|
            0 <= j < lines.len() ==> !word_line(strip_cr(#[trigger] lines[j])),
        word_count(lines) >= 0,
    decreases lines.len(),
{
    if lines.len() > 0 {
        lemma_word_count_zero(lines.drop_last());
        if word_count(lines) == 0 {
            assert forall|j: int| 0 <= j < lines.len() implies !word_line(
                strip_cr(#[trigger] lines[j]),
            ) by {
                if j < lines.len() - 1 {
                    assert(lines.drop_last()[j] == lines[j]);
                }
            }
        }
        if forall|j: int| 0 <= j < lines.len() ==> !word_line(strip_cr(#[trigger] lines[j])) {
            assert forall|j: int| 0 <= j < lines.drop_last().len() implies !word_line(
                strip_cr(#[trigger] lines.drop_last()[j]),
            ) by {
                assert(lines.drop_last()[j] == lines[j]);
            }
        }
    }
}

proof fn lemma_freq_prefix_step(lv: Seq<Seq<u8>>, li: int)
    requires
        0 <= li < lv.len(),
        !stray_word(lv.take(li)),
        !stray_freq_continuation(lv.take(li)),
        word_line(strip_cr(lv[li])) ==> has_header(lv.take(li)),
        indented_line(strip_cr(lv[li])) ==> word_count(lv.take(li)) > 0,
    ensures
        !stray_word(lv.take(li + 1)),
        !stray_freq_continuation(lv.take(li + 1)),
        has_header(lv.take(li + 1)) == (has_header(lv.take(li)) || header_line(
            strip_cr(lv[li]),
        )),
{
    assert(lv.take(li + 1).drop_last() =~= lv.take(li));
    assert(lv.take(li + 1).last() == lv[li]);
    if stray_word(lv.take(li + 1)) {
        let i = choose|i: int|
            0 <= i < lv.take(li + 1).len() && word_line(strip_cr(#[trigger] lv.take(li + 1)[i]))
                && forall|j: int| 0 <= j < i ==> !header_line(strip_cr(#[trigger] lv.take(li + 1)[j]));
        if i < li {
            assert(stray_word(lv.take(li))) by {
                assert(word_line(strip_cr(lv.take(li)[i])));
                assert forall|j: int| 0 <= j < i implies !header_line(
                    strip_cr(#[trigger] lv.take(li)[j]),
                ) by {
                    assert(lv.take(li + 1)[j] == lv.take(li)[j]);
                }
            }
        } else {
            assert(word_line(strip_cr(lv[li])));
            let j = choose|j: int| 0 <= j < li && header_line(strip_cr(#[trigger] lv.take(li)[j]));
            assert(lv.take(li + 1)[j] == lv.take(li)[j]);
        }
    }
    if stray_freq_continuation(lv.take(li + 1)) {
        let i = choose|i: int|
            0 <= i < lv.take(li + 1).len() && indented_line(
                strip_cr(#[trigger] lv.take(li + 1)[i]),
            ) && forall|j: int| 0 <= j < i ==> !word_line(strip_cr(#[trigger] lv.take(li + 1)[j]));
        if i < li {
            assert(stray_freq_continuation(lv.take(li))) by {
                assert(indented_line(strip_cr(lv.take(li)[i])));
                assert forall|j: int| 0 <= j < i implies !word_line(
                    strip_cr(#[trigger] lv.take(li)[j]),
                ) by {
                    assert(lv.take(li + 1)[j] == lv.take(li)[j]);
                }
            }
        } else {
            assert(indented_line(strip_cr(lv[li])));
            lemma_word_count_zero(lv.take(li));
            let j = choose|j: int| 0 <= j < li && word_line(strip_cr(#[trigger] lv.take(li)[j]));
            assert(lv.take(li + 1)[j] == lv.take(li)[j]);
        }
    }
    if has_header(lv.take(li + 1)) {
        let i = choose|i: int|
            0 <= i < lv.take(li + 1).len() && header_line(strip_cr(#[trigger] lv.take(li + 1)[i]));
        if i < li {
            assert(has_header(lv.take(li))) by {
                assert(header_line(strip_cr(lv.take(li)[i])));
            }
        }
    }
    if has_header(lv.take(li)) {
        let i = choose|i: int|
            0 <= i < lv.take(li).len() && header_line(strip_cr(#[trigger] lv.take(li)[i]));
        assert(lv.take(li + 1)[i] == lv.take(li)[i]);
        assert(has_header(lv.take(li + 1)));
    }
    if header_line(strip_cr(lv[li])) {
        assert(header_line(strip_cr(lv.take(li + 1)[li])));
        assert(has_header(lv.take(li + 1)));
    }
}

/// The records of the text, line by line: a section marker advances
/// the tier (the first one opens tier zero, later ones saturate at
/// the scale's top); a head line starts a record with its cleaned
/// words in the current tier; a continuation line appends its words
/// to the record above it; blank lines contribute nothing.
pub open spec fn freq_groups_state(lines: Seq<Seq<u8>>) -> (bool, u8, Seq<(u8, Seq<Seq<u8>>)>)
    decreases lines.len(),
{
    if lines.len() == 0 {
        (false, 0u8, Seq::<(u8, Seq<Seq<u8>>)>::empty())
    } else {
        let prev = freq_groups_state(lines.drop_last());
        let l = strip_cr(lines.last());
        if l.len() == 0 {
            prev
        } else if header_line(l) {
            if !prev.0 {
                (true, 0u8, prev.2)
            } else if prev.1 < 255 {
                (true, (prev.1 + 1) as u8, prev.2)
            } else {
                (true, 255u8, prev.2)
            }
        } else if indented_line(l) {
            if prev.2.len() == 0 {
                prev
            } else {
                (
                    prev.0,
                    prev.1,
                    prev.2.update(
                        prev.2.len() - 1,
                        (prev.2.last().0, prev.2.last().1 + freq_line_words(l)),
                    ),
                )
            }
        } else {
            (prev.0, prev.1, prev.2.push((prev.1, freq_line_words(l))))
        }
    }
}

/// Parses a frequency-tier record text: sections are headed by dashed
/// marker lines and numbered in order of appearance; each word line
/// with its indented continuation lines is one record in the current
/// section's tier.  The parse yields one group per word line; a word
/// line before the first section marker, or a continuation before any
/// record, is malformed, and nothing else is.
pub fn parse_freq_dict(text: &Vec<u8>) -> (r: Result<Vec<RelationGroup>, MutationError>)
    ensures
        match r {
            Ok(gs) => {
                &&& gs@.len() == word_count(split_on(text@, 10))
                &&& gs@.len() == freq_groups_state(split_on(text@, 10)).2.len()
                &&& !stray_word(split_on(text@, 10))
                &&& !stray_freq_continuation(split_on(text@, 10))
                &&& forall|i: int|
                    0 <= i < gs@.len() ==> wf_freq_group(#[trigger] gs@[i]) && gs@[i].tier
                        == freq_groups_state(split_on(text@, 10)).2[i].0
                        && gs@[i].members.deep_view() == freq_groups_state(
                        split_on(text@, 10),
                    ).2[i].1
            },
            Err(e) => e == MutationError::ResourceLoad && (stray_word(split_on(text@, 10))
                || stray_freq_continuation(split_on(text@, 10))),
        },
{
    let lines = crate::phrase::split_bytes_on(text, 10);
    let ghost lv = lines.deep_view();
    let mut groups: Vec<RelationGroup> = Vec::new();
    let mut tier: u8 = 0;
    let mut started = false;
    let ln = lines.len();
    let mut li: usize = 0;
    while li < ln
        invariant
            ln == lines@.len(),
            lines.deep_view() == lv,
            lv == split_on(text@, 10),
            li <= ln,
            groups@.len() == word_count(lv.take(li as int)),
            started == has_header(lv.take(li as int)),
            started == freq_groups_state(lv.take(li as int)).0,
            tier == freq_groups_state(lv.take(li as int)).1,
            groups@.len() == freq_groups_state(lv.take(li as int)).2.len(),
            !stray_word(lv.take(li as int)),
            !stray_freq_continuation(lv.take(li as int)),
            forall|gi: int|
                0 <= gi < groups@.len() ==> wf_freq_group(#[trigger] groups@[gi])
                    && groups@[gi].tier == freq_groups_state(lv.take(li as int)).2[gi].0
                    && groups@[gi].members.deep_view() == freq_groups_state(
                    lv.take(li as int),
                ).2[gi].1,
        decreases ln - li,
    {
        proof {
            assert(lv.take(li + 1).drop_last() =~= lv.take(li as int));
            assert(lv.take(li + 1).last() == lv[li as int]);
            assert(lines@[li as int]@ =~= lv[li as int]);
        }
        let mut line = crate::phrase::clone_bytes(&lines[li]);
        if line.len() > 0 && line[line.len() - 1] == 13 {
            let _ = line.pop();
        }
        proof {
            assert(line@ =~= strip_cr(lv[li as int]));
        }
        if line.len() == 0 {
            proof {
                lemma_freq_prefix_step(lv, li as int);
            }
            li += 1;
            continue;
        }
        if line[0] == 45 {
            // a section marker: the next tier begins
            if !started {
                started = true;
                tier = 0;
            } else if tier < 255 {
                tier = tier + 1;
            }
            proof {
                lemma_freq_prefix_step(lv, li as int);
            }
            li += 1;
            continue;
        }
        let indented = line.len() >= 4 && line[0] == 32 && line[1] == 32 && line[2] == 32
            && line[3] == 32;
        let words = scan_freq_words(&line);
        if indented {
            match groups.pop() {
                Some(mut g) => {
                    let ghost old_members = g.members.deep_view();
                    let ghost old_groups = groups@.push(g);
                    let ghost old_tier = g.tier;
                    let wn = words.len();
                    let mut wi: usize = 0;
                    while wi < wn
                        invariant
                            wn == words@.len(),
                            wi <= wn,
                            forall|k: int|
                                0 <= k < words@.len() ==> wf_freq_word((#[trigger] words@[k])@),
                            wf_freq_group(g),
                            g.tier == old_tier,
                            words.deep_view() == freq_line_words(strip_cr(lv[li as int])),
                            g.members.deep_view() == old_members + words.deep_view().take(
                                wi as int,
                            ),
                        decreases wn - wi,
                    {
                        let cb = crate::phrase::clone_bytes(&words[wi]);
                        let ghost cbv = cb@;
                        let ghost old_dv = g.members.deep_view();
                        g.members.push(cb);
                        proof {
                            assert((g.members@[g.members@.len() - 1])@ == words@[wi as int]@);
                            assert(cbv =~= words.deep_view()[wi as int]);
                            assert(g.members.deep_view() =~~= old_dv.push(cbv));
                            assert(g.members.deep_view() =~~= old_members
                                + words.deep_view().take(wi + 1));
                        }
                        wi += 1;
                    }
                    proof {
                        assert(words.deep_view().take(wn as int) =~~= words.deep_view());
                        assert(g.members.deep_view() =~~= old_members + freq_line_words(
                            strip_cr(lv[li as int]),
                        ));
                    }
                    groups.push(g);
                    proof {
                        let sp = freq_groups_state(lv.take(li as int)).2;
                        let sp2 = freq_groups_state(lv.take(li + 1)).2;
                        assert(sp2 == sp.update(sp.len() - 1, (sp.last().0, sp.last().1
                            + freq_line_words(strip_cr(lv[li as int])))));
                        assert forall|gi: int| 0 <= gi < groups@.len() implies wf_freq_group(
                            #[trigger] groups@[gi],
                        ) && groups@[gi].tier == sp2[gi].0 && groups@[gi].members.deep_view()
                            == sp2[gi].1 by {
                            if gi < groups@.len() - 1 {
                                assert(groups@[gi] == old_groups[gi]);
                                assert(sp2[gi] == sp[gi]);
                            } else {
                                assert(groups@[gi] == g);
                                assert(old_members == sp.last().1);
                                assert(old_tier == sp.last().0);
                            }
                        }
                    }
                },
                None => {
                    proof {
                        lemma_word_count_zero(lv.take(li as int));
                        assert(stray_freq_continuation(lv)) by {
                            assert(indented_line(strip_cr(lv[li as int])));
                            assert forall|j: int| 0 <= j < li implies !word_line(
                                strip_cr(#[trigger] lv[j]),
                            ) by {
                                assert(lv.take(li as int)[j] == lv[j]);
                            }
                        }
                    }
                    return Err(MutationError::ResourceLoad);
                },
            }
            proof {
                lemma_freq_prefix_step(lv, li as int);
            }
        } else {
            if !started {
                proof {
                    assert(stray_word(lv)) by {
                        assert(word_line(strip_cr(lv[li as int])));
                        assert forall|j: int| 0 <= j < li implies !header_line(
                            strip_cr(#[trigger] lv[j]),
                        ) by {
                            if header_line(strip_cr(lv[j])) {
                                assert(has_header(lv.take(li as int))) by {
                                    assert(header_line(strip_cr(lv.take(li as int)[j])));
                                }
                            }
                        }
                    }
                }
                return Err(MutationError::ResourceLoad);
            }
            groups.push(RelationGroup { tier, members: words });
            proof {
                lemma_freq_prefix_step(lv, li as int);
            }
        }
        li += 1;
    }
    proof {
        assert(lv.take(ln as int) =~= lv);
    }
    Ok(groups)
}

impl FreqSpellChecker {
    /// Judges a whole candidate phrase against the original phrase:
    /// tokens are paired positionally, extra candidate tokens are
    /// checked against an empty original token, and the phrase
    /// severity is the worst pair severity.  In correct use the
    /// original never has more tokens than the candidate.
    pub fn check_split(&self, original: &Vec<u8>, string: &Vec<u8>) -> (r: CheckResult)
        requires
            crate::phrase::tokens(original@).len() <= crate::phrase::tokens(string@).len(),
        ensures
            r.v() == crate::spellchecking::aligned_sev(
                *self,
                crate::phrase::tokens(original@),
                crate::phrase::tokens(string@),
                crate::phrase::tokens(string@).len() as int,
            ),
    {
        crate::spellchecking::aligned_check(self, original, string)
    }
}

} // verus!
