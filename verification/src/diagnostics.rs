//! Run diagnostics: per-token usage counts across all source phrases,
//! the record of procedurally split words, and the report rendering.

use vstd::prelude::*;
use vstd::string::StringExecFns;

use crate::format::{lossy_chars, spec_dec, usize_to_string};
use crate::mutation::MutationRecord;
use crate::phrase::{join, tokens};
use crate::spellchecking::{spec_prefix, CheckResult};
use crate::types::{distinct_keys, has_key, key_index, value_of, MutationConfig};

verus! {

/// How often a word has been logged.
pub open spec fn usage_of(entries: Seq<(Vec<u8>, usize)>, w: Seq<u8>) -> int {
    if has_key(entries, w) {
        value_of(entries, w) as int
    } else {
        0
    }
}

/// Whether the split record holds a triple: a word, a severity, and
/// one of the word's recorded split variants.
pub open spec fn has_split(
    ws: Seq<(Vec<u8>, Vec<(CheckResult, Vec<u8>)>)>,
    o: Seq<u8>,
    v: u8,
    sp: Seq<u8>,
) -> bool {
    exists|a: int, b: int|
        0 <= a < ws.len() && 0 <= b < (#[trigger] ws[a]).1@.len() && ws[a].0@ == o && (
        #[trigger] ws[a].1@[b]).0.v() == v && ws[a].1@[b].1@ == sp
}

/// Well-formedness of the split record: one entry per word, and no
/// (severity, split) pair recorded twice under one word.
pub open spec fn wf_splits(ws: Seq<(Vec<u8>, Vec<(CheckResult, Vec<u8>)>)>) -> bool {
    &&& distinct_keys(ws)
    &&& forall|x: int, a: int, b: int|
        0 <= x < ws.len() && 0 <= a < b < ws[x].1@.len() ==> ((#[trigger] ws[x].1@[a]).0.v() != (
        #[trigger] ws[x].1@[b]).0.v() || ws[x].1@[a].1@ != ws[x].1@[b].1@)
}

/// How many nonempty tokens of the list equal the word.
pub open spec fn count_in(tv: Seq<Seq<u8>>, w: Seq<u8>) -> int
    decreases tv.len(),
{
    if tv.len() == 0 {
        0
    } else {
        count_in(tv.drop_last(), w) + if tv.last() == w && w.len() > 0 {
            1int
        } else {
            0int
        }
    }
}

/// Whether some oracle's records hold a candidate with the given
/// severity and more tokens than the source phrase.
pub open spec fn is_split_record(
    records: Seq<Vec<MutationRecord>>,
    source_tokens: int,
    v: u8,
    sp: Seq<u8>,
) -> bool {
    exists|k: int, i: int|
        0 <= k < records.len() && 0 <= i < (#[trigger] records[k])@.len() && (
        #[trigger] records[k]@[i]).severity.v() == v && records[k]@[i].candidate@ == sp && tokens(
            records[k]@[i].candidate@,
        ).len() > source_tokens
}

/// Run counters: how many phrases were processed, how often each
/// distinct token appeared, which words were split procedurally, and
/// how many phrases produced output.
pub struct Diagnostics {
    pub initial_spell_count: usize,
    pub initial_word_usage: Vec<(Vec<u8>, usize)>,
    pub word_splits: Vec<(Vec<u8>, Vec<(CheckResult, Vec<u8>)>)>,
    pub final_spell_count: usize,
}

impl Diagnostics {
    pub fn new() -> (r: Diagnostics)
        ensures
            r.initial_spell_count == 0,
            r.initial_word_usage@.len() == 0,
            r.word_splits@.len() == 0,
            r.final_spell_count == 0,
    {
        Diagnostics {
            initial_spell_count: 0,
            initial_word_usage: Vec::new(),
            word_splits: Vec::new(),
            final_spell_count: 0,
        }
    }

    /// Counts one use of a source token.  The word's count rises by
    /// one (saturating); every other word's count is unchanged.
    pub fn log_initial_word(&mut self, word: &Vec<u8>)
        requires
            distinct_keys(old(self).initial_word_usage@),
        ensures
            distinct_keys(final(self).initial_word_usage@),
            forall|w: Seq<u8>|
                #[trigger] usage_of(final(self).initial_word_usage@, w) == if w == word@ {
                    if usage_of(old(self).initial_word_usage@, w) < usize::MAX {
                        usage_of(old(self).initial_word_usage@, w) + 1
                    } else {
                        usage_of(old(self).initial_word_usage@, w)
                    }
                } else {
                    usage_of(old(self).initial_word_usage@, w)
                },
            final(self).initial_spell_count == old(self).initial_spell_count,
            final(self).word_splits == old(self).word_splits,
            final(self).final_spell_count == old(self).final_spell_count,
    {
        let ghost olde = self.initial_word_usage@;
        let n = self.initial_word_usage.len();
        let mut i: usize = 0;
        while i < n
            invariant
                n == self.initial_word_usage@.len(),
                i <= n,
                self.initial_word_usage@ == olde,
                olde == old(self).initial_word_usage@,
                self.initial_spell_count == old(self).initial_spell_count,
                self.word_splits == old(self).word_splits,
                self.final_spell_count == old(self).final_spell_count,
                distinct_keys(olde),
                forall|j: int| 0 <= j < i ==> (#[trigger] olde[j]).0@ != word@,
            decreases n - i,
        {
            if crate::phrase::bytes_eq(&self.initial_word_usage[i].0, word) {
                let cnt = self.initial_word_usage[i].1;
                let newcnt = if cnt < usize::MAX {
                    cnt + 1
                } else {
                    cnt
                };
                let key = crate::phrase::clone_bytes(&self.initial_word_usage[i].0);
                self.initial_word_usage.set(i, (key, newcnt));
                proof {
                    assert(distinct_keys(self.initial_word_usage@)) by {
                        assert forall|a: int, b: int|
                            0 <= a < b < self.initial_word_usage@.len() implies (
                        #[trigger] self.initial_word_usage@[a]).0@ != (
                        #[trigger] self.initial_word_usage@[b]).0@ by {
                            assert(self.initial_word_usage@[a].0@ == olde[a].0@);
                            assert(self.initial_word_usage@[b].0@ == olde[b].0@);
                        }
                    }
                    let es = self.initial_word_usage@;
                    assert forall|w: Seq<u8>| #[trigger] usage_of(es, w) == (if w == word@ {
                        if usage_of(olde, w) < usize::MAX {
                            usage_of(olde, w) + 1
                        } else {
                            usage_of(olde, w)
                        }
                    } else {
                        usage_of(olde, w)
                    }) by {
                        if w == word@ {
                            assert(has_key(es, w)) by {
                                assert(es[i as int].0@ == w);
                            }
                            assert(has_key(olde, w)) by {
                                assert(olde[i as int].0@ == w);
                            }
                            assert(key_index(es, w) == i);
                            assert(key_index(olde, w) == i);
                        } else {
                            if has_key(es, w) {
                                let k = key_index(es, w);
                                assert(0 <= k < es.len() && es[k].0@ == w);
                                assert(k != i);
                                assert(olde[k].0@ == w);
                                assert(has_key(olde, w));
                                assert(key_index(olde, w) == k);
                            }
                            if has_key(olde, w) {
                                let k = key_index(olde, w);
                                assert(0 <= k < olde.len() && olde[k].0@ == w);
                                assert(k != i);
                                assert(es[k].0@ == w);
                                assert(has_key(es, w));
                                assert(key_index(es, w) == k);
                            }
                        }
                    }
                }
                return ;
            }
            i += 1;
        }
        let ghost pre = self.initial_word_usage@;
        self.initial_word_usage.push((crate::phrase::clone_bytes(word), 1));
        proof {
            let es = self.initial_word_usage@;
            assert(es.drop_last() =~= pre);
            assert(es.last().0@ == word@ && es.last().1 == 1);
            assert(!has_key(pre, word@));
            assert(distinct_keys(es)) by {
                assert forall|a: int, b: int| 0 <= a < b < es.len() implies (#[trigger] es[a]).0@
                    != (#[trigger] es[b]).0@ by {
                    if b == es.len() - 1 {
                        if es[a].0@ == es[b].0@ {
                            assert(has_key(pre, word@)) by {
                                assert(pre[a].0@ == word@);
                            }
                        }
                    }
                }
            }
            assert forall|w: Seq<u8>| #[trigger] usage_of(es, w) == (if w == word@ {
                if usage_of(pre, w) < usize::MAX {
                    usage_of(pre, w) + 1
                } else {
                    usage_of(pre, w)
                }
            } else {
                usage_of(pre, w)
            }) by {
                if w == word@ {
                    assert(has_key(es, w)) by {
                        assert(es[es.len() - 1].0@ == w);
                    }
                    let k = key_index(es, w);
                    assert(0 <= k < es.len() && es[k].0@ == w);
                    assert(k == es.len() - 1) by {
                        if k < es.len() - 1 {
                            assert(has_key(pre, w)) by {
                                assert(pre[k].0@ == w);
                            }
                        }
                    }
                } else {
                    if has_key(es, w) {
                        let k = key_index(es, w);
                        assert(0 <= k < es.len() && es[k].0@ == w);
                        assert(k < es.len() - 1);
                        assert(pre[k].0@ == w);
                        assert(has_key(pre, w));
                        assert(key_index(pre, w) == key_index(es, w)) by {
                            let k2 = key_index(pre, w);
                            assert(0 <= k2 < pre.len() && pre[k2].0@ == w);
                            assert(es[k2].0@ == w);
                        }
                    }
                    if has_key(pre, w) {
                        let k = key_index(pre, w);
                        assert(0 <= k < pre.len() && pre[k].0@ == w);
                        assert(es[k].0@ == w);
                        assert(has_key(es, w));
                    }
                }
            }
        }
    }

    /// Records one procedural split of a word, at most once per
    /// distinct (severity, split) pair: afterwards the record holds
    /// exactly the old triples plus this one, and nothing else
    /// changes.
    pub fn log_procedural_split(&mut self, original: &Vec<u8>, split: &Vec<u8>, check: CheckResult)
        requires
            wf_splits(old(self).word_splits@),
        ensures
            wf_splits(final(self).word_splits@),
            forall|o: Seq<u8>, v: u8, sp: Seq<u8>|
                #[trigger] has_split(final(self).word_splits@, o, v, sp) <==> (has_split(
                    old(self).word_splits@,
                    o,
                    v,
                    sp,
                ) || (o == original@ && v == check.v() && sp == split@)),
            final(self).initial_spell_count == old(self).initial_spell_count,
            final(self).initial_word_usage == old(self).initial_word_usage,
            final(self).final_spell_count == old(self).final_spell_count,
    {
        let ghost ows = self.word_splits@;
        let n = self.word_splits.len();
        let mut i: usize = 0;
        while i < n
            invariant
                n == self.word_splits@.len(),
                i <= n,
                self.word_splits@ == ows,
                ows == old(self).word_splits@,
                wf_splits(ows),
                self.initial_spell_count == old(self).initial_spell_count,
                self.initial_word_usage == old(self).initial_word_usage,
                self.final_spell_count == old(self).final_spell_count,
                forall|j: int| 0 <= j < i ==> (#[trigger] ows[j]).0@ != original@,
            decreases n - i,
        {
            if crate::phrase::bytes_eq(&self.word_splits[i].0, original) {
                let list = &self.word_splits[i].1;
                let ln = list.len();
                let mut j: usize = 0;
                while j < ln
                    invariant
                        n == self.word_splits@.len(),
                        i < n,
                        self.word_splits@ == ows,
                        ows == old(self).word_splits@,
                        ows[i as int].0@ == original@,
                        wf_splits(ows),
                        self.initial_spell_count == old(self).initial_spell_count,
                        self.initial_word_usage == old(self).initial_word_usage,
                        self.final_spell_count == old(self).final_spell_count,
                        ln == ows[i as int].1@.len(),
                        j <= ln,
                        forall|jj: int|
                            0 <= jj < j ==> (#[trigger] ows[i as int].1@[jj]).0.v() != check.v()
                                || ows[i as int].1@[jj].1@ != split@,
                    decreases ln - j,
                {
                    let e = &self.word_splits[i].1[j];
                    if e.0.value() == check.value() && crate::phrase::bytes_eq(&e.1, split) {
                        proof {
                            assert(has_split(ows, original@, check.v(), split@)) by {
                                assert(0 <= i < ows.len() && 0 <= j < (#[trigger] ows[i as int]).1@.len()
                                    && ows[i as int].0@ == original@ && (
                                #[trigger] ows[i as int].1@[j as int]).0.v() == check.v()
                                    && ows[i as int].1@[j as int].1@ == split@);
                            }
                        }
                        return ;
                    }
                    j += 1;
                }
                // the pair is new for this word: extend its record
                let key = crate::phrase::clone_bytes(&self.word_splits[i].0);
                let mut lst = clone_split_list(&self.word_splits[i].1);
                lst.push((check, crate::phrase::clone_bytes(split)));
                let ghost lv = lst@;
                self.word_splits.set(i, (key, lst));
                proof {
                    let ws = self.word_splits@;
                    assert(ws.len() == ows.len());
                    assert(ws[i as int].0@ == original@);
                    assert(ws[i as int].1@ == lv);
                    assert(lv.len() == ows[i as int].1@.len() + 1);
                    assert forall|jj: int| 0 <= jj < ows[i as int].1@.len() implies (
                    #[trigger] lv[jj]).0 == ows[i as int].1@[jj].0 && lv[jj].1@
                        == ows[i as int].1@[jj].1@ by {
                        assert(lv.drop_last()[jj] == lv[jj]);
                    }
                    assert(lv.last().0 == check && lv.last().1@ == split@);
                    assert(wf_splits(ws)) by {
                        assert forall|a: int, b: int| 0 <= a < b < ws.len() implies (
                        #[trigger] ws[a]).0@ != (#[trigger] ws[b]).0@ by {
                            assert(ws[a].0@ == ows[a].0@ || a == i);
                            assert(ws[b].0@ == ows[b].0@ || b == i);
                        }
                        assert forall|x: int, a: int, b: int|
                            0 <= x < ws.len() && 0 <= a < b < ws[x].1@.len() implies ((
                        #[trigger] ws[x].1@[a]).0.v() != (#[trigger] ws[x].1@[b]).0.v()
                            || ws[x].1@[a].1@ != ws[x].1@[b].1@) by {
                            if x == i {
                                if b < lv.len() - 1 {
                                    assert(ows[x].1@[a].0.v() != ows[x].1@[b].0.v()
                                        || ows[x].1@[a].1@ != ows[x].1@[b].1@);
                                } else {
                                    assert(ows[i as int].1@[a].0.v() != check.v()
                                        || ows[i as int].1@[a].1@ != split@);
                                }
                            }
                        }
                    }
                    assert forall|o: Seq<u8>, v: u8, sp: Seq<u8>|
                        #[trigger] has_split(ws, o, v, sp) <==> (has_split(ows, o, v, sp) || (o
                        == original@ && v == check.v() && sp == split@)) by {
                        if has_split(ws, o, v, sp) {
                            let (a, b): (int, int) = choose|a: int, b: int|
                                0 <= a < ws.len() && 0 <= b < (#[trigger] ws[a]).1@.len()
                                    && ws[a].0@ == o && (#[trigger] ws[a].1@[b]).0.v() == v
                                    && ws[a].1@[b].1@ == sp;
                            if a != i {
                                assert(ws[a] == ows[a]);
                                assert(has_split(ows, o, v, sp)) by {
                                    assert(0 <= a < ows.len() && 0 <= b < (
                                    #[trigger] ows[a]).1@.len() && ows[a].0@ == o && (
                                    #[trigger] ows[a].1@[b]).0.v() == v && ows[a].1@[b].1@ == sp);
                                }
                            } else if b < lv.len() - 1 {
                                assert(has_split(ows, o, v, sp)) by {
                                    assert(0 <= i < ows.len() && 0 <= b < (
                                    #[trigger] ows[i as int]).1@.len() && ows[i as int].0@ == o
                                        && (#[trigger] ows[i as int].1@[b]).0.v() == v
                                        && ows[i as int].1@[b].1@ == sp);
                                }
                            } else {
                                assert(o == original@ && v == check.v() && sp == split@);
                            }
                        }
                        if has_split(ows, o, v, sp) {
                            let (a, b): (int, int) = choose|a: int, b: int|
                                0 <= a < ows.len() && 0 <= b < (#[trigger] ows[a]).1@.len()
                                    && ows[a].0@ == o && (#[trigger] ows[a].1@[b]).0.v() == v
                                    && ows[a].1@[b].1@ == sp;
                            if a != i {
                                assert(has_split(ws, o, v, sp)) by {
                                    assert(0 <= a < ws.len() && 0 <= b < (
                                    #[trigger] ws[a]).1@.len() && ws[a].0@ == o && (
                                    #[trigger] ws[a].1@[b]).0.v() == v && ws[a].1@[b].1@ == sp);
                                }
                            } else {
                                assert(has_split(ws, o, v, sp)) by {
                                    assert(0 <= i < ws.len() && 0 <= b < (
                                    #[trigger] ws[i as int]).1@.len() && ws[i as int].0@ == o && (
                                    #[trigger] ws[i as int].1@[b]).0.v() == v && ws[i as int].1@[
                                    b].1@ == sp);
                                }
                            }
                        }
                        if o == original@ && v == check.v() && sp == split@ {
                            assert(has_split(ws, o, v, sp)) by {
                                assert(0 <= i < ws.len() && 0 <= lv.len() - 1 < (
                                #[trigger] ws[i as int]).1@.len() && ws[i as int].0@ == o && (
                                #[trigger] ws[i as int].1@[lv.len() - 1]).0.v() == v
                                    && ws[i as int].1@[lv.len() - 1].1@ == sp);
                            }
                        }
                    }
                }
                return ;
            }
            i += 1;
        }
        // first split recorded for this word
        let mut lst: Vec<(CheckResult, Vec<u8>)> = Vec::new();
        lst.push((check, crate::phrase::clone_bytes(split)));
        let ghost lv = lst@;
        self.word_splits.push((crate::phrase::clone_bytes(original), lst));
        proof {
            let ws = self.word_splits@;
            assert(ws.drop_last() =~= ows);
            assert(ws.last().0@ == original@ && ws.last().1@ == lv);
            assert(lv.len() == 1 && lv[0].0 == check && lv[0].1@ == split@);
            assert(wf_splits(ws)) by {
                assert forall|a: int, b: int| 0 <= a < b < ws.len() implies (#[trigger] ws[a]).0@
                    != (#[trigger] ws[b]).0@ by {
                    if b == ws.len() - 1 {
                        assert(ws[a] == ows[a]);
                    }
                }
                assert forall|x: int, a: int, b: int|
                    0 <= x < ws.len() && 0 <= a < b < ws[x].1@.len() implies ((
                #[trigger] ws[x].1@[a]).0.v() != (#[trigger] ws[x].1@[b]).0.v() || ws[x].1@[a].1@
                    != ws[x].1@[b].1@) by {
                    if x < ws.len() - 1 {
                        assert(ws[x] == ows[x]);
                    }
                }
            }
            assert forall|o: Seq<u8>, v: u8, sp: Seq<u8>|
                #[trigger] has_split(ws, o, v, sp) <==> (has_split(ows, o, v, sp) || (o
                == original@ && v == check.v() && sp == split@)) by {
                if has_split(ws, o, v, sp) {
                    let (a, b): (int, int) = choose|a: int, b: int|
                        0 <= a < ws.len() && 0 <= b < (#[trigger] ws[a]).1@.len() && ws[a].0@ == o
                            && (#[trigger] ws[a].1@[b]).0.v() == v && ws[a].1@[b].1@ == sp;
                    if a < ws.len() - 1 {
                        assert(ws[a] == ows[a]);
                        assert(has_split(ows, o, v, sp)) by {
                            assert(0 <= a < ows.len() && 0 <= b < (#[trigger] ows[a]).1@.len()
                                && ows[a].0@ == o && (#[trigger] ows[a].1@[b]).0.v() == v
                                && ows[a].1@[b].1@ == sp);
                        }
                    } else {
                        assert(o == original@ && v == check.v() && sp == split@);
                    }
                }
                if has_split(ows, o, v, sp) {
                    let (a, b): (int, int) = choose|a: int, b: int|
                        0 <= a < ows.len() && 0 <= b < (#[trigger] ows[a]).1@.len() && ows[a].0@
                            == o && (#[trigger] ows[a].1@[b]).0.v() == v && ows[a].1@[b].1@ == sp;
                    assert(has_split(ws, o, v, sp)) by {
                        assert(0 <= a < ws.len() && 0 <= b < (#[trigger] ws[a]).1@.len()
                            && ws[a].0@ == o && (#[trigger] ws[a].1@[b]).0.v() == v
                            && ws[a].1@[b].1@ == sp);
                    }
                }
                if o == original@ && v == check.v() && sp == split@ {
                    assert(has_split(ws, o, v, sp)) by {
                        assert(0 <= ws.len() - 1 < ws.len() && 0 <= 0 < (#[trigger] ws[ws.len()
                            - 1]).1@.len() && ws[ws.len() - 1].0@ == o && (#[trigger] ws[ws.len()
                            - 1].1@[0]).0.v() == v && ws[ws.len() - 1].1@[0].1@ == sp);
                    }
                }
            }
        }
    }

    /// Folds one phrase's outcome into the counters: every nonempty
    /// word of the pre-split source is counted once per occurrence,
    /// every reported candidate with more tokens than the source is
    /// recorded as a procedural split of the source, and the phrase
    /// counts toward the final tally exactly when some oracle accepted
    /// a candidate.
    pub fn log_phrase(&mut self, toks: &Vec<Vec<u8>>, records: &Vec<Vec<MutationRecord>>)
        requires
            distinct_keys(old(self).initial_word_usage@),
            wf_splits(old(self).word_splits@),
            old(self).final_spell_count < usize::MAX,
        ensures
            distinct_keys(final(self).initial_word_usage@),
            wf_splits(final(self).word_splits@),
            final(self).initial_spell_count == old(self).initial_spell_count,
            forall|w: Seq<u8>|
                #[trigger] usage_of(final(self).initial_word_usage@, w) == if usage_of(
                    old(self).initial_word_usage@,
                    w,
                ) + count_in(toks.deep_view(), w) <= usize::MAX {
                    usage_of(old(self).initial_word_usage@, w) + count_in(toks.deep_view(), w)
                } else {
                    usize::MAX as int
                },
            forall|o: Seq<u8>, v: u8, sp: Seq<u8>|
                #[trigger] has_split(final(self).word_splits@, o, v, sp) <==> (has_split(
                    old(self).word_splits@,
                    o,
                    v,
                    sp,
                ) || (o == join(toks.deep_view()) && is_split_record(
                    records@,
                    toks.deep_view().len() as int,
                    v,
                    sp,
                ))),
            final(self).final_spell_count == old(self).final_spell_count + if exists|k: int|
                0 <= k < records@.len() && (#[trigger] records@[k])@.len() > 0 {
                1int
            } else {
                0int
            },
    {
        let ghost base_usage = self.initial_word_usage@;
        let tn = toks.len();
        let mut ti: usize = 0;
        while ti < tn
            invariant
                tn == toks@.len(),
                ti <= tn,
                distinct_keys(self.initial_word_usage@),
                self.initial_spell_count == old(self).initial_spell_count,
                self.word_splits == old(self).word_splits,
                self.final_spell_count == old(self).final_spell_count,
                forall|w: Seq<u8>|
                    #[trigger] usage_of(self.initial_word_usage@, w) == if usage_of(base_usage, w)
                        + count_in(toks.deep_view().take(ti as int), w) <= usize::MAX {
                        usage_of(base_usage, w) + count_in(toks.deep_view().take(ti as int), w)
                    } else {
                        usize::MAX as int
                    },
                base_usage == old(self).initial_word_usage@,
            decreases tn - ti,
        {
            proof {
                assert(toks.deep_view().take(ti + 1).drop_last() =~= toks.deep_view().take(
                    ti as int,
                ));
                assert(toks.deep_view().take(ti + 1).last() == toks.deep_view()[ti as int]);
                assert(toks@[ti as int]@ =~= toks.deep_view()[ti as int]);
            }
            if toks[ti].len() > 0 {
                self.log_initial_word(&toks[ti]);
            }
            ti += 1;
        }
        proof {
            assert(toks.deep_view().take(tn as int) =~= toks.deep_view());
        }
        let ghost usage_after = self.initial_word_usage@;
        let processed = crate::phrase::join_tokens(toks);
        let ghost base_splits = self.word_splits@;
        let rn = records.len();
        let mut k: usize = 0;
        let mut any = false;
        while k < rn
            invariant
                rn == records@.len(),
                k <= rn,
                processed@ == join(toks.deep_view()),
                wf_splits(self.word_splits@),
                self.initial_spell_count == old(self).initial_spell_count,
                self.initial_word_usage@ == usage_after,
                distinct_keys(usage_after),
                forall|w: Seq<u8>|
                    #[trigger] usage_of(usage_after, w) == if usage_of(
                        old(self).initial_word_usage@,
                        w,
                    ) + count_in(toks.deep_view(), w) <= usize::MAX {
                        usage_of(old(self).initial_word_usage@, w) + count_in(
                            toks.deep_view(),
                            w,
                        )
                    } else {
                        usize::MAX as int
                    },
                self.final_spell_count == old(self).final_spell_count,
                base_splits == old(self).word_splits@,
                any == exists|k0: int|
                    0 <= k0 < k && (#[trigger] records@[k0])@.len() > 0,
                forall|o: Seq<u8>, v: u8, sp: Seq<u8>|
                    #[trigger] has_split(self.word_splits@, o, v, sp) <==> (has_split(
                        base_splits,
                        o,
                        v,
                        sp,
                    ) || (o == join(toks.deep_view()) && is_split_record(
                        records@.take(k as int),
                        toks.deep_view().len() as int,
                        v,
                        sp,
                    ))),
            decreases rn - k,
        {
            proof {
                assert(records@.take(k + 1).drop_last() =~= records@.take(k as int));
                assert(records@.take(k + 1).last() == records@[k as int]);
            }
            let ghost pre_any = any;
            if records[k].len() > 0 {
                any = true;
            }
            proof {
                assert forall|k0: int|
                    (0 <= k0 < k + 1 && (#[trigger] records@[k0])@.len() > 0) implies any by {
                    if k0 < k {
                        assert(pre_any);
                    }
                }
                if !any {
                }
            }
            let rln = records[k].len();
            let mut i: usize = 0;
            while i < rln
                invariant
                    rn == records@.len(),
                    k < rn,
                    rln == records@[k as int]@.len(),
                    i <= rln,
                    processed@ == join(toks.deep_view()),
                    wf_splits(self.word_splits@),
                    self.initial_spell_count == old(self).initial_spell_count,
                    self.initial_word_usage@ == usage_after,
                    distinct_keys(usage_after),
                    forall|w: Seq<u8>|
                        #[trigger] usage_of(usage_after, w) == if usage_of(
                            old(self).initial_word_usage@,
                            w,
                        ) + count_in(toks.deep_view(), w) <= usize::MAX {
                            usage_of(old(self).initial_word_usage@, w) + count_in(
                                toks.deep_view(),
                                w,
                            )
                        } else {
                            usize::MAX as int
                        },
                    self.final_spell_count == old(self).final_spell_count,
                    base_splits == old(self).word_splits@,
                    forall|o: Seq<u8>, v: u8, sp: Seq<u8>|
                        #[trigger] has_split(self.word_splits@, o, v, sp) <==> (has_split(
                            base_splits,
                            o,
                            v,
                            sp,
                        ) || (o == join(toks.deep_view()) && (is_split_record(
                            records@.take(k as int),
                            toks.deep_view().len() as int,
                            v,
                            sp,
                        ) || exists|i0: int|
                            0 <= i0 < i && (#[trigger] records@[k as int]@[i0]).severity.v() == v
                                && records@[k as int]@[i0].candidate@ == sp && tokens(
                                records@[k as int]@[i0].candidate@,
                            ).len() > toks.deep_view().len()))),
                decreases rln - i,
            {
                let cand_toks = crate::phrase::tokenize(&records[k][i].candidate);
                if cand_toks.len() > toks.len() {
                    let sev = records[k][i].severity;
                    let cand = crate::phrase::clone_bytes(&records[k][i].candidate);
                    self.log_procedural_split(&processed, &cand, sev);
                }
                i += 1;
            }
            proof {
                assert forall|o: Seq<u8>, v: u8, sp: Seq<u8>|
                    #[trigger] has_split(self.word_splits@, o, v, sp) <==> (has_split(
                        base_splits,
                        o,
                        v,
                        sp,
                    ) || (o == join(toks.deep_view()) && is_split_record(
                        records@.take(k + 1),
                        toks.deep_view().len() as int,
                        v,
                        sp,
                    ))) by {
                    if is_split_record(
                        records@.take(k + 1),
                        toks.deep_view().len() as int,
                        v,
                        sp,
                    ) && !is_split_record(records@.take(k as int), toks.deep_view().len() as int, v, sp) {
                        let (k0, i0): (int, int) = choose|k0: int, i0: int|
                            0 <= k0 < records@.take(k + 1).len() && 0 <= i0 < (
                            #[trigger] records@.take(k + 1)[k0])@.len() && (
                            #[trigger] records@.take(k + 1)[k0]@[i0]).severity.v() == v
                                && records@.take(k + 1)[k0]@[i0].candidate@ == sp && tokens(
                                records@.take(k + 1)[k0]@[i0].candidate@,
                            ).len() > toks.deep_view().len();
                        if k0 < k {
                            assert(is_split_record(
                                records@.take(k as int),
                                toks.deep_view().len() as int,
                                v,
                                sp,
                            )) by {
                                assert(records@.take(k as int)[k0] == records@.take(k + 1)[k0]);
                                assert(0 <= k0 < records@.take(k as int).len() && 0 <= i0 < (
                                #[trigger] records@.take(k as int)[k0])@.len() && (
                                #[trigger] records@.take(k as int)[k0]@[i0]).severity.v() == v
                                    && records@.take(k as int)[k0]@[i0].candidate@ == sp && tokens(
                                    records@.take(k as int)[k0]@[i0].candidate@,
                                ).len() > toks.deep_view().len());
                            }
                        }
                    }
                    if exists|i0: int|
                        0 <= i0 < rln && (#[trigger] records@[k as int]@[i0]).severity.v() == v
                            && records@[k as int]@[i0].candidate@ == sp && tokens(
                            records@[k as int]@[i0].candidate@,
                        ).len() > toks.deep_view().len() {
                        let i0 = choose|i0: int|
                            0 <= i0 < rln && (#[trigger] records@[k as int]@[i0]).severity.v() == v
                                && records@[k as int]@[i0].candidate@ == sp && tokens(
                                records@[k as int]@[i0].candidate@,
                            ).len() > toks.deep_view().len();
                        assert(is_split_record(
                            records@.take(k + 1),
                            toks.deep_view().len() as int,
                            v,
                            sp,
                        )) by {
                            assert(records@.take(k + 1)[k as int] == records@[k as int]);
                            assert(0 <= k < records@.take(k + 1).len() && 0 <= i0 < (
                            #[trigger] records@.take(k + 1)[k as int])@.len() && (
                            #[trigger] records@.take(k + 1)[k as int]@[i0]).severity.v() == v
                                && records@.take(k + 1)[k as int]@[i0].candidate@ == sp && tokens(
                                records@.take(k + 1)[k as int]@[i0].candidate@,
                            ).len() > toks.deep_view().len());
                        }
                    }
                }
            }
            k += 1;
        }
        proof {
            assert(records@.take(rn as int) =~= records@);
        }
        if any {
            self.final_spell_count = self.final_spell_count + 1;
        }
    }

    /// Renders the report: the three run counters, and, when advanced
    /// diagnostics are configured, the usage count of every logged
    /// word in logging order.
    pub fn stringify(&self, config: &MutationConfig, verbose: bool) -> (r: String)
        ensures
            r@ == spec_stringify(*self, *config, verbose),
    {
        let mut s = String::from_str("initial spell count: ");
        let c1 = usize_to_string(self.initial_spell_count);
        s.append(c1.as_str());
        s.append("\ninitial word count: ");
        let c2 = usize_to_string(self.initial_word_usage.len());
        s.append(c2.as_str());
        s.append("\nfinal spell count: ");
        let c3 = usize_to_string(self.final_spell_count);
        s.append(c3.as_str());
        if config.advanced_diagnostics {
            s.append("\n\nword usage:");
            let mut lines: Vec<String> = Vec::new();
            vertical_count_all(&mut lines, &self.initial_word_usage);
            proof {
                assert forall|j: int| 0 <= j < lines@.len() implies (#[trigger] lines@[j])@
                    == usage_line(self.initial_word_usage@, j) by {
                    assert(lines@[0 + j]@ == usage_line(self.initial_word_usage@, j));
                }
            }
            let n = lines.len();
            let mut i: usize = 0;
            while i < n
                invariant
                    n == lines@.len(),
                    i <= n,
                    forall|j: int|
                        0 <= j < n ==> (#[trigger] lines@[j])@ == usage_line(
                            self.initial_word_usage@,
                            j,
                        ),
                    s@ == spec_stringify_base(*self) + "\n\nword usage:"@ + usage_lines(
                        self.initial_word_usage@,
                        i as int,
                    ),
                decreases n - i,
            {
                s.append("\n");
                s.append(lines[i].as_str());
                proof {
                    assert(s@ =~= spec_stringify_base(*self) + "\n\nword usage:"@
                        + usage_lines(self.initial_word_usage@, i + 1));
                }
                i += 1;
            }
            if verbose {
                s.append("\n\nprocedurally split words:");
                let ghost head = spec_stringify_base(*self) + "\n\nword usage:"@
                    + usage_lines(self.initial_word_usage@, self.initial_word_usage@.len() as int)
                    + "\n\nprocedurally split words:"@;
                proof {
                    assert(s@ =~= head + splits_block(self.word_splits@, 0));
                }
                let wn = self.word_splits.len();
                let mut wi: usize = 0;
                while wi < wn
                    invariant
                        wn == self.word_splits@.len(),
                        wi <= wn,
                        s@ == head + splits_block(self.word_splits@, wi as int),
                    decreases wn - wi,
                {
                    let ghost entry_base = s@;
                    let en = self.word_splits[wi].1.len();
                    let mut ei: usize = 0;
                    while ei < en
                        invariant
                            wi < wn == self.word_splits@.len(),
                            en == self.word_splits@[wi as int].1@.len(),
                            ei <= en,
                            entry_base == head + splits_block(self.word_splits@, wi as int),
                            s@ == entry_base + entry_split_lines(
                                self.word_splits@[wi as int],
                                ei as int,
                            ),
                        decreases en - ei,
                    {
                        s.append("\n");
                        let p = self.word_splits[wi].1[ei].0.prefix_string();
                        s.append(p.as_str());
                        let o = crate::format::bytes_to_string_lossy(&self.word_splits[wi].0);
                        s.append(o.as_str());
                        s.append(": ");
                        let sp = crate::format::bytes_to_string_lossy(
                            &self.word_splits[wi].1[ei].1,
                        );
                        s.append(sp.as_str());
                        proof {
                            assert(s@ =~= entry_base + entry_split_lines(
                                self.word_splits@[wi as int],
                                ei + 1,
                            ));
                        }
                        ei += 1;
                    }
                    proof {
                        assert(s@ =~= head + splits_block(self.word_splits@, wi + 1));
                    }
                    wi += 1;
                }
                proof {
                    assert(s@ =~= spec_stringify(*self, *config, verbose));
                }
                s
            } else {
                proof {
                    assert(s@ =~= spec_stringify(*self, *config, verbose));
                }
                s
            }
        } else {
            proof {
                assert(s@ =~= spec_stringify(*self, *config, verbose));
            }
            s
        }
    }
}

fn clone_split_list(v: &Vec<(CheckResult, Vec<u8>)>) -> (r: Vec<(CheckResult, Vec<u8>)>)
    ensures
        r@.len() == v@.len(),
        forall|j: int|
            0 <= j < v@.len() ==> (#[trigger] r@[j]).0 == v@[j].0 && r@[j].1@ == v@[j].1@,
{
    let mut r: Vec<(CheckResult, Vec<u8>)> = Vec::new();
    let n = v.len();
    let mut i: usize = 0;
    while i < n
        invariant
            n == v.len(),
            i <= n,
            r@.len() == i,
            forall|j: int|
                0 <= j < i ==> (#[trigger] r@[j]).0 == v@[j].0 && r@[j].1@ == v@[j].1@,
        decreases n - i,
    {
        r.push((v[i].0, crate::phrase::clone_bytes(&v[i].1)));
        i += 1;
    }
    r
}

/// The three-counter header of the report.
pub open spec fn spec_stringify_base(d: Diagnostics) -> Seq<char> {
    "initial spell count: "@ + spec_dec(d.initial_spell_count as int) + "\ninitial word count: "@
        + spec_dec(d.initial_word_usage@.len() as int) + "\nfinal spell count: "@ + spec_dec(
        d.final_spell_count as int,
    )
}

/// One rendered usage-count line.
pub open spec fn usage_line(entries: Seq<(Vec<u8>, usize)>, j: int) -> Seq<char> {
    "- "@ + lossy_chars(entries[j].0@) + ": "@ + spec_dec(entries[j].1 as int)
}

/// The first `n` usage-count lines, each on its own line.
pub open spec fn usage_lines(entries: Seq<(Vec<u8>, usize)>, n: int) -> Seq<char>
    decreases n,
{
    if n <= 0 {
        Seq::<char>::empty()
    } else {
        usage_lines(entries, n - 1) + "\n"@ + usage_line(entries, n - 1)
    }
}

/// The rendered record of one split word's first `n` split variants.
pub open spec fn entry_split_lines(e: (Vec<u8>, Vec<(CheckResult, Vec<u8>)>), n: int) -> Seq<char>
    decreases n,
{
    if n <= 0 {
        Seq::<char>::empty()
    } else {
        entry_split_lines(e, n - 1) + "\n"@ + spec_prefix(e.1@[n - 1].0.v()) + lossy_chars(e.0@)
            + ": "@ + lossy_chars(e.1@[n - 1].1@)
    }
}

/// The rendered records of the first `n` split words.
pub open spec fn splits_block(ws: Seq<(Vec<u8>, Vec<(CheckResult, Vec<u8>)>)>, n: int) -> Seq<char>
    decreases n,
{
    if n <= 0 {
        Seq::<char>::empty()
    } else {
        splits_block(ws, n - 1) + entry_split_lines(ws[n - 1], ws[n - 1].1@.len() as int)
    }
}

/// The whole rendered report.
pub open spec fn spec_stringify(d: Diagnostics, config: MutationConfig, verbose: bool) -> Seq<
    char,
> {
    if config.advanced_diagnostics {
        spec_stringify_base(d) + "\n\nword usage:"@ + usage_lines(
            d.initial_word_usage@,
            d.initial_word_usage@.len() as int,
        ) + if verbose {
            "\n\nprocedurally split words:"@ + splits_block(d.word_splits@, d.word_splits@.len() as int)
        } else {
            Seq::<char>::empty()
        }
    } else {
        spec_stringify_base(d)
    }
}

/// Renders one usage-count line per word, in logging order.
pub fn vertical_count_all(lines: &mut Vec<String>, entries: &Vec<(Vec<u8>, usize)>)
    ensures
        final(lines)@.len() == old(lines)@.len() + entries@.len(),
        forall|j: int|
            0 <= j < old(lines)@.len() ==> (#[trigger] final(lines)@[j])@ == old(lines)@[j]@,
        forall|j: int|
            0 <= j < entries@.len() ==> (#[trigger] final(lines)@[old(lines)@.len() + j])@
                == usage_line(entries@, j),
{
    let n = entries.len();
    let mut i: usize = 0;
    while i < n
        invariant
            n == entries@.len(),
            i <= n,
            lines@.len() == old(lines)@.len() + i,
            forall|j: int|
                0 <= j < old(lines)@.len() ==> (#[trigger] lines@[j])@ == old(lines)@[j]@,
            forall|j: int|
                0 <= j < i ==> (#[trigger] lines@[old(lines)@.len() + j])@ == usage_line(
                    entries@,
                    j,
                ),
        decreases n - i,
    {
        vertical_count(lines, entries[i].1, &entries[i].0);
        i += 1;
    }
}

/// Renders one word's usage-count line.
pub fn vertical_count(lines: &mut Vec<String>, count: usize, word: &Vec<u8>)
    ensures
        final(lines)@.len() == old(lines)@.len() + 1,
        forall|j: int|
            0 <= j < old(lines)@.len() ==> (#[trigger] final(lines)@[j])@ == old(lines)@[j]@,
        final(lines)@.last()@ == "- "@ + lossy_chars(word@) + ": "@ + spec_dec(count as int),
{
    let mut s = String::from_str("- ");
    let w = crate::format::bytes_to_string_lossy(word);
    s.append(w.as_str());
    s.append(": ");
    let c = usize_to_string(count);
    s.append(c.as_str());
    let ghost pre = lines@;
    lines.push(s);
    proof {
        assert(lines@.drop_last() =~= pre);
    }
}

/// Renders the record of one procedurally split word.
pub fn split_words(lines: &mut Vec<String>, original: &Vec<u8>, check: CheckResult, split: &Vec<u8>)
    ensures
        final(lines)@.len() == old(lines)@.len() + 1,
        forall|j: int|
            0 <= j < old(lines)@.len() ==> (#[trigger] final(lines)@[j])@ == old(lines)@[j]@,
        final(lines)@.last()@ == spec_prefix(check.v()) + lossy_chars(original@) + ": "@
            + lossy_chars(split@),
{
    let mut s = check.prefix_string();
    let o = crate::format::bytes_to_string_lossy(original);
    s.append(o.as_str());
    s.append(": ");
    let w = crate::format::bytes_to_string_lossy(split);
    s.append(w.as_str());
    let ghost pre = lines@;
    lines.push(s);
    proof {
        assert(lines@.drop_last() =~= pre);
    }
}

/// The words of a report line joined with comma separators.
pub open spec fn join_comma(ws: Seq<Seq<u8>>) -> Seq<char>
    decreases ws.len(),
{
    if ws.len() == 0 {
        Seq::<char>::empty()
    } else if ws.len() == 1 {
        lossy_chars(ws[0])
    } else {
        join_comma(ws.drop_last()) + ", "@ + lossy_chars(ws.last())
    }
}

/// The line-wrapping state after the given words: the words pending on
/// the open line, the running length counter, and the full lines
/// flushed so far.  A word that pushes the counter past the width
/// flushes the open line first; the counter then restarts at zero.
pub open spec fn wrap_state(words: Seq<Seq<u8>>) -> (Seq<Seq<u8>>, int, Seq<Seq<char>>)
    decreases words.len(),
{
    if words.len() == 0 {
        (Seq::<Seq<u8>>::empty(), 0int, Seq::<Seq<char>>::empty())
    } else {
        let prev = wrap_state(words.drop_last());
        let w = words.last();
        let nl = prev.1 + w.len() + 2;
        if nl >= 80 {
            (seq![w], 0int, prev.2.push("- "@ + join_comma(prev.0) + ","@))
        } else {
            (prev.0.push(w), nl, prev.2)
        }
    }
}

/// The full rendering of one compressed usage-count block: a heading,
/// the flushed lines, and the final partial line if one is open.
pub open spec fn compressed_lines(count: usize, words: Seq<Seq<u8>>) -> Seq<Seq<char>> {
    let st = wrap_state(words);
    let head = seq!["\nwords used "@ + spec_dec(count as int) + " times:"@];
    if st.0.len() > 0 {
        head + st.2 + seq!["- "@ + join_comma(st.0)]
    } else {
        head + st.2
    }
}

fn join_comma_exec(ws: &Vec<Vec<u8>>) -> (r: String)
    ensures
        r@ == join_comma(ws.deep_view()),
{
    let mut s = String::new();
    let n = ws.len();
    let mut i: usize = 0;
    while i < n
        invariant
            n == ws.len(),
            i <= n,
            s@ == join_comma(ws.deep_view().take(i as int)),
        decreases n - i,
    {
        proof {
            assert(ws.deep_view().take(i + 1).drop_last() =~= ws.deep_view().take(i as int));
            assert(ws.deep_view().take(i + 1).last() == ws.deep_view()[i as int]);
            assert(ws@[i as int]@ =~= ws.deep_view()[i as int]);
        }
        if i > 0 {
            s.append(", ");
        }
        let w = crate::format::bytes_to_string_lossy(&ws[i]);
        s.append(w.as_str());
        proof {
            if i == 0 {
                assert(s@ =~= join_comma(ws.deep_view().take(1)));
            } else {
                assert(s@ =~= join_comma(ws.deep_view().take(i + 1)));
            }
        }
        i += 1;
    }
    proof {
        assert(ws.deep_view().take(n as int) =~= ws.deep_view());
    }
    s
}

/// Renders the usage-count block for the words sharing one count,
/// wrapped to the report width, in the given order.
pub fn compressed_count(lines: &mut Vec<String>, count: usize, words: &Vec<Vec<u8>>)
    requires
        forall|i: int| 0 <= i < words@.len() ==> (#[trigger] words@[i])@.len() <= usize::MAX - 82,
    ensures
        final(lines)@.len() == old(lines)@.len() + compressed_lines(count, words.deep_view()).len(),
        forall|j: int|
            0 <= j < old(lines)@.len() ==> (#[trigger] final(lines)@[j])@ == old(lines)@[j]@,
        forall|j: int|
            0 <= j < compressed_lines(count, words.deep_view()).len()
                ==> (#[trigger] final(lines)@[old(lines)@.len() + j])@ == compressed_lines(
                count,
                words.deep_view(),
            )[j],
{
    let mut head = String::from_str("\nwords used ");
    let c = usize_to_string(count);
    head.append(c.as_str());
    head.append(" times:");
    let ghost base = lines@;
    lines.push(head);
    proof {
        assert(lines@.drop_last() =~= base);
    }
    let mut pending: Vec<Vec<u8>> = Vec::new();
    let mut line_len: usize = 0;
    let n = words.len();
    let mut i: usize = 0;
    while i < n
        invariant
            n == words.len(),
            i <= n,
            forall|k: int| 0 <= k < words@.len() ==> (#[trigger] words@[k])@.len() <= usize::MAX
                - 82,
            line_len < 80,
            lines@.len() >= base.len() + 1,
            pending.deep_view() == wrap_state(words.deep_view().take(i as int)).0,
            line_len == wrap_state(words.deep_view().take(i as int)).1,
            forall|j: int| 0 <= j < base.len() ==> (#[trigger] lines@[j])@ == base[j]@,
            lines@[base.len() as int]@ == "\nwords used "@ + spec_dec(count as int) + " times:"@,
            lines@.len() == base.len() + 1 + wrap_state(words.deep_view().take(i as int)).2.len(),
            forall|j: int|
                0 <= j < wrap_state(words.deep_view().take(i as int)).2.len() ==> (
                #[trigger] lines@[base.len() + 1 + j])@ == wrap_state(
                    words.deep_view().take(i as int),
                ).2[j],
        decreases n - i,
    {
        proof {
            assert(words.deep_view().take(i + 1).drop_last() =~= words.deep_view().take(i as int));
            assert(words.deep_view().take(i + 1).last() == words.deep_view()[i as int]);
            assert(words@[i as int]@ =~= words.deep_view()[i as int]);
        }
        let wl = words[i].len();
        let nl = line_len + wl + 2;
        if nl >= 80 {
            let mut flushed = String::from_str("- ");
            let joined = join_comma_exec(&pending);
            flushed.append(joined.as_str());
            flushed.append(",");
            let ghost pre = lines@;
            lines.push(flushed);
            proof {
                assert(lines@.drop_last() =~= pre);
                assert(lines@.last()@ =~= "- "@ + join_comma(pending.deep_view()) + ","@);
            }
            pending = Vec::new();
            pending.push(crate::phrase::clone_bytes(&words[i]));
            line_len = 0;
            proof {
                assert(pending.deep_view() =~~= seq![words.deep_view()[i as int]]);
            }
        } else {
            let ghost oldp = pending.deep_view();
            pending.push(crate::phrase::clone_bytes(&words[i]));
            line_len = nl;
            proof {
                assert(pending.deep_view() =~~= oldp.push(words.deep_view()[i as int]));
            }
        }
        i += 1;
    }
    proof {
        assert(words.deep_view().take(n as int) =~= words.deep_view());
    }
    if pending.len() > 0 {
        let mut tail = String::from_str("- ");
        let joined = join_comma_exec(&pending);
        tail.append(joined.as_str());
        let ghost pre = lines@;
        lines.push(tail);
        proof {
            assert(lines@.drop_last() =~= pre);
            assert(lines@.last()@ =~= "- "@ + join_comma(pending.deep_view()));
        }
    }
    proof {
        let cl = compressed_lines(count, words.deep_view());
        let st = wrap_state(words.deep_view());
        let hd = "\nwords used "@ + spec_dec(count as int) + " times:"@;
        assert forall|j: int| 0 <= j < cl.len() implies (#[trigger] lines@[base.len() + j])@
            == cl[j] by {
            if st.0.len() > 0 {
                assert(cl == seq![hd] + st.2 + seq!["- "@ + join_comma(st.0)]);
                if j == 0 {
                    assert(cl[0] == hd);
                } else if j <= st.2.len() {
                    assert(cl[j] == st.2[j - 1]);
                    assert(lines@[base.len() + 1 + (j - 1)]@ == st.2[j - 1]);
                } else {
                    assert(j == st.2.len() + 1);
                    assert(cl[j] == "- "@ + join_comma(st.0));
                    assert(lines@[lines@.len() - 1]@ == "- "@ + join_comma(st.0));
                }
            } else {
                assert(cl == seq![hd] + st.2);
                if j == 0 {
                    assert(cl[0] == hd);
                } else {
                    assert(cl[j] == st.2[j - 1]);
                    assert(lines@[base.len() + 1 + (j - 1)]@ == st.2[j - 1]);
                }
            }
        }
    }
}

} // verus!
