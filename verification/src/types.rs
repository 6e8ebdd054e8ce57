//! Shared data types: spell records, generation configuration, and the
//! override tables that constrain mutation generation.

use vstd::prelude::*;
use vstd::string::{StringExecFns, StringSliceAdditionalSpecFns};

use crate::format::{bytes_to_string_lossy, lossy_chars, spec_dec, u8_to_string};
use crate::phrase::{split_on, valid_phrase, valid_token};

verus! {

/// The failure taxonomy of the library: a malformed resource aborts a
/// run before generation starts; an unsupported character in a source
/// phrase is fatal for the run.
#[derive(Debug, Clone, Copy, PartialEq, Eq, Structural)]
pub enum MutationError {
    ResourceLoad,
    InvalidInputCharacter,
}

/// Externally supplied exception data for specific words: forced and
/// forbidden split positions, a denylist, an allowlist, and literal
/// mutation lists that bypass generation entirely.
pub struct Overrides {
    /// Word to forced split position: the normalizer pre-splits the word
    /// there, and the generator splits such a token only there.
    pub allow_split: Vec<(Vec<u8>, usize)>,
    /// Word to forbidden split position: the generator never splits such
    /// a token at that position.
    pub forbid_split: Vec<(Vec<u8>, usize)>,
    /// Words that are never legitimate, even as dictionary hits.
    pub illegal_words: Vec<Vec<u8>>,
    /// Words that are always accepted cleanly.
    pub force_allow: Vec<Vec<u8>>,
    /// Word to the exact mutation list to use for that word, in place of
    /// computed edits.
    pub literal_mutations: Vec<(Vec<u8>, Vec<Vec<u8>>)>,
}

pub open spec fn distinct_keys<T>(entries: Seq<(Vec<u8>, T)>) -> bool {
    forall|i: int, j: int|
        0 <= i < j < entries.len() ==> (#[trigger] entries[i]).0@ != (#[trigger] entries[j]).0@
}

pub open spec fn has_key<T>(entries: Seq<(Vec<u8>, T)>, w: Seq<u8>) -> bool {
    exists|i: int| 0 <= i < entries.len() && (#[trigger] entries[i]).0@ == w
}

pub open spec fn key_index<T>(entries: Seq<(Vec<u8>, T)>, w: Seq<u8>) -> int {
    choose|i: int| 0 <= i < entries.len() && (#[trigger] entries[i]).0@ == w
}

pub open spec fn value_of<T>(entries: Seq<(Vec<u8>, T)>, w: Seq<u8>) -> T {
    entries[key_index(entries, w)].1
}

pub open spec fn in_list(words: Seq<Vec<u8>>, w: Seq<u8>) -> bool {
    exists|i: int| 0 <= i < words.len() && words[i]@ == w
}

impl Overrides {
    /// Well-formedness: unique keys; split positions strictly inside
    /// their word; list entries are well-formed phrases.
    pub open spec fn wf(self) -> bool {
        &&& distinct_keys(self.allow_split@)
        &&& distinct_keys(self.forbid_split@)
        &&& distinct_keys(self.literal_mutations@)
        &&& forall|i: int|
            0 <= i < self.allow_split@.len() ==> {
                let e = #[trigger] self.allow_split@[i];
                valid_token(e.0@) && 0 < e.1 < e.0@.len()
            }
        &&& forall|i: int|
            0 <= i < self.forbid_split@.len() ==> {
                let e = #[trigger] self.forbid_split@[i];
                valid_token(e.0@) && 0 < e.1 < e.0@.len()
            }
        &&& forall|i: int|
            0 <= i < self.literal_mutations@.len() ==> {
                let e = #[trigger] self.literal_mutations@[i];
                valid_token(e.0@) && forall|j: int|
                    0 <= j < e.1@.len() ==> valid_phrase(#[trigger] e.1@[j]@) && e.1@[j]@.len()
                        <= e.0@.len() + 1
            }
    }

    /// No overrides at all.
    pub fn none() -> (r: Overrides)
        ensures
            r.wf(),
            r.allow_split@.len() == 0,
            r.forbid_split@.len() == 0,
            r.illegal_words@.len() == 0,
            r.force_allow@.len() == 0,
            r.literal_mutations@.len() == 0,
    {
        Overrides {
            allow_split: Vec::new(),
            forbid_split: Vec::new(),
            illegal_words: Vec::new(),
            force_allow: Vec::new(),
            literal_mutations: Vec::new(),
        }
    }

    /// The forced split position for a word, if one is named.
    pub fn forced_split(&self, w: &Vec<u8>) -> (r: Option<usize>)
        requires
            distinct_keys(self.allow_split@),
        ensures
            match r {
                Some(v) => has_key(self.allow_split@, w@) && v == value_of(self.allow_split@, w@),
                None => !has_key(self.allow_split@, w@),
            },
    {
        lookup_usize(&self.allow_split, w)
    }

    /// The forbidden split position for a word, if one is named.
    pub fn forbidden_split(&self, w: &Vec<u8>) -> (r: Option<usize>)
        requires
            distinct_keys(self.forbid_split@),
        ensures
            match r {
                Some(v) => has_key(self.forbid_split@, w@) && v == value_of(self.forbid_split@, w@),
                None => !has_key(self.forbid_split@, w@),
            },
    {
        lookup_usize(&self.forbid_split, w)
    }

    /// The index of the literal mutation list for a word, if one is named.
    pub fn literal_index(&self, w: &Vec<u8>) -> (r: Option<usize>)
        requires
            distinct_keys(self.literal_mutations@),
        ensures
            match r {
                Some(i) => i < self.literal_mutations@.len() && self.literal_mutations@[i as int].0@
                    == w@ && has_key(self.literal_mutations@, w@) && self.literal_mutations@[
                    i as int].1 == value_of(self.literal_mutations@, w@),
                None => !has_key(self.literal_mutations@, w@),
            },
    {
        let n = self.literal_mutations.len();
        let mut i: usize = 0;
        while i < n
            invariant
                n == self.literal_mutations.len(),
                i <= n,
                distinct_keys(self.literal_mutations@),
                forall|j: int| 0 <= j < i ==> (#[trigger] self.literal_mutations@[j]).0@ != w@,
            decreases n - i,
        {
            if crate::phrase::bytes_eq(&self.literal_mutations[i].0, w) {
                proof {
                    let k = key_index(self.literal_mutations@, w@);
                    assert(0 <= k < n && self.literal_mutations@[k].0@ == w@);
                    assert(k == i);
                }
                return Some(i);
            }
            i += 1;
        }
        None
    }

    /// Whether a word is on the denylist.
    pub fn is_illegal(&self, w: &Vec<u8>) -> (r: bool)
        ensures
            r == in_list(self.illegal_words@, w@),
    {
        crate::phrase::contains_bytes(&self.illegal_words, w)
    }

    /// Whether a word is on the allowlist.
    pub fn is_force_allowed(&self, w: &Vec<u8>) -> (r: bool)
        ensures
            r == in_list(self.force_allow@, w@),
    {
        crate::phrase::contains_bytes(&self.force_allow, w)
    }
}

fn lookup_usize(entries: &Vec<(Vec<u8>, usize)>, w: &Vec<u8>) -> (r: Option<usize>)
    requires
        distinct_keys(entries@),
    ensures
        match r {
            Some(v) => has_key(entries@, w@) && v == value_of(entries@, w@),
            None => !has_key(entries@, w@),
        },
{
    let n = entries.len();
    let mut i: usize = 0;
    while i < n
        invariant
            n == entries.len(),
            i <= n,
            distinct_keys(entries@),
            forall|j: int| 0 <= j < i ==> (#[trigger] entries@[j]).0@ != w@,
        decreases n - i,
    {
        if crate::phrase::bytes_eq(&entries[i].0, w) {
            proof {
                let k = key_index(entries@, w@);
                assert(0 <= k < n && entries@[k].0@ == w@);
                assert(k == i);
            }
            return Some(entries[i].1);
        }
        i += 1;
    }
    None
}

/// Run configuration, loaded by the caller from its configuration
/// source and handed to the library as plain values.
pub struct MutationConfig {
    pub input_file: String,
    pub overrides_file: String,
    pub output_dir: String,
    pub mutation_depth: usize,
    pub advanced_diagnostics: bool,
    pub omit_zero_mutation_spells: bool,
}

/// One spell record: a named source phrase with its display metadata.
pub struct Spell {
    pub name: String,
    pub level: u8,
    pub school: String,
    pub source: String,
    pub cast_time: String,
    pub components: String,
    pub concentration: bool,
    pub ritual: bool,
}

/// The ordinal rendering of a spell level.
pub open spec fn spec_spell_level(level: u8) -> Seq<char> {
    if level == 0 {
        "Cantrip"@
    } else if level == 1 {
        "1st"@
    } else if level == 2 {
        "2nd"@
    } else if level == 3 {
        "3rd"@
    } else {
        spec_dec(level as int) + "th"@
    }
}

/// The concentration/ritual marker of a spell.
pub open spec fn spec_spell_marker(concentration: bool, ritual: bool) -> Seq<char> {
    if concentration && ritual {
        "<CR>"@
    } else if concentration {
        "<C>"@
    } else if ritual {
        "<R>"@
    } else {
        ""@
    }
}

/// The level-and-school line of a spell.
pub open spec fn spec_level_school(s: Spell) -> Seq<char> {
    if s.level == 0 {
        s.school@ + " Cantrip"@
    } else {
        spec_spell_level(s.level) + " level "@ + s.school@
    }
}

/// The full header block written above a spell's mutations.
pub open spec fn spec_spell_information(s: Spell) -> Seq<char> {
    "\n"@ + s.name@ + ",\n"@ + spec_level_school(s) + ",\n"@ + s.cast_time@ + ", "@ + s.components@
        + spec_spell_marker(s.concentration, s.ritual) + " ("@ + s.source@ + ")\n\n"@
}

impl Spell {
    /// The ordinal rendering of this spell's level.
    pub fn write_spell_level(&self) -> (r: String)
        ensures
            r@ == spec_spell_level(self.level),
    {
        if self.level == 0 {
            String::from_str("Cantrip")
        } else if self.level == 1 {
            String::from_str("1st")
        } else if self.level == 2 {
            String::from_str("2nd")
        } else if self.level == 3 {
            String::from_str("3rd")
        } else {
            let mut s = u8_to_string(self.level);
            s.append("th");
            s
        }
    }

    /// The header block written above this spell's mutations.
    pub fn write_spell_information(&self) -> (r: String)
        ensures
            r@ == spec_spell_information(*self),
    {
        let mut s = String::from_str("\n");
        s.append(self.name.as_str());
        s.append(",\n");
        if self.level == 0 {
            s.append(self.school.as_str());
            s.append(" Cantrip");
        } else {
            let lvl = self.write_spell_level();
            s.append(lvl.as_str());
            s.append(" level ");
            s.append(self.school.as_str());
        }
        s.append(",\n");
        s.append(self.cast_time.as_str());
        s.append(", ");
        s.append(self.components.as_str());
        if self.concentration && self.ritual {
            s.append("<CR>");
        } else if self.concentration {
            s.append("<C>");
        } else if self.ritual {
            s.append("<R>");
        }
        s.append(" (");
        s.append(self.source.as_str());
        s.append(")\n\n");
        proof {
            reveal_strlit("");
            assert(""@ =~= Seq::<char>::empty());
            assert(s@ =~= spec_spell_information(*self));
        }
        s
    }
}

/// A line with its trailing carriage return removed.
pub open spec fn strip_cr(l: Seq<u8>) -> Seq<u8> {
    if l.len() > 0 && l.last() == 13 {
        l.drop_last()
    } else {
        l
    }
}

/// The tab-separated fields of one record line.
pub open spec fn spell_fields(line: Seq<u8>) -> Seq<Seq<u8>> {
    split_on(strip_cr(line), 9)
}

/// The lines of the raw text holding enough fields for a record.
pub open spec fn valid_spell_lines(lines: Seq<Seq<u8>>) -> Seq<Seq<u8>>
    decreases lines.len(),
{
    if lines.len() == 0 {
        Seq::<Seq<u8>>::empty()
    } else {
        let r = valid_spell_lines(lines.drop_last());
        if spell_fields(lines.last()).len() >= 8 {
            r.push(lines.last())
        } else {
            r
        }
    }
}

/// The level encoded by a field: its leading decimal digit, or zero.
pub open spec fn spec_spell_field_level(f: Seq<u8>) -> u8 {
    if f.len() > 0 && 48 <= f[0] <= 57 {
        (f[0] - 48) as u8
    } else {
        0
    }
}

/// The record a well-formed line parses to.
pub open spec fn spell_matches_line(sp: Spell, line: Seq<u8>) -> bool {
    let fs = spell_fields(line);
    &&& sp.name@ == lossy_chars(fs[0])
    &&& sp.level == spec_spell_field_level(fs[1])
    &&& sp.school@ == lossy_chars(fs[2])
    &&& sp.ritual == (fs[3].len() > 0)
    &&& sp.cast_time@ == lossy_chars(fs[4])
    &&& sp.components@ == lossy_chars(fs[5])
    &&& sp.concentration == (fs[6].len() > 0)
    &&& sp.source@ == lossy_chars(fs[7])
}

/// Parses the raw tab-separated spell table: every line with at least
/// eight fields becomes one record, in order; short lines are skipped.
pub fn parse_spells(raw_spells: &str) -> (r: Vec<Spell>)
    ensures
        r@.len() == valid_spell_lines(split_on(raw_spells.spec_bytes(), 10)).len(),
        forall|i: int|
            0 <= i < r@.len() ==> spell_matches_line(
                #[trigger] r@[i],
                valid_spell_lines(split_on(raw_spells.spec_bytes(), 10))[i],
            ),
{
    let bytes = vstd::slice::slice_to_vec(raw_spells.as_bytes());
    let lines = crate::phrase::split_bytes_on(&bytes, 10);
    let ghost lv = lines.deep_view();
    let mut r: Vec<Spell> = Vec::new();
    let ln = lines.len();
    let mut li: usize = 0;
    while li < ln
        invariant
            ln == lines@.len(),
            lines.deep_view() == lv,
            li <= ln,
            r@.len() == valid_spell_lines(lv.take(li as int)).len(),
            forall|i: int|
                0 <= i < r@.len() ==> spell_matches_line(
                    #[trigger] r@[i],
                    valid_spell_lines(lv.take(li as int))[i],
                ),
        decreases ln - li,
    {
        proof {
            assert(lv.take(li + 1).drop_last() =~= lv.take(li as int));
            assert(lv.take(li + 1).last() == lv[li as int]);
            assert(lines@[li as int]@ =~= lv[li as int]);
        }
        let mut line = crate::phrase::clone_bytes(&lines[li]);
        if line.len() > 0 && line[line.len() - 1] == 13 {
            let _ = line.pop();
        }
        proof {
            assert(line@ =~= strip_cr(lv[li as int]));
        }
        let fields = crate::phrase::split_bytes_on(&line, 9);
        proof {
            assert(fields.deep_view() == spell_fields(lv[li as int]));
        }
        if fields.len() >= 8 {
            let lvl_field = &fields[1];
            let level: u8 = if lvl_field.len() > 0 && 48 <= lvl_field[0] && lvl_field[0] <= 57 {
                lvl_field[0] - 48
            } else {
                0
            };
            let sp = Spell {
                name: bytes_to_string_lossy(&fields[0]),
                level,
                school: bytes_to_string_lossy(&fields[2]),
                ritual: fields[3].len() > 0,
                cast_time: bytes_to_string_lossy(&fields[4]),
                components: bytes_to_string_lossy(&fields[5]),
                concentration: fields[6].len() > 0,
                source: bytes_to_string_lossy(&fields[7]),
            };
            let ghost old_r = r@;
            r.push(sp);
            proof {
                assert(r@.drop_last() =~= old_r);
                assert forall|fi: int| 0 <= fi < 8 implies (#[trigger] fields@[fi])@
                    == spell_fields(lv[li as int])[fi] by {
                    assert(fields.deep_view()[fi] == fields@[fi]@);
                }
                assert(spell_matches_line(r@.last(), lv[li as int]));
            }
        }
        li += 1;
    }
    proof {
        assert(lv.take(ln as int) =~= lv);
    }
    r
}

} // verus!
