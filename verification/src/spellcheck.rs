//! The affix-aware morphological dictionary capability, consumed
//! through zspell, and the word-validity rules layered on top of it.

use vstd::prelude::*;
use vstd::string::StringSliceAdditionalSpecFns;

use crate::phrase::clone_bytes;
use crate::types::{in_list, MutationError, Overrides};

verus! {

#[verifier::external_type_specification]
#[verifier::external_body]
pub struct ExDictionary(zspell::Dictionary);

/// The set of words a dictionary accepts.  `Dictionary::check_word` is
/// a pure lookup in the dictionary's word lists, so its outcome is a
/// function of the dictionary value and the word alone.
pub uninterp spec fn dict_words(d: zspell::Dictionary) -> Set<Seq<u8>>;

/// Whether zspell accepts a pair of resource texts: `DictBuilder::build`
/// parses both or fails, deterministically in the texts alone.
pub uninterp spec fn dict_accepts(aff: Seq<char>, dic: Seq<char>) -> bool;

/// The word set of the dictionary built from a pair of resource texts:
/// the parsed word list closed under the affix rules, a function of
/// the two texts alone.
pub uninterp spec fn dict_set(aff: Seq<char>, dic: Seq<char>) -> Set<Seq<u8>>;

/// A decimal digit byte.
pub open spec fn is_digit_byte(c: u8) -> bool {
    48 <= c && c <= 57
}

/// Ten consecutive digit bytes starting at `w`.
pub open spec fn all_digits_at(bs: Seq<u8>, w: int) -> bool {
    forall|k: int| w <= k < w + 10 ==> is_digit_byte(#[trigger] bs[k])
}

/// A run of ten or more consecutive digit bytes somewhere in the text.
/// Any shorter run fits a 32-bit number.
pub open spec fn long_digit_run(bs: Seq<u8>) -> bool {
    exists|w: int| 0 <= w && w + 10 <= bs.len() && #[trigger] all_digits_at(bs, w)
}

/// Scans a text for a run of ten or more consecutive digit bytes.
pub fn has_long_digit_run(s: &str) -> (r: bool)
    ensures
        r == long_digit_run(s.spec_bytes()),
{
    let bs = s.as_bytes();
    let n = bs.len();
    let mut run: usize = 0;
    let mut i: usize = 0;
    while i < n
        invariant
            bs@ == s.spec_bytes(),
            n == bs@.len(),
            i <= n,
            run <= i,
            run <= 9,
            forall|k: int| i - run <= k < i ==> is_digit_byte(#[trigger] bs@[k]),
            run == i || !is_digit_byte(bs@[i - run - 1]),
            forall|w: int| 0 <= w && w + 10 <= i ==> !all_digits_at(bs@, w),
        decreases n - i,
    {
        let c = bs[i];
        if 48 <= c && c <= 57 {
            run += 1;
            if run >= 10 {
                proof {
                    assert(all_digits_at(bs@, i + 1 - 10)) by {
                        assert forall|k: int| i + 1 - 10 <= k < i + 1 implies is_digit_byte(
                            #[trigger] bs@[k],
                        ) by {}
                    }
                    assert(long_digit_run(s.spec_bytes()));
                }
                return true;
            }
            proof {
                assert forall|w: int| 0 <= w && w + 10 <= i + 1 implies !all_digits_at(
                    bs@,
                    w,
                ) by {
                    if w + 10 <= i {
                    } else {
                        // the window ends right after position i; the
                        // byte just before the current digit suffix is
                        // not a digit and lies inside the window
                        assert(w == i + 1 - 10);
                        assert(run < i + 1);
                        assert(!is_digit_byte(bs@[i - run]));
                        assert(w <= i - run < w + 10);
                    }
                }
            }
        } else {
            run = 0;
            proof {
                assert forall|w: int| 0 <= w && w + 10 <= i + 1 implies !all_digits_at(
                    bs@,
                    w,
                ) by {
                    if w + 10 <= i {
                    } else {
                        assert(!is_digit_byte(bs@[i as int]));
                        assert(w <= i < w + 10);
                    }
                }
            }
        }
        i += 1;
    }
    proof {
        if long_digit_run(s.spec_bytes()) {
            let w = choose|w: int|
                0 <= w && w + 10 <= bs@.len() && #[trigger] all_digits_at(bs@, w);
        }
    }
    false
}

/// Relies on `str::len`: the byte length of a text, which is exact
/// and always fits the machine word (vstd's view leaves the spec-level
/// length unbounded).
#[verifier::external_body]
fn len_fits_u32(s: &str) -> (r: bool)
    ensures
        r == (s.spec_bytes().len() + 2 < 0x1_0000_0000),
{
    s.len() <= 0xFFFF_FFFDusize
}

/// Relies on zspell's `DictBuilder` (`config_str`, `dict_str`,
/// `build`): parses an affix configuration and a dictionary file,
/// returning an error on malformed input.  The affix parser reads
/// rule-table header counts with an unchecked 32-bit conversion and
/// indexes diagnostic text by byte position; the word-list parser
/// trusts a leading count line as an allocation size; and lines are
/// counted in 32 bits.  So only ASCII affix text, texts without
/// ten-digit runs, and texts shorter than the 32-bit limit are handed
/// to it.  On those it returns rather than aborting, and both the
/// outcome and the built dictionary's word set are functions of the
/// two texts alone, independent of the machine's word width.
#[verifier::external_body]
fn build_dictionary(aff: &str, dic: &str) -> (r: Result<zspell::Dictionary, MutationError>)
    requires
        vstd::string::is_ascii(aff),
        !long_digit_run(aff.spec_bytes()),
        !long_digit_run(dic.spec_bytes()),
        aff.spec_bytes().len() + 2 < 0x1_0000_0000,
        dic.spec_bytes().len() + 2 < 0x1_0000_0000,
    ensures
        match r {
            Ok(d) => dict_accepts(aff@, dic@) && dict_words(d) == dict_set(aff@, dic@),
            Err(e) => e == MutationError::ResourceLoad && !dict_accepts(aff@, dic@),
        },
{
    match zspell::builder().config_str(aff).dict_str(dic).build() {
        Ok(d) => Ok(d),
        Err(_) => Err(MutationError::ResourceLoad),
    }
}

/// Relies on zspell's `Dictionary::check_word`: a deterministic
/// membership test against the dictionary's word lists.
#[verifier::external_body]
fn dict_check(d: &zspell::Dictionary, w: &Vec<u8>) -> (r: bool)
    requires
        forall|i: int| 0 <= i < w@.len() ==> w@[i] < 128,
    ensures
        r == dict_words(*d).contains(w@),
{
    match core::str::from_utf8(w.as_slice()) {
        Ok(s) => d.check_word(s),
        Err(_) => false,
    }
}

/// A vowel, `y` included.
pub open spec fn is_vowel(c: u8) -> bool {
    c == 97 || c == 101 || c == 117 || c == 105 || c == 111 || c == 121
}

pub open spec fn has_vowel(w: Seq<u8>) -> bool {
    exists|i: int| 0 <= i < w.len() && is_vowel(#[trigger] w[i])
}

/// Whether a word passes the morphological validity rules: always if
/// force-allowed; otherwise it must be longer than one letter, contain
/// a vowel, avoid the denylist, and be a dictionary hit.
pub open spec fn spec_check_word(s: Spellchecker, w: Seq<u8>) -> bool {
    in_list(s.force_allow@, w) || (w.len() > 1 && has_vowel(w) && !in_list(s.illegal_words@, w)
        && dict_words(s.dictionary).contains(w))
}

/// The morphological dictionary with the denylist and allowlist
/// overrides applied.
pub struct Spellchecker {
    pub dictionary: zspell::Dictionary,
    pub illegal_words: Vec<Vec<u8>>,
    pub force_allow: Vec<Vec<u8>>,
}

impl Spellchecker {
    /// Builds the checker from the affix configuration and dictionary
    /// contents and the override word lists.  It succeeds exactly when
    /// the texts are within the builder's limits (ASCII affix text,
    /// no ten-digit runs in either text, both under the 32-bit size
    /// cap) and zspell accepts them; the built dictionary's word set
    /// is the one those texts define.
    pub fn load(aff: &str, dic: &str, overrides: &Overrides) -> (r: Result<
        Spellchecker,
        MutationError,
    >)
        ensures
            match r {
                Ok(s) => {
                    &&& dict_accepts(aff@, dic@)
                    &&& dict_words(s.dictionary) == dict_set(aff@, dic@)
                    &&& s.illegal_words.deep_view() == overrides.illegal_words.deep_view()
                    &&& s.force_allow.deep_view() == overrides.force_allow.deep_view()
                },
                Err(e) => e == MutationError::ResourceLoad && (!vstd::string::is_ascii(aff)
                    || long_digit_run(aff.spec_bytes()) || long_digit_run(dic.spec_bytes())
                    || aff.spec_bytes().len() + 2 >= 0x1_0000_0000 || dic.spec_bytes().len() + 2
                    >= 0x1_0000_0000 || !dict_accepts(aff@, dic@)),
            },
    {
        if !aff.is_ascii() || has_long_digit_run(aff) || has_long_digit_run(dic)
            || !len_fits_u32(aff) || !len_fits_u32(dic) {
            return Err(MutationError::ResourceLoad);
        }
        let dictionary = match build_dictionary(aff, dic) {
            Ok(d) => d,
            Err(e) => {
                return Err(e);
            },
        };
        Ok(
            Spellchecker {
                dictionary,
                illegal_words: clone_bytes_list(&overrides.illegal_words),
                force_allow: clone_bytes_list(&overrides.force_allow),
            },
        )
    }

    /// Whether a word passes the validity rules.
    pub fn check_word(&self, word: &Vec<u8>) -> (r: bool)
        requires
            forall|i: int| 0 <= i < word@.len() ==> word@[i] < 128,
        ensures
            r == spec_check_word(*self, word@),
    {
        if crate::phrase::contains_bytes(&self.force_allow, word) {
            return true;
        }
        if word.len() <= 1 {
            return false;
        }
        if !word_has_vowel(word) {
            return false;
        }
        if crate::phrase::contains_bytes(&self.illegal_words, word) {
            return false;
        }
        dict_check(&self.dictionary, word)
    }

    /// Whether a word is on the allowlist.
    pub fn force_allowed(&self, word: &Vec<u8>) -> (r: bool)
        ensures
            r == in_list(self.force_allow@, word@),
    {
        crate::phrase::contains_bytes(&self.force_allow, word)
    }
}

/// Whether a word contains a vowel.
pub fn word_has_vowel(w: &Vec<u8>) -> (r: bool)
    ensures
        r == has_vowel(w@),
{
    let n = w.len();
    let mut i: usize = 0;
    while i < n
        invariant
            n == w.len(),
            i <= n,
            forall|j: int| 0 <= j < i ==> !is_vowel(#[trigger] w@[j]),
        decreases n - i,
    {
        let c = w[i];
        if c == 97 || c == 101 || c == 117 || c == 105 || c == 111 || c == 121 {
            return true;
        }
        i += 1;
    }
    false
}

/// Copies a list of byte strings.
pub fn clone_bytes_list(v: &Vec<Vec<u8>>) -> (r: Vec<Vec<u8>>)
    ensures
        r.deep_view() == v.deep_view(),
{
    let mut r: Vec<Vec<u8>> = Vec::new();
    let n = v.len();
    let mut i: usize = 0;
    while i < n
        invariant
            n == v.len(),
            i <= n,
            r.deep_view() == v.deep_view().take(i as int),
        decreases n - i,
    {
        let cb = clone_bytes(&v[i]);
        let ghost cbv = cb@;
        let ghost old_dv = r.deep_view();
        r.push(cb);
        proof {
            assert(cbv =~= v.deep_view()[i as int]);
            assert(r.deep_view() =~~= old_dv.push(cbv));
            assert(r.deep_view() =~~= v.deep_view().take(i + 1));
        }
        i += 1;
    }
    proof {
        assert(r.deep_view() =~~= v.deep_view());
    }
    r
}

} // verus!
