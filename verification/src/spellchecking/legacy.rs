//! The heuristic morphological oracle: word validity is delegated to
//! the affix-aware dictionary, with ordered rejection rules on top and
//! uninteresting suffix transformations excluded entirely.

use vstd::prelude::*;

use crate::phrase::valid_token;
use crate::spellcheck::{dict_words, has_vowel, Spellchecker};
use crate::spellchecking::{CheckResult, SpellChecker};
use crate::types::in_list;

verus! {

/// The candidate was made by appending `s` or `y` to the original: a
/// valid word, but an uninteresting one.
pub open spec fn suffix_transform(original: Seq<u8>, word: Seq<u8>) -> bool {
    word == original.push(115u8) || word == original.push(121u8)
}

/// The heuristic severity, rules applied in order: reject tokens that
/// are not letter runs, single letters, vowelless words, and
/// denied-but-not-allowed words; accept allowlisted words and clean
/// dictionary hits; reject uninteresting suffix transformations and
/// everything unknown.
pub open spec fn heuristic_spec(s: Spellchecker, original: Seq<u8>, word: Seq<u8>) -> u8 {
    if !valid_token(word) {
        255
    } else if word.len() <= 1 {
        255
    } else if !has_vowel(word) {
        255
    } else if in_list(s.illegal_words@, word) && !in_list(s.force_allow@, word) {
        255
    } else if in_list(s.force_allow@, word) {
        0
    } else if dict_words(s.dictionary).contains(word) && !suffix_transform(original, word) {
        0
    } else {
        255
    }
}

/// The heuristic morphological oracle.
pub struct OldSpellChecker {
    pub checker: Spellchecker,
}

impl OldSpellChecker {
    pub fn new(checker: Spellchecker) -> (r: OldSpellChecker)
        ensures
            r.checker == checker,
    {
        OldSpellChecker { checker }
    }
}

impl SpellChecker for OldSpellChecker {
    open spec fn check_spec(&self, original: Seq<u8>, word: Seq<u8>) -> u8 {
        heuristic_spec(self.checker, original, word)
    }

    fn name(&self) -> (r: &'static str) {
        "Legacy"
    }

    fn check(&self, original: &Vec<u8>, word: &Vec<u8>) -> (r: CheckResult) {
        if !crate::phrase::is_valid_token(word) {
            return CheckResult::fail();
        }
        if word.len() <= 1 {
            return CheckResult::fail();
        }
        if !crate::spellcheck::word_has_vowel(word) {
            return CheckResult::fail();
        }
        let allowed = crate::phrase::contains_bytes(&self.checker.force_allow, word);
        if crate::phrase::contains_bytes(&self.checker.illegal_words, word) && !allowed {
            return CheckResult::fail();
        }
        if allowed {
            return CheckResult::success();
        }
        if self.checker.check_word(word) && !is_suffix_transform(original, word) {
            CheckResult::success()
        } else {
            CheckResult::fail()
        }
    }
}

fn is_suffix_transform(original: &Vec<u8>, word: &Vec<u8>) -> (r: bool)
    ensures
        r == suffix_transform(original@, word@),
{
    let wl = word.len();
    let ol = original.len();
    if ol == usize::MAX || wl != ol + 1 {
        proof {
            assert(original@.push(115u8).len() == original@.len() + 1);
            assert(original@.push(121u8).len() == original@.len() + 1);
            assert(!suffix_transform(original@, word@));
        }
        return false;
    }
    let last = word[word.len() - 1];
    if last != 115 && last != 121 {
        proof {
            assert(word@ != original@.push(115u8) && word@ != original@.push(121u8));
        }
        return false;
    }
    let n = original.len();
    let mut i: usize = 0;
    while i < n
        invariant
            n == original.len(),
            word@.len() == n + 1,
            i <= n,
            forall|j: int| 0 <= j < i ==> word@[j] == original@[j],
        decreases n - i,
    {
        if word[i] != original[i] {
            proof {
                assert(word@ != original@.push(115u8) && word@ != original@.push(121u8));
            }
            return false;
        }
        i += 1;
    }
    proof {
        if word@[n as int] == 115 {
            assert(word@ =~= original@.push(115u8));
        } else {
            assert(word@ =~= original@.push(121u8));
        }
    }
    true
}

impl OldSpellChecker {
    /// Judges a whole candidate phrase against the original phrase:
    /// tokens are paired positionally, extra candidate tokens are
    /// checked against an empty original token, and the phrase
    /// severity is the worst pair severity.  In correct use the
    /// original never has more tokens than the candidate.
    pub fn check_split(&self, original: &Vec<u8>, string: &Vec<u8>) -> (r: CheckResult)
        requires
            crate::phrase::tokens(original@).len() <= crate::phrase::tokens(string@).len(),
        ensures
            r.v() == crate::spellchecking::aligned_sev(
                *self,
                crate::phrase::tokens(original@),
                crate::phrase::tokens(string@),
                crate::phrase::tokens(string@).len() as int,
            ),
    {
        crate::spellchecking::aligned_check(self, original, string)
    }
}

} // verus!
