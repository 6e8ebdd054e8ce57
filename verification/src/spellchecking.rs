//! The lexical oracle layer: the severity scale, the oracle
//! capability, and the verdict aggregation over multi-token phrases.

pub mod freq;
pub mod lemma;
pub mod legacy;

use vstd::prelude::*;
use vstd::string::StringExecFns;

use crate::format::spec_dec;
use crate::phrase::{clone_bytes, tokens};

verus! {

/// An ordinal legitimacy score: 0 is a clean accept, 255 a rejection,
/// and everything between an accept flagged with that value.
#[derive(Debug, Clone, Copy, PartialEq, Eq, Hash, PartialOrd, Ord, Structural)]
pub struct CheckResult {
    value: u8,
}

impl CheckResult {
    /// The severity scalar.
    pub closed spec fn v(self) -> u8 {
        self.value
    }

    /// A result with the given severity.
    pub fn new(code: u8) -> (r: CheckResult)
        ensures
            r.v() == code,
    {
        CheckResult { value: code }
    }

    /// The clean accept.
    pub fn success() -> (r: CheckResult)
        ensures
            r.v() == 0,
    {
        CheckResult { value: 0 }
    }

    /// The rejection.
    pub fn fail() -> (r: CheckResult)
        ensures
            r.v() == 255,
    {
        CheckResult { value: 255 }
    }

    /// Whether this result rejects the word.
    pub fn is_fail(self) -> (r: bool)
        ensures
            r == (self.v() == 255),
    {
        self.value == 255
    }

    /// The severity scalar.
    pub fn value(self) -> (r: u8)
        ensures
            r == self.v(),
    {
        self.value
    }

    /// The worse of two results.
    pub fn worst(self, rhs: CheckResult) -> (r: CheckResult)
        ensures
            r.v() == max_sev(self.v(), rhs.v()),
    {
        if self.value >= rhs.value {
            self
        } else {
            rhs
        }
    }

    /// The display prefix of a result: empty for a clean accept, the
    /// flagged severity in parentheses otherwise.
    pub fn prefix_string(self) -> (r: String)
        ensures
            r@ == spec_prefix(self.v()),
    {
        if self.value == 0 {
            String::new()
        } else {
            let mut s = String::from_str("#(");
            let d = crate::format::u8_to_string(self.value);
            s.append(d.as_str());
            s.append(") ");
            proof {
                assert(s@ =~= spec_prefix(self.v()));
            }
            s
        }
    }
}

/// The worse of two severities.
pub open spec fn max_sev(a: u8, b: u8) -> u8 {
    if a >= b {
        a
    } else {
        b
    }
}

/// The display prefix of a severity.
pub open spec fn spec_prefix(v: u8) -> Seq<char> {
    if v == 0 {
        Seq::<char>::empty()
    } else {
        "#("@ + spec_dec(v as int) + ") "@
    }
}

/// The token a candidate token at position `i` is compared against:
/// the original token at the same position, or the empty token when a
/// split gave the candidate more tokens than the original.
pub open spec fn orig_tok(ots: Seq<Seq<u8>>, i: int) -> Seq<u8> {
    if 0 <= i < ots.len() {
        ots[i]
    } else {
        Seq::<u8>::empty()
    }
}

/// A lexical oracle: judges how legitimate a candidate token is,
/// relative to the original token it replaces.
pub trait SpellChecker: Sized {
    /// The severity this oracle assigns to a candidate token.
    spec fn check_spec(&self, original: Seq<u8>, word: Seq<u8>) -> u8;

    /// The oracle's display name.
    fn name(&self) -> (r: &'static str);

    /// Judges one candidate token against one original token.
    fn check(&self, original: &Vec<u8>, word: &Vec<u8>) -> (r: CheckResult)
        ensures
            r.v() == self.check_spec(original@, word@),
    ;

}

/// The worst severity over the first `n` aligned token pairs: the
/// candidate token at each position against the original token there,
/// or against the empty token where the candidate has more tokens.
pub open spec fn aligned_sev<C: SpellChecker>(
    c: C,
    ots: Seq<Seq<u8>>,
    cts: Seq<Seq<u8>>,
    n: int,
) -> u8
    decreases n,
{
    if n <= 0 {
        0
    } else {
        max_sev(aligned_sev(c, ots, cts, n - 1), c.check_spec(orig_tok(ots, n - 1), cts[n - 1]))
    }
}

/// Computes the worst severity over all aligned token pairs of an
/// original phrase and a candidate phrase.
pub fn aligned_check<C: SpellChecker>(c: &C, original: &Vec<u8>, string: &Vec<u8>) -> (r:
    CheckResult)
    ensures
        r.v() == aligned_sev(*c, tokens(original@), tokens(string@), tokens(string@).len() as int),
{
    let ots = crate::phrase::tokenize(original);
    let cts = crate::phrase::tokenize(string);
    let ghost otv = tokens(original@);
    let ghost ctv = tokens(string@);
    let mut r = CheckResult::success();
    let n = cts.len();
    let mut i: usize = 0;
    while i < n
        invariant
            n == cts.len(),
            ots.deep_view() == otv,
            cts.deep_view() == ctv,
            i <= n,
            r.v() == aligned_sev(*c, otv, ctv, i as int),
        decreases n - i,
    {
        let ot: Vec<u8> = if i < ots.len() {
            clone_bytes(&ots[i])
        } else {
            Vec::new()
        };
        proof {
            assert(ot@ =~= orig_tok(otv, i as int));
            assert(cts@[i as int]@ =~= ctv[i as int]);
        }
        let cr = c.check(&ot, &cts[i]);
        r = r.worst(cr);
        i += 1;
    }
    r
}

/// One of the configured oracle variants, as a tagged value, so that
/// a run can drive a list of oracles of different kinds.
pub enum AnyChecker {
    Lemma(crate::spellchecking::lemma::LemmaSpellChecker),
    Freq(crate::spellchecking::freq::FreqSpellChecker),
    Old(crate::spellchecking::legacy::OldSpellChecker),
}

impl SpellChecker for AnyChecker {
    open spec fn check_spec(&self, original: Seq<u8>, word: Seq<u8>) -> u8 {
        match self {
            AnyChecker::Lemma(c) => c.check_spec(original, word),
            AnyChecker::Freq(c) => c.check_spec(original, word),
            AnyChecker::Old(c) => c.check_spec(original, word),
        }
    }

    fn name(&self) -> (r: &'static str) {
        match self {
            AnyChecker::Lemma(c) => c.name(),
            AnyChecker::Freq(c) => c.name(),
            AnyChecker::Old(c) => c.name(),
        }
    }

    fn check(&self, original: &Vec<u8>, word: &Vec<u8>) -> (r: CheckResult) {
        match self {
            AnyChecker::Lemma(c) => c.check(original, word),
            AnyChecker::Freq(c) => c.check(original, word),
            AnyChecker::Old(c) => c.check(original, word),
        }
    }
}

/// The worst-case aggregation law: the aggregate is the maximum pair
/// severity, so it is 0 exactly when every aligned pair is clean, 255
/// exactly when some aligned pair rejects, and otherwise the largest
/// flagged value among the pairs.
pub proof fn lemma_worst_case_aggregation<C: SpellChecker>(
    c: &C,
    ots: Seq<Seq<u8>>,
    cts: Seq<Seq<u8>>,
)
    ensures
        aligned_sev(*c, ots, cts, cts.len() as int) == 0 <==> (forall|i: int|
            0 <= i < cts.len() ==> c.check_spec(orig_tok(ots, i), #[trigger] cts[i]) == 0),
        aligned_sev(*c, ots, cts, cts.len() as int) == 255 <==> (exists|i: int|
            0 <= i < cts.len() && c.check_spec(orig_tok(ots, i), #[trigger] cts[i]) == 255),
        (aligned_sev(*c, ots, cts, cts.len() as int) != 0 && aligned_sev(*c, ots, cts, cts.len() as int) != 255) ==> ((exists|i: int|
            0 <= i < cts.len() && c.check_spec(orig_tok(ots, i), #[trigger] cts[i]) == aligned_sev(*c, ots, cts, cts.len() as int)) && (forall|i: int|
            0 <= i < cts.len() ==> c.check_spec(orig_tok(ots, i), #[trigger] cts[i]) < 255
                && c.check_spec(orig_tok(ots, i), cts[i]) <= aligned_sev(*c, ots, cts, cts.len() as int))),
{
    lemma_aligned_max(c, ots, cts, cts.len() as int);
}

proof fn lemma_aligned_max<C: SpellChecker>(c: &C, ots: Seq<Seq<u8>>, cts: Seq<Seq<u8>>, n: int)
    requires
        n <= cts.len(),
    ensures
        forall|i: int|
            0 <= i < n ==> c.check_spec(orig_tok(ots, i), #[trigger] cts[i]) <= aligned_sev(*c, ots, cts, n),
        n > 0 ==> exists|i: int|
            0 <= i < n && c.check_spec(orig_tok(ots, i), #[trigger] cts[i]) == aligned_sev(*c, ots, cts, n),
        n <= 0 ==> aligned_sev(*c, ots, cts, n) == 0,
    decreases n,
{
    if n > 0 {
        lemma_aligned_max(c, ots, cts, n - 1);
        let s = aligned_sev(*c, ots, cts, n);
        if s == c.check_spec(orig_tok(ots, n - 1), cts[n - 1]) {
            assert(0 <= n - 1 < n && c.check_spec(orig_tok(ots, n - 1), cts[n - 1]) == s);
        } else {
            assert(s == aligned_sev(*c, ots, cts, n - 1) && n - 1 > 0);
            let i = choose|i: int|
                0 <= i < n - 1 && c.check_spec(orig_tok(ots, i), #[trigger] cts[i])
                    == aligned_sev(*c, ots, cts, n - 1);
            assert(0 <= i < n && c.check_spec(orig_tok(ots, i), cts[i]) == s);
        }
    }
}

} // verus!
