//! Verified string-building helpers for the report renderers: decimal
//! formatting of machine integers and severity prefixes.

use vstd::prelude::*;
use vstd::string::StringExecFns;

verus! {

/// The character for one decimal digit.
pub open spec fn digit_char(d: int) -> char {
    if d == 0 {
        '0'
    } else if d == 1 {
        '1'
    } else if d == 2 {
        '2'
    } else if d == 3 {
        '3'
    } else if d == 4 {
        '4'
    } else if d == 5 {
        '5'
    } else if d == 6 {
        '6'
    } else if d == 7 {
        '7'
    } else if d == 8 {
        '8'
    } else {
        '9'
    }
}

/// The decimal rendering of a nonnegative integer, most significant
/// digit first, without leading zeros (a lone zero for 0).
pub open spec fn spec_dec(n: int) -> Seq<char>
    decreases n,
{
    if n < 10 {
        seq![digit_char(n)]
    } else {
        spec_dec(n / 10).push(digit_char(n % 10))
    }
}

fn digit_str(d: usize) -> (r: &'static str)
    requires
        d < 10,
    ensures
        r@ == seq![digit_char(d as int)],
{
    proof {
        reveal_strlit("0");
        reveal_strlit("1");
        reveal_strlit("2");
        reveal_strlit("3");
        reveal_strlit("4");
        reveal_strlit("5");
        reveal_strlit("6");
        reveal_strlit("7");
        reveal_strlit("8");
        reveal_strlit("9");
    }
    let r = if d == 0 {
        "0"
    } else if d == 1 {
        "1"
    } else if d == 2 {
        "2"
    } else if d == 3 {
        "3"
    } else if d == 4 {
        "4"
    } else if d == 5 {
        "5"
    } else if d == 6 {
        "6"
    } else if d == 7 {
        "7"
    } else if d == 8 {
        "8"
    } else {
        "9"
    };
    proof {
        assert(r@ =~= seq![digit_char(d as int)]);
    }
    r
}

/// Renders a machine integer in decimal.
pub fn usize_to_string(n: usize) -> (r: String)
    ensures
        r@ == spec_dec(n as int),
    decreases n,
{
    if n < 10 {
        let mut s = String::new();
        s.append(digit_str(n));
        proof {
            assert(s@ =~= spec_dec(n as int));
        }
        s
    } else {
        let mut s = usize_to_string(n / 10);
        s.append(digit_str(n % 10));
        proof {
            assert(s@ =~= spec_dec(n as int));
        }
        s
    }
}

/// Renders a byte-valued integer in decimal.
pub fn u8_to_string(n: u8) -> (r: String)
    ensures
        r@ == spec_dec(n as int),
{
    usize_to_string(n as usize)
}

/// The view of an ASCII byte string as text.
pub open spec fn ascii_chars(bs: Seq<u8>) -> Seq<char> {
    Seq::new(bs.len(), |i: int| bs[i] as char)
}

/// Renders a byte string of ASCII characters as text.
pub fn ascii_to_string(bs: &Vec<u8>) -> (r: String)
    requires
        forall|i: int| 0 <= i < bs@.len() ==> bs@[i] < 128,
    ensures
        r@ == ascii_chars(bs@),
{
    let mut s = String::new();
    let n = bs.len();
    let mut i: usize = 0;
    while i < n
        invariant
            n == bs.len(),
            i <= n,
            forall|j: int| 0 <= j < n ==> bs@[j] < 128,
            s@ == ascii_chars(bs@.take(i as int)),
        decreases n - i,
    {
        let c = bs[i];
        append_ascii_char(&mut s, c);
        proof {
            assert(s@ =~= ascii_chars(bs@.take(i + 1)));
        }
        i += 1;
    }
    proof {
        assert(bs@.take(n as int) =~= bs@);
    }
    s
}

/// What lossy UTF-8 decoding yields for a byte string: a function of
/// the bytes alone.
pub uninterp spec fn lossy_chars(bs: Seq<u8>) -> Seq<char>;

/// Relies on `String::from_utf8_lossy`: a deterministic decoding of
/// the bytes; a byte string of ASCII bytes decodes to exactly those
/// characters.
#[verifier::external_body]
pub(crate) fn bytes_to_string_lossy(v: &Vec<u8>) -> (r: String)
    ensures
        r@ == lossy_chars(v@),
        (forall|i: int| 0 <= i < v@.len() ==> v@[i] < 128) ==> r@ == ascii_chars(v@),
{
    String::from_utf8_lossy(v.as_slice()).into_owned()
}

/// Appends one ASCII character to a string.
///
/// Relies on `String::push`: appending a character to the end of a
/// string; vstd gives it no specification.
#[verifier::external_body]
fn append_ascii_char(s: &mut String, c: u8)
    requires
        c < 128,
    ensures
        final(s)@ == old(s)@.push(c as char),
{
    s.push(c as char);
}

/// One rendered output line for an accepted candidate: the severity
/// prefix, the candidate phrase, and a line break.
pub fn render_mutation_line(
    check: crate::spellchecking::CheckResult,
    mutation: &Vec<u8>,
) -> (r: String)
    ensures
        r@ == crate::spellchecking::spec_prefix(check.v()) + lossy_chars(mutation@) + "\n"@,
{
    let mut s = check.prefix_string();
    let m = bytes_to_string_lossy(mutation);
    s.append(m.as_str());
    s.append("\n");
    s
}

/// The rendered lines of every record whose discovery depth is at
/// least the given depth, in record order: the deeper report files
/// hold only the candidates that needed that many edits.
pub open spec fn record_lines(recs: Seq<crate::mutation::MutationRecord>, d: int) -> Seq<char>
    decreases recs.len(),
{
    if recs.len() == 0 {
        Seq::<char>::empty()
    } else {
        record_lines(recs.drop_last(), d) + if recs.last().depth >= d {
            crate::spellchecking::spec_prefix(recs.last().severity.v()) + lossy_chars(
                recs.last().candidate@,
            ) + "\n"@
        } else {
            Seq::<char>::empty()
        }
    }
}

/// Renders one spell's block of a per-depth report: the spell header
/// followed by one line per accepted candidate found at this depth or
/// deeper.
pub fn render_spell_block(
    spell: &crate::types::Spell,
    recs: &Vec<crate::mutation::MutationRecord>,
    depth: usize,
) -> (r: String)
    ensures
        r@ == crate::types::spec_spell_information(*spell) + record_lines(recs@, depth as int),
{
    let mut s = spell.write_spell_information();
    let n = recs.len();
    let mut i: usize = 0;
    while i < n
        invariant
            n == recs@.len(),
            i <= n,
            s@ == crate::types::spec_spell_information(*spell) + record_lines(
                recs@.take(i as int),
                depth as int,
            ),
        decreases n - i,
    {
        proof {
            assert(recs@.take(i + 1).drop_last() =~= recs@.take(i as int));
            assert(recs@.take(i + 1).last() == recs@[i as int]);
        }
        if recs[i].depth >= depth {
            let line = render_mutation_line(recs[i].severity, &recs[i].candidate);
            s.append(line.as_str());
        }
        proof {
            assert(s@ =~= crate::types::spec_spell_information(*spell) + record_lines(
                recs@.take(i + 1),
                depth as int,
            ));
        }
        i += 1;
    }
    proof {
        assert(recs@.take(n as int) =~= recs@);
    }
    s
}

} // verus!
