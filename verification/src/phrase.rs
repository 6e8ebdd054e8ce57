//! The phrase model: byte strings over lowercase letters and the space
//! boundary marker, their decomposition into tokens, and normalization.

use vstd::prelude::*;

verus! {

/// The boundary marker between the tokens of a phrase.
pub const SPACE: u8 = 32;

/// A lowercase ASCII letter.
pub open spec fn is_letter(c: u8) -> bool {
    97 <= c && c <= 122
}

/// A token: a nonempty run of lowercase letters.
pub open spec fn valid_token(t: Seq<u8>) -> bool {
    t.len() > 0 && forall|i: int| 0 <= i < t.len() ==> is_letter(#[trigger] t[i])
}

/// A token sequence that forms a well-formed phrase.
pub open spec fn valid_tokens(ts: Seq<Seq<u8>>) -> bool {
    ts.len() > 0 && forall|i: int| 0 <= i < ts.len() ==> valid_token(#[trigger] ts[i])
}

/// Splits a byte string at every space.  Empty byte strings between
/// consecutive spaces (or at either end) yield empty tokens, so a byte
/// string is a well-formed phrase exactly when all of its tokens are
/// nonempty runs of letters.
pub open spec fn tokens(p: Seq<u8>) -> Seq<Seq<u8>>
    decreases p.len(),
{
    if p.len() == 0 {
        seq![Seq::<u8>::empty()]
    } else {
        let rest = tokens(p.drop_last());
        if p.last() == SPACE {
            rest.push(Seq::<u8>::empty())
        } else {
            rest.update(rest.len() - 1, rest.last().push(p.last()))
        }
    }
}

/// Joins a token sequence with single spaces.
pub open spec fn join(ts: Seq<Seq<u8>>) -> Seq<u8>
    decreases ts.len(),
{
    if ts.len() == 0 {
        Seq::<u8>::empty()
    } else if ts.len() == 1 {
        ts[0]
    } else {
        join(ts.drop_last()) + seq![SPACE] + ts.last()
    }
}

/// A well-formed phrase: nonempty tokens of letters, single boundaries.
pub open spec fn valid_phrase(p: Seq<u8>) -> bool {
    valid_tokens(tokens(p))
}

pub proof fn lemma_tokens_len(p: Seq<u8>)
    ensures
        tokens(p).len() >= 1,
    decreases p.len(),
{
    if p.len() != 0 {
        lemma_tokens_len(p.drop_last());
    }
}

/// Joining the tokens of a byte string gives the byte string back.
pub proof fn lemma_join_tokens(p: Seq<u8>)
    ensures
        join(tokens(p)) == p,
    decreases p.len(),
{
    if p.len() == 0 {
        assert(join(tokens(p)) =~= p);
    } else {
        let q = p.drop_last();
        lemma_join_tokens(q);
        lemma_tokens_len(q);
        let rest = tokens(q);
        if p.last() == SPACE {
            let ts = rest.push(Seq::<u8>::empty());
            assert(ts.drop_last() =~= rest);
            assert(join(ts) =~= q + seq![SPACE]);
            assert(join(ts) =~= p);
        } else {
            let ts = rest.update(rest.len() - 1, rest.last().push(p.last()));
            if rest.len() == 1 {
                assert(join(ts) == ts[0]);
                assert(ts[0] =~= q.push(p.last()));
                assert(q.push(p.last()) =~= p);
            } else {
                assert(ts.drop_last() =~= rest.drop_last());
                assert(ts.last() == rest.last().push(p.last()));
                assert(join(ts) =~= (join(rest.drop_last()) + seq![SPACE] + rest.last()).push(
                    p.last(),
                ));
                assert(join(rest) == join(rest.drop_last()) + seq![SPACE] + rest.last());
                assert(join(ts) =~= q.push(p.last()));
                assert(q.push(p.last()) =~= p);
            }
        }
    }
}

/// The total length of all tokens in a token sequence.
pub open spec fn sum_lens(ts: Seq<Seq<u8>>) -> int
    decreases ts.len(),
{
    if ts.len() == 0 {
        0
    } else {
        sum_lens(ts.drop_last()) + ts.last().len()
    }
}

/// A joined phrase is as long as its tokens plus one boundary between
/// each adjacent pair.
pub proof fn lemma_join_len(ts: Seq<Seq<u8>>)
    requires
        ts.len() >= 1,
    ensures
        join(ts).len() == sum_lens(ts) + ts.len() - 1,
    decreases ts.len(),
{
    if ts.len() == 1 {
        assert(ts.drop_last() =~= Seq::<Seq<u8>>::empty());
        assert(sum_lens(Seq::<Seq<u8>>::empty()) == 0);
        assert(join(ts) == ts[0]);
        assert(ts.last() == ts[0]);
    } else {
        lemma_join_len(ts.drop_last());
        assert(join(ts) == join(ts.drop_last()) + seq![SPACE] + ts.last());
    }
}

pub proof fn lemma_sum_lens_single(t: Seq<u8>)
    ensures
        sum_lens(seq![t]) == t.len(),
{
    assert(seq![t].drop_last() =~= Seq::<Seq<u8>>::empty());
    assert(sum_lens(Seq::<Seq<u8>>::empty()) == 0);
    assert(seq![t].last() == t);
}

pub proof fn lemma_sum_lens_update(ts: Seq<Seq<u8>>, j: int, m: Seq<u8>)
    requires
        0 <= j < ts.len(),
    ensures
        sum_lens(ts.update(j, m)) == sum_lens(ts) - ts[j].len() + m.len(),
    decreases ts.len(),
{
    if j == ts.len() - 1 {
        assert(ts.update(j, m).drop_last() =~= ts.drop_last());
        assert(ts.update(j, m).last() == m);
    } else {
        assert(ts.update(j, m).drop_last() =~= ts.drop_last().update(j, m));
        assert(ts.update(j, m).last() == ts.last());
        lemma_sum_lens_update(ts.drop_last(), j, m);
    }
}

pub proof fn lemma_sum_lens_concat(a: Seq<Seq<u8>>, b: Seq<Seq<u8>>)
    ensures
        sum_lens(a + b) == sum_lens(a) + sum_lens(b),
    decreases b.len(),
{
    if b.len() == 0 {
        assert(a + b =~= a);
    } else {
        assert((a + b).drop_last() =~= a + b.drop_last());
        assert((a + b).last() == b.last());
        lemma_sum_lens_concat(a, b.drop_last());
    }
}

/// Byte-string equality.
pub fn bytes_eq(a: &Vec<u8>, b: &Vec<u8>) -> (r: bool)
    ensures
        r == (a@ == b@),
{
    if a.len() != b.len() {
        assert(a@ != b@);
        return false;
    }
    let n = a.len();
    let mut i: usize = 0;
    while i < n
        invariant
            n == a.len() == b.len(),
            i <= n,
            forall|j: int| 0 <= j < i ==> a@[j] == b@[j],
        decreases n - i,
    {
        if a[i] != b[i] {
            return false;
        }
        i += 1;
    }
    proof {
        assert(a@ =~= b@);
    }
    true
}

/// Copies a byte string.
pub fn clone_bytes(v: &Vec<u8>) -> (r: Vec<u8>)
    ensures
        r@ == v@,
{
    let mut r: Vec<u8> = Vec::new();
    let n = v.len();
    let mut i: usize = 0;
    while i < n
        invariant
            n == v.len(),
            i <= n,
            r@ == v@.take(i as int),
        decreases n - i,
    {
        r.push(v[i]);
        proof {
            assert(r@ =~= v@.take(i + 1));
        }
        i += 1;
    }
    proof {
        assert(r@ =~= v@);
    }
    r
}

/// The first `k` bytes of a byte string.
pub fn take_bytes(v: &Vec<u8>, k: usize) -> (r: Vec<u8>)
    requires
        k <= v@.len(),
    ensures
        r@ == v@.take(k as int),
{
    let mut r: Vec<u8> = Vec::new();
    let mut i: usize = 0;
    while i < k
        invariant
            k <= v.len(),
            i <= k,
            r@ == v@.take(i as int),
        decreases k - i,
    {
        r.push(v[i]);
        proof {
            assert(r@ =~= v@.take(i + 1));
        }
        i += 1;
    }
    r
}

/// All but the first `k` bytes of a byte string.
pub fn skip_bytes(v: &Vec<u8>, k: usize) -> (r: Vec<u8>)
    requires
        k <= v@.len(),
    ensures
        r@ == v@.skip(k as int),
{
    let mut r: Vec<u8> = Vec::new();
    let n = v.len();
    let mut i: usize = k;
    while i < n
        invariant
            n == v.len(),
            k <= i <= n,
            r@ == v@.subrange(k as int, i as int),
        decreases n - i,
    {
        r.push(v[i]);
        proof {
            assert(r@ =~= v@.subrange(k as int, i + 1));
        }
        i += 1;
    }
    proof {
        assert(r@ =~= v@.skip(k as int));
    }
    r
}

/// Every token of a byte string is at most as long as the string.
pub proof fn lemma_tokens_lens(p: Seq<u8>)
    ensures
        forall|j: int| 0 <= j < tokens(p).len() ==> (#[trigger] tokens(p)[j]).len() <= p.len(),
    decreases p.len(),
{
    if p.len() == 0 {
    } else {
        let q = p.drop_last();
        lemma_tokens_lens(q);
        lemma_tokens_len(q);
        let rest = tokens(q);
        assert forall|j: int| 0 <= j < tokens(p).len() implies (#[trigger] tokens(p)[j]).len()
            <= p.len() by {
            if p.last() == SPACE {
                if j < rest.len() {
                    assert(tokens(p)[j] == rest[j]);
                }
            } else {
                if j < rest.len() - 1 {
                    assert(tokens(p)[j] == rest[j]);
                }
            }
        }
    }
}

/// Whether a byte string is one nonempty run of lowercase letters.
pub fn is_valid_token(w: &Vec<u8>) -> (r: bool)
    ensures
        r == valid_token(w@),
{
    if w.len() == 0 {
        return false;
    }
    let n = w.len();
    let mut i: usize = 0;
    while i < n
        invariant
            n == w.len(),
            i <= n,
            forall|j: int| 0 <= j < i ==> is_letter(#[trigger] w@[j]),
        decreases n - i,
    {
        let c = w[i];
        if !(97 <= c && c <= 122) {
            return false;
        }
        i += 1;
    }
    true
}

/// Whether a byte string is a well-formed phrase: nonempty letter
/// tokens separated by single boundaries.
pub fn is_valid_phrase(p: &Vec<u8>) -> (r: bool)
    ensures
        r == valid_phrase(p@),
{
    let toks = tokenize(p);
    let n = toks.len();
    let mut i: usize = 0;
    while i < n
        invariant
            n == toks.len(),
            toks.deep_view() == tokens(p@),
            i <= n,
            forall|j: int| 0 <= j < i ==> valid_token(#[trigger] tokens(p@)[j]),
        decreases n - i,
    {
        proof {
            assert(toks@[i as int]@ =~= tokens(p@)[i as int]);
        }
        if !is_valid_token(&toks[i]) {
            return false;
        }
        i += 1;
    }
    true
}

/// Whether a list of byte strings contains the given byte string.
pub open spec fn spec_contains_bytes(vs: Seq<Vec<u8>>, q: Seq<u8>) -> bool {
    exists|i: int| 0 <= i < vs.len() && vs[i]@ == q
}

pub fn contains_bytes(vs: &Vec<Vec<u8>>, q: &Vec<u8>) -> (r: bool)
    ensures
        r == spec_contains_bytes(vs@, q@),
{
    let n = vs.len();
    let mut i: usize = 0;
    while i < n
        invariant
            n == vs.len(),
            i <= n,
            forall|j: int| 0 <= j < i ==> vs@[j]@ != q@,
        decreases n - i,
    {
        if bytes_eq(&vs[i], q) {
            return true;
        }
        i += 1;
    }
    false
}

/// How one raw byte is normalized: apostrophes vanish, ASCII letters
/// are lowercased, and every other byte becomes a boundary.
pub open spec fn map_byte(c: u8) -> Option<u8> {
    if c == 39 {
        None
    } else if 65 <= c && c <= 90 {
        Some((c + 32) as u8)
    } else if is_letter(c) {
        Some(c)
    } else {
        Some(SPACE)
    }
}

/// Normalizes every byte, dropping apostrophes.
pub open spec fn map_bytes(s: Seq<u8>) -> Seq<u8>
    decreases s.len(),
{
    if s.len() == 0 {
        Seq::<u8>::empty()
    } else {
        let r = map_bytes(s.drop_last());
        match map_byte(s.last()) {
            Some(c) => r.push(c),
            None => r,
        }
    }
}

/// Collapses runs of boundaries and strips leading boundaries.
pub open spec fn squeeze(s: Seq<u8>) -> Seq<u8>
    decreases s.len(),
{
    if s.len() == 0 {
        Seq::<u8>::empty()
    } else {
        let r = squeeze(s.drop_last());
        if s.last() == SPACE && (r.len() == 0 || r.last() == SPACE) {
            r
        } else {
            r.push(s.last())
        }
    }
}

/// The canonical phrase of a raw name: lowercase letters separated by
/// single boundaries, with no boundary at either end.
pub open spec fn normalize_spec(s: Seq<u8>) -> Seq<u8> {
    let r = squeeze(map_bytes(s));
    if r.len() > 0 && r.last() == SPACE {
        r.drop_last()
    } else {
        r
    }
}

/// Turns a raw name into its canonical phrase.
pub fn normalize_name(raw: &Vec<u8>) -> (r: Vec<u8>)
    ensures
        r@ == normalize_spec(raw@),
{
    let mut r: Vec<u8> = Vec::new();
    let n = raw.len();
    let mut i: usize = 0;
    while i < n
        invariant
            n == raw.len(),
            i <= n,
            r@ == squeeze(map_bytes(raw@.take(i as int))),
        decreases n - i,
    {
        let c = raw[i];
        proof {
            assert(raw@.take(i + 1).drop_last() =~= raw@.take(i as int));
            assert(raw@.take(i + 1).last() == raw@[i as int]);
        }
        if c == 39 {
            // dropped
        } else {
            let mapped: u8 = if 65 <= c && c <= 90 {
                c + 32
            } else if 97 <= c && c <= 122 {
                c
            } else {
                SPACE
            };
            let skip = mapped == SPACE && (r.len() == 0 || r[r.len() - 1] == SPACE);
            if !skip {
                r.push(mapped);
            }
            proof {
                let mb = map_bytes(raw@.take(i + 1));
                assert(mb.drop_last() =~= map_bytes(raw@.take(i as int)));
            }
        }
        i += 1;
    }
    proof {
        assert(raw@.take(n as int) =~= raw@);
    }
    if r.len() > 0 && r[r.len() - 1] == SPACE {
        let _ = r.pop();
        proof {
            assert(r@ =~= normalize_spec(raw@));
        }
    }
    r
}

/// Splits a byte string at every occurrence of a separator byte.
pub open spec fn split_on(p: Seq<u8>, sep: u8) -> Seq<Seq<u8>>
    decreases p.len(),
{
    if p.len() == 0 {
        seq![Seq::<u8>::empty()]
    } else {
        let rest = split_on(p.drop_last(), sep);
        if p.last() == sep {
            rest.push(Seq::<u8>::empty())
        } else {
            rest.update(rest.len() - 1, rest.last().push(p.last()))
        }
    }
}

/// Splits a byte string at every occurrence of a separator byte, as
/// executable code.
pub fn split_bytes_on(p: &Vec<u8>, sep: u8) -> (r: Vec<Vec<u8>>)
    ensures
        r.deep_view() == split_on(p@, sep),
        r.len() >= 1,
{
    let mut r: Vec<Vec<u8>> = Vec::new();
    let cur: Vec<u8> = Vec::new();
    r.push(cur);
    proof {
        assert(r.deep_view() =~~= split_on(p@.take(0), sep));
    }
    let n = p.len();
    let mut i: usize = 0;
    while i < n
        invariant
            n == p.len(),
            i <= n,
            r.len() >= 1,
            r.deep_view() == split_on(p@.take(i as int), sep),
        decreases n - i,
    {
        proof {
            assert(p@.take(i + 1).drop_last() =~= p@.take(i as int));
            assert(p@.take(i + 1).last() == p@[i as int]);
        }
        let ghost old_dv = r.deep_view();
        if p[i] == sep {
            r.push(Vec::new());
            proof {
                assert(r.deep_view() =~~= old_dv.push(Seq::<u8>::empty()));
                assert(r.deep_view() =~~= split_on(p@.take(i + 1), sep));
            }
        } else {
            let c = p[i];
            let mut t = r.pop().unwrap();
            t.push(c);
            let ghost mid_dv = r.deep_view();
            r.push(t);
            proof {
                assert(mid_dv =~~= old_dv.drop_last());
                assert(t@ =~= old_dv.last().push(c));
                assert(r.deep_view() =~~= old_dv.update(old_dv.len() - 1, old_dv.last().push(c)));
                assert(r.deep_view() =~~= split_on(p@.take(i + 1), sep));
            }
        }
        i += 1;
    }
    proof {
        assert(p@.take(n as int) =~= p@);
    }
    r
}

/// Splits a phrase at every space, as executable code.
pub fn tokenize(p: &Vec<u8>) -> (r: Vec<Vec<u8>>)
    ensures
        r.deep_view() == tokens(p@),
        r.len() >= 1,
{
    let mut r: Vec<Vec<u8>> = Vec::new();
    let cur: Vec<u8> = Vec::new();
    r.push(cur);
    proof {
        assert(r.deep_view() =~~= tokens(p@.take(0)));
    }
    let n = p.len();
    let mut i: usize = 0;
    while i < n
        invariant
            n == p.len(),
            i <= n,
            r.len() >= 1,
            r.deep_view() == tokens(p@.take(i as int)),
        decreases n - i,
    {
        proof {
            assert(p@.take(i + 1).drop_last() =~= p@.take(i as int));
            assert(p@.take(i + 1).last() == p@[i as int]);
        }
        let ghost old_dv = r.deep_view();
        if p[i] == SPACE {
            r.push(Vec::new());
            proof {
                assert(r.deep_view() =~~= old_dv.push(Seq::<u8>::empty()));
                assert(r.deep_view() =~~= tokens(p@.take(i + 1)));
            }
        } else {
            let c = p[i];
            let mut t = r.pop().unwrap();
            t.push(c);
            let ghost mid_dv = r.deep_view();
            r.push(t);
            proof {
                assert(mid_dv =~~= old_dv.drop_last());
                assert(t@ =~= old_dv.last().push(c));
                assert(r.deep_view() =~~= old_dv.update(old_dv.len() - 1, old_dv.last().push(c)));
                assert(r.deep_view() =~~= tokens(p@.take(i + 1)));
            }
        }
        i += 1;
    }
    proof {
        assert(p@.take(n as int) =~= p@);
    }
    r
}

/// Joins a token list with single spaces, as executable code.
pub fn join_tokens(ts: &Vec<Vec<u8>>) -> (r: Vec<u8>)
    ensures
        r@ == join(ts.deep_view()),
{
    let mut r: Vec<u8> = Vec::new();
    let n = ts.len();
    let mut i: usize = 0;
    while i < n
        invariant
            n == ts.len(),
            i <= n,
            r@ == join(ts.deep_view().take(i as int)),
        decreases n - i,
    {
        proof {
            assert(ts.deep_view().take(i + 1).drop_last() =~= ts.deep_view().take(i as int));
            assert(ts.deep_view().take(i + 1).last() == ts.deep_view()[i as int]);
        }
        if i > 0 {
            r.push(SPACE);
        }
        let m = ts[i].len();
        let mut k: usize = 0;
        let ghost base = r@;
        while k < m
            invariant
                m == ts[i as int].len(),
                k <= m,
                i < n == ts.len(),
                r@ == base + ts@[i as int]@.take(k as int),
            decreases m - k,
        {
            r.push(ts[i][k]);
            proof {
                assert(base + ts@[i as int]@.take(k + 1) =~= (base + ts@[i as int]@.take(
                    k as int,
                )).push(ts@[i as int]@[k as int]));
            }
            k += 1;
        }
        proof {
            assert(ts@[i as int]@.take(m as int) =~= ts.deep_view()[i as int]);
            if i == 0 {
                assert(join(ts.deep_view().take(1)) == ts.deep_view()[0]);
                assert(r@ =~= ts.deep_view()[0]);
            } else {
                assert(r@ =~= join(ts.deep_view().take(i as int)) + seq![SPACE]
                    + ts.deep_view()[i as int]);
            }
        }
        i += 1;
    }
    proof {
        if n == 0 {
            assert(ts.deep_view().take(0) =~= ts.deep_view());
        } else {
            assert(ts.deep_view().take(n as int) =~= ts.deep_view());
        }
    }
    r
}

} // verus!
