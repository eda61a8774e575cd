//! Balanced ternary digits and their symbolic (tryte) form.
//!
//! A tryte is one of the 27 symbols `9ABCDEFGHIJKLMNOPQRSTUVWXYZ` and stands
//! for three trits, least significant first: `9` is 0, `A`..`M` are 1..13 and
//! `N`..`Z` are -13..-1.
use vstd::prelude::*;

verus! {

/// A trit is a balanced ternary digit.
pub open spec fn is_trit(t: i8) -> bool {
    -1 <= t <= 1
}

pub open spec fn all_trits(t: Seq<i8>) -> bool {
    forall|i: int| 0 <= i < t.len() ==> is_trit(#[trigger] t[i])
}

/// The value in -13..=13 that a tryte symbol stands for.
pub open spec fn tryte_value(c: char) -> Option<int> {
    let n = c as u32;
    if n == 57 {
        Some(0)
    } else if 65 <= n <= 77 {
        Some(n - 64)
    } else if 78 <= n <= 90 {
        Some(n - 91)
    } else {
        None
    }
}

pub open spec fn is_tryte(c: char) -> bool {
    tryte_value(c) is Some
}

pub open spec fn all_trytes(s: Seq<char>) -> bool {
    forall|i: int| 0 <= i < s.len() ==> is_tryte(#[trigger] s[i])
}

/// The symbol for a value in -13..=13.
pub open spec fn tryte_char(v: int) -> char {
    if v == 0 {
        '9'
    } else if v > 0 {
        ((v + 64) as u32) as char
    } else {
        ((v + 91) as u32) as char
    }
}

/// The least significant balanced ternary digit of `v`.
pub open spec fn low_trit(v: int) -> int {
    let r = v % 3;
    if r == 0 {
        0
    } else if r == 1 {
        1
    } else {
        -1
    }
}

/// The three trits of a value in -13..=13, least significant first.
pub open spec fn value_trits(v: int) -> Seq<i8> {
    let t0 = low_trit(v);
    let v1 = (v - t0) / 3;
    let t1 = low_trit(v1);
    let t2 = (v1 - t1) / 3;
    seq![t0 as i8, t1 as i8, t2 as i8]
}

/// The trits that a string of trytes stands for, three per symbol.
pub open spec fn decode(s: Seq<char>) -> Seq<i8>
    decreases s.len(),
{
    if s.len() == 0 {
        Seq::empty()
    } else {
        decode(s.drop_last()) + value_trits(tryte_value(s.last())->0)
    }
}

/// The trytes that a sequence of trits stands for, one symbol per three trits.
pub open spec fn encode(t: Seq<i8>) -> Seq<char>
    decreases t.len(),
{
    if t.len() < 3 {
        Seq::empty()
    } else {
        let n = t.len() as int;
        encode(t.subrange(0, n - 3)).push(tryte_char(t[n - 3] + 3 * t[n - 2] + 9 * t[n - 1]))
    }
}

/// `t` cut to `n` trits, or right-padded with zero trits up to `n`.
pub open spec fn fit(t: Seq<i8>, n: nat) -> Seq<i8> {
    if t.len() >= n {
        t.take(n as int)
    } else {
        t + Seq::new((n - t.len()) as nat, |i: int| 0i8)
    }
}

proof fn lemma_value_trits(v: int)
    requires
        -13 <= v <= 13,
    ensures
        value_trits(v).len() == 3,
        all_trits(value_trits(v)),
        value_trits(v)[0] + 3 * value_trits(v)[1] + 9 * value_trits(v)[2] == v,
{
}

proof fn lemma_tryte_round_trip(a: i8, b: i8, c: i8)
    requires
        is_trit(a),
        is_trit(b),
        is_trit(c),
    ensures
        tryte_value(tryte_char(a + 3 * b + 9 * c)) == Some(a + 3 * b + 9 * c),
        value_trits(a + 3 * b + 9 * c) == seq![a, b, c],
{
    let v = a + 3 * b + 9 * c;
    assert(value_trits(v) =~= seq![a, b, c]);
}

pub proof fn lemma_decode_len(s: Seq<char>)
    ensures
        decode(s).len() == 3 * s.len(),
    decreases s.len(),
{
    if s.len() > 0 {
        lemma_decode_len(s.drop_last());
    }
}

pub proof fn lemma_decode_trits(s: Seq<char>)
    requires
        all_trytes(s),
    ensures
        all_trits(decode(s)),
    decreases s.len(),
{
    if s.len() > 0 {
        lemma_decode_trits(s.drop_last());
        let v = tryte_value(s.last())->0;
        lemma_value_trits(v);
        lemma_decode_len(s.drop_last());
        let d = decode(s);
        assert forall|i: int| 0 <= i < d.len() implies is_trit(#[trigger] d[i]) by {
            if i < decode(s.drop_last()).len() {
                assert(d[i] == decode(s.drop_last())[i]);
            } else {
                assert(d[i] == value_trits(v)[i - decode(s.drop_last()).len()]);
            }
        }
    }
}

pub proof fn lemma_encode_trytes(t: Seq<i8>)
    requires
        all_trits(t),
    ensures
        all_trytes(encode(t)),
    decreases t.len(),
{
    if t.len() >= 3 {
        let n = t.len() as int;
        let p = t.subrange(0, n - 3);
        lemma_encode_trytes(p);
        lemma_tryte_round_trip(t[n - 3], t[n - 2], t[n - 1]);
        let e = encode(t);
        assert forall|i: int| 0 <= i < e.len() implies is_tryte(#[trigger] e[i]) by {
            if i < encode(p).len() {
                assert(e[i] == encode(p)[i]);
            }
        }
    }
}

/// Decoding what was encoded gives back the trits.
pub proof fn lemma_decode_encode(t: Seq<i8>)
    requires
        all_trits(t),
        t.len() % 3 == 0,
    ensures
        decode(encode(t)) == t,
    decreases t.len(),
{
    if t.len() >= 3 {
        let n = t.len() as int;
        let p = t.subrange(0, n - 3);
        lemma_decode_encode(p);
        lemma_tryte_round_trip(t[n - 3], t[n - 2], t[n - 1]);
        let e = encode(t);
        assert(e.drop_last() =~= encode(p));
        assert(decode(e) =~= t);
    } else {
        assert(t =~= Seq::<i8>::empty());
    }
}

/// The value of a tryte symbol, or `None` for any other character.
pub fn tryte_to_value(c: char) -> (r: Option<i8>)
    ensures
        r is Some <==> is_tryte(c),
        r is Some ==> r->0 as int == tryte_value(c)->0,
{
    let n = c as u32;
    if n == 57 {
        Some(0)
    } else if 65 <= n && n <= 77 {
        Some((n - 64) as i8)
    } else if 78 <= n && n <= 90 {
        Some((n as i8) - 91)
    } else {
        None
    }
}

fn value_to_trits(v: i8, out: &mut Vec<i8>)
    requires
        -13 <= v <= 13,
    ensures
        final(out)@ == old(out)@ + value_trits(v as int),
{
    let r0: i8 = ((v + 27) % 3) as i8;
    let t0: i8 = if r0 == 2 { -1 } else { r0 };
    let v1: i8 = (v - t0) / 3;
    let r1: i8 = ((v1 + 27) % 3) as i8;
    let t1: i8 = if r1 == 2 { -1 } else { r1 };
    let t2: i8 = (v1 - t1) / 3;
    assert(t0 as int == low_trit(v as int));
    assert(v1 as int == (v - t0) / 3);
    assert(t1 as int == low_trit(v1 as int));
    out.push(t0);
    out.push(t1);
    out.push(t2);
    assert(final(out)@ =~= old(out)@ + value_trits(v as int));
}

/// The trits of a tryte string, or `None` where it holds another character.
pub fn trits_from_trytes(s: &str) -> (r: Option<Vec<i8>>)
    ensures
        r is Some <==> all_trytes(s@),
        r is Some ==> r->0@ == decode(s@),
{
    let n = s.unicode_len();
    let mut out: Vec<i8> = Vec::new();
    let mut i: usize = 0;
    while i < n
        invariant
            n == s@.len(),
            i <= n,
            all_trytes(s@.take(i as int)),
            out@ == decode(s@.take(i as int)),
        decreases n - i,
    {
        let c = s.get_char(i);
        match tryte_to_value(c) {
            Some(v) => {
                proof {
                    let p = s@.take(i as int + 1);
                    assert(p.drop_last() =~= s@.take(i as int));
                    assert(p.last() == c);
                }
                value_to_trits(v, &mut out);
                i = i + 1;
            },
            None => {
                return None;
            },
        }
    }
    assert(s@.take(n as int) =~= s@);
    Some(out)
}

/// The trits of a tryte string cut or zero-padded to `len` trits.
pub fn trits_with_length(s: &str, len: usize) -> (r: Option<Vec<i8>>)
    ensures
        r is Some <==> all_trytes(s@),
        r is Some ==> r->0@ == fit(decode(s@), len as nat),
{
    match trits_from_trytes(s) {
        None => None,
        Some(t) => Some(fit_trits(&t, len)),
    }
}

/// `t` cut to `len` trits, or right-padded with zero trits.
pub fn fit_trits(t: &Vec<i8>, len: usize) -> (r: Vec<i8>)
    ensures
        r@ == fit(t@, len as nat),
{
    let mut out: Vec<i8> = Vec::new();
    let mut i: usize = 0;
    while i < len
        invariant
            i <= len,
            out@.len() == i,
            forall|j: int| 0 <= j < i ==> #[trigger] out@[j] == fit(t@, len as nat)[j],
        decreases len - i,
    {
        if i < t.len() {
            out.push(t[i]);
        } else {
            out.push(0);
        }
        i = i + 1;
    }
    assert(out@ =~= fit(t@, len as nat));
    out
}

/// Relies on `String::push`: the character is appended at the end.
#[verifier::external_body]
pub(crate) fn push_char(s: &mut String, c: char)
    ensures
        final(s)@ == old(s)@.push(c),
{
    s.push(c)
}

fn value_to_tryte(v: i8) -> (c: char)
    requires
        -13 <= v <= 13,
    ensures
        c == tryte_char(v as int),
{
    if v == 0 {
        '9'
    } else if v > 0 {
        ((v as u8) + 64) as char
    } else {
        ((v + 91) as u8) as char
    }
}

/// The tryte string of a sequence of trits whose length is a multiple of three.
pub fn trytes_from_trits(t: &[i8]) -> (r: String)
    requires
        all_trits(t@),
        t@.len() % 3 == 0,
    ensures
        r@ == encode(t@),
{
    let mut out = String::new();
    let mut i: usize = 0;
    while i < t.len()
        invariant
            all_trits(t@),
            t@.len() % 3 == 0,
            i % 3 == 0,
            i <= t@.len(),
            out@ == encode(t@.take(i as int)),
        decreases t@.len() - i,
    {
        let a = t[i];
        let b = t[i + 1];
        let c = t[i + 2];
        assert(is_trit(a) && is_trit(b) && is_trit(c));
        let ch = value_to_tryte(a + 3 * b + 9 * c);
        push_char(&mut out, ch);
        proof {
            let p = t@.take(i as int + 3);
            assert(p.subrange(0, i as int) =~= t@.take(i as int));
            assert(p[i as int] == a && p[i + 1] == b && p[i + 2] == c);
        }
        i = i + 3;
    }
    assert(t@.take(i as int) =~= t@);
    out
}

} // verus!
