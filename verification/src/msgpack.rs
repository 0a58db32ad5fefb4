//! The compact binary map/array format the store persists in: minimal
//! big-endian integer forms, booleans, strings, and length headers for
//! strings, arrays and maps.
//!
//! Every form has a spec-level encoder; the executable writers produce
//! exactly those bytes, and the executable readers accept exactly them
//! (the format is canonical: a value has one encoding).

use vstd::prelude::*;
use vstd::arithmetic::div_mod::{lemma_fundamental_div_mod, lemma_fundamental_div_mod_converse};
use vstd::utf8::{encode_utf8, decode_utf8, valid_utf8, encode_utf8_valid_utf8,
    encode_utf8_decode_utf8};

verus! {

/// The encoding `e` stands at offset `q` of `s`.
pub open spec fn starts_at(s: Seq<u8>, q: int, e: Seq<u8>) -> bool {
    0 <= q && q + e.len() <= s.len() && s.subrange(q, q + e.len()) == e
}

/// 256 to the `n`.
pub open spec fn p256(n: nat) -> nat
    decreases n,
{
    if n == 0 {
        1
    } else {
        256 * p256((n - 1) as nat)
    }
}

/// The `n` big-endian base-256 digits of `x`.
pub open spec fn be(x: nat, n: nat) -> Seq<u8>
    decreases n,
{
    if n == 0 {
        Seq::empty()
    } else {
        be(x / 256, (n - 1) as nat) + seq![(x % 256) as u8]
    }
}

/// The number written by the big-endian base-256 digits `s`.
pub open spec fn be_val(s: Seq<u8>) -> nat
    decreases s.len(),
{
    if s.len() == 0 {
        0
    } else {
        be_val(s.drop_last()) * 256 + (s.last() as nat)
    }
}

pub broadcast proof fn lemma_be_len(x: nat, n: nat)
    ensures
        (#[trigger] be(x, n)).len() == n,
    decreases n,
{
    if n > 0 {
        lemma_be_len(x / 256, (n - 1) as nat);
    }
}

pub proof fn lemma_p256_mono(a: nat, b: nat)
    requires
        a <= b,
    ensures
        p256(a) <= p256(b),
    decreases b,
{
    if a < b {
        let c: nat = (b - 1) as nat;
        lemma_p256_mono(a, c);
        assert(p256(c) <= 256 * p256(c)) by (nonlinear_arith)
            requires p256(c) >= 0;
    }
}

/// Reading back the digits of `x` gives `x`.
pub proof fn lemma_be_val_of_be(x: nat, n: nat)
    requires
        x < p256(n),
    ensures
        be_val(be(x, n)) == x,
    decreases n,
{
    broadcast use lemma_be_len;

    if n == 0 {
    } else {
        let m: nat = (n - 1) as nat;
        assert(p256(n) == 256 * p256(m));
        assert(x / 256 < p256(m)) by (nonlinear_arith)
            requires x < 256 * p256(m), 0 <= x;
        lemma_be_val_of_be(x / 256, m);
        assert(be(x, n).drop_last() =~= be(x / 256, m));
        assert(be(x, n).last() == (x % 256) as u8);
        lemma_fundamental_div_mod(x as int, 256);
    }
}

/// The digits of the number written by `s` are `s` again.
pub proof fn lemma_be_of_be_val(s: Seq<u8>)
    ensures
        be_val(s) < p256(s.len()),
        be(be_val(s), s.len()) == s,
    decreases s.len(),
{
    broadcast use lemma_be_len;

    if s.len() == 0 {
        assert(be(be_val(s), s.len()) =~= s);
    } else {
        let d = s.drop_last();
        lemma_be_of_be_val(d);
        let v = be_val(s);
        let q = be_val(d);
        let r: u8 = s.last();
        assert(v == q * 256 + r);
        assert(v < 256 * p256(d.len())) by (nonlinear_arith)
            requires v == q * 256 + r, q < p256(d.len()), r < 256, 0 <= q, 0 <= r;
        assert(p256(s.len()) == 256 * p256(d.len()));
        lemma_fundamental_div_mod_converse(v as int, 256, q as int, r as int);
        assert(be(v, s.len()) =~= be(v / 256, d.len()) + seq![(v % 256) as u8]);
        assert(be(v, s.len()) =~= s);
    }
}

/// Appends the `n` big-endian digits of `x`.
pub(crate) fn push_be(buf: &mut Vec<u8>, x: u64, n: usize)
    requires
        n <= 8,
        (x as nat) < p256(n as nat),
    ensures
        final(buf)@ == old(buf)@ + be(x as nat, n as nat),
    decreases n,
{
    broadcast use lemma_be_len;

    if n == 0 {
        assert(buf@ =~= old(buf)@ + be(x as nat, 0));
        return ;
    }
    let m: usize = n - 1;
    proof {
        assert(p256(n as nat) == 256 * p256(m as nat));
        assert((x as nat) / 256 < p256(m as nat)) by (nonlinear_arith)
            requires (x as nat) < 256 * p256(m as nat), 0 <= x as nat;
    }
    push_be(buf, x / 256, m);
    buf.push((x % 256) as u8);
    proof {
        assert(buf@ =~= old(buf)@ + be(x as nat, n as nat));
    }
}

/// Reads `n` big-endian digits starting at `pos`.
pub(crate) fn read_be(buf: &Vec<u8>, pos: usize, n: usize) -> (r: u64)
    requires
        n <= 8,
        pos + n <= buf@.len(),
    ensures
        r as nat == be_val(buf@.subrange(pos as int, pos + n)),
        (r as nat) < p256(n as nat),
{
    proof {
        reveal_with_fuel(p256, 9);
    }
    let blen: usize = buf.len();
    let mut r: u64 = 0;
    let mut i: usize = 0;
    while i < n
        invariant
            n <= 8,
            pos + n <= buf@.len(),
            blen == buf@.len(),
            i <= n,
            r as nat == be_val(buf@.subrange(pos as int, pos + i)),
            (r as nat) < p256(i as nat),
        decreases n - i,
    {
        proof {
            lemma_p256_mono(i as nat, 7);
            reveal_with_fuel(p256, 9);
            assert((r as nat) * 256 + 255 < p256((i + 1) as nat)) by (nonlinear_arith)
                requires (r as nat) < p256(i as nat), p256((i + 1) as nat) == 256 * p256(i as nat);
        }
        let b = buf[pos + i];
        r = r * 256 + (b as u64);
        i = i + 1;
        proof {
            let s = buf@.subrange(pos as int, pos + i);
            assert(s.drop_last() =~= buf@.subrange(pos as int, pos + i - 1));
            assert(s.last() == b);
        }
    }
    proof {
        lemma_p256_mono(n as nat, 8);
        reveal_with_fuel(p256, 9);
    }
    r
}

/// Two encodings standing one after the other form one encoding.
pub proof fn lemma_starts_at_join(s: Seq<u8>, q: int, e1: Seq<u8>, e2: Seq<u8>)
    requires
        starts_at(s, q, e1),
        starts_at(s, q + e1.len(), e2),
    ensures
        starts_at(s, q, e1 + e2),
{
    assert(s.subrange(q, q + (e1 + e2).len()) =~= e1 + e2);
}

/// An encoding made of two parts stands at `q` only with each part in place.
pub proof fn lemma_starts_at_split(s: Seq<u8>, q: int, e1: Seq<u8>, e2: Seq<u8>)
    requires
        starts_at(s, q, e1 + e2),
    ensures
        starts_at(s, q, e1),
        starts_at(s, q + e1.len(), e2),
{
    let e = e1 + e2;
    assert(forall|i: int| 0 <= i < e.len() ==> s[q + i] == e[i]) by {
        assert(forall|i: int| 0 <= i < e.len() ==> s[q + i] == #[trigger] s.subrange(
            q,
            q + e.len(),
        )[i]);
    }
    assert(s.subrange(q, q + e1.len()) =~= e1);
    let t = s.subrange(q + e1.len(), q + e1.len() + e2.len());
    assert forall|j: int| 0 <= j < e2.len() implies t[j] == e2[j] by {
        assert(t[j] == s[q + e1.len() + j]);
        assert(s[q + e1.len() + j] == e[e1.len() + j]);
        assert(e[e1.len() + j] == e2[j]);
    }
    assert(t =~= e2);
}

/// The minimal encoding of an unsigned 64-bit integer.
pub open spec fn enc_u64(x: u64) -> Seq<u8> {
    if x < 0x80 {
        seq![x as u8]
    } else if x < 0x100 {
        seq![0xccu8] + be(x as nat, 1)
    } else if x < 0x10000 {
        seq![0xcdu8] + be(x as nat, 2)
    } else if x < 0x100000000 {
        seq![0xceu8] + be(x as nat, 4)
    } else {
        seq![0xcfu8] + be(x as nat, 8)
    }
}

/// The minimal encoding of a signed 64-bit integer; non-negative values
/// use the unsigned forms.
pub open spec fn enc_i64(x: i64) -> Seq<u8> {
    if x >= 0 {
        enc_u64(x as u64)
    } else if x >= -32 {
        seq![(x + 0x100) as u8]
    } else if x >= -0x80 {
        seq![0xd0u8] + be((x + 0x100) as nat, 1)
    } else if x >= -0x8000 {
        seq![0xd1u8] + be((x + 0x10000) as nat, 2)
    } else if x >= -0x80000000 {
        seq![0xd2u8] + be((x + 0x100000000) as nat, 4)
    } else {
        seq![0xd3u8] + be((x + 0x10000000000000000) as nat, 8)
    }
}

/// The encoding of a boolean.
pub open spec fn enc_bool(b: bool) -> Seq<u8> {
    if b {
        seq![0xc3u8]
    } else {
        seq![0xc2u8]
    }
}

/// The header announcing a string of `n` bytes.
pub open spec fn strhdr(n: nat) -> Seq<u8> {
    if n < 32 {
        seq![(0xa0 + n) as u8]
    } else if n < 0x100 {
        seq![0xd9u8] + be(n, 1)
    } else if n < 0x10000 {
        seq![0xdau8] + be(n, 2)
    } else {
        seq![0xdbu8] + be(n, 4)
    }
}

/// The encoding of a string: its header, then its UTF-8 bytes.
pub open spec fn enc_str(s: Seq<char>) -> Seq<u8> {
    strhdr(encode_utf8(s).len()) + encode_utf8(s)
}

/// The header announcing an array of `n` elements.
pub open spec fn arrhdr(n: nat) -> Seq<u8> {
    if n < 16 {
        seq![(0x90 + n) as u8]
    } else if n < 0x10000 {
        seq![0xdcu8] + be(n, 2)
    } else {
        seq![0xddu8] + be(n, 4)
    }
}

/// The header announcing a map of `n` key-value pairs.
pub open spec fn maphdr(n: nat) -> Seq<u8> {
    if n < 16 {
        seq![(0x80 + n) as u8]
    } else if n < 0x10000 {
        seq![0xdeu8] + be(n, 2)
    } else {
        seq![0xdfu8] + be(n, 4)
    }
}

/// Appends the minimal encoding of `x`.
pub(crate) fn put_u64(buf: &mut Vec<u8>, x: u64)
    ensures
        final(buf)@ == old(buf)@ + enc_u64(x),
{
    proof {
        reveal_with_fuel(p256, 9);
    }
    if x < 0x80 {
        buf.push(x as u8);
        proof {
            assert(buf@ =~= old(buf)@ + enc_u64(x));
        }
    } else if x < 0x100 {
        buf.push(0xcc);
        push_be(buf, x, 1);
        proof {
            assert(buf@ =~= old(buf)@ + enc_u64(x));
        }
    } else if x < 0x10000 {
        buf.push(0xcd);
        push_be(buf, x, 2);
        proof {
            assert(buf@ =~= old(buf)@ + enc_u64(x));
        }
    } else if x < 0x100000000 {
        buf.push(0xce);
        push_be(buf, x, 4);
        proof {
            assert(buf@ =~= old(buf)@ + enc_u64(x));
        }
    } else {
        buf.push(0xcf);
        push_be(buf, x, 8);
        proof {
            assert(buf@ =~= old(buf)@ + enc_u64(x));
        }
    }
}

/// Appends the minimal encoding of `x`.
pub(crate) fn put_i64(buf: &mut Vec<u8>, x: i64)
    ensures
        final(buf)@ == old(buf)@ + enc_i64(x),
{
    proof {
        reveal_with_fuel(p256, 9);
    }
    if x >= 0 {
        put_u64(buf, x as u64);
    } else if x >= -32 {
        buf.push((x + 0x100) as u8);
        proof {
            assert(buf@ =~= old(buf)@ + enc_i64(x));
        }
    } else if x >= -0x80 {
        buf.push(0xd0);
        push_be(buf, (x + 0x100) as u64, 1);
        proof {
            assert(buf@ =~= old(buf)@ + enc_i64(x));
        }
    } else if x >= -0x8000 {
        buf.push(0xd1);
        push_be(buf, (x + 0x10000) as u64, 2);
        proof {
            assert(buf@ =~= old(buf)@ + enc_i64(x));
        }
    } else if x >= -0x80000000 {
        buf.push(0xd2);
        push_be(buf, (x + 0x100000000) as u64, 4);
        proof {
            assert(buf@ =~= old(buf)@ + enc_i64(x));
        }
    } else {
        buf.push(0xd3);
        let w: u64 = (((x as i128) + 0x10000000000000000) as u64);
        push_be(buf, w, 8);
        proof {
            assert(buf@ =~= old(buf)@ + enc_i64(x));
        }
    }
}

/// Appends the encoding of `b`.
pub(crate) fn put_bool(buf: &mut Vec<u8>, b: bool)
    ensures
        final(buf)@ == old(buf)@ + enc_bool(b),
{
    if b {
        buf.push(0xc3);
    } else {
        buf.push(0xc2);
    }
    proof {
        assert(buf@ =~= old(buf)@ + enc_bool(b));
    }
}

/// Appends the string header for `n` content bytes.
pub(crate) fn put_strhdr(buf: &mut Vec<u8>, n: u64)
    requires
        n < 0x100000000,
    ensures
        final(buf)@ == old(buf)@ + strhdr(n as nat),
{
    proof {
        reveal_with_fuel(p256, 9);
    }
    if n < 32 {
        buf.push(0xa0 + (n as u8));
        proof {
            assert(buf@ =~= old(buf)@ + strhdr(n as nat));
        }
    } else if n < 0x100 {
        buf.push(0xd9);
        push_be(buf, n, 1);
        proof {
            assert(buf@ =~= old(buf)@ + strhdr(n as nat));
        }
    } else if n < 0x10000 {
        buf.push(0xda);
        push_be(buf, n, 2);
        proof {
            assert(buf@ =~= old(buf)@ + strhdr(n as nat));
        }
    } else {
        buf.push(0xdb);
        push_be(buf, n, 4);
        proof {
            assert(buf@ =~= old(buf)@ + strhdr(n as nat));
        }
    }
}

/// Appends the array header for `n` elements.
pub(crate) fn put_arrhdr(buf: &mut Vec<u8>, n: u64)
    requires
        n < 0x100000000,
    ensures
        final(buf)@ == old(buf)@ + arrhdr(n as nat),
{
    proof {
        reveal_with_fuel(p256, 9);
    }
    if n < 16 {
        buf.push(0x90 + (n as u8));
        proof {
            assert(buf@ =~= old(buf)@ + arrhdr(n as nat));
        }
    } else if n < 0x10000 {
        buf.push(0xdc);
        push_be(buf, n, 2);
        proof {
            assert(buf@ =~= old(buf)@ + arrhdr(n as nat));
        }
    } else {
        buf.push(0xdd);
        push_be(buf, n, 4);
        proof {
            assert(buf@ =~= old(buf)@ + arrhdr(n as nat));
        }
    }
}

/// Appends the map header for `n` pairs.
pub(crate) fn put_maphdr(buf: &mut Vec<u8>, n: u64)
    requires
        n < 0x100000000,
    ensures
        final(buf)@ == old(buf)@ + maphdr(n as nat),
{
    proof {
        reveal_with_fuel(p256, 9);
    }
    if n < 16 {
        buf.push(0x80 + (n as u8));
        proof {
            assert(buf@ =~= old(buf)@ + maphdr(n as nat));
        }
    } else if n < 0x10000 {
        buf.push(0xde);
        push_be(buf, n, 2);
        proof {
            assert(buf@ =~= old(buf)@ + maphdr(n as nat));
        }
    } else {
        buf.push(0xdf);
        push_be(buf, n, 4);
        proof {
            assert(buf@ =~= old(buf)@ + maphdr(n as nat));
        }
    }
}

} // verus!

verus! {

use crate::log_error::{Error, EncodeError};

/// What an unsigned encoding standing at `q` forces on the bytes there.
pub proof fn lemma_enc_u64_at(s: Seq<u8>, q: int, x: u64)
    requires
        starts_at(s, q, enc_u64(x)),
    ensures
        0 <= q < s.len(),
        s[q] == enc_u64(x)[0],
        x < 0x80 ==> s[q] == x,
        0x80 <= x < 0x100 ==> s[q] == 0xcc && q + 2 <= s.len() && be_val(
            s.subrange(q + 1, q + 2),
        ) == x,
        0x100 <= x < 0x10000 ==> s[q] == 0xcd && q + 3 <= s.len() && be_val(
            s.subrange(q + 1, q + 3),
        ) == x,
        0x10000 <= x < 0x100000000 ==> s[q] == 0xce && q + 5 <= s.len() && be_val(
            s.subrange(q + 1, q + 5),
        ) == x,
        0x100000000 <= x ==> s[q] == 0xcf && q + 9 <= s.len() && be_val(
            s.subrange(q + 1, q + 9),
        ) == x,
{
    broadcast use lemma_be_len;

    reveal_with_fuel(p256, 9);
    lemma_starts_at_index(s, q, enc_u64(x), 0);
    if x < 0x80 {
    } else {
        let w: nat = if x < 0x100 {
            1
        } else if x < 0x10000 {
            2
        } else if x < 0x100000000 {
            4
        } else {
            8
        };
        let tag = enc_u64(x)[0];
        lemma_starts_at_split(s, q, seq![tag], be(x as nat, w));
        assert(s.subrange(q + 1, q + 1 + w) == be(x as nat, w));
        lemma_be_val_of_be(x as nat, w);
    }
}

/// One byte of an encoding standing at `q`.
pub proof fn lemma_starts_at_index(s: Seq<u8>, q: int, e: Seq<u8>, i: int)
    requires
        starts_at(s, q, e),
        0 <= i < e.len(),
    ensures
        s[q + i] == e[i],
{
    assert(s.subrange(q, q + e.len())[i] == e[i]);
}

/// Lengths of the unsigned forms.
pub proof fn lemma_enc_u64_len(x: u64)
    ensures
        1 <= enc_u64(x).len() <= 9,
        enc_u64(x).len() == if x < 0x80 {
            1int
        } else if x < 0x100 {
            2
        } else if x < 0x10000 {
            3
        } else if x < 0x100000000 {
            5
        } else {
            9
        },
{
    broadcast use lemma_be_len;

}

/// Two unsigned encodings standing at the same place hold the same number.
pub proof fn lemma_enc_u64_prefix(s: Seq<u8>, q: int, a: u64, b: u64)
    requires
        starts_at(s, q, enc_u64(a)),
        starts_at(s, q, enc_u64(b)),
    ensures
        a == b,
{
    lemma_enc_u64_at(s, q, a);
    lemma_enc_u64_at(s, q, b);
}

/// Reads the minimal encoding of an unsigned 64-bit integer.
pub(crate) fn get_u64(buf: &Vec<u8>, pos: usize) -> (r: Option<(u64, usize)>)
    requires
        pos <= buf@.len(),
    ensures
        r matches Some(p) ==> starts_at(buf@, pos as int, enc_u64(p.0)) && p.1 == pos + enc_u64(
            p.0,
        ).len() && pos < p.1,
        r is None ==> forall|x: u64| !starts_at(buf@, pos as int, enc_u64(x)),
{
    if pos == buf.len() {
        proof {
            assert forall|x: u64| !starts_at(buf@, pos as int, enc_u64(x)) by {
                lemma_enc_u64_len(x);
            }
        }
        return None;
    }
    let b0 = buf[pos];
    if b0 < 0x80 {
        proof {
            assert(buf@.subrange(pos as int, pos + 1) =~= seq![b0]);
        }
        return Some((b0 as u64, pos + 1));
    }
    let w: usize;
    let min: u64;
    if b0 == 0xcc {
        w = 1;
        min = 0x80;
    } else if b0 == 0xcd {
        w = 2;
        min = 0x100;
    } else if b0 == 0xce {
        w = 4;
        min = 0x10000;
    } else if b0 == 0xcf {
        w = 8;
        min = 0x100000000;
    } else {
        proof {
            assert forall|x: u64| !starts_at(buf@, pos as int, enc_u64(x)) by {
                if starts_at(buf@, pos as int, enc_u64(x)) {
                    lemma_enc_u64_at(buf@, pos as int, x);
                }
            }
        }
        return None;
    }
    if buf.len() - pos < 1 + w {
        proof {
            assert forall|x: u64| !starts_at(buf@, pos as int, enc_u64(x)) by {
                if starts_at(buf@, pos as int, enc_u64(x)) {
                    lemma_enc_u64_at(buf@, pos as int, x);
                }
            }
        }
        return None;
    }
    let raw = read_be(buf, pos + 1, w);
    if raw < min {
        proof {
            assert forall|x: u64| !starts_at(buf@, pos as int, enc_u64(x)) by {
                if starts_at(buf@, pos as int, enc_u64(x)) {
                    lemma_enc_u64_at(buf@, pos as int, x);
                }
            }
        }
        return None;
    }
    proof {
        reveal_with_fuel(p256, 9);
        let sub = buf@.subrange(pos + 1, pos + 1 + w);
        lemma_be_of_be_val(sub);
        assert(be(raw as nat, w as nat) == sub);
        assert(starts_at(buf@, pos as int, seq![b0])) by {
            assert(buf@.subrange(pos as int, pos + 1) =~= seq![b0]);
        }
        lemma_starts_at_join(buf@, pos as int, seq![b0], be(raw as nat, w as nat));
        assert(enc_u64(raw) == seq![b0] + be(raw as nat, w as nat));
        lemma_enc_u64_len(raw);
    }
    Some((raw, pos + 1 + w))
}

/// What a signed encoding standing at `q` forces on the bytes there.
pub proof fn lemma_enc_i64_at(s: Seq<u8>, q: int, x: i64)
    requires
        starts_at(s, q, enc_i64(x)),
    ensures
        0 <= q < s.len(),
        x >= 0 ==> starts_at(s, q, enc_u64(x as u64)),
        -32 <= x < 0 ==> s[q] == x + 0x100,
        -0x80 <= x < -32 ==> s[q] == 0xd0 && q + 2 <= s.len() && be_val(
            s.subrange(q + 1, q + 2),
        ) == x + 0x100,
        -0x8000 <= x < -0x80 ==> s[q] == 0xd1 && q + 3 <= s.len() && be_val(
            s.subrange(q + 1, q + 3),
        ) == x + 0x10000,
        -0x80000000 <= x < -0x8000 ==> s[q] == 0xd2 && q + 5 <= s.len() && be_val(
            s.subrange(q + 1, q + 5),
        ) == x + 0x100000000,
        x < -0x80000000 ==> s[q] == 0xd3 && q + 9 <= s.len() && be_val(s.subrange(q + 1, q + 9))
            == x + 0x10000000000000000,
{
    broadcast use lemma_be_len;

    reveal_with_fuel(p256, 9);
    lemma_starts_at_index(s, q, enc_i64(x), 0);
    if x >= 0 {
    } else if x >= -32 {
    } else {
        let v: nat = if x >= -0x80 {
            (x + 0x100) as nat
        } else if x >= -0x8000 {
            (x + 0x10000) as nat
        } else if x >= -0x80000000 {
            (x + 0x100000000) as nat
        } else {
            (x + 0x10000000000000000) as nat
        };
        let w: nat = if x >= -0x80 {
            1
        } else if x >= -0x8000 {
            2
        } else if x >= -0x80000000 {
            4
        } else {
            8
        };
        let tag = enc_i64(x)[0];
        lemma_starts_at_split(s, q, seq![tag], be(v, w));
        assert(s.subrange(q + 1, q + 1 + w) == be(v, w));
        lemma_be_val_of_be(v, w);
    }
}

/// Lengths of the signed forms.
pub proof fn lemma_enc_i64_len(x: i64)
    ensures
        1 <= enc_i64(x).len() <= 9,
        x >= 0 ==> enc_i64(x) == enc_u64(x as u64),
        -32 <= x < 0 ==> enc_i64(x).len() == 1,
        -0x80 <= x < -32 ==> enc_i64(x).len() == 2,
        -0x8000 <= x < -0x80 ==> enc_i64(x).len() == 3,
        -0x80000000 <= x < -0x8000 ==> enc_i64(x).len() == 5,
        x < -0x80000000 ==> enc_i64(x).len() == 9,
{
    broadcast use lemma_be_len;

    if x >= 0 {
        lemma_enc_u64_len(x as u64);
    }
}

/// Two signed encodings standing at the same place hold the same number.
pub proof fn lemma_enc_i64_prefix(s: Seq<u8>, q: int, a: i64, b: i64)
    requires
        starts_at(s, q, enc_i64(a)),
        starts_at(s, q, enc_i64(b)),
    ensures
        a == b,
{
    lemma_enc_i64_at(s, q, a);
    lemma_enc_i64_at(s, q, b);
    if a >= 0 && b >= 0 {
        lemma_enc_u64_prefix(s, q, a as u64, b as u64);
    } else if a >= 0 {
        lemma_enc_u64_at(s, q, a as u64);
    } else if b >= 0 {
        lemma_enc_u64_at(s, q, b as u64);
    }
}

/// Reads the minimal encoding of a signed 64-bit integer.
pub(crate) fn get_i64(buf: &Vec<u8>, pos: usize) -> (r: Option<(i64, usize)>)
    requires
        pos <= buf@.len(),
    ensures
        r matches Some(p) ==> starts_at(buf@, pos as int, enc_i64(p.0)) && p.1 == pos + enc_i64(
            p.0,
        ).len() && pos < p.1,
        r is None ==> forall|x: i64| !starts_at(buf@, pos as int, enc_i64(x)),
{
    if pos == buf.len() {
        proof {
            assert forall|x: i64| !starts_at(buf@, pos as int, enc_i64(x)) by {
                lemma_enc_i64_len(x);
                lemma_enc_u64_len(0);
                if x >= 0 {
                    lemma_enc_u64_len(x as u64);
                }
            }
        }
        return None;
    }
    let b0 = buf[pos];
    if b0 < 0x80 || b0 == 0xcc || b0 == 0xcd || b0 == 0xce || b0 == 0xcf {
        match get_u64(buf, pos) {
            None => {
                proof {
                    assert forall|x: i64| !starts_at(buf@, pos as int, enc_i64(x)) by {
                        if starts_at(buf@, pos as int, enc_i64(x)) {
                            lemma_enc_i64_at(buf@, pos as int, x);
                        }
                    }
                }
                None
            },
            Some((v, end)) => {
                if v > 0x7fffffffffffffff {
                    proof {
                        assert forall|x: i64| !starts_at(buf@, pos as int, enc_i64(x)) by {
                            if starts_at(buf@, pos as int, enc_i64(x)) {
                                lemma_enc_i64_at(buf@, pos as int, x);
                                if x >= 0 {
                                    lemma_enc_u64_prefix(buf@, pos as int, x as u64, v);
                                }
                            }
                        }
                    }
                    None
                } else {
                    proof {
                        assert(enc_i64(v as i64) == enc_u64(v));
                    }
                    Some((v as i64, end))
                }
            },
        }
    } else if b0 >= 0xe0 {
        let x: i64 = (b0 as i64) - 0x100;
        proof {
            assert(enc_i64(x) =~= seq![b0]);
            assert(buf@.subrange(pos as int, pos + 1) =~= seq![b0]);
        }
        Some((x, pos + 1))
    } else if b0 == 0xd0 || b0 == 0xd1 || b0 == 0xd2 || b0 == 0xd3 {
        let w: usize;
        let lo: u64;
        let hi: u64;
        if b0 == 0xd0 {
            w = 1;
            lo = 0x80;
            hi = 0xe0;
        } else if b0 == 0xd1 {
            w = 2;
            lo = 0x8000;
            hi = 0xff80;
        } else if b0 == 0xd2 {
            w = 4;
            lo = 0x80000000;
            hi = 0xffff8000;
        } else {
            w = 8;
            lo = 0x8000000000000000;
            hi = 0xffffffff80000000;
        }
        if buf.len() - pos < 1 + w {
            proof {
                assert forall|x: i64| !starts_at(buf@, pos as int, enc_i64(x)) by {
                    if starts_at(buf@, pos as int, enc_i64(x)) {
                        lemma_enc_i64_at(buf@, pos as int, x);
                        if x >= 0 {
                            lemma_enc_u64_at(buf@, pos as int, x as u64);
                        }
                    }
                }
            }
            return None;
        }
        let raw = read_be(buf, pos + 1, w);
        if raw < lo || raw >= hi {
            proof {
                assert forall|x: i64| !starts_at(buf@, pos as int, enc_i64(x)) by {
                    if starts_at(buf@, pos as int, enc_i64(x)) {
                        lemma_enc_i64_at(buf@, pos as int, x);
                        if x >= 0 {
                            lemma_enc_u64_at(buf@, pos as int, x as u64);
                        }
                    }
                }
            }
            return None;
        }
        let x: i64 = if b0 == 0xd3 {
            (((raw as i128) - 0x10000000000000000) as i64)
        } else {
            (raw as i64) - (if b0 == 0xd0 {
                0x100
            } else if b0 == 0xd1 {
                0x10000
            } else {
                0x100000000
            })
        };
        proof {
            reveal_with_fuel(p256, 9);
            let sub = buf@.subrange(pos + 1, pos + 1 + w);
            lemma_be_of_be_val(sub);
            assert(be(raw as nat, w as nat) == sub);
            assert(starts_at(buf@, pos as int, seq![b0])) by {
                assert(buf@.subrange(pos as int, pos + 1) =~= seq![b0]);
            }
            lemma_starts_at_join(buf@, pos as int, seq![b0], be(raw as nat, w as nat));
            assert(enc_i64(x) == seq![b0] + be(raw as nat, w as nat));
            lemma_enc_i64_len(x);
        }
        Some((x, pos + 1 + w))
    } else {
        proof {
            assert forall|x: i64| !starts_at(buf@, pos as int, enc_i64(x)) by {
                if starts_at(buf@, pos as int, enc_i64(x)) {
                    lemma_enc_i64_at(buf@, pos as int, x);
                    if x >= 0 {
                        lemma_enc_u64_at(buf@, pos as int, x as u64);
                    }
                }
            }
        }
        None
    }
}

/// Reads the encoding of a boolean.
pub(crate) fn get_bool(buf: &Vec<u8>, pos: usize) -> (r: Option<(bool, usize)>)
    requires
        pos <= buf@.len(),
    ensures
        r matches Some(p) ==> starts_at(buf@, pos as int, enc_bool(p.0)) && p.1 == pos + 1,
        r is None ==> forall|b: bool| !starts_at(buf@, pos as int, enc_bool(b)),
{
    if pos == buf.len() {
        return None;
    }
    let b0 = buf[pos];
    if b0 == 0xc2 || b0 == 0xc3 {
        proof {
            assert(buf@.subrange(pos as int, pos + 1) =~= seq![b0]);
        }
        Some((b0 == 0xc3, pos + 1))
    } else {
        proof {
            assert forall|b: bool| !starts_at(buf@, pos as int, enc_bool(b)) by {
                if starts_at(buf@, pos as int, enc_bool(b)) {
                    lemma_starts_at_index(buf@, pos as int, enc_bool(b), 0);
                }
            }
        }
        None
    }
}

} // verus!

verus! {

use vstd::string::StringSliceAdditionalSpecFns;
use vstd::string::StrSliceExecFns;

/// What a string header standing at `q` forces on the bytes there.
pub proof fn lemma_strhdr_at(s: Seq<u8>, q: int, n: nat)
    requires
        starts_at(s, q, strhdr(n)),
        n < 0x100000000,
    ensures
        0 <= q < s.len(),
        n < 32 ==> s[q] == 0xa0 + n,
        32 <= n < 0x100 ==> s[q] == 0xd9 && q + 2 <= s.len() && be_val(s.subrange(q + 1, q + 2))
            == n,
        0x100 <= n < 0x10000 ==> s[q] == 0xda && q + 3 <= s.len() && be_val(
            s.subrange(q + 1, q + 3),
        ) == n,
        0x10000 <= n ==> s[q] == 0xdb && q + 5 <= s.len() && be_val(s.subrange(q + 1, q + 5)) == n,
{
    broadcast use lemma_be_len;

    reveal_with_fuel(p256, 9);
    lemma_starts_at_index(s, q, strhdr(n), 0);
    if n < 32 {
    } else {
        let w: nat = if n < 0x100 {
            1
        } else if n < 0x10000 {
            2
        } else {
            4
        };
        let tag = strhdr(n)[0];
        lemma_starts_at_split(s, q, seq![tag], be(n, w));
        assert(s.subrange(q + 1, q + 1 + w) == be(n, w));
        lemma_be_val_of_be(n, w);
    }
}

/// Lengths of the string headers.
pub proof fn lemma_strhdr_len(n: nat)
    ensures
        1 <= strhdr(n).len() <= 5,
        n < 32 ==> strhdr(n).len() == 1,
        32 <= n < 0x100 ==> strhdr(n).len() == 2,
        0x100 <= n < 0x10000 ==> strhdr(n).len() == 3,
        0x10000 <= n ==> strhdr(n).len() == 5,
{
    broadcast use lemma_be_len;

}

/// Two string headers standing at the same place announce the same length.
pub proof fn lemma_strhdr_prefix(s: Seq<u8>, q: int, a: nat, b: nat)
    requires
        starts_at(s, q, strhdr(a)),
        starts_at(s, q, strhdr(b)),
        a < 0x100000000,
        b < 0x100000000,
    ensures
        a == b,
{
    lemma_strhdr_at(s, q, a);
    lemma_strhdr_at(s, q, b);
}

/// Reads a string header.
pub(crate) fn get_strhdr(buf: &Vec<u8>, pos: usize) -> (r: Option<(u64, usize)>)
    requires
        pos <= buf@.len(),
    ensures
        r matches Some(p) ==> p.0 < 0x100000000 && starts_at(buf@, pos as int, strhdr(p.0 as nat))
            && p.1 == pos + strhdr(p.0 as nat).len() && pos < p.1,
        r is None ==> forall|n: nat| n < 0x100000000 ==> !starts_at(buf@, pos as int, strhdr(n)),
{
    if pos == buf.len() {
        proof {
            assert forall|n: nat| n < 0x100000000 implies !starts_at(
                buf@,
                pos as int,
                strhdr(n),
            ) by {
                lemma_strhdr_len(n);
            }
        }
        return None;
    }
    let b0 = buf[pos];
    if 0xa0 <= b0 && b0 < 0xc0 {
        let n: u64 = (b0 - 0xa0) as u64;
        proof {
            assert(strhdr(n as nat) =~= seq![b0]);
            assert(buf@.subrange(pos as int, pos + 1) =~= seq![b0]);
            lemma_strhdr_len(n as nat);
        }
        return Some((n, pos + 1));
    }
    let w: usize;
    let min: u64;
    if b0 == 0xd9 {
        w = 1;
        min = 32;
    } else if b0 == 0xda {
        w = 2;
        min = 0x100;
    } else if b0 == 0xdb {
        w = 4;
        min = 0x10000;
    } else {
        proof {
            assert forall|n: nat| n < 0x100000000 implies !starts_at(
                buf@,
                pos as int,
                strhdr(n),
            ) by {
                if starts_at(buf@, pos as int, strhdr(n)) {
                    lemma_strhdr_at(buf@, pos as int, n);
                }
            }
        }
        return None;
    }
    if buf.len() - pos < 1 + w {
        proof {
            assert forall|n: nat| n < 0x100000000 implies !starts_at(
                buf@,
                pos as int,
                strhdr(n),
            ) by {
                if starts_at(buf@, pos as int, strhdr(n)) {
                    lemma_strhdr_at(buf@, pos as int, n);
                }
            }
        }
        return None;
    }
    let raw = read_be(buf, pos + 1, w);
    if raw < min {
        proof {
            assert forall|n: nat| n < 0x100000000 implies !starts_at(
                buf@,
                pos as int,
                strhdr(n),
            ) by {
                if starts_at(buf@, pos as int, strhdr(n)) {
                    lemma_strhdr_at(buf@, pos as int, n);
                }
            }
        }
        return None;
    }
    proof {
        reveal_with_fuel(p256, 9);
        let sub = buf@.subrange(pos + 1, pos + 1 + w);
        lemma_be_of_be_val(sub);
        assert(be(raw as nat, w as nat) == sub);
        assert(starts_at(buf@, pos as int, seq![b0])) by {
            assert(buf@.subrange(pos as int, pos + 1) =~= seq![b0]);
        }
        lemma_starts_at_join(buf@, pos as int, seq![b0], be(raw as nat, w as nat));
        assert(strhdr(raw as nat) == seq![b0] + be(raw as nat, w as nat));
        lemma_strhdr_len(raw as nat);
        lemma_p256_mono(w as nat, 4);
    }
    Some((raw, pos + 1 + w))
}

/// What an array header standing at `q` forces on the bytes there.
pub proof fn lemma_arrhdr_at(s: Seq<u8>, q: int, n: nat)
    requires
        starts_at(s, q, arrhdr(n)),
        n < 0x100000000,
    ensures
        0 <= q < s.len(),
        n < 16 ==> s[q] == 0x90 + n,
        16 <= n < 0x10000 ==> s[q] == 0xdc && q + 3 <= s.len() && be_val(s.subrange(q + 1, q + 3))
            == n,
        0x10000 <= n ==> s[q] == 0xdd && q + 5 <= s.len() && be_val(s.subrange(q + 1, q + 5)) == n,
{
    broadcast use lemma_be_len;

    reveal_with_fuel(p256, 9);
    lemma_starts_at_index(s, q, arrhdr(n), 0);
    if n < 16 {
    } else {
        let w: nat = if n < 0x10000 {
            2
        } else {
            4
        };
        let tag = arrhdr(n)[0];
        lemma_starts_at_split(s, q, seq![tag], be(n, w));
        assert(s.subrange(q + 1, q + 1 + w) == be(n, w));
        lemma_be_val_of_be(n, w);
    }
}

/// Lengths of the array headers.
pub proof fn lemma_arrhdr_len(n: nat)
    ensures
        1 <= arrhdr(n).len() <= 5,
        n < 16 ==> arrhdr(n).len() == 1,
        16 <= n < 0x10000 ==> arrhdr(n).len() == 3,
        0x10000 <= n ==> arrhdr(n).len() == 5,
{
    broadcast use lemma_be_len;

}

/// Reads an array header.
pub(crate) fn get_arrhdr(buf: &Vec<u8>, pos: usize) -> (r: Option<(u64, usize)>)
    requires
        pos <= buf@.len(),
    ensures
        r matches Some(p) ==> p.0 < 0x100000000 && starts_at(buf@, pos as int, arrhdr(p.0 as nat))
            && p.1 == pos + arrhdr(p.0 as nat).len() && pos < p.1,
        r is None ==> forall|n: nat| n < 0x100000000 ==> !starts_at(buf@, pos as int, arrhdr(n)),
{
    if pos == buf.len() {
        proof {
            assert forall|n: nat| n < 0x100000000 implies !starts_at(
                buf@,
                pos as int,
                arrhdr(n),
            ) by {
                lemma_arrhdr_len(n);
            }
        }
        return None;
    }
    let b0 = buf[pos];
    if 0x90 <= b0 && b0 < 0xa0 {
        let n: u64 = (b0 - 0x90) as u64;
        proof {
            assert(arrhdr(n as nat) =~= seq![b0]);
            assert(buf@.subrange(pos as int, pos + 1) =~= seq![b0]);
            lemma_arrhdr_len(n as nat);
        }
        return Some((n, pos + 1));
    }
    let w: usize;
    let min: u64;
    if b0 == 0xdc {
        w = 2;
        min = 16;
    } else if b0 == 0xdd {
        w = 4;
        min = 0x10000;
    } else {
        proof {
            assert forall|n: nat| n < 0x100000000 implies !starts_at(
                buf@,
                pos as int,
                arrhdr(n),
            ) by {
                if starts_at(buf@, pos as int, arrhdr(n)) {
                    lemma_arrhdr_at(buf@, pos as int, n);
                }
            }
        }
        return None;
    }
    if buf.len() - pos < 1 + w {
        proof {
            assert forall|n: nat| n < 0x100000000 implies !starts_at(
                buf@,
                pos as int,
                arrhdr(n),
            ) by {
                if starts_at(buf@, pos as int, arrhdr(n)) {
                    lemma_arrhdr_at(buf@, pos as int, n);
                }
            }
        }
        return None;
    }
    let raw = read_be(buf, pos + 1, w);
    if raw < min {
        proof {
            assert forall|n: nat| n < 0x100000000 implies !starts_at(
                buf@,
                pos as int,
                arrhdr(n),
            ) by {
                if starts_at(buf@, pos as int, arrhdr(n)) {
                    lemma_arrhdr_at(buf@, pos as int, n);
                }
            }
        }
        return None;
    }
    proof {
        reveal_with_fuel(p256, 9);
        let sub = buf@.subrange(pos + 1, pos + 1 + w);
        lemma_be_of_be_val(sub);
        assert(be(raw as nat, w as nat) == sub);
        assert(starts_at(buf@, pos as int, seq![b0])) by {
            assert(buf@.subrange(pos as int, pos + 1) =~= seq![b0]);
        }
        lemma_starts_at_join(buf@, pos as int, seq![b0], be(raw as nat, w as nat));
        assert(arrhdr(raw as nat) == seq![b0] + be(raw as nat, w as nat));
        lemma_arrhdr_len(raw as nat);
        lemma_p256_mono(w as nat, 4);
    }
    Some((raw, pos + 1 + w))
}

/// What a map header standing at `q` forces on the bytes there.
pub proof fn lemma_maphdr_at(s: Seq<u8>, q: int, n: nat)
    requires
        starts_at(s, q, maphdr(n)),
        n < 0x100000000,
    ensures
        0 <= q < s.len(),
        n < 16 ==> s[q] == 0x80 + n,
        16 <= n < 0x10000 ==> s[q] == 0xde && q + 3 <= s.len() && be_val(s.subrange(q + 1, q + 3))
            == n,
        0x10000 <= n ==> s[q] == 0xdf && q + 5 <= s.len() && be_val(s.subrange(q + 1, q + 5)) == n,
{
    broadcast use lemma_be_len;

    reveal_with_fuel(p256, 9);
    lemma_starts_at_index(s, q, maphdr(n), 0);
    if n < 16 {
    } else {
        let w: nat = if n < 0x10000 {
            2
        } else {
            4
        };
        let tag = maphdr(n)[0];
        lemma_starts_at_split(s, q, seq![tag], be(n, w));
        assert(s.subrange(q + 1, q + 1 + w) == be(n, w));
        lemma_be_val_of_be(n, w);
    }
}

/// Lengths of the map headers.
pub proof fn lemma_maphdr_len(n: nat)
    ensures
        1 <= maphdr(n).len() <= 5,
        n < 16 ==> maphdr(n).len() == 1,
        16 <= n < 0x10000 ==> maphdr(n).len() == 3,
        0x10000 <= n ==> maphdr(n).len() == 5,
{
    broadcast use lemma_be_len;

}

/// Reads a map header.
pub(crate) fn get_maphdr(buf: &Vec<u8>, pos: usize) -> (r: Option<(u64, usize)>)
    requires
        pos <= buf@.len(),
    ensures
        r matches Some(p) ==> p.0 < 0x100000000 && starts_at(buf@, pos as int, maphdr(p.0 as nat))
            && p.1 == pos + maphdr(p.0 as nat).len() && pos < p.1,
        r is None ==> forall|n: nat| n < 0x100000000 ==> !starts_at(buf@, pos as int, maphdr(n)),
{
    if pos == buf.len() {
        proof {
            assert forall|n: nat| n < 0x100000000 implies !starts_at(
                buf@,
                pos as int,
                maphdr(n),
            ) by {
                lemma_maphdr_len(n);
            }
        }
        return None;
    }
    let b0 = buf[pos];
    if 0x80 <= b0 && b0 < 0x90 {
        let n: u64 = (b0 - 0x80) as u64;
        proof {
            assert(maphdr(n as nat) =~= seq![b0]);
            assert(buf@.subrange(pos as int, pos + 1) =~= seq![b0]);
            lemma_maphdr_len(n as nat);
        }
        return Some((n, pos + 1));
    }
    let w: usize;
    let min: u64;
    if b0 == 0xde {
        w = 2;
        min = 16;
    } else if b0 == 0xdf {
        w = 4;
        min = 0x10000;
    } else {
        proof {
            assert forall|n: nat| n < 0x100000000 implies !starts_at(
                buf@,
                pos as int,
                maphdr(n),
            ) by {
                if starts_at(buf@, pos as int, maphdr(n)) {
                    lemma_maphdr_at(buf@, pos as int, n);
                }
            }
        }
        return None;
    }
    if buf.len() - pos < 1 + w {
        proof {
            assert forall|n: nat| n < 0x100000000 implies !starts_at(
                buf@,
                pos as int,
                maphdr(n),
            ) by {
                if starts_at(buf@, pos as int, maphdr(n)) {
                    lemma_maphdr_at(buf@, pos as int, n);
                }
            }
        }
        return None;
    }
    let raw = read_be(buf, pos + 1, w);
    if raw < min {
        proof {
            assert forall|n: nat| n < 0x100000000 implies !starts_at(
                buf@,
                pos as int,
                maphdr(n),
            ) by {
                if starts_at(buf@, pos as int, maphdr(n)) {
                    lemma_maphdr_at(buf@, pos as int, n);
                }
            }
        }
        return None;
    }
    proof {
        reveal_with_fuel(p256, 9);
        let sub = buf@.subrange(pos + 1, pos + 1 + w);
        lemma_be_of_be_val(sub);
        assert(be(raw as nat, w as nat) == sub);
        assert(starts_at(buf@, pos as int, seq![b0])) by {
            assert(buf@.subrange(pos as int, pos + 1) =~= seq![b0]);
        }
        lemma_starts_at_join(buf@, pos as int, seq![b0], be(raw as nat, w as nat));
        assert(maphdr(raw as nat) == seq![b0] + be(raw as nat, w as nat));
        lemma_maphdr_len(raw as nat);
        lemma_p256_mono(w as nat, 4);
    }
    Some((raw, pos + 1 + w))
}

/// Relies on String::from_utf8: it succeeds exactly on valid UTF-8 input,
/// and the resulting string's UTF-8 bytes are the input bytes.
#[verifier::external_body]
pub(crate) fn string_from_utf8(bytes: Vec<u8>) -> (r: Option<String>)
    ensures
        r matches Some(s) ==> encode_utf8(s@) == bytes@,
        valid_utf8(bytes@) ==> r is Some,
{
    String::from_utf8(bytes).ok()
}

/// Appends the encoding of a string: header, then UTF-8 bytes.
pub(crate) fn put_str(buf: &mut Vec<u8>, s: &str) -> (r: Result<(), Error>)
    ensures
        r matches Ok(u) ==> final(buf)@ == old(buf)@ + enc_str(s@) && encode_utf8(s@).len()
            < 0x100000000,
        r matches Err(e) ==> final(buf)@ == old(buf)@ && (e matches Error::MsgPackEncode(
            EncodeError::TooLong,
        )) && encode_utf8(s@).len() >= 0x100000000,
{
    let bytes: Vec<u8> = s.as_bytes_vec();
    let n: usize = bytes.len();
    if (n as u64) >= 0x100000000 {
        return Err(Error::MsgPackEncode(EncodeError::TooLong));
    }
    put_strhdr(buf, n as u64);
    let ghost mid = buf@;
    let mut i: usize = 0;
    while i < n
        invariant
            i <= n,
            n == bytes@.len(),
            buf@ == mid + bytes@.subrange(0, i as int),
        decreases n - i,
    {
        buf.push(bytes[i]);
        i = i + 1;
        proof {
            assert(buf@ =~= mid + bytes@.subrange(0, i as int));
        }
    }
    proof {
        assert(bytes@.subrange(0, n as int) =~= bytes@);
        assert(buf@ =~= old(buf)@ + enc_str(s@));
    }
    Ok(())
}

/// Two string encodings standing at the same place hold the same text.
pub proof fn lemma_enc_str_prefix(s: Seq<u8>, q: int, a: Seq<char>, b: Seq<char>)
    requires
        starts_at(s, q, enc_str(a)),
        starts_at(s, q, enc_str(b)),
        encode_utf8(a).len() < 0x100000000,
        encode_utf8(b).len() < 0x100000000,
    ensures
        a == b,
{
    let na = encode_utf8(a).len();
    let nb = encode_utf8(b).len();
    lemma_starts_at_split(s, q, strhdr(na), encode_utf8(a));
    lemma_starts_at_split(s, q, strhdr(nb), encode_utf8(b));
    lemma_strhdr_prefix(s, q, na, nb);
    lemma_strhdr_len(na);
    let h = strhdr(na).len();
    assert(encode_utf8(a) == s.subrange(q + h, q + h + na));
    assert(encode_utf8(b) == s.subrange(q + h, q + h + nb));
    encode_utf8_decode_utf8(a);
    encode_utf8_decode_utf8(b);
}

/// Reads the encoding of a string.
pub(crate) fn get_str(buf: &Vec<u8>, pos: usize) -> (r: Option<(String, usize)>)
    requires
        pos <= buf@.len(),
    ensures
        r matches Some(p) ==> encode_utf8(p.0@).len() < 0x100000000 && starts_at(
            buf@,
            pos as int,
            enc_str(p.0@),
        ) && p.1 == pos + enc_str(p.0@).len() && pos < p.1,
        r is None ==> forall|t: Seq<char>|
            encode_utf8(t).len() < 0x100000000 ==> !starts_at(buf@, pos as int, enc_str(t)),
{
    let hdr = get_strhdr(buf, pos);
    if hdr.is_none() {
        proof {
            assert forall|t: Seq<char>| encode_utf8(t).len() < 0x100000000 implies !starts_at(
                buf@,
                pos as int,
                enc_str(t),
            ) by {
                if starts_at(buf@, pos as int, enc_str(t)) {
                    lemma_starts_at_split(
                        buf@,
                        pos as int,
                        strhdr(encode_utf8(t).len()),
                        encode_utf8(t),
                    );
                }
            }
        }
        return None;
    }
    let (n64, p1) = hdr.unwrap();
    let n: usize = n64 as usize;
    if buf.len() - p1 < n {
        proof {
            assert forall|t: Seq<char>| encode_utf8(t).len() < 0x100000000 implies !starts_at(
                buf@,
                pos as int,
                enc_str(t),
            ) by {
                if starts_at(buf@, pos as int, enc_str(t)) {
                    lemma_starts_at_split(
                        buf@,
                        pos as int,
                        strhdr(encode_utf8(t).len()),
                        encode_utf8(t),
                    );
                    lemma_strhdr_prefix(buf@, pos as int, encode_utf8(t).len(), n64 as nat);
                    lemma_strhdr_len(n64 as nat);
                }
            }
        }
        return None;
    }
    let blen: usize = buf.len();
    let mut content: Vec<u8> = Vec::new();
    let mut i: usize = 0;
    while i < n
        invariant
            i <= n,
            p1 + n <= buf@.len(),
            blen == buf@.len(),
            content@ == buf@.subrange(p1 as int, p1 + i),
        decreases n - i,
    {
        content.push(buf[p1 + i]);
        i = i + 1;
        proof {
            assert(content@ =~= buf@.subrange(p1 as int, p1 + i));
        }
    }
    match string_from_utf8(content) {
        Some(out) => {
            proof {
                assert(encode_utf8(out@) == buf@.subrange(p1 as int, p1 + n));
                assert(starts_at(buf@, p1 as int, encode_utf8(out@)));
                lemma_starts_at_join(buf@, pos as int, strhdr(n as nat), encode_utf8(out@));
                lemma_strhdr_len(n as nat);
            }
            Some((out, p1 + n))
        },
        None => {
            proof {
                assert forall|t: Seq<char>| encode_utf8(t).len() < 0x100000000 implies !starts_at(
                    buf@,
                    pos as int,
                    enc_str(t),
                ) by {
                    if starts_at(buf@, pos as int, enc_str(t)) {
                        lemma_starts_at_split(
                            buf@,
                            pos as int,
                            strhdr(encode_utf8(t).len()),
                            encode_utf8(t),
                        );
                        lemma_strhdr_prefix(buf@, pos as int, encode_utf8(t).len(), n64 as nat);
                        lemma_strhdr_len(n64 as nat);
                        assert(encode_utf8(t) == buf@.subrange(p1 as int, p1 + n));
                        encode_utf8_valid_utf8(t);
                    }
                }
            }
            None
        },
    }
}

} // verus!

verus! {

/// Two array headers standing at the same place announce the same length.
pub proof fn lemma_arrhdr_prefix(s: Seq<u8>, q: int, a: nat, b: nat)
    requires
        starts_at(s, q, arrhdr(a)),
        starts_at(s, q, arrhdr(b)),
        a < 0x100000000,
        b < 0x100000000,
    ensures
        a == b,
{
    lemma_arrhdr_at(s, q, a);
    lemma_arrhdr_at(s, q, b);
}

/// Two map headers standing at the same place announce the same length.
pub proof fn lemma_maphdr_prefix(s: Seq<u8>, q: int, a: nat, b: nat)
    requires
        starts_at(s, q, maphdr(a)),
        starts_at(s, q, maphdr(b)),
        a < 0x100000000,
        b < 0x100000000,
    ensures
        a == b,
{
    lemma_maphdr_at(s, q, a);
    lemma_maphdr_at(s, q, b);
}

} // verus!
