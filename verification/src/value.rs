//! The open structured payload carried by a log entry: a tagged value
//! that is null, a boolean, an integer, text, a sequence, or a
//! string-keyed mapping ordered by insertion.

use vstd::prelude::*;
use vstd::utf8::encode_utf8;
use crate::log_error::{Error, EncodeError};
use crate::msgpack::{starts_at, enc_bool, enc_i64, enc_str, arrhdr, maphdr, put_bool, put_i64,
    put_str, put_arrhdr, put_maphdr, get_i64, get_str, get_arrhdr, get_maphdr,
    lemma_enc_i64_prefix, lemma_enc_str_prefix, lemma_enc_i64_len, lemma_enc_u64_len,
    lemma_strhdr_len, lemma_arrhdr_len, lemma_maphdr_len, lemma_starts_at_split,
    lemma_starts_at_join, lemma_starts_at_index};

verus! {

/// A dynamically shaped payload value.
#[derive(Debug, PartialEq)]
pub enum Value {
    Null,
    Bool(bool),
    Int(i64),
    Str(String),
    Arr(Vec<Value>),
    Obj(Vec<(String, Value)>),
}

/// The mathematical shape of a [`Value`]: text as character sequences,
/// sequences and mappings as `Seq`.
pub enum SpecVal {
    Null,
    Bool(bool),
    Int(i64),
    Str(Seq<char>),
    Arr(Seq<SpecVal>),
    Obj(Seq<(Seq<char>, SpecVal)>),
}

impl Value {
    /// The mathematical shape of this value.
    pub open spec fn deep(self) -> SpecVal
        decreases self, 2int, 0int,
    {
        match self {
            Value::Null => SpecVal::Null,
            Value::Bool(b) => SpecVal::Bool(b),
            Value::Int(x) => SpecVal::Int(x),
            Value::Str(s) => SpecVal::Str(s@),
            Value::Arr(vs) => {
                proof {
                    assert(decreases_to!(self => vs));
                    assert(decreases_to!(vs => vs@));
                }
                SpecVal::Arr(deep_seq_from(vs@, 0))
            },
            Value::Obj(fs) => {
                proof {
                    assert(decreases_to!(self => fs));
                    assert(decreases_to!(fs => fs@));
                }
                SpecVal::Obj(deep_fields_from(fs@, 0))
            },
        }
    }
}

/// The shapes of the values of `vs` from `i` on.
pub open spec fn deep_seq_from(vs: Seq<Value>, i: int) -> Seq<SpecVal>
    decreases vs, 1int, vs.len() - i + 3,
{
    if i < 0 || i >= vs.len() {
        Seq::empty()
    } else {
        seq![vs[i].deep()] + deep_seq_from(vs, i + 1)
    }
}

/// The shapes of the key-value pairs of `fs` from `i` on.
pub open spec fn deep_fields_from(fs: Seq<(String, Value)>, i: int) -> Seq<(Seq<char>, SpecVal)>
    decreases fs, 1int, fs.len() - i + 3,
{
    if i < 0 || i >= fs.len() {
        Seq::empty()
    } else {
        proof {
            assert(decreases_to!(fs => fs[i]));
            assert(decreases_to!(fs[i] => fs[i].1));
        }
        seq![(fs[i].0@, fs[i].1.deep())] + deep_fields_from(fs, i + 1)
    }
}

/// The encoding of one value.
pub open spec fn enc_val(v: SpecVal) -> Seq<u8>
    decreases v, 2int, 0int,
{
    match v {
        SpecVal::Null => seq![0xc0u8],
        SpecVal::Bool(b) => enc_bool(b),
        SpecVal::Int(x) => enc_i64(x),
        SpecVal::Str(s) => enc_str(s),
        SpecVal::Arr(vs) => arrhdr(vs.len()) + enc_vals(vs, 0),
        SpecVal::Obj(fs) => enc_obj(fs),
    }
}

/// The encodings of the elements of `vs` from `i` on, one after another.
pub open spec fn enc_vals(vs: Seq<SpecVal>, i: int) -> Seq<u8>
    decreases vs, 1int, vs.len() - i + 3,
{
    if i < 0 || i >= vs.len() {
        Seq::empty()
    } else {
        enc_val(vs[i]) + enc_vals(vs, i + 1)
    }
}

/// The encodings of the key-value pairs of `fs` from `i` on.
pub open spec fn enc_fields(fs: Seq<(Seq<char>, SpecVal)>, i: int) -> Seq<u8>
    decreases fs, 1int, fs.len() - i + 3,
{
    if i < 0 || i >= fs.len() {
        Seq::empty()
    } else {
        proof {
            assert(decreases_to!(fs => fs[i]));
            assert(decreases_to!(fs[i] => fs[i].1));
        }
        enc_str(fs[i].0) + enc_val(fs[i].1) + enc_fields(fs, i + 1)
    }
}

/// The encoding of a string-keyed mapping: its header, then its pairs.
pub open spec fn enc_obj(fs: Seq<(Seq<char>, SpecVal)>) -> Seq<u8>
    decreases fs, 2int, 0int,
{
    maphdr(fs.len()) + enc_fields(fs, 0)
}

/// Whether one value fits the format's 32-bit length fields.
pub open spec fn val_enc_ok(v: SpecVal) -> bool
    decreases v, 2int, 0int,
{
    match v {
        SpecVal::Null => true,
        SpecVal::Bool(b) => true,
        SpecVal::Int(x) => true,
        SpecVal::Str(s) => encode_utf8(s).len() < 0x100000000,
        SpecVal::Arr(vs) => vs.len() < 0x100000000 && vals_enc_ok(vs, 0),
        SpecVal::Obj(fs) => obj_enc_ok(fs),
    }
}

/// Whether the elements of `vs` from `i` on fit the format.
pub open spec fn vals_enc_ok(vs: Seq<SpecVal>, i: int) -> bool
    decreases vs, 1int, vs.len() - i + 3,
{
    if i < 0 || i >= vs.len() {
        true
    } else {
        val_enc_ok(vs[i]) && vals_enc_ok(vs, i + 1)
    }
}

/// Whether the pairs of `fs` from `i` on fit the format.
pub open spec fn fields_enc_ok(fs: Seq<(Seq<char>, SpecVal)>, i: int) -> bool
    decreases fs, 1int, fs.len() - i + 3,
{
    if i < 0 || i >= fs.len() {
        true
    } else {
        proof {
            assert(decreases_to!(fs => fs[i]));
            assert(decreases_to!(fs[i] => fs[i].1));
        }
        encode_utf8(fs[i].0).len() < 0x100000000 && val_enc_ok(fs[i].1) && fields_enc_ok(fs, i + 1)
    }
}

/// Whether a mapping fits the format.
pub open spec fn obj_enc_ok(fs: Seq<(Seq<char>, SpecVal)>) -> bool
    decreases fs, 2int, 0int,
{
    fs.len() < 0x100000000 && fields_enc_ok(fs, 0)
}

} // verus!

verus! {

use vstd::string::StrSliceExecFns;

/// Shape and length of the shapes of a value sequence.
pub proof fn lemma_deep_seq_from_props(vs: Seq<Value>, i: int)
    requires
        0 <= i <= vs.len(),
    ensures
        deep_seq_from(vs, i).len() == vs.len() - i,
        forall|j: int| i <= j < vs.len() ==> deep_seq_from(vs, i)[j - i] == vs[j].deep(),
    decreases vs.len() - i,
{
    if i < vs.len() {
        lemma_deep_seq_from_props(vs, i + 1);
    }
}

/// Shape and length of the shapes of a pair sequence.
pub proof fn lemma_deep_fields_from_props(fs: Seq<(String, Value)>, i: int)
    requires
        0 <= i <= fs.len(),
    ensures
        deep_fields_from(fs, i).len() == fs.len() - i,
        forall|j: int|
            i <= j < fs.len() ==> deep_fields_from(fs, i)[j - i] == (fs[j].0@, fs[j].1.deep()),
    decreases fs.len() - i,
{
    if i < fs.len() {
        lemma_deep_fields_from_props(fs, i + 1);
    }
}

/// The suffix fitness predicate says that each element fits.
pub proof fn lemma_vals_ok_iff(vs: Seq<SpecVal>, i: int)
    requires
        0 <= i <= vs.len(),
    ensures
        vals_enc_ok(vs, i) <==> (forall|j: int| i <= j < vs.len() ==> val_enc_ok(vs[j])),
    decreases vs.len() - i,
{
    if i < vs.len() {
        lemma_vals_ok_iff(vs, i + 1);
    }
}

/// The suffix fitness predicate says that each pair fits.
pub proof fn lemma_fields_ok_iff(fs: Seq<(Seq<char>, SpecVal)>, i: int)
    requires
        0 <= i <= fs.len(),
    ensures
        fields_enc_ok(fs, i) <==> (forall|j: int|
            i <= j < fs.len() ==> encode_utf8(fs[j].0).len() < 0x100000000 && val_enc_ok(fs[j].1)),
    decreases fs.len() - i,
{
    if i < fs.len() {
        lemma_fields_ok_iff(fs, i + 1);
    }
}

/// The encodings of the first `i` elements of `vs`, one after another.
pub open spec fn enc_vals_front(vs: Seq<SpecVal>, i: int) -> Seq<u8>
    decreases i,
{
    if i <= 0 {
        Seq::empty()
    } else {
        enc_vals_front(vs, i - 1) + enc_val(vs[i - 1])
    }
}

/// The encodings of the first `i` pairs of `fs`, one after another.
pub open spec fn enc_fields_front(fs: Seq<(Seq<char>, SpecVal)>, i: int) -> Seq<u8>
    decreases i,
{
    if i <= 0 {
        Seq::empty()
    } else {
        enc_fields_front(fs, i - 1) + enc_str(fs[i - 1].0) + enc_val(fs[i - 1].1)
    }
}

/// The first `i` encodings followed by the rest are all of them.
pub proof fn lemma_vals_front_concat(vs: Seq<SpecVal>, i: int)
    requires
        0 <= i <= vs.len(),
    ensures
        enc_vals_front(vs, i) + enc_vals(vs, i) == enc_vals(vs, 0),
    decreases i,
{
    if i == 0 {
        assert(enc_vals_front(vs, 0) + enc_vals(vs, 0) =~= enc_vals(vs, 0));
    } else {
        lemma_vals_front_concat(vs, i - 1);
        assert(enc_vals(vs, i - 1) == enc_val(vs[i - 1]) + enc_vals(vs, i));
        assert((enc_vals_front(vs, i - 1) + enc_val(vs[i - 1])) + enc_vals(vs, i) =~= enc_vals_front(
            vs,
            i - 1,
        ) + (enc_val(vs[i - 1]) + enc_vals(vs, i)));
    }
}

/// The first `i` pair encodings followed by the rest are all of them.
pub proof fn lemma_fields_front_concat(fs: Seq<(Seq<char>, SpecVal)>, i: int)
    requires
        0 <= i <= fs.len(),
    ensures
        enc_fields_front(fs, i) + enc_fields(fs, i) == enc_fields(fs, 0),
    decreases i,
{
    if i == 0 {
        assert(enc_fields_front(fs, 0) + enc_fields(fs, 0) =~= enc_fields(fs, 0));
    } else {
        lemma_fields_front_concat(fs, i - 1);
        assert(enc_fields(fs, i - 1) == enc_str(fs[i - 1].0) + enc_val(fs[i - 1].1) + enc_fields(
            fs,
            i,
        ));
        assert((enc_fields_front(fs, i - 1) + enc_str(fs[i - 1].0) + enc_val(fs[i - 1].1))
            + enc_fields(fs, i) =~= enc_fields_front(fs, i - 1) + (enc_str(fs[i - 1].0) + enc_val(
            fs[i - 1].1,
        ) + enc_fields(fs, i)));
    }
}

/// The first byte of a value's encoding names its variant.
pub proof fn lemma_enc_val_head(v: SpecVal)
    ensures
        enc_val(v).len() >= 1,
        (v is Null) <==> enc_val(v)[0] == 0xc0,
        (v is Bool) <==> (enc_val(v)[0] == 0xc2 || enc_val(v)[0] == 0xc3),
        (v is Int) <==> (enc_val(v)[0] < 0x80 || enc_val(v)[0] >= 0xe0 || (0xcc <= enc_val(v)[0]
            && enc_val(v)[0] <= 0xd3)),
        (v is Str) <==> ((0xa0 <= enc_val(v)[0] && enc_val(v)[0] < 0xc0) || (0xd9 <= enc_val(v)[0]
            && enc_val(v)[0] <= 0xdb)),
        (v is Arr) <==> ((0x90 <= enc_val(v)[0] && enc_val(v)[0] < 0xa0) || enc_val(v)[0] == 0xdc
            || enc_val(v)[0] == 0xdd),
        (v is Obj) <==> ((0x80 <= enc_val(v)[0] && enc_val(v)[0] < 0x90) || enc_val(v)[0] == 0xde
            || enc_val(v)[0] == 0xdf),
{
    match v {
        SpecVal::Null => {},
        SpecVal::Bool(b) => {},
        SpecVal::Int(x) => {
            lemma_enc_i64_len(x);
            if x >= 0 {
                lemma_enc_u64_len(x as u64);
            }
        },
        SpecVal::Str(s) => {
            lemma_strhdr_len(encode_utf8(s).len());
        },
        SpecVal::Arr(vs) => {
            lemma_arrhdr_len(vs.len());
        },
        SpecVal::Obj(fs) => {
            lemma_maphdr_len(fs.len());
        },
    }
}

/// Appends the encoding of one value, or reports that a length does not
/// fit the format's 32-bit fields.
#[verifier::loop_isolation(false)]
pub(crate) fn put_val(buf: &mut Vec<u8>, v: &Value) -> (r: Result<(), Error>)
    ensures
        r matches Ok(u) ==> final(buf)@ == old(buf)@ + enc_val(v.deep()) && val_enc_ok(v.deep()),
        r matches Err(e) ==> (e matches Error::MsgPackEncode(EncodeError::TooLong)) && !val_enc_ok(
            v.deep(),
        ),
    decreases *v,
{
    match v {
        Value::Null => {
            buf.push(0xc0);
            proof {
                assert(buf@ =~= old(buf)@ + enc_val(v.deep()));
            }
            Ok(())
        },
        Value::Bool(b) => {
            put_bool(buf, *b);
            Ok(())
        },
        Value::Int(x) => {
            put_i64(buf, *x);
            Ok(())
        },
        Value::Str(s) => {
            match put_str(buf, s.as_str()) {
                Ok(_) => Ok(()),
                Err(e) => Err(e),
            }
        },
        Value::Arr(vs) => {
            let ghost ds = deep_seq_from(vs@, 0);
            proof {
                lemma_deep_seq_from_props(vs@, 0);
            }
            let n = vs.len();
            if (n as u64) >= 0x100000000 {
                return Err(Error::MsgPackEncode(EncodeError::TooLong));
            }
            put_arrhdr(buf, n as u64);
            let ghost base = buf@;
            let mut i: usize = 0;
            while i < n
                invariant
                    i <= n,
                    n == vs@.len(),
                    ds == deep_seq_from(vs@, 0),
                    ds.len() == n,
                    forall|j: int| 0 <= j < n ==> ds[j] == vs@[j].deep(),
                    buf@ == base + enc_vals_front(ds, i as int),
                    forall|j: int| 0 <= j < i ==> val_enc_ok(ds[j]),
                    base == old(buf)@ + arrhdr(n as nat),
                decreases n - i,
            {
                proof {
                    assert(decreases_to!(*v => v->Arr_0));
                    assert(v->Arr_0 == *vs);
                    assert(decreases_to!(*vs => vs@));
                    assert(decreases_to!(vs@ => vs@[i as int]));
                }
                match put_val(buf, &vs[i]) {
                    Ok(_) => {},
                    Err(e) => {
                        proof {
                            lemma_vals_ok_iff(ds, 0);
                            assert(!val_enc_ok(ds[i as int]));
                            assert(v.deep() == SpecVal::Arr(ds));
                        }
                        return Err(e);
                    },
                }
                i = i + 1;
                proof {
                    assert(buf@ =~= base + (enc_vals_front(ds, i - 1) + enc_val(ds[i - 1])));
                }
            }
            proof {
                lemma_vals_front_concat(ds, n as int);
                assert(enc_vals_front(ds, n as int) + enc_vals(ds, n as int) =~= enc_vals_front(
                    ds,
                    n as int,
                ));
                lemma_vals_ok_iff(ds, 0);
                assert(v.deep() == SpecVal::Arr(ds));
                assert(buf@ =~= old(buf)@ + (arrhdr(n as nat) + enc_vals(ds, 0)));
            }
            Ok(())
        },
        Value::Obj(fs) => {
            let ghost ds = deep_fields_from(fs@, 0);
            proof {
                lemma_deep_fields_from_props(fs@, 0);
            }
            let n = fs.len();
            if (n as u64) >= 0x100000000 {
                return Err(Error::MsgPackEncode(EncodeError::TooLong));
            }
            put_maphdr(buf, n as u64);
            let ghost base = buf@;
            let mut i: usize = 0;
            while i < n
                invariant
                    i <= n,
                    n == fs@.len(),
                    ds == deep_fields_from(fs@, 0),
                    ds.len() == n,
                    forall|j: int| 0 <= j < n ==> ds[j] == (fs@[j].0@, fs@[j].1.deep()),
                    buf@ == base + enc_fields_front(ds, i as int),
                    forall|j: int|
                        0 <= j < i ==> encode_utf8(ds[j].0).len() < 0x100000000 && val_enc_ok(
                            ds[j].1,
                        ),
                    base == old(buf)@ + maphdr(n as nat),
                decreases n - i,
            {
                let pair = &fs[i];
                match put_str(buf, pair.0.as_str()) {
                    Ok(_) => {},
                    Err(e) => {
                        proof {
                            lemma_fields_ok_iff(ds, 0);
                            assert(!(encode_utf8(ds[i as int].0).len() < 0x100000000 && val_enc_ok(
                                ds[i as int].1,
                            )));
                            assert(v.deep() == SpecVal::Obj(ds));
                        }
                        return Err(e);
                    },
                }
                proof {
                    assert(decreases_to!(*v => v->Obj_0));
                    assert(v->Obj_0 == *fs);
                    assert(decreases_to!(*fs => fs@));
                    assert(decreases_to!(fs@ => fs@[i as int]));
                    assert(decreases_to!(fs@[i as int] => fs@[i as int].1));
                }
                match put_val(buf, &pair.1) {
                    Ok(_) => {},
                    Err(e) => {
                        proof {
                            lemma_fields_ok_iff(ds, 0);
                            assert(!(encode_utf8(ds[i as int].0).len() < 0x100000000 && val_enc_ok(
                                ds[i as int].1,
                            )));
                            assert(v.deep() == SpecVal::Obj(ds));
                        }
                        return Err(e);
                    },
                }
                i = i + 1;
                proof {
                    assert(buf@ =~= base + (enc_fields_front(ds, i - 1) + enc_str(ds[i - 1].0)
                        + enc_val(ds[i - 1].1)));
                }
            }
            proof {
                lemma_fields_front_concat(ds, n as int);
                assert(enc_fields_front(ds, n as int) + enc_fields(ds, n as int)
                    =~= enc_fields_front(ds, n as int));
                lemma_fields_ok_iff(ds, 0);
                assert(v.deep() == SpecVal::Obj(ds));
                assert(buf@ =~= old(buf)@ + (maphdr(n as nat) + enc_fields(ds, 0)));
            }
            Ok(())
        },
    }
}

} // verus!

verus! {

use crate::msgpack::{lemma_arrhdr_prefix, lemma_maphdr_prefix};

/// The shapes of a whole value sequence, elementwise.
pub proof fn lemma_deep_seq(vs: Seq<Value>)
    ensures
        deep_seq_from(vs, 0).len() == vs.len(),
        forall|j: int| 0 <= j < vs.len() ==> deep_seq_from(vs, 0)[j] == vs[j].deep(),
{
    lemma_deep_seq_from_props(vs, 0);
    assert forall|j: int| 0 <= j < vs.len() implies deep_seq_from(vs, 0)[j] == vs[j].deep() by {
        assert(deep_seq_from(vs, 0)[j - 0] == vs[j].deep());
    }
}

/// The shapes of a whole pair sequence, elementwise.
pub proof fn lemma_deep_fields(fs: Seq<(String, Value)>)
    ensures
        deep_fields_from(fs, 0).len() == fs.len(),
        forall|j: int|
            0 <= j < fs.len() ==> deep_fields_from(fs, 0)[j] == (fs[j].0@, fs[j].1.deep()),
{
    lemma_deep_fields_from_props(fs, 0);
    assert forall|j: int| 0 <= j < fs.len() implies deep_fields_from(fs, 0)[j] == (
    fs[j].0@,
    fs[j].1.deep(),
    ) by {
        assert(deep_fields_from(fs, 0)[j - 0] == (fs[j].0@, fs[j].1.deep()));
    }
}

/// A front encoding depends only on the elements before `i`.
pub proof fn lemma_vals_front_agree(a: Seq<SpecVal>, b: Seq<SpecVal>, i: int)
    requires
        forall|j: int| 0 <= j < i ==> a[j] == b[j],
    ensures
        enc_vals_front(a, i) == enc_vals_front(b, i),
    decreases i,
{
    if i > 0 {
        lemma_vals_front_agree(a, b, i - 1);
    }
}

/// A front encoding depends only on the pairs before `i`.
pub proof fn lemma_fields_front_agree(a: Seq<(Seq<char>, SpecVal)>, b: Seq<(Seq<char>, SpecVal)>, i: int)
    requires
        forall|j: int| 0 <= j < i ==> a[j] == b[j],
    ensures
        enc_fields_front(a, i) == enc_fields_front(b, i),
    decreases i,
{
    if i > 0 {
        lemma_fields_front_agree(a, b, i - 1);
    }
}

/// Two value encodings standing at the same place hold the same value.
pub proof fn lemma_enc_val_prefix(s: Seq<u8>, q: int, a: SpecVal, b: SpecVal)
    requires
        starts_at(s, q, enc_val(a)),
        starts_at(s, q, enc_val(b)),
        val_enc_ok(a),
        val_enc_ok(b),
    ensures
        a == b,
    decreases a, 2int, 0int,
{
    lemma_enc_val_head(a);
    lemma_enc_val_head(b);
    lemma_starts_at_index(s, q, enc_val(a), 0);
    lemma_starts_at_index(s, q, enc_val(b), 0);
    match a {
        SpecVal::Null => {
            assert(b is Null);
        },
        SpecVal::Bool(x) => {
            assert(b is Bool);
            let y = b->Bool_0;
            assert(enc_val(a)[0] == if x { 0xc3u8 } else { 0xc2u8 });
            assert(enc_val(b)[0] == if y { 0xc3u8 } else { 0xc2u8 });
        },
        SpecVal::Int(x) => {
            assert(b is Int);
            lemma_enc_i64_prefix(s, q, x, b->Int_0);
        },
        SpecVal::Str(x) => {
            assert(b is Str);
            lemma_enc_str_prefix(s, q, x, b->Str_0);
        },
        SpecVal::Arr(va) => {
            assert(b is Arr);
            let vb = b->Arr_0;
            assert(decreases_to!(a => a->Arr_0));
            lemma_starts_at_split(s, q, arrhdr(va.len()), enc_vals(va, 0));
            lemma_starts_at_split(s, q, arrhdr(vb.len()), enc_vals(vb, 0));
            lemma_arrhdr_prefix(s, q, va.len(), vb.len());
            lemma_arrhdr_len(va.len());
            lemma_enc_vals_prefix(s, q + arrhdr(va.len()).len(), va, vb, 0);
            assert(va =~= vb);
        },
        SpecVal::Obj(fa) => {
            assert(b is Obj);
            let fb = b->Obj_0;
            assert(decreases_to!(a => a->Obj_0));
            lemma_starts_at_split(s, q, maphdr(fa.len()), enc_fields(fa, 0));
            lemma_starts_at_split(s, q, maphdr(fb.len()), enc_fields(fb, 0));
            lemma_maphdr_prefix(s, q, fa.len(), fb.len());
            lemma_maphdr_len(fa.len());
            lemma_enc_fields_prefix(s, q + maphdr(fa.len()).len(), fa, fb, 0);
            assert(fa =~= fb);
        },
    }
}

/// Elementwise determinism of element-sequence encodings.
pub proof fn lemma_enc_vals_prefix(s: Seq<u8>, q: int, va: Seq<SpecVal>, vb: Seq<SpecVal>, i: int)
    requires
        0 <= i <= va.len(),
        va.len() == vb.len(),
        starts_at(s, q, enc_vals(va, i)),
        starts_at(s, q, enc_vals(vb, i)),
        vals_enc_ok(va, i),
        vals_enc_ok(vb, i),
    ensures
        forall|j: int| i <= j < va.len() ==> va[j] == vb[j],
    decreases va, 1int, va.len() - i + 3,
{
    if i < va.len() {
        assert(enc_vals(va, i) == enc_val(va[i]) + enc_vals(va, i + 1));
        assert(enc_vals(vb, i) == enc_val(vb[i]) + enc_vals(vb, i + 1));
        lemma_starts_at_split(s, q, enc_val(va[i]), enc_vals(va, i + 1));
        lemma_starts_at_split(s, q, enc_val(vb[i]), enc_vals(vb, i + 1));
        lemma_enc_val_prefix(s, q, va[i], vb[i]);
        lemma_enc_vals_prefix(s, q + enc_val(va[i]).len(), va, vb, i + 1);
    }
}

/// Elementwise determinism of pair-sequence encodings.
pub proof fn lemma_enc_fields_prefix(
    s: Seq<u8>,
    q: int,
    fa: Seq<(Seq<char>, SpecVal)>,
    fb: Seq<(Seq<char>, SpecVal)>,
    i: int,
)
    requires
        0 <= i <= fa.len(),
        fa.len() == fb.len(),
        starts_at(s, q, enc_fields(fa, i)),
        starts_at(s, q, enc_fields(fb, i)),
        fields_enc_ok(fa, i),
        fields_enc_ok(fb, i),
    ensures
        forall|j: int| i <= j < fa.len() ==> fa[j] == fb[j],
    decreases fa, 1int, fa.len() - i + 3,
{
    if i < fa.len() {
        assert(decreases_to!(fa => fa[i]));
        assert(decreases_to!(fa[i] => fa[i].1));
        assert(enc_fields(fa, i) == enc_str(fa[i].0) + enc_val(fa[i].1) + enc_fields(fa, i + 1));
        assert(enc_fields(fb, i) == enc_str(fb[i].0) + enc_val(fb[i].1) + enc_fields(fb, i + 1));
        assert(enc_str(fa[i].0) + enc_val(fa[i].1) + enc_fields(fa, i + 1) =~= enc_str(fa[i].0) + (
        enc_val(fa[i].1) + enc_fields(fa, i + 1)));
        assert(enc_str(fb[i].0) + enc_val(fb[i].1) + enc_fields(fb, i + 1) =~= enc_str(fb[i].0) + (
        enc_val(fb[i].1) + enc_fields(fb, i + 1)));
        lemma_starts_at_split(s, q, enc_str(fa[i].0), enc_val(fa[i].1) + enc_fields(fa, i + 1));
        lemma_starts_at_split(s, q, enc_str(fb[i].0), enc_val(fb[i].1) + enc_fields(fb, i + 1));
        lemma_enc_str_prefix(s, q, fa[i].0, fb[i].0);
        let q2 = q + enc_str(fa[i].0).len();
        lemma_starts_at_split(s, q2, enc_val(fa[i].1), enc_fields(fa, i + 1));
        lemma_starts_at_split(s, q2, enc_val(fb[i].1), enc_fields(fb, i + 1));
        lemma_enc_val_prefix(s, q2, fa[i].1, fb[i].1);
        lemma_enc_fields_prefix(s, q2 + enc_val(fa[i].1).len(), fa, fb, i + 1);
        assert(fa[i] == fb[i]);
    }
}

} // verus!

verus! {

/// Reads a string-keyed mapping: map header, then key-value pairs.
#[verifier::loop_isolation(false)]
#[verifier::rlimit(60)]
pub(crate) fn get_obj(buf: &Vec<u8>, pos: usize) -> (r: Option<(Vec<(String, Value)>, usize)>)
    requires
        pos <= buf@.len(),
    ensures
        r matches Some(p) ==> obj_enc_ok(deep_fields_from(p.0@, 0)) && starts_at(
            buf@,
            pos as int,
            enc_obj(deep_fields_from(p.0@, 0)),
        ) && p.1 == pos + enc_obj(deep_fields_from(p.0@, 0)).len() && pos < p.1,
        r is None ==> forall|gs: Seq<(Seq<char>, SpecVal)>|
            obj_enc_ok(gs) ==> !starts_at(buf@, pos as int, enc_obj(gs)),
    decreases buf@.len() - pos, 0int,
{
    let hdr = get_maphdr(buf, pos);
    if hdr.is_none() {
        proof {
            assert forall|gs: Seq<(Seq<char>, SpecVal)>| obj_enc_ok(gs) implies !starts_at(
                buf@,
                pos as int,
                enc_obj(gs),
            ) by {
                if starts_at(buf@, pos as int, enc_obj(gs)) {
                    lemma_starts_at_split(buf@, pos as int, maphdr(gs.len()), enc_fields(gs, 0));
                }
            }
        }
        return None;
    }
    let (n64, p1) = hdr.unwrap();
    let n: usize = n64 as usize;
    let mut out: Vec<(String, Value)> = Vec::new();
    let mut cur: usize = p1;
    let mut i: usize = 0;
    proof {
        lemma_deep_fields(out@);
        assert(enc_fields_front(deep_fields_from(out@, 0), 0) =~= Seq::<u8>::empty());
        assert(starts_at(buf@, p1 as int, Seq::<u8>::empty())) by {
            assert(buf@.subrange(p1 as int, p1 as int) =~= Seq::<u8>::empty());
        }
        assert forall|gs: Seq<(Seq<char>, SpecVal)>|
            obj_enc_ok(gs) && starts_at(buf@, pos as int, enc_obj(gs)) implies gs.len() == n
            && starts_at(buf@, p1 as int, enc_fields(gs, 0)) by {
            lemma_starts_at_split(buf@, pos as int, maphdr(gs.len()), enc_fields(gs, 0));
            lemma_maphdr_prefix(buf@, pos as int, gs.len(), n64 as nat);
        }
    }
    while i < n
        invariant
            i <= n,
            n == n64,
            n64 < 0x100000000,
            pos < p1 <= cur <= buf@.len(),
            starts_at(buf@, pos as int, maphdr(n as nat)),
            p1 == pos + maphdr(n as nat).len(),
            out@.len() == i,
            deep_fields_from(out@, 0).len() == i,
            starts_at(buf@, p1 as int, enc_fields_front(deep_fields_from(out@, 0), i as int)),
            cur == p1 + enc_fields_front(deep_fields_from(out@, 0), i as int).len(),
            forall|j: int|
                0 <= j < i ==> (encode_utf8(deep_fields_from(out@, 0)[j].0).len() < 0x100000000
                    && val_enc_ok(deep_fields_from(out@, 0)[j].1)),
            forall|gs: Seq<(Seq<char>, SpecVal)>|
                obj_enc_ok(gs) && starts_at(buf@, pos as int, enc_obj(gs)) ==> gs.len() == n && (
                forall|j: int| 0 <= j < i ==> gs[j] == deep_fields_from(out@, 0)[j]) && starts_at(
                    buf@,
                    cur as int,
                    enc_fields(gs, i as int),
                ),
        decreases n - i,
    {
        let ghost out_old = out@;
        let ghost ds_old = deep_fields_from(out@, 0);
        let kr = get_str(buf, cur);
        if kr.is_none() {
            proof {
                assert forall|gs: Seq<(Seq<char>, SpecVal)>| obj_enc_ok(gs) implies !starts_at(
                    buf@,
                    pos as int,
                    enc_obj(gs),
                ) by {
                    if starts_at(buf@, pos as int, enc_obj(gs)) {
                        lemma_fields_ok_iff(gs, 0);
                        assert(enc_fields(gs, i as int) == enc_str(gs[i as int].0) + enc_val(
                            gs[i as int].1,
                        ) + enc_fields(gs, i + 1));
                        assert(enc_str(gs[i as int].0) + enc_val(gs[i as int].1) + enc_fields(
                            gs,
                            i + 1,
                        ) =~= enc_str(gs[i as int].0) + (enc_val(gs[i as int].1) + enc_fields(
                            gs,
                            i + 1,
                        )));
                        lemma_starts_at_split(
                            buf@,
                            cur as int,
                            enc_str(gs[i as int].0),
                            enc_val(gs[i as int].1) + enc_fields(gs, i + 1),
                        );
                    }
                }
            }
            return None;
        }
        let (key, kend) = kr.unwrap();
        let vr = get_val(buf, kend);
        if vr.is_none() {
            proof {
                assert forall|gs: Seq<(Seq<char>, SpecVal)>| obj_enc_ok(gs) implies !starts_at(
                    buf@,
                    pos as int,
                    enc_obj(gs),
                ) by {
                    if starts_at(buf@, pos as int, enc_obj(gs)) {
                        lemma_fields_ok_iff(gs, 0);
                        assert(enc_fields(gs, i as int) == enc_str(gs[i as int].0) + enc_val(
                            gs[i as int].1,
                        ) + enc_fields(gs, i + 1));
                        assert(enc_str(gs[i as int].0) + enc_val(gs[i as int].1) + enc_fields(
                            gs,
                            i + 1,
                        ) =~= enc_str(gs[i as int].0) + (enc_val(gs[i as int].1) + enc_fields(
                            gs,
                            i + 1,
                        )));
                        lemma_starts_at_split(
                            buf@,
                            cur as int,
                            enc_str(gs[i as int].0),
                            enc_val(gs[i as int].1) + enc_fields(gs, i + 1),
                        );
                        lemma_enc_str_prefix(buf@, cur as int, gs[i as int].0, key@);
                        lemma_starts_at_split(
                            buf@,
                            kend as int,
                            enc_val(gs[i as int].1),
                            enc_fields(gs, i + 1),
                        );
                    }
                }
            }
            return None;
        }
        let (val, vend) = vr.unwrap();
        proof {
            assert forall|gs: Seq<(Seq<char>, SpecVal)>|
                obj_enc_ok(gs) && starts_at(buf@, pos as int, enc_obj(gs)) implies gs[i as int] == (
            key@, val.deep()) && starts_at(buf@, vend as int, enc_fields(gs, i + 1)) by {
                lemma_fields_ok_iff(gs, 0);
                assert(enc_fields(gs, i as int) == enc_str(gs[i as int].0) + enc_val(
                    gs[i as int].1,
                ) + enc_fields(gs, i + 1));
                assert(enc_str(gs[i as int].0) + enc_val(gs[i as int].1) + enc_fields(gs, i + 1)
                    =~= enc_str(gs[i as int].0) + (enc_val(gs[i as int].1) + enc_fields(gs, i + 1)));
                lemma_starts_at_split(
                    buf@,
                    cur as int,
                    enc_str(gs[i as int].0),
                    enc_val(gs[i as int].1) + enc_fields(gs, i + 1),
                );
                lemma_enc_str_prefix(buf@, cur as int, gs[i as int].0, key@);
                lemma_starts_at_split(
                    buf@,
                    kend as int,
                    enc_val(gs[i as int].1),
                    enc_fields(gs, i + 1),
                );
                lemma_enc_val_prefix(buf@, kend as int, gs[i as int].1, val.deep());
            }
        }
        let ghost keyv = key@;
        let ghost valv = val.deep();
        out.push((key, val));
        let ghost oldcur = cur;
        cur = vend;
        i = i + 1;
        proof {
            lemma_deep_fields(out@);
            lemma_deep_fields(out_old);
            let ds = deep_fields_from(out@, 0);
            assert(ds.len() == i);

            assert forall|j: int| 0 <= j < i - 1 implies ds[j] == ds_old[j] by {
                assert(out@[j] == out_old[j]);
            }
            assert(ds[i - 1] == (keyv, valv));
            lemma_fields_front_agree(ds, ds_old, i - 1);
            assert(enc_fields_front(ds, i as int) == enc_fields_front(ds, i - 1) + enc_str(
                ds[i - 1].0,
            ) + enc_val(ds[i - 1].1));
            lemma_starts_at_join(
                buf@,
                p1 as int,
                enc_fields_front(ds, i - 1),
                enc_str(keyv),
            );
            lemma_starts_at_join(
                buf@,
                p1 as int,
                enc_fields_front(ds, i - 1) + enc_str(keyv),
                enc_val(valv),
            );
            assert(enc_fields_front(ds, i - 1) + enc_str(keyv) + enc_val(valv) =~= enc_fields_front(
                ds,
                i as int,
            ));
        }
    }
    proof {
        let ds = deep_fields_from(out@, 0);
        lemma_fields_front_concat(ds, n as int);
        assert(enc_fields_front(ds, n as int) + enc_fields(ds, n as int) =~= enc_fields_front(
            ds,
            n as int,
        ));
        lemma_fields_ok_iff(ds, 0);
        lemma_starts_at_join(buf@, pos as int, maphdr(n as nat), enc_fields(ds, 0));
    }
    Some((out, cur))
}

/// Reads the encoding of one value.
#[verifier::loop_isolation(false)]
#[verifier::rlimit(60)]
pub(crate) fn get_val(buf: &Vec<u8>, pos: usize) -> (r: Option<(Value, usize)>)
    requires
        pos <= buf@.len(),
    ensures
        r matches Some(p) ==> val_enc_ok(p.0.deep()) && starts_at(
            buf@,
            pos as int,
            enc_val(p.0.deep()),
        ) && p.1 == pos + enc_val(p.0.deep()).len() && pos < p.1,
        r is None ==> forall|w: SpecVal|
            val_enc_ok(w) ==> !starts_at(buf@, pos as int, enc_val(w)),
    decreases buf@.len() - pos, 1int,
{
    if pos == buf.len() {
        proof {
            assert forall|w: SpecVal| val_enc_ok(w) implies !starts_at(
                buf@,
                pos as int,
                enc_val(w),
            ) by {
                lemma_enc_val_head(w);
            }
        }
        return None;
    }
    let b0 = buf[pos];
    if b0 == 0xc0 {
        proof {
            assert(buf@.subrange(pos as int, pos + 1) =~= seq![0xc0u8]);
        }
        return Some((Value::Null, pos + 1));
    }
    if b0 == 0xc2 || b0 == 0xc3 {
        proof {
            assert(buf@.subrange(pos as int, pos + 1) =~= seq![b0]);
        }
        return Some((Value::Bool(b0 == 0xc3), pos + 1));
    }
    if b0 < 0x80 || (0xcc <= b0 && b0 <= 0xd3) || b0 >= 0xe0 {
        match get_i64(buf, pos) {
            Some((x, end)) => {
                return Some((Value::Int(x), end));
            },
            None => {
                proof {
                    assert forall|w: SpecVal| val_enc_ok(w) implies !starts_at(
                        buf@,
                        pos as int,
                        enc_val(w),
                    ) by {
                        if starts_at(buf@, pos as int, enc_val(w)) {
                            lemma_enc_val_head(w);
                            lemma_starts_at_index(buf@, pos as int, enc_val(w), 0);
                            assert(w is Int);
                            assert(starts_at(buf@, pos as int, enc_i64(w->Int_0)));
                        }
                    }
                }
                return None;
            },
        }
    }
    if (0xa0 <= b0 && b0 < 0xc0) || (0xd9 <= b0 && b0 <= 0xdb) {
        match get_str(buf, pos) {
            Some((s, end)) => {
                return Some((Value::Str(s), end));
            },
            None => {
                proof {
                    assert forall|w: SpecVal| val_enc_ok(w) implies !starts_at(
                        buf@,
                        pos as int,
                        enc_val(w),
                    ) by {
                        if starts_at(buf@, pos as int, enc_val(w)) {
                            lemma_enc_val_head(w);
                            lemma_starts_at_index(buf@, pos as int, enc_val(w), 0);
                            assert(w is Str);
                            assert(encode_utf8(w->Str_0).len() < 0x100000000);
                            assert(starts_at(buf@, pos as int, enc_str(w->Str_0)));
                        }
                    }
                }
                return None;
            },
        }
    }
    if (0x80 <= b0 && b0 < 0x90) || b0 == 0xde || b0 == 0xdf {
        match get_obj(buf, pos) {
            Some((fs, end)) => {
                proof {
                    let v = Value::Obj(fs);
                    assert(v.deep() == SpecVal::Obj(deep_fields_from(fs@, 0)));
                }
                return Some((Value::Obj(fs), end));
            },
            None => {
                proof {
                    assert forall|w: SpecVal| val_enc_ok(w) implies !starts_at(
                        buf@,
                        pos as int,
                        enc_val(w),
                    ) by {
                        if starts_at(buf@, pos as int, enc_val(w)) {
                            lemma_enc_val_head(w);
                            lemma_starts_at_index(buf@, pos as int, enc_val(w), 0);
                            assert(w is Obj);
                            assert(obj_enc_ok(w->Obj_0));
                            assert(starts_at(buf@, pos as int, enc_obj(w->Obj_0)));
                        }
                    }
                }
                return None;
            },
        }
    }
    if (0x90 <= b0 && b0 < 0xa0) || b0 == 0xdc || b0 == 0xdd {
        let hdr = get_arrhdr(buf, pos);
        if hdr.is_none() {
            proof {
                assert forall|w: SpecVal| val_enc_ok(w) implies !starts_at(
                    buf@,
                    pos as int,
                    enc_val(w),
                ) by {
                    if starts_at(buf@, pos as int, enc_val(w)) {
                        lemma_enc_val_head(w);
                        lemma_starts_at_index(buf@, pos as int, enc_val(w), 0);
                        assert(w is Arr);
                        let ws = w->Arr_0;
                        lemma_starts_at_split(buf@, pos as int, arrhdr(ws.len()), enc_vals(ws, 0));
                    }
                }
            }
            return None;
        }
        let (n64, p1) = hdr.unwrap();
        let n: usize = n64 as usize;
        let mut out: Vec<Value> = Vec::new();
        let mut cur: usize = p1;
        let mut i: usize = 0;
        proof {
            lemma_deep_seq(out@);
            assert(enc_vals_front(deep_seq_from(out@, 0), 0) =~= Seq::<u8>::empty());
            assert(starts_at(buf@, p1 as int, Seq::<u8>::empty())) by {
                assert(buf@.subrange(p1 as int, p1 as int) =~= Seq::<u8>::empty());
            }
            assert forall|w: SpecVal|
                val_enc_ok(w) && starts_at(buf@, pos as int, enc_val(w)) implies w is Arr
                && w->Arr_0.len() == n && starts_at(buf@, p1 as int, enc_vals(w->Arr_0, 0)) by {
                lemma_enc_val_head(w);
                lemma_starts_at_index(buf@, pos as int, enc_val(w), 0);
                assert(w is Arr);
                let ws = w->Arr_0;
                lemma_starts_at_split(buf@, pos as int, arrhdr(ws.len()), enc_vals(ws, 0));
                lemma_arrhdr_prefix(buf@, pos as int, ws.len(), n64 as nat);
            }
        }
        while i < n
            invariant
                i <= n,
                n == n64,
                n64 < 0x100000000,
                pos < p1 <= cur <= buf@.len(),
                starts_at(buf@, pos as int, arrhdr(n as nat)),
                p1 == pos + arrhdr(n as nat).len(),
                out@.len() == i,
                deep_seq_from(out@, 0).len() == i,
                starts_at(buf@, p1 as int, enc_vals_front(deep_seq_from(out@, 0), i as int)),
                cur == p1 + enc_vals_front(deep_seq_from(out@, 0), i as int).len(),
                forall|j: int| 0 <= j < i ==> val_enc_ok(deep_seq_from(out@, 0)[j]),
                forall|w: SpecVal|
                    val_enc_ok(w) && starts_at(buf@, pos as int, enc_val(w)) ==> w is Arr
                        && w->Arr_0.len() == n && (forall|j: int|
                        0 <= j < i ==> w->Arr_0[j] == deep_seq_from(out@, 0)[j]) && starts_at(
                        buf@,
                        cur as int,
                        enc_vals(w->Arr_0, i as int),
                    ),
            decreases n - i,
        {
            let ghost out_old = out@;
            let ghost ds_old = deep_seq_from(out@, 0);
            let vr = get_val(buf, cur);
            if vr.is_none() {
                proof {
                    assert forall|w: SpecVal| val_enc_ok(w) implies !starts_at(
                        buf@,
                        pos as int,
                        enc_val(w),
                    ) by {
                        if starts_at(buf@, pos as int, enc_val(w)) {
                            let ws = w->Arr_0;
                            lemma_vals_ok_iff(ws, 0);
                            assert(enc_vals(ws, i as int) == enc_val(ws[i as int]) + enc_vals(
                                ws,
                                i + 1,
                            ));
                            lemma_starts_at_split(
                                buf@,
                                cur as int,
                                enc_val(ws[i as int]),
                                enc_vals(ws, i + 1),
                            );
                        }
                    }
                }
                return None;
            }
            let (val, vend) = vr.unwrap();
            proof {
                assert forall|w: SpecVal|
                    val_enc_ok(w) && starts_at(buf@, pos as int, enc_val(w)) implies w->Arr_0[i as int]
                    == val.deep() && starts_at(buf@, vend as int, enc_vals(w->Arr_0, i + 1)) by {
                    let ws = w->Arr_0;
                    lemma_vals_ok_iff(ws, 0);
                    assert(enc_vals(ws, i as int) == enc_val(ws[i as int]) + enc_vals(ws, i + 1));
                    lemma_starts_at_split(
                        buf@,
                        cur as int,
                        enc_val(ws[i as int]),
                        enc_vals(ws, i + 1),
                    );
                    lemma_enc_val_prefix(buf@, cur as int, ws[i as int], val.deep());
                }
            }
            let ghost valv = val.deep();
            out.push(val);
            cur = vend;
            i = i + 1;
            proof {
                lemma_deep_seq(out@);
                lemma_deep_seq(out_old);
                let ds = deep_seq_from(out@, 0);
                assert(ds.len() == i);
                assert(ds[i - 1] == valv);
                assert forall|j: int| 0 <= j < i - 1 implies ds[j] == ds_old[j] by {
                    assert(out@[j] == out_old[j]);
                }
                lemma_vals_front_agree(ds, ds_old, i - 1);
                assert(enc_vals_front(ds, i as int) == enc_vals_front(ds, i - 1) + enc_val(
                    ds[i - 1],
                ));
                lemma_starts_at_join(buf@, p1 as int, enc_vals_front(ds, i - 1), enc_val(valv));
            }
        }
        proof {
            let ds = deep_seq_from(out@, 0);
            lemma_vals_front_concat(ds, n as int);
            assert(enc_vals_front(ds, n as int) + enc_vals(ds, n as int) =~= enc_vals_front(
                ds,
                n as int,
            ));
            lemma_vals_ok_iff(ds, 0);
            lemma_starts_at_join(buf@, pos as int, arrhdr(n as nat), enc_vals(ds, 0));
            let v = Value::Arr(out);
            assert(v.deep() == SpecVal::Arr(ds));
        }
        return Some((Value::Arr(out), cur));
    }
    proof {
        assert forall|w: SpecVal| val_enc_ok(w) implies !starts_at(buf@, pos as int, enc_val(w)) by {
            if starts_at(buf@, pos as int, enc_val(w)) {
                lemma_enc_val_head(w);
                lemma_starts_at_index(buf@, pos as int, enc_val(w), 0);
            }
        }
    }
    None
}

} // verus!

verus! {

/// Two mapping encodings standing at the same place hold the same pairs.
pub proof fn lemma_enc_obj_prefix(
    s: Seq<u8>,
    q: int,
    a: Seq<(Seq<char>, SpecVal)>,
    b: Seq<(Seq<char>, SpecVal)>,
)
    requires
        starts_at(s, q, enc_obj(a)),
        starts_at(s, q, enc_obj(b)),
        obj_enc_ok(a),
        obj_enc_ok(b),
    ensures
        a == b,
{
    lemma_starts_at_split(s, q, maphdr(a.len()), enc_fields(a, 0));
    lemma_starts_at_split(s, q, maphdr(b.len()), enc_fields(b, 0));
    lemma_maphdr_prefix(s, q, a.len(), b.len());
    lemma_maphdr_len(a.len());
    lemma_enc_fields_prefix(s, q + maphdr(a.len()).len(), a, b, 0);
    assert(a =~= b);
}

} // verus!

verus! {

/// A hexadecimal digit, lower case.
pub open spec fn hexd(n: nat) -> u8 {
    if n < 10 {
        (0x30 + n) as u8
    } else {
        (0x57 + n) as u8
    }
}

/// The decimal digits of an unsigned number.
pub open spec fn dec_u(x: nat) -> Seq<u8>
    decreases x,
{
    if x < 10 {
        seq![(0x30 + x) as u8]
    } else {
        dec_u(x / 10) + seq![(0x30 + x % 10) as u8]
    }
}

/// The decimal text of a signed number.
pub open spec fn dec_i(x: int) -> Seq<u8> {
    if x >= 0 {
        dec_u(x as nat)
    } else {
        seq![0x2du8] + dec_u((-x) as nat)
    }
}

/// The structured-text escape of one UTF-8 byte inside a quoted string.
pub open spec fn esc_byte(b: u8) -> Seq<u8> {
    if b == 0x22 {
        seq![0x5cu8, 0x22u8]
    } else if b == 0x5c {
        seq![0x5cu8, 0x5cu8]
    } else if b == 0x08 {
        seq![0x5cu8, 0x62u8]
    } else if b == 0x09 {
        seq![0x5cu8, 0x74u8]
    } else if b == 0x0a {
        seq![0x5cu8, 0x6eu8]
    } else if b == 0x0c {
        seq![0x5cu8, 0x66u8]
    } else if b == 0x0d {
        seq![0x5cu8, 0x72u8]
    } else if b < 0x20 {
        seq![0x5cu8, 0x75u8, 0x30u8, 0x30u8, hexd((b / 16) as nat), hexd((b % 16) as nat)]
    } else {
        seq![b]
    }
}

/// The escapes of the first `i` bytes of `s`.
pub open spec fn esc_front(s: Seq<u8>, i: int) -> Seq<u8>
    decreases i,
{
    if i <= 0 {
        Seq::empty()
    } else {
        esc_front(s, i - 1) + esc_byte(s[i - 1])
    }
}

/// The escapes of all the bytes of `s`.
pub open spec fn esc(s: Seq<u8>) -> Seq<u8> {
    esc_front(s, s.len() as int)
}

/// The compact structured text of one value, as UTF-8 bytes.
pub open spec fn json_bytes(v: SpecVal) -> Seq<u8>
    decreases v, 2int, 0int,
{
    match v {
        SpecVal::Null => encode_utf8("null"@),
        SpecVal::Bool(b) => if b {
            encode_utf8("true"@)
        } else {
            encode_utf8("false"@)
        },
        SpecVal::Int(x) => dec_i(x as int),
        SpecVal::Str(s) => seq![0x22u8] + esc(encode_utf8(s)) + seq![0x22u8],
        SpecVal::Arr(vs) => seq![0x5bu8] + json_vals(vs, 0) + seq![0x5du8],
        SpecVal::Obj(fs) => seq![0x7bu8] + json_fields(fs, 0) + seq![0x7du8],
    }
}

/// The texts of the elements of `vs` from `i` on, comma-separated.
pub open spec fn json_vals(vs: Seq<SpecVal>, i: int) -> Seq<u8>
    decreases vs, 1int, vs.len() - i + 3,
{
    if i < 0 || i >= vs.len() {
        Seq::empty()
    } else {
        (if i > 0 {
            seq![0x2cu8]
        } else {
            Seq::empty()
        }) + json_bytes(vs[i]) + json_vals(vs, i + 1)
    }
}

/// The texts of the pairs of `fs` from `i` on, comma-separated.
pub open spec fn json_fields(fs: Seq<(Seq<char>, SpecVal)>, i: int) -> Seq<u8>
    decreases fs, 1int, fs.len() - i + 3,
{
    if i < 0 || i >= fs.len() {
        Seq::empty()
    } else {
        proof {
            assert(decreases_to!(fs => fs[i]));
            assert(decreases_to!(fs[i] => fs[i].1));
        }
        (if i > 0 {
            seq![0x2cu8]
        } else {
            Seq::empty()
        }) + seq![0x22u8] + esc(encode_utf8(fs[i].0)) + seq![0x22u8, 0x3au8] + json_bytes(fs[i].1)
            + json_fields(fs, i + 1)
    }
}

/// The texts of the first `i` elements.
pub open spec fn json_vals_front(vs: Seq<SpecVal>, i: int) -> Seq<u8>
    decreases i,
{
    if i <= 0 {
        Seq::empty()
    } else {
        json_vals_front(vs, i - 1) + (if i - 1 > 0 {
            seq![0x2cu8]
        } else {
            Seq::empty()
        }) + json_bytes(vs[i - 1])
    }
}

/// The texts of the first `i` pairs.
pub open spec fn json_fields_front(fs: Seq<(Seq<char>, SpecVal)>, i: int) -> Seq<u8>
    decreases i,
{
    if i <= 0 {
        Seq::empty()
    } else {
        json_fields_front(fs, i - 1) + (if i - 1 > 0 {
            seq![0x2cu8]
        } else {
            Seq::empty()
        }) + seq![0x22u8] + esc(encode_utf8(fs[i - 1].0)) + seq![0x22u8, 0x3au8] + json_bytes(
            fs[i - 1].1,
        )
    }
}

/// The first `i` element texts followed by the rest are all of them.
pub proof fn lemma_json_vals_front_concat(vs: Seq<SpecVal>, i: int)
    requires
        0 <= i <= vs.len(),
    ensures
        json_vals_front(vs, i) + json_vals(vs, i) == json_vals(vs, 0),
    decreases i,
{
    if i == 0 {
        assert(json_vals_front(vs, 0) + json_vals(vs, 0) =~= json_vals(vs, 0));
    } else {
        lemma_json_vals_front_concat(vs, i - 1);
        let sep: Seq<u8> = if i - 1 > 0 {
            seq![0x2cu8]
        } else {
            Seq::empty()
        };
        assert(json_vals(vs, i - 1) == sep + json_bytes(vs[i - 1]) + json_vals(vs, i));
        assert((json_vals_front(vs, i - 1) + sep + json_bytes(vs[i - 1])) + json_vals(vs, i)
            =~= json_vals_front(vs, i - 1) + (sep + json_bytes(vs[i - 1]) + json_vals(vs, i)));
    }
}

/// The first `i` pair texts followed by the rest are all of them.
pub proof fn lemma_json_fields_front_concat(fs: Seq<(Seq<char>, SpecVal)>, i: int)
    requires
        0 <= i <= fs.len(),
    ensures
        json_fields_front(fs, i) + json_fields(fs, i) == json_fields(fs, 0),
    decreases i,
{
    if i == 0 {
        assert(json_fields_front(fs, 0) + json_fields(fs, 0) =~= json_fields(fs, 0));
    } else {
        lemma_json_fields_front_concat(fs, i - 1);
        let sep: Seq<u8> = if i - 1 > 0 {
            seq![0x2cu8]
        } else {
            Seq::empty()
        };
        assert(json_fields(fs, i - 1) == sep + seq![0x22u8] + esc(encode_utf8(fs[i - 1].0)) + seq![
            0x22u8,
            0x3au8,
        ] + json_bytes(fs[i - 1].1) + json_fields(fs, i));
        assert((json_fields_front(fs, i - 1) + sep + seq![0x22u8] + esc(encode_utf8(fs[i - 1].0))
            + seq![0x22u8, 0x3au8] + json_bytes(fs[i - 1].1)) + json_fields(fs, i)
            =~= json_fields_front(fs, i - 1) + (sep + seq![0x22u8] + esc(encode_utf8(fs[i - 1].0))
            + seq![0x22u8, 0x3au8] + json_bytes(fs[i - 1].1) + json_fields(fs, i)));
    }
}

/// Appends the decimal digits of `x`.
pub(crate) fn push_dec_u(buf: &mut Vec<u8>, x: u64)
    ensures
        final(buf)@ == old(buf)@ + dec_u(x as nat),
    decreases x,
{
    if x < 10 {
        buf.push(0x30 + (x as u8));
        proof {
            assert(buf@ =~= old(buf)@ + dec_u(x as nat));
        }
    } else {
        push_dec_u(buf, x / 10);
        buf.push(0x30 + ((x % 10) as u8));
        proof {
            assert(buf@ =~= old(buf)@ + dec_u(x as nat));
        }
    }
}

/// Appends the decimal text of `x`.
pub(crate) fn push_dec_i(buf: &mut Vec<u8>, x: i64)
    ensures
        final(buf)@ == old(buf)@ + dec_i(x as int),
{
    if x >= 0 {
        push_dec_u(buf, x as u64);
    } else {
        buf.push(0x2d);
        let m: u64 = ((-(x as i128)) as u64);
        push_dec_u(buf, m);
        proof {
            assert(buf@ =~= old(buf)@ + dec_i(x as int));
        }
    }
}

/// Appends the escape of one byte.
pub(crate) fn push_esc_byte(buf: &mut Vec<u8>, b: u8)
    ensures
        final(buf)@ == old(buf)@ + esc_byte(b),
{
    if b == 0x22 {
        buf.push(0x5c);
        buf.push(0x22);
    } else if b == 0x5c {
        buf.push(0x5c);
        buf.push(0x5c);
    } else if b == 0x08 {
        buf.push(0x5c);
        buf.push(0x62);
    } else if b == 0x09 {
        buf.push(0x5c);
        buf.push(0x74);
    } else if b == 0x0a {
        buf.push(0x5c);
        buf.push(0x6e);
    } else if b == 0x0c {
        buf.push(0x5c);
        buf.push(0x66);
    } else if b == 0x0d {
        buf.push(0x5c);
        buf.push(0x72);
    } else if b < 0x20 {
        buf.push(0x5c);
        buf.push(0x75);
        buf.push(0x30);
        buf.push(0x30);
        let hi = b / 16;
        let lo = b % 16;
        buf.push(if hi < 10 { 0x30 + hi } else { 0x57 + hi });
        buf.push(if lo < 10 { 0x30 + lo } else { 0x57 + lo });
    } else {
        buf.push(b);
    }
    proof {
        assert(buf@ =~= old(buf)@ + esc_byte(b));
    }
}

/// Appends the quoted, escaped text of a string's UTF-8 bytes.
#[verifier::loop_isolation(false)]
pub(crate) fn push_quoted(buf: &mut Vec<u8>, s: &str)
    ensures
        final(buf)@ == old(buf)@ + seq![0x22u8] + esc(encode_utf8(s@)) + seq![0x22u8],
{
    buf.push(0x22);
    let bytes: Vec<u8> = s.as_bytes_vec();
    let n = bytes.len();
    let mut i: usize = 0;
    while i < n
        invariant
            i <= n,
            n == bytes@.len(),
            bytes@ == encode_utf8(s@),
            buf@ == old(buf)@ + seq![0x22u8] + esc_front(bytes@, i as int),
        decreases n - i,
    {
        push_esc_byte(buf, bytes[i]);
        i = i + 1;
        proof {
            assert(buf@ =~= old(buf)@ + seq![0x22u8] + (esc_front(bytes@, i - 1) + esc_byte(
                bytes@[i - 1],
            )));
        }
    }
    buf.push(0x22);
    proof {
        assert(buf@ =~= old(buf)@ + seq![0x22u8] + esc(encode_utf8(s@)) + seq![0x22u8]);
    }
}

/// Appends the compact structured text of one value.
#[verifier::loop_isolation(false)]
#[verifier::rlimit(100)]
pub(crate) fn put_json(buf: &mut Vec<u8>, v: &Value)
    ensures
        final(buf)@ == old(buf)@ + json_bytes(v.deep()),
    decreases *v,
{
    match v {
        Value::Null => {
            let lit: Vec<u8> = "null".as_bytes_vec();
            let mut k: usize = 0;
            let n = lit.len();
            while k < n
                invariant
                    k <= n,
                    n == lit@.len(),
                    buf@ == old(buf)@ + lit@.subrange(0, k as int),
                decreases n - k,
            {
                buf.push(lit[k]);
                k = k + 1;
                proof {
                    assert(buf@ =~= old(buf)@ + lit@.subrange(0, k as int));
                }
            }
            proof {
                assert(lit@.subrange(0, n as int) =~= lit@);
            }
        },
        Value::Bool(b) => {
            let lit: Vec<u8> = if *b {
                "true".as_bytes_vec()
            } else {
                "false".as_bytes_vec()
            };
            let mut k: usize = 0;
            let n = lit.len();
            while k < n
                invariant
                    k <= n,
                    n == lit@.len(),
                    buf@ == old(buf)@ + lit@.subrange(0, k as int),
                decreases n - k,
            {
                buf.push(lit[k]);
                k = k + 1;
                proof {
                    assert(buf@ =~= old(buf)@ + lit@.subrange(0, k as int));
                }
            }
            proof {
                assert(lit@.subrange(0, n as int) =~= lit@);
            }
        },
        Value::Int(x) => {
            push_dec_i(buf, *x);
        },
        Value::Str(s) => {
            push_quoted(buf, s.as_str());
        },
        Value::Arr(vs) => {
            let ghost ds = deep_seq_from(vs@, 0);
            proof {
                lemma_deep_seq(vs@);
            }
            buf.push(0x5b);
            let ghost base = buf@;
            let n = vs.len();
            let mut i: usize = 0;
            while i < n
                invariant
                    i <= n,
                    n == vs@.len(),
                    ds == deep_seq_from(vs@, 0),
                    ds.len() == n,
                    forall|j: int| 0 <= j < n ==> ds[j] == vs@[j].deep(),
                    buf@ == base + json_vals_front(ds, i as int),
                decreases n - i,
            {
                if i > 0 {
                    buf.push(0x2c);
                }
                proof {
                    assert(decreases_to!(*v => v->Arr_0));
                    assert(v->Arr_0 == *vs);
                    assert(decreases_to!(*vs => vs@));
                    assert(decreases_to!(vs@ => vs@[i as int]));
                }
                put_json(buf, &vs[i]);
                i = i + 1;
                proof {
                    let sep: Seq<u8> = if i - 1 > 0 {
                        seq![0x2cu8]
                    } else {
                        Seq::empty()
                    };
                    assert(buf@ =~= base + (json_vals_front(ds, i - 1) + sep + json_bytes(
                        ds[i - 1],
                    )));
                }
            }
            buf.push(0x5d);
            proof {
                lemma_json_vals_front_concat(ds, n as int);
                assert(json_vals_front(ds, n as int) + json_vals(ds, n as int) =~= json_vals_front(
                    ds,
                    n as int,
                ));
                assert(v.deep() == SpecVal::Arr(ds));
                assert(buf@ =~= old(buf)@ + (seq![0x5bu8] + json_vals(ds, 0) + seq![0x5du8]));
            }
        },
        Value::Obj(fs) => {
            let ghost ds = deep_fields_from(fs@, 0);
            proof {
                lemma_deep_fields(fs@);
            }
            buf.push(0x7b);
            let ghost base = buf@;
            let n = fs.len();
            let mut i: usize = 0;
            while i < n
                invariant
                    i <= n,
                    n == fs@.len(),
                    ds == deep_fields_from(fs@, 0),
                    ds.len() == n,
                    forall|j: int| 0 <= j < n ==> ds[j] == (fs@[j].0@, fs@[j].1.deep()),
                    buf@ == base + json_fields_front(ds, i as int),
                decreases n - i,
            {
                if i > 0 {
                    buf.push(0x2c);
                }
                let pair = &fs[i];
                push_quoted(buf, pair.0.as_str());
                buf.push(0x3a);
                proof {
                    assert(decreases_to!(*v => v->Obj_0));
                    assert(v->Obj_0 == *fs);
                    assert(decreases_to!(*fs => fs@));
                    assert(decreases_to!(fs@ => fs@[i as int]));
                    assert(decreases_to!(fs@[i as int] => fs@[i as int].1));
                }
                put_json(buf, &pair.1);
                i = i + 1;
                proof {
                    let sep: Seq<u8> = if i - 1 > 0 {
                        seq![0x2cu8]
                    } else {
                        Seq::empty()
                    };
                    assert(buf@ =~= base + (json_fields_front(ds, i - 1) + sep + seq![0x22u8]
                        + esc(encode_utf8(ds[i - 1].0)) + seq![0x22u8, 0x3au8] + json_bytes(
                        ds[i - 1].1,
                    )));
                }
            }
            buf.push(0x7d);
            proof {
                lemma_json_fields_front_concat(ds, n as int);
                assert(json_fields_front(ds, n as int) + json_fields(ds, n as int)
                    =~= json_fields_front(ds, n as int));
                assert(v.deep() == SpecVal::Obj(ds));
                assert(buf@ =~= old(buf)@ + (seq![0x7bu8] + json_fields(ds, 0) + seq![0x7du8]));
            }
        },
    }
}

} // verus!

verus! {

use vstd::utf8::{valid_utf8, valid_first_scalar, pop_first_scalar, take_first_scalar,
    length_of_first_scalar, valid_utf8_concat, encode_utf8_valid_utf8};

/// A sequence of plain ASCII bytes is one valid text.
pub proof fn lemma_ascii_valid(s: Seq<u8>)
    requires
        forall|i: int| 0 <= i < s.len() ==> s[i] < 0x80,
    ensures
        valid_utf8(s),
    decreases s.len(),
{
    if s.len() > 0 {
        assert(valid_first_scalar(s));
        assert(length_of_first_scalar(s) == 1);
        lemma_ascii_valid(s.subrange(1, s.len() as int));
        assert(pop_first_scalar(s) == s.subrange(1, s.len() as int));
    }
}

/// Escaping a byte below 0x80 yields bytes below 0x80.
proof fn lemma_esc_byte_ascii(b: u8)
    requires
        b < 0x80,
    ensures
        forall|i: int| 0 <= i < esc_byte(b).len() ==> esc_byte(b)[i] < 0x80,
{
}

/// A front escape depends only on the bytes before `i`.
proof fn lemma_esc_front_agree(a: Seq<u8>, b: Seq<u8>, i: int)
    requires
        forall|j: int| 0 <= j < i ==> a[j] == b[j],
    ensures
        esc_front(a, i) == esc_front(b, i),
    decreases i,
{
    if i > 0 {
        lemma_esc_front_agree(a, b, i - 1);
    }
}

/// Escaping distributes over joining byte sequences.
pub proof fn lemma_esc_concat(a: Seq<u8>, b: Seq<u8>)
    ensures
        esc(a + b) == esc(a) + esc(b),
    decreases b.len(),
{
    if b.len() == 0 {
        assert(a + b =~= a);
        assert(esc(a) + esc(b) =~= esc(a));
    } else {
        let d = b.drop_last();
        lemma_esc_concat(a, d);
        assert(a + d =~= (a + b).take(a.len() + b.len() - 1));
        let n = a.len() + b.len();
        assert(esc(a + b) == esc_front(a + b, n as int - 1) + esc_byte((a + b)[n as int - 1]));
        lemma_esc_front_agree(a + b, a + d, n as int - 1);
        assert(esc_front(a + d, n as int - 1) == esc(a + d));
        assert((a + b)[n as int - 1] == b.last());
        assert(esc(b) == esc_front(b, b.len() as int - 1) + esc_byte(b.last()));
        lemma_esc_front_agree(b, d, b.len() as int - 1);
        assert(esc_front(d, b.len() as int - 1) == esc(d));
        assert((esc(a) + esc(d)) + esc_byte(b.last()) =~= esc(a) + (esc(d) + esc_byte(b.last())));
    }
}

/// A byte that the escaper leaves alone.
proof fn lemma_esc_id(t: Seq<u8>)
    requires
        forall|i: int|
            0 <= i < t.len() ==> t[i] >= 0x20 && t[i] != 0x22 && t[i] != 0x5c,
    ensures
        esc(t) == t,
    decreases t.len(),
{
    if t.len() == 0 {
        assert(esc(t) =~= t);
    } else {
        let d = t.drop_last();
        lemma_esc_id(d);
        lemma_esc_front_agree(t, d, t.len() as int - 1);
        assert(esc_byte(t.last()) == seq![t.last()]);
        assert(esc(t) == esc_front(t, t.len() as int - 1) + esc_byte(t.last()));
        assert(esc(t) =~= t);
    }
}

/// Escaping one valid text gives one valid text: ASCII bytes become
/// ASCII runs and multi-byte scalars pass through untouched.
pub proof fn lemma_esc_valid(s: Seq<u8>)
    requires
        valid_utf8(s),
    ensures
        valid_utf8(esc(s)),
    decreases s.len(),
{
    broadcast use valid_utf8_concat;

    if s.len() == 0 {
        assert(esc(s) =~= Seq::<u8>::empty());
        assert(valid_utf8(esc(s)));
    } else {
        let ln = length_of_first_scalar(s);
        let first = take_first_scalar(s);
        let rest = pop_first_scalar(s);
        assert(s =~= first + rest);
        lemma_esc_concat(first, rest);
        lemma_esc_valid(rest);
        if ln == 1 {
            assert(s[0] < 0x80);
            assert(first =~= seq![s[0]]);
            assert(esc(first) == esc_front(first, 1) && esc_front(first, 1) == esc_front(first, 0)
                + esc_byte(first[0]));
            assert(esc(first) =~= esc_byte(s[0]));
            lemma_esc_byte_ascii(s[0]);
            lemma_ascii_valid(esc(first));
        } else {
            assert(first.len() == ln);
            assert forall|i: int| 0 <= i < first.len() implies first[i] >= 0x80 by {
                assert(first[i] == s[i]);
                if i == 0 {
                    assert(ln == 2 ==> vstd::utf8::is_leading_byte_width_2(s[0]));
                    assert(ln == 3 ==> vstd::utf8::is_leading_byte_width_3(s[0]));
                    assert(ln == 4 ==> vstd::utf8::is_leading_byte_width_4(s[0]));
                } else {
                    assert(vstd::utf8::is_continuation_byte(s[i]));
                }
            }
            lemma_esc_id(first);
            assert(valid_first_scalar(first)) by {
                assert(first[0] == s[0]);
                assert(ln >= 2 ==> first[1] == s[1]);
                assert(ln >= 3 ==> first[2] == s[2]);
                assert(ln >= 4 ==> first[3] == s[3]);
            }
            assert(pop_first_scalar(first) =~= Seq::<u8>::empty());
            assert(valid_utf8(pop_first_scalar(first)));
            assert(valid_utf8(first));
        }
        valid_utf8_concat(esc(first), esc(rest));
        assert(valid_utf8(esc(first) + esc(rest)));
    }
}

/// The decimal digits are ASCII.
proof fn lemma_dec_u_ascii(x: nat)
    ensures
        forall|i: int| 0 <= i < dec_u(x).len() ==> dec_u(x)[i] < 0x80,
    decreases x,
{
    if x < 10 {
        assert(dec_u(x) == seq![(0x30 + x) as u8]);
    } else {
        lemma_dec_u_ascii(x / 10);
        let d = dec_u(x / 10);
        assert forall|i: int| 0 <= i < dec_u(x).len() implies dec_u(x)[i] < 0x80 by {
            if i < d.len() {
                assert(dec_u(x)[i] == d[i]);
            } else {
                assert(dec_u(x)[i] == (0x30 + x % 10) as u8);
            }
        }
    }
}

/// The decimal text of a number is one valid text.
pub proof fn lemma_dec_i_valid(x: int)
    ensures
        valid_utf8(dec_i(x)),
{
    if x >= 0 {
        lemma_dec_u_ascii(x as nat);
        lemma_ascii_valid(dec_u(x as nat));
    } else {
        lemma_dec_u_ascii((-x) as nat);
        lemma_ascii_valid(dec_i(x));
    }
}

/// The compact structured text of any value is one valid text.
pub proof fn lemma_json_bytes_valid(v: SpecVal)
    ensures
        valid_utf8(json_bytes(v)),
    decreases v, 2int, 0int,
{
    broadcast use valid_utf8_concat;
    broadcast use encode_utf8_valid_utf8;

    match v {
        SpecVal::Null => {},
        SpecVal::Bool(b) => {},
        SpecVal::Int(x) => {
            lemma_dec_i_valid(x as int);
        },
        SpecVal::Str(s) => {
            lemma_esc_valid(encode_utf8(s));
            lemma_ascii_valid(seq![0x22u8]);
            valid_utf8_concat(seq![0x22u8], esc(encode_utf8(s)));
            valid_utf8_concat(seq![0x22u8] + esc(encode_utf8(s)), seq![0x22u8]);
        },
        SpecVal::Arr(vs) => {
            lemma_json_vals_valid(vs, 0);
            lemma_ascii_valid(seq![0x5bu8]);
            lemma_ascii_valid(seq![0x5du8]);
            valid_utf8_concat(seq![0x5bu8], json_vals(vs, 0));
            valid_utf8_concat(seq![0x5bu8] + json_vals(vs, 0), seq![0x5du8]);
        },
        SpecVal::Obj(fs) => {
            lemma_json_fields_valid(fs, 0);
            lemma_ascii_valid(seq![0x7bu8]);
            lemma_ascii_valid(seq![0x7du8]);
            valid_utf8_concat(seq![0x7bu8], json_fields(fs, 0));
            valid_utf8_concat(seq![0x7bu8] + json_fields(fs, 0), seq![0x7du8]);
        },
    }
}

/// The comma-separated texts of elements are one valid text.
pub proof fn lemma_json_vals_valid(vs: Seq<SpecVal>, i: int)
    ensures
        valid_utf8(json_vals(vs, i)),
    decreases vs, 1int, vs.len() - i + 3,
{
    broadcast use valid_utf8_concat;

    if i < 0 || i >= vs.len() {
        assert(valid_utf8(json_vals(vs, i)));
    } else {
        let sep: Seq<u8> = if i > 0 {
            seq![0x2cu8]
        } else {
            Seq::empty()
        };
        lemma_ascii_valid(sep);
        lemma_json_bytes_valid(vs[i]);
        lemma_json_vals_valid(vs, i + 1);
        valid_utf8_concat(sep, json_bytes(vs[i]));
        valid_utf8_concat(sep + json_bytes(vs[i]), json_vals(vs, i + 1));
    }
}

/// The comma-separated texts of pairs are one valid text.
pub proof fn lemma_json_fields_valid(fs: Seq<(Seq<char>, SpecVal)>, i: int)
    ensures
        valid_utf8(json_fields(fs, i)),
    decreases fs, 1int, fs.len() - i + 3,
{
    broadcast use valid_utf8_concat;
    broadcast use encode_utf8_valid_utf8;

    if i < 0 || i >= fs.len() {
        assert(valid_utf8(json_fields(fs, i)));
    } else {
        assert(decreases_to!(fs => fs[i]));
        assert(decreases_to!(fs[i] => fs[i].1));
        let sep: Seq<u8> = if i > 0 {
            seq![0x2cu8]
        } else {
            Seq::empty()
        };
        lemma_ascii_valid(sep);
        lemma_ascii_valid(seq![0x22u8]);
        lemma_ascii_valid(seq![0x22u8, 0x3au8]);
        lemma_esc_valid(encode_utf8(fs[i].0));
        lemma_json_bytes_valid(fs[i].1);
        lemma_json_fields_valid(fs, i + 1);
        valid_utf8_concat(sep, seq![0x22u8]);
        valid_utf8_concat(sep + seq![0x22u8], esc(encode_utf8(fs[i].0)));
        valid_utf8_concat(sep + seq![0x22u8] + esc(encode_utf8(fs[i].0)), seq![0x22u8, 0x3au8]);
        valid_utf8_concat(
            sep + seq![0x22u8] + esc(encode_utf8(fs[i].0)) + seq![0x22u8, 0x3au8],
            json_bytes(fs[i].1),
        );
        valid_utf8_concat(
            sep + seq![0x22u8] + esc(encode_utf8(fs[i].0)) + seq![0x22u8, 0x3au8] + json_bytes(
                fs[i].1,
            ),
            json_fields(fs, i + 1),
        );
    }
}

} // verus!
