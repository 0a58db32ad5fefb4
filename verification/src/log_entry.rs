//! One logged event: identities, dual-resolution timestamps, severity,
//! audit flag, message, and an open structured payload.

use vstd::prelude::*;
use vstd::utf8::encode_utf8;
use crate::log_error::{Error, EncodeError, DecodeError};
use crate::log_level::LogLevel;
use crate::value::{Value, SpecVal, deep_fields_from, enc_obj, obj_enc_ok, put_val, get_obj,
    lemma_deep_fields, enc_fields};
use crate::msgpack::{starts_at, enc_u64, enc_i64, enc_bool, enc_str, put_u64, put_i64, put_bool,
    put_str, get_u64, get_i64, get_bool, get_str, put_maphdr, lemma_starts_at_split,
    lemma_starts_at_join, lemma_starts_at_index, lemma_enc_u64_prefix, lemma_enc_i64_prefix,
    lemma_enc_str_prefix};

verus! {

/// One log entry.
#[derive(Debug, PartialEq)]
pub struct LogEntry {
    /// Id of the sender (SHA3-512 of the public key OR UUID).
    pub sid: String,
    /// Unix epoch of when the entry was sent (in seconds).
    pub sts: i64,
    /// Unix epoch of when the entry was sent (nanoseconds part).
    pub stn: u32,
    /// Unix epoch of when the entry was received (in seconds).
    pub rts: i64,
    /// Unix epoch of when the entry was received (nanoseconds part).
    pub rtn: u32,
    /// Log entry level.
    pub lvl: LogLevel,
    /// Is this an audit log?
    pub iau: bool,
    /// Log entry message.
    pub msg: String,
    /// Extra information, ordered by insertion.
    pub dat: Vec<(String, Value)>,
}

/// The mathematical shape of an entry.
pub struct EntryView {
    pub sid: Seq<char>,
    pub sts: i64,
    pub stn: u32,
    pub rts: i64,
    pub rtn: u32,
    pub lvl: LogLevel,
    pub iau: bool,
    pub msg: Seq<char>,
    pub dat: Seq<(Seq<char>, SpecVal)>,
}

impl View for LogEntry {
    type V = EntryView;

    open spec fn view(&self) -> EntryView {
        EntryView {
            sid: self.sid@,
            sts: self.sts,
            stn: self.stn,
            rts: self.rts,
            rtn: self.rtn,
            lvl: self.lvl,
            iau: self.iau,
            msg: self.msg@,
            dat: deep_fields_from(self.dat@, 0),
        }
    }
}

impl EntryView {
    /// Whether the entry fits the format's length fields.
    pub open spec fn enc_ok(self) -> bool {
        &&& encode_utf8(self.sid).len() < 0x100000000
        &&& encode_utf8(self.msg).len() < 0x100000000
        &&& obj_enc_ok(self.dat)
    }
}

/// The pieces of an entry's encoding, in field order after the array
/// marker.
pub open spec fn epiece(g: EntryView, k: int) -> Seq<u8> {
    if k == 0 {
        seq![0x99u8]
    } else if k == 1 {
        enc_str(g.sid)
    } else if k == 2 {
        enc_i64(g.sts)
    } else if k == 3 {
        enc_u64(g.stn as u64)
    } else if k == 4 {
        enc_i64(g.rts)
    } else if k == 5 {
        enc_u64(g.rtn as u64)
    } else if k == 6 {
        enc_u64(g.lvl.spec_tag() as u64)
    } else if k == 7 {
        enc_bool(g.iau)
    } else if k == 8 {
        enc_str(g.msg)
    } else {
        enc_obj(g.dat)
    }
}

/// The offset at which piece `k` of an entry's encoding stands.
pub open spec fn eoff(g: EntryView, k: int) -> int
    decreases k,
{
    if k <= 0 {
        0
    } else {
        eoff(g, k - 1) + epiece(g, k - 1).len()
    }
}

/// The encoding of an entry: a fixed array of its nine fields.
pub open spec fn spec_enc_entry(g: EntryView) -> Seq<u8> {
    seq![0x99u8] + enc_str(g.sid) + enc_i64(g.sts) + enc_u64(g.stn as u64) + enc_i64(g.rts)
        + enc_u64(g.rtn as u64) + enc_u64(g.lvl.spec_tag() as u64) + enc_bool(g.iau) + enc_str(
        g.msg,
    ) + enc_obj(g.dat)
}

/// Where each piece of an entry's encoding stands inside it.
pub proof fn lemma_split_entry(s: Seq<u8>, g: EntryView)
    requires
        s == spec_enc_entry(g),
    ensures
        forall|k: int| 0 <= k < 10 ==> starts_at(s, eoff(g, k), epiece(g, k)),
        s.len() == eoff(g, 10),
{
    reveal_with_fuel(eoff, 12);
    let p0 = seq![0x99u8];
    let p1 = enc_str(g.sid);
    let p2 = enc_i64(g.sts);
    let p3 = enc_u64(g.stn as u64);
    let p4 = enc_i64(g.rts);
    let p5 = enc_u64(g.rtn as u64);
    let p6 = enc_u64(g.lvl.spec_tag() as u64);
    let p7 = enc_bool(g.iau);
    let p8 = enc_str(g.msg);
    let p9 = enc_obj(g.dat);
    assert(starts_at(s, 0, s)) by {
        assert(s.subrange(0, s.len() as int) =~= s);
    }
    lemma_starts_at_split(s, 0, p0 + p1 + p2 + p3 + p4 + p5 + p6 + p7 + p8, p9);
    lemma_starts_at_split(s, 0, p0 + p1 + p2 + p3 + p4 + p5 + p6 + p7, p8);
    lemma_starts_at_split(s, 0, p0 + p1 + p2 + p3 + p4 + p5 + p6, p7);
    lemma_starts_at_split(s, 0, p0 + p1 + p2 + p3 + p4 + p5, p6);
    lemma_starts_at_split(s, 0, p0 + p1 + p2 + p3 + p4, p5);
    lemma_starts_at_split(s, 0, p0 + p1 + p2 + p3, p4);
    lemma_starts_at_split(s, 0, p0 + p1 + p2, p3);
    lemma_starts_at_split(s, 0, p0 + p1, p2);
    lemma_starts_at_split(s, 0, p0, p1);
    assert(eoff(g, 1) == 1);
    assert(eoff(g, 2) == 1 + p1.len());
    assert(eoff(g, 3) == eoff(g, 2) + p2.len());
    assert(eoff(g, 4) == eoff(g, 3) + p3.len());
    assert(eoff(g, 5) == eoff(g, 4) + p4.len());
    assert(eoff(g, 6) == eoff(g, 5) + p5.len());
    assert(eoff(g, 7) == eoff(g, 6) + p6.len());
    assert(eoff(g, 8) == eoff(g, 7) + p7.len());
    assert(eoff(g, 9) == eoff(g, 8) + p8.len());
    assert(eoff(g, 10) == eoff(g, 9) + p9.len());
}

impl Default for LogEntry {
    /// The defaults: the nil-UUID sender, zero timestamps, severity
    /// Debug, not an audit entry, empty message and payload.
    fn default() -> (r: LogEntry)
        ensures
            r@.sid == "00000000-0000-0000-0000-000000000000"@,
            r@.sts == 0 && r@.stn == 0 && r@.rts == 0 && r@.rtn == 0,
            r@.lvl == LogLevel::Debug,
            !r@.iau,
            r@.msg == ""@,
            r@.dat == Seq::<(Seq<char>, SpecVal)>::empty(),
    {
        let r = LogEntry {
            sid: "00000000-0000-0000-0000-000000000000".to_owned(),
            sts: 0,
            stn: 0,
            rts: 0,
            rtn: 0,
            lvl: LogLevel::Debug,
            iau: false,
            msg: "".to_owned(),
            dat: Vec::new(),
        };
        proof {
            lemma_deep_fields(r.dat@);
            assert(deep_fields_from(r.dat@, 0) =~= Seq::<(Seq<char>, SpecVal)>::empty());
        }
        r
    }
}

impl LogEntry {
    /// Encodes this entry into the binary schema.
    #[verifier::loop_isolation(false)]
    #[verifier::rlimit(100)]
    pub fn as_vec_u8(&self) -> (r: Result<Vec<u8>, Error>)
        ensures
            r matches Ok(v) ==> v@ == spec_enc_entry(self@) && self@.enc_ok(),
            r matches Err(e) ==> (e matches Error::MsgPackEncode(EncodeError::TooLong))
                && !self@.enc_ok(),
    {
        let mut buf: Vec<u8> = Vec::new();
        buf.push(0x99);
        match put_str(&mut buf, self.sid.as_str()) {
            Ok(_) => {},
            Err(e) => {
                return Err(e);
            },
        }
        put_i64(&mut buf, self.sts);
        put_u64(&mut buf, self.stn as u64);
        put_i64(&mut buf, self.rts);
        put_u64(&mut buf, self.rtn as u64);
        put_u64(&mut buf, self.lvl.tag() as u64);
        put_bool(&mut buf, self.iau);
        match put_str(&mut buf, self.msg.as_str()) {
            Ok(_) => {},
            Err(e) => {
                return Err(e);
            },
        }
        let ghost before_dat = buf@;
        let n = self.dat.len();
        if (n as u64) >= 0x100000000 {
            proof {
                lemma_deep_fields(self.dat@);
            }
            return Err(Error::MsgPackEncode(EncodeError::TooLong));
        }
        put_maphdr(&mut buf, n as u64);
        let mut i: usize = 0;
        proof {
            lemma_deep_fields(self.dat@);
        }
        let ghost ds = deep_fields_from(self.dat@, 0);
        while i < n
            invariant
                i <= n,
                n == self.dat@.len(),
                ds == deep_fields_from(self.dat@, 0),
                ds.len() == n,
                forall|j: int| 0 <= j < n ==> ds[j] == (self.dat@[j].0@, self.dat@[j].1.deep()),
                buf@ == before_dat + crate::msgpack::maphdr(n as nat)
                    + crate::value::enc_fields_front(ds, i as int),
                forall|j: int|
                    0 <= j < i ==> (encode_utf8(ds[j].0).len() < 0x100000000 && crate::value::val_enc_ok(
                        ds[j].1,
                    )),
            decreases n - i,
        {
            let pair = &self.dat[i];
            match put_str(&mut buf, pair.0.as_str()) {
                Ok(_) => {},
                Err(e) => {
                    proof {
                        crate::value::lemma_fields_ok_iff(ds, 0);
                        assert(ds[i as int].0 == self.dat@[i as int].0@);
                        assert(encode_utf8(ds[i as int].0).len() >= 0x100000000);
                        assert(!obj_enc_ok(ds));
                        assert(self@.dat == ds);
                    }
                    return Err(e);
                },
            }
            match put_val(&mut buf, &pair.1) {
                Ok(_) => {},
                Err(e) => {
                    proof {
                        crate::value::lemma_fields_ok_iff(ds, 0);
                        assert(ds[i as int].1 == self.dat@[i as int].1.deep());
                        assert(!crate::value::val_enc_ok(ds[i as int].1));
                        assert(!obj_enc_ok(ds));
                        assert(self@.dat == ds);
                    }
                    return Err(e);
                },
            }
            i = i + 1;
            proof {
                assert(buf@ =~= before_dat + crate::msgpack::maphdr(n as nat)
                    + (crate::value::enc_fields_front(ds, i - 1) + enc_str(ds[i - 1].0) + crate::value::enc_val(
                    ds[i - 1].1,
                )));
            }
        }
        proof {
            crate::value::lemma_fields_front_concat(ds, n as int);
            assert(crate::value::enc_fields_front(ds, n as int) + enc_fields(ds, n as int)
                =~= crate::value::enc_fields_front(ds, n as int));
            crate::value::lemma_fields_ok_iff(ds, 0);
            assert(buf@ =~= spec_enc_entry(self@));
        }
        Ok(buf)
    }

    /// Decodes an entry from the binary schema. Succeeds exactly on the
    /// encoding of an entry; so decoding what [`Self::as_vec_u8`] wrote
    /// gives the entry back.
    #[verifier::rlimit(100)]
    pub fn from_vec_u8(bytes: &Vec<u8>) -> (r: Result<LogEntry, Error>)
        ensures
            r matches Ok(h) ==> bytes@ == spec_enc_entry(h@) && h@.enc_ok(),
            forall|g: EntryView|
                g.enc_ok() && bytes@ == spec_enc_entry(g) ==> (r matches Ok(h) && h@ == g),
            r matches Err(e) ==> (e matches Error::MsgPackDecode(_)),
    {
        let ghost s = bytes@;
        proof {
            assert forall|g: EntryView| s == spec_enc_entry(g) implies (forall|k: int|
                0 <= k < 10 ==> starts_at(s, eoff(g, k), epiece(g, k))) && s.len() == eoff(
                g,
                10,
            ) by {
                lemma_split_entry(s, g);
            }
        }
        if bytes.len() == 0 || bytes[0] != 0x99 {
            return Err(Error::MsgPackDecode(DecodeError::Malformed));
        }
        let r1 = get_str(bytes, 1);
        if r1.is_none() {
            proof {
                assert forall|g: EntryView| g.enc_ok() implies s != spec_enc_entry(g) by {
                    if s == spec_enc_entry(g) {
                        assert(starts_at(s, eoff(g, 1), epiece(g, 1)));
                        assert(eoff(g, 1) == 1);
                    }
                }
            }
            return Err(Error::MsgPackDecode(DecodeError::Malformed));
        }
        let (sid, pos1) = r1.unwrap();
        proof {
            assert forall|g: EntryView| g.enc_ok() && s == spec_enc_entry(g) implies g.sid == sid@
                && eoff(g, 2) == pos1 by {
                assert(starts_at(s, eoff(g, 1), epiece(g, 1)));
                lemma_enc_str_prefix(s, 1, g.sid, sid@);
            }
        }
        let r2 = get_i64(bytes, pos1);
        if r2.is_none() {
            proof {
                assert forall|g: EntryView| g.enc_ok() implies s != spec_enc_entry(g) by {
                    if s == spec_enc_entry(g) {
                        assert(starts_at(s, eoff(g, 2), epiece(g, 2)));
                    }
                }
            }
            return Err(Error::MsgPackDecode(DecodeError::Malformed));
        }
        let (sts, pos2) = r2.unwrap();
        proof {
            assert forall|g: EntryView| g.enc_ok() && s == spec_enc_entry(g) implies g.sts == sts
                && eoff(g, 3) == pos2 by {
                assert(starts_at(s, eoff(g, 2), epiece(g, 2)));
                lemma_enc_i64_prefix(s, pos1 as int, g.sts, sts);
            }
        }
        let r3 = get_u64(bytes, pos2);
        if r3.is_none() {
            proof {
                assert forall|g: EntryView| g.enc_ok() implies s != spec_enc_entry(g) by {
                    if s == spec_enc_entry(g) {
                        assert(starts_at(s, eoff(g, 3), epiece(g, 3)));
                    }
                }
            }
            return Err(Error::MsgPackDecode(DecodeError::Malformed));
        }
        let (stn64, pos3) = r3.unwrap();
        proof {
            assert forall|g: EntryView| g.enc_ok() && s == spec_enc_entry(g) implies g.stn as u64
                == stn64 && eoff(g, 4) == pos3 by {
                assert(starts_at(s, eoff(g, 3), epiece(g, 3)));
                lemma_enc_u64_prefix(s, pos2 as int, g.stn as u64, stn64);
            }
        }
        if stn64 > 0xffffffff {
            proof {
                assert forall|g: EntryView| g.enc_ok() implies s != spec_enc_entry(g) by {}
            }
            return Err(Error::MsgPackDecode(DecodeError::Malformed));
        }
        let r4 = get_i64(bytes, pos3);
        if r4.is_none() {
            proof {
                assert forall|g: EntryView| g.enc_ok() implies s != spec_enc_entry(g) by {
                    if s == spec_enc_entry(g) {
                        assert(starts_at(s, eoff(g, 4), epiece(g, 4)));
                    }
                }
            }
            return Err(Error::MsgPackDecode(DecodeError::Malformed));
        }
        let (rts, pos4) = r4.unwrap();
        proof {
            assert forall|g: EntryView| g.enc_ok() && s == spec_enc_entry(g) implies g.rts == rts
                && eoff(g, 5) == pos4 by {
                assert(starts_at(s, eoff(g, 4), epiece(g, 4)));
                lemma_enc_i64_prefix(s, pos3 as int, g.rts, rts);
            }
        }
        let r5 = get_u64(bytes, pos4);
        if r5.is_none() {
            proof {
                assert forall|g: EntryView| g.enc_ok() implies s != spec_enc_entry(g) by {
                    if s == spec_enc_entry(g) {
                        assert(starts_at(s, eoff(g, 5), epiece(g, 5)));
                    }
                }
            }
            return Err(Error::MsgPackDecode(DecodeError::Malformed));
        }
        let (rtn64, pos5) = r5.unwrap();
        proof {
            assert forall|g: EntryView| g.enc_ok() && s == spec_enc_entry(g) implies g.rtn as u64
                == rtn64 && eoff(g, 6) == pos5 by {
                assert(starts_at(s, eoff(g, 5), epiece(g, 5)));
                lemma_enc_u64_prefix(s, pos4 as int, g.rtn as u64, rtn64);
            }
        }
        if rtn64 > 0xffffffff {
            proof {
                assert forall|g: EntryView| g.enc_ok() implies s != spec_enc_entry(g) by {}
            }
            return Err(Error::MsgPackDecode(DecodeError::Malformed));
        }
        let r6 = get_u64(bytes, pos5);
        if r6.is_none() {
            proof {
                assert forall|g: EntryView| g.enc_ok() implies s != spec_enc_entry(g) by {
                    if s == spec_enc_entry(g) {
                        assert(starts_at(s, eoff(g, 6), epiece(g, 6)));
                    }
                }
            }
            return Err(Error::MsgPackDecode(DecodeError::Malformed));
        }
        let (tag64, pos6) = r6.unwrap();
        proof {
            assert forall|g: EntryView| g.enc_ok() && s == spec_enc_entry(g) implies g.lvl.spec_tag()
                as u64 == tag64 && eoff(g, 7) == pos6 by {
                assert(starts_at(s, eoff(g, 6), epiece(g, 6)));
                lemma_enc_u64_prefix(s, pos5 as int, g.lvl.spec_tag() as u64, tag64);
            }
        }
        let lvl: LogLevel;
        if tag64 == 1 {
            lvl = LogLevel::Fatal;
        } else if tag64 == 2 {
            lvl = LogLevel::Error;
        } else if tag64 == 4 {
            lvl = LogLevel::Warning;
        } else if tag64 == 8 {
            lvl = LogLevel::Notice;
        } else if tag64 == 16 {
            lvl = LogLevel::Info;
        } else if tag64 == 32 {
            lvl = LogLevel::Debug;
        } else if tag64 == 64 {
            lvl = LogLevel::Trace;
        } else {
            proof {
                assert forall|g: EntryView| g.enc_ok() implies s != spec_enc_entry(g) by {}
            }
            return Err(Error::MsgPackDecode(DecodeError::Malformed));
        }
        let r7 = get_bool(bytes, pos6);
        if r7.is_none() {
            proof {
                assert forall|g: EntryView| g.enc_ok() implies s != spec_enc_entry(g) by {
                    if s == spec_enc_entry(g) {
                        assert(starts_at(s, eoff(g, 7), epiece(g, 7)));
                    }
                }
            }
            return Err(Error::MsgPackDecode(DecodeError::Malformed));
        }
        let (iau, pos7) = r7.unwrap();
        proof {
            assert forall|g: EntryView| g.enc_ok() && s == spec_enc_entry(g) implies g.iau == iau
                && eoff(g, 8) == pos7 by {
                assert(starts_at(s, eoff(g, 7), epiece(g, 7)));
                lemma_starts_at_index(s, pos6 as int, enc_bool(iau), 0);
                lemma_starts_at_index(s, pos6 as int, enc_bool(g.iau), 0);
            }
        }
        let r8 = get_str(bytes, pos7);
        if r8.is_none() {
            proof {
                assert forall|g: EntryView| g.enc_ok() implies s != spec_enc_entry(g) by {
                    if s == spec_enc_entry(g) {
                        assert(starts_at(s, eoff(g, 8), epiece(g, 8)));
                    }
                }
            }
            return Err(Error::MsgPackDecode(DecodeError::Malformed));
        }
        let (msg, pos8) = r8.unwrap();
        proof {
            assert forall|g: EntryView| g.enc_ok() && s == spec_enc_entry(g) implies g.msg == msg@
                && eoff(g, 9) == pos8 by {
                assert(starts_at(s, eoff(g, 8), epiece(g, 8)));
                lemma_enc_str_prefix(s, pos7 as int, g.msg, msg@);
            }
        }
        let r9 = get_obj(bytes, pos8);
        if r9.is_none() {
            proof {
                assert forall|g: EntryView| g.enc_ok() implies s != spec_enc_entry(g) by {
                    if s == spec_enc_entry(g) {
                        assert(starts_at(s, eoff(g, 9), epiece(g, 9)));
                    }
                }
            }
            return Err(Error::MsgPackDecode(DecodeError::Malformed));
        }
        let (dat, pos9) = r9.unwrap();
        proof {
            assert forall|g: EntryView| g.enc_ok() && s == spec_enc_entry(g) implies g.dat
                == deep_fields_from(dat@, 0) && eoff(g, 10) == pos9 by {
                assert(starts_at(s, eoff(g, 9), epiece(g, 9)));
                crate::value::lemma_enc_obj_prefix(s, pos8 as int, g.dat, deep_fields_from(dat@, 0));
            }
        }
        if pos9 != bytes.len() {
            proof {
                assert forall|g: EntryView| g.enc_ok() implies s != spec_enc_entry(g) by {}
            }
            return Err(Error::MsgPackDecode(DecodeError::Malformed));
        }
        let h = LogEntry { sid, sts, stn: stn64 as u32, rts, rtn: rtn64 as u32, lvl, iau, msg, dat };
        proof {
            assert(starts_at(s, 0, seq![0x99u8])) by {
                assert(s.subrange(0, 1) =~= seq![0x99u8]);
            }
            lemma_starts_at_join(s, 0, seq![0x99u8], enc_str(h@.sid));
            lemma_starts_at_join(s, 0, seq![0x99u8] + enc_str(h@.sid), enc_i64(h@.sts));
            lemma_starts_at_join(
                s,
                0,
                seq![0x99u8] + enc_str(h@.sid) + enc_i64(h@.sts),
                enc_u64(h@.stn as u64),
            );
            lemma_starts_at_join(
                s,
                0,
                seq![0x99u8] + enc_str(h@.sid) + enc_i64(h@.sts) + enc_u64(h@.stn as u64),
                enc_i64(h@.rts),
            );
            lemma_starts_at_join(
                s,
                0,
                seq![0x99u8] + enc_str(h@.sid) + enc_i64(h@.sts) + enc_u64(h@.stn as u64) + enc_i64(
                    h@.rts,
                ),
                enc_u64(h@.rtn as u64),
            );
            lemma_starts_at_join(
                s,
                0,
                seq![0x99u8] + enc_str(h@.sid) + enc_i64(h@.sts) + enc_u64(h@.stn as u64) + enc_i64(
                    h@.rts,
                ) + enc_u64(h@.rtn as u64),
                enc_u64(h@.lvl.spec_tag() as u64),
            );
            lemma_starts_at_join(
                s,
                0,
                seq![0x99u8] + enc_str(h@.sid) + enc_i64(h@.sts) + enc_u64(h@.stn as u64) + enc_i64(
                    h@.rts,
                ) + enc_u64(h@.rtn as u64) + enc_u64(h@.lvl.spec_tag() as u64),
                enc_bool(h@.iau),
            );
            lemma_starts_at_join(
                s,
                0,
                seq![0x99u8] + enc_str(h@.sid) + enc_i64(h@.sts) + enc_u64(h@.stn as u64) + enc_i64(
                    h@.rts,
                ) + enc_u64(h@.rtn as u64) + enc_u64(h@.lvl.spec_tag() as u64) + enc_bool(h@.iau),
                enc_str(h@.msg),
            );
            lemma_starts_at_join(
                s,
                0,
                seq![0x99u8] + enc_str(h@.sid) + enc_i64(h@.sts) + enc_u64(h@.stn as u64) + enc_i64(
                    h@.rts,
                ) + enc_u64(h@.rtn as u64) + enc_u64(h@.lvl.spec_tag() as u64) + enc_bool(h@.iau)
                    + enc_str(h@.msg),
                enc_obj(h@.dat),
            );
            assert(s =~= spec_enc_entry(h@));
        }
        Ok(h)
    }
}

} // verus!

verus! {

use crate::value::{json_bytes, json_fields, put_json};
use crate::log_level::{spec_ansi_code, spec_label};
use vstd::string::StrSliceExecFns;
use vstd::utf8::valid_utf8;
use crate::msgpack::string_from_utf8;

/// The text chrono renders for an epoch instant with the pattern
/// `%Y-%m-%d %H:%M:%S%.9f`: it depends on the two numbers alone.
pub uninterp spec fn ts_text(secs: int, nanos: int) -> Seq<char>;

/// The domain of chrono's `DateTime::from_timestamp`: whether it holds
/// the instant representable. It depends on the two numbers alone.
pub uninterp spec fn ts_ok(secs: int, nanos: int) -> bool;

/// Relies on chrono's `DateTime::from_timestamp` and `format` with
/// `%Y-%m-%d %H:%M:%S%.9f`: `None` exactly when chrono holds the
/// instant out of range (a function of the two numbers alone),
/// otherwise the text of that instant.
#[verifier::external_body]
fn format_timestamp(secs: i64, nanos: u32) -> (r: Option<String>)
    ensures
        r is Some <==> ts_ok(secs as int, nanos as int),
        r matches Some(s) ==> s@ == ts_text(secs as int, nanos as int),
{
    match chrono::DateTime::<chrono::Utc>::from_timestamp(secs, nanos) {
        Some(dt) => Some(dt.naive_utc().format("%Y-%m-%d %H:%M:%S%.9f").to_string()),
        None => None,
    }
}

/// The UTF-8 bytes of an entry's rendered line: color escape, received
/// timestamp, sender, padded label, the message between the two
/// separator glyphs, the compact text of the payload, color reset.
pub open spec fn line_bytes(e: EntryView) -> Seq<u8> {
    encode_utf8(spec_ansi_code(e.lvl)) + encode_utf8(ts_text(e.rts as int, e.rtn as int))
        + encode_utf8(" "@) + encode_utf8(e.sid) + encode_utf8(" "@) + encode_utf8(
        spec_label(e.lvl),
    ) + encode_utf8(" \u{25b6} "@) + encode_utf8(e.msg) + encode_utf8(" \u{25c6} "@) + seq![
        0x7bu8,
    ] + json_fields(e.dat, 0) + seq![0x7du8] + encode_utf8("\x1b[0m"@)
}

/// Law: the rendered line of any entry is one valid text, so rendering
/// succeeds exactly when the date library holds the received instant
/// representable.
pub proof fn lemma_line_bytes_valid(e: EntryView)
    ensures
        valid_utf8(line_bytes(e)),
{
    broadcast use vstd::utf8::encode_utf8_valid_utf8;

    let p1 = encode_utf8(spec_ansi_code(e.lvl));
    let p2 = encode_utf8(ts_text(e.rts as int, e.rtn as int));
    let p3 = encode_utf8(" "@);
    let p4 = encode_utf8(e.sid);
    let p5 = encode_utf8(spec_label(e.lvl));
    let p6 = encode_utf8(" \u{25b6} "@);
    let p7 = encode_utf8(e.msg);
    let p8 = encode_utf8(" \u{25c6} "@);
    let p9 = seq![0x7bu8];
    let p10 = crate::value::json_fields(e.dat, 0);
    let p11 = seq![0x7du8];
    let p12 = encode_utf8("\x1b[0m"@);
    crate::value::lemma_ascii_valid(p9);
    crate::value::lemma_ascii_valid(p11);
    crate::value::lemma_json_fields_valid(e.dat, 0);
    vstd::utf8::valid_utf8_concat(p1, p2);
    vstd::utf8::valid_utf8_concat(p1 + p2, p3);
    vstd::utf8::valid_utf8_concat(p1 + p2 + p3, p4);
    vstd::utf8::valid_utf8_concat(p1 + p2 + p3 + p4, p3);
    vstd::utf8::valid_utf8_concat(p1 + p2 + p3 + p4 + p3, p5);
    vstd::utf8::valid_utf8_concat(p1 + p2 + p3 + p4 + p3 + p5, p6);
    vstd::utf8::valid_utf8_concat(p1 + p2 + p3 + p4 + p3 + p5 + p6, p7);
    vstd::utf8::valid_utf8_concat(p1 + p2 + p3 + p4 + p3 + p5 + p6 + p7, p8);
    vstd::utf8::valid_utf8_concat(p1 + p2 + p3 + p4 + p3 + p5 + p6 + p7 + p8, p9);
    vstd::utf8::valid_utf8_concat(p1 + p2 + p3 + p4 + p3 + p5 + p6 + p7 + p8 + p9, p10);
    vstd::utf8::valid_utf8_concat(p1 + p2 + p3 + p4 + p3 + p5 + p6 + p7 + p8 + p9 + p10, p11);
    vstd::utf8::valid_utf8_concat(
        p1 + p2 + p3 + p4 + p3 + p5 + p6 + p7 + p8 + p9 + p10 + p11,
        p12,
    );
}

impl LogEntry {
    /// Renders this entry as one human-readable line. Succeeds exactly
    /// when the date library holds the received instant representable.
    pub fn to_str(&self) -> (r: Option<String>)
        ensures
            r matches Some(s) ==> encode_utf8(s@) == line_bytes(self@),
            r is Some <==> ts_ok(self.rts as int, self.rtn as int),
    {
        let ts = match format_timestamp(self.rts, self.rtn) {
            Some(t) => t,
            None => {
                return None;
            },
        };
        let mut buf: Vec<u8> = Vec::new();
        push_all(&mut buf, self.lvl.to_ansi_code());
        push_all(&mut buf, ts.as_str());
        push_all(&mut buf, " ");
        push_all(&mut buf, self.sid.as_str());
        push_all(&mut buf, " ");
        push_all(&mut buf, self.lvl.to_str());
        push_all(&mut buf, " \u{25b6} ");
        push_all(&mut buf, self.msg.as_str());
        push_all(&mut buf, " \u{25c6} ");
        let ghost before_dat = buf@;
        buf.push(0x7b);
        let ghost ds = deep_fields_from(self.dat@, 0);
        proof {
            lemma_deep_fields(self.dat@);
        }
        let n = self.dat.len();
        let mut i: usize = 0;
        while i < n
            invariant
                i <= n,
                n == self.dat@.len(),
                ds == deep_fields_from(self.dat@, 0),
                ds.len() == n,
                forall|j: int| 0 <= j < n ==> ds[j] == (self.dat@[j].0@, self.dat@[j].1.deep()),
                buf@ == before_dat + seq![0x7bu8] + crate::value::json_fields_front(ds, i as int),
            decreases n - i,
        {
            if i > 0 {
                buf.push(0x2c);
            }
            let pair = &self.dat[i];
            crate::value::push_quoted(&mut buf, pair.0.as_str());
            buf.push(0x3a);
            put_json(&mut buf, &pair.1);
            i = i + 1;
            proof {
                let sep: Seq<u8> = if i - 1 > 0 {
                    seq![0x2cu8]
                } else {
                    Seq::empty()
                };
                assert(buf@ =~= before_dat + seq![0x7bu8] + (crate::value::json_fields_front(
                    ds,
                    i - 1,
                ) + sep + seq![0x22u8] + crate::value::esc(encode_utf8(ds[i - 1].0)) + seq![
                    0x22u8,
                    0x3au8,
                ] + json_bytes(ds[i - 1].1)));
            }
        }
        buf.push(0x7d);
        push_all(&mut buf, "\x1b[0m");
        proof {
            crate::value::lemma_json_fields_front_concat(ds, n as int);
            assert(crate::value::json_fields_front(ds, n as int) + json_fields(ds, n as int)
                =~= crate::value::json_fields_front(ds, n as int));
            assert(buf@ =~= line_bytes(self@));
        }
        let ghost lb = buf@;
        match string_from_utf8(buf) {
            Some(s) => {
                proof {
                    vstd::utf8::encode_utf8_valid_utf8(s@);
                }
                Some(s)
            },
            None => {
                proof {
                    lemma_line_bytes_valid(self@);
                    assert(false);
                }
                None
            },
        }
    }
}

/// Law: rendering is deterministic: two rendered lines of the same
/// entry shape are the same text, byte for byte.
pub proof fn lemma_render_deterministic(e: EntryView, s1: Seq<char>, s2: Seq<char>)
    requires
        encode_utf8(s1) == line_bytes(e),
        encode_utf8(s2) == line_bytes(e),
    ensures
        s1 == s2,
{
    vstd::utf8::encode_utf8_decode_utf8(s1);
    vstd::utf8::encode_utf8_decode_utf8(s2);
}

/// Appends a string's UTF-8 bytes.
#[verifier::loop_isolation(false)]
fn push_all(buf: &mut Vec<u8>, s: &str)
    ensures
        final(buf)@ == old(buf)@ + encode_utf8(s@),
{
    let bytes: Vec<u8> = s.as_bytes_vec();
    let n = bytes.len();
    let mut i: usize = 0;
    while i < n
        invariant
            i <= n,
            n == bytes@.len(),
            bytes@ == encode_utf8(s@),
            buf@ == old(buf)@ + bytes@.subrange(0, i as int),
        decreases n - i,
    {
        buf.push(bytes[i]);
        i = i + 1;
        proof {
            assert(buf@ =~= old(buf)@ + bytes@.subrange(0, i as int));
        }
    }
    proof {
        assert(bytes@.subrange(0, n as int) =~= bytes@);
    }
}

} // verus!

verus! {

/// chrono's date-time of day, declared so the accessors can return it.
#[verifier::external_type_specification]
#[verifier::external_body]
pub struct ExNaiveDateTime(chrono::NaiveDateTime);

impl LogEntry {
    /// Sent datetime. Relies on chrono's `DateTime::from_timestamp`:
    /// `None` exactly when chrono holds the instant out of range.
    #[verifier::external_body]
    pub fn sdt(&self) -> (r: Option<chrono::NaiveDateTime>)
        ensures
            r is Some <==> ts_ok(self.sts as int, self.stn as int),
    {
        chrono::DateTime::<chrono::Utc>::from_timestamp(self.sts, self.stn).map(
            |dt| dt.naive_utc(),
        )
    }

    /// Received datetime. Relies on chrono's `DateTime::from_timestamp`:
    /// `None` exactly when chrono holds the instant out of range.
    #[verifier::external_body]
    pub fn rdt(&self) -> (r: Option<chrono::NaiveDateTime>)
        ensures
            r is Some <==> ts_ok(self.rts as int, self.rtn as int),
    {
        chrono::DateTime::<chrono::Utc>::from_timestamp(self.rts, self.rtn).map(
            |dt| dt.naive_utc(),
        )
    }
}

} // verus!
