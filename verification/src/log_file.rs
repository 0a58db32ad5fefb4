//! The store: the binary header persisted at the front of the mapped
//! file, and the memory-mapped ring of length-prefixed entries.

use vstd::prelude::*;
use vstd::utf8::encode_utf8;
use crate::log_error::{Error, EncodeError, DecodeError};
use crate::log_level::{LogLevel, spec_mask_matches, mask_matches};
use crate::msgpack::{starts_at, enc_u64, enc_i64, enc_bool, enc_str, put_u64, put_i64, put_bool,
    put_str, get_u64, get_i64, get_bool, get_str, lemma_starts_at_split, lemma_starts_at_join,
    lemma_starts_at_index, lemma_enc_u64_prefix, lemma_enc_i64_prefix, lemma_enc_str_prefix};

verus! {

/// Default byte offset where the entry region begins.
pub const DEFAULT_START_POS: u64 = 4 * 1024;

/// Default total capacity of the mapped region in bytes.
pub const DEFAULT_MAX_SIZE: u64 = 16 * 1024 * 1024;

/// The store's self-description, persisted at the front of the file.
#[derive(Debug, PartialEq)]
pub struct LogFileHeader {
    /// Bit mask describing which log levels are saved here.
    pub lvls: u8,
    /// If true, this log file will store only audit entries.
    pub only_audit: bool,
    /// Position (in bytes) where the log actually begins.
    pub start_pos: u64,
    /// Last position (in bytes) that is written.
    pub cur_pos: u64,
    /// Maximum size (in bytes) this file can ever be.
    pub max_size: u64,
    /// Position (in bytes) where the time shows a discontinuity.
    pub seam_pos: u64,
    /// Version of the file spec.
    pub version: i16,
    /// Just a small text message to help commands like `file`.
    pub _helper_msg: String,
}

/// The mathematical shape of a header.
pub struct HeaderView {
    pub lvls: u8,
    pub only_audit: bool,
    pub start_pos: u64,
    pub cur_pos: u64,
    pub max_size: u64,
    pub seam_pos: u64,
    pub version: i16,
    pub helper_msg: Seq<char>,
}

impl View for LogFileHeader {
    type V = HeaderView;

    open spec fn view(&self) -> HeaderView {
        HeaderView {
            lvls: self.lvls,
            only_audit: self.only_audit,
            start_pos: self.start_pos,
            cur_pos: self.cur_pos,
            max_size: self.max_size,
            seam_pos: self.seam_pos,
            version: self.version,
            helper_msg: self._helper_msg@,
        }
    }
}

impl HeaderView {
    /// The header invariants: the cursor lies in the entry region, the
    /// capacity exceeds the header region, and a nonzero seam lies in
    /// the entry region.
    pub open spec fn wf(self) -> bool {
        &&& self.start_pos <= self.cur_pos <= self.max_size
        &&& self.start_pos < self.max_size
        &&& (self.seam_pos == 0 || self.start_pos <= self.seam_pos <= self.max_size)
    }

    /// Whether the header fits the format's length fields.
    pub open spec fn enc_ok(self) -> bool {
        encode_utf8(self.helper_msg).len() < 0x100000000
    }
}

/// The pieces of a header's encoding, in field order after the array
/// marker.
pub open spec fn hpiece(g: HeaderView, k: int) -> Seq<u8> {
    if k == 0 {
        seq![0x98u8]
    } else if k == 1 {
        enc_u64(g.lvls as u64)
    } else if k == 2 {
        enc_bool(g.only_audit)
    } else if k == 3 {
        enc_u64(g.start_pos)
    } else if k == 4 {
        enc_u64(g.cur_pos)
    } else if k == 5 {
        enc_u64(g.max_size)
    } else if k == 6 {
        enc_u64(g.seam_pos)
    } else if k == 7 {
        enc_i64(g.version as i64)
    } else {
        enc_str(g.helper_msg)
    }
}

/// The offset at which piece `k` of a header's encoding stands.
pub open spec fn hoff(g: HeaderView, k: int) -> int
    decreases k,
{
    if k <= 0 {
        0
    } else {
        hoff(g, k - 1) + hpiece(g, k - 1).len()
    }
}

/// The encoding of a header: a fixed array of its eight fields.
pub open spec fn spec_enc_header(g: HeaderView) -> Seq<u8> {
    seq![0x98u8] + enc_u64(g.lvls as u64) + enc_bool(g.only_audit) + enc_u64(g.start_pos) + enc_u64(
        g.cur_pos,
    ) + enc_u64(g.max_size) + enc_u64(g.seam_pos) + enc_i64(g.version as i64) + enc_str(
        g.helper_msg,
    )
}

/// Where each piece of a header's encoding stands inside it.
pub proof fn lemma_split_header(s: Seq<u8>, g: HeaderView)
    requires
        s == spec_enc_header(g),
    ensures
        forall|k: int| 0 <= k < 9 ==> starts_at(s, hoff(g, k), hpiece(g, k)),
        s.len() == hoff(g, 9),
{
    reveal_with_fuel(hoff, 11);
    let p0 = seq![0x98u8];
    let p1 = enc_u64(g.lvls as u64);
    let p2 = enc_bool(g.only_audit);
    let p3 = enc_u64(g.start_pos);
    let p4 = enc_u64(g.cur_pos);
    let p5 = enc_u64(g.max_size);
    let p6 = enc_u64(g.seam_pos);
    let p7 = enc_i64(g.version as i64);
    let p8 = enc_str(g.helper_msg);
    assert(starts_at(s, 0, s)) by {
        assert(s.subrange(0, s.len() as int) =~= s);
    }
    lemma_starts_at_split(s, 0, p0 + p1 + p2 + p3 + p4 + p5 + p6 + p7, p8);
    lemma_starts_at_split(s, 0, p0 + p1 + p2 + p3 + p4 + p5 + p6, p7);
    lemma_starts_at_split(s, 0, p0 + p1 + p2 + p3 + p4 + p5, p6);
    lemma_starts_at_split(s, 0, p0 + p1 + p2 + p3 + p4, p5);
    lemma_starts_at_split(s, 0, p0 + p1 + p2 + p3, p4);
    lemma_starts_at_split(s, 0, p0 + p1 + p2, p3);
    lemma_starts_at_split(s, 0, p0 + p1, p2);
    lemma_starts_at_split(s, 0, p0, p1);
    assert(hoff(g, 1) == 1);
    assert(hoff(g, 2) == 1 + p1.len());
    assert(hoff(g, 3) == hoff(g, 2) + p2.len());
    assert(hoff(g, 4) == hoff(g, 3) + p3.len());
    assert(hoff(g, 5) == hoff(g, 4) + p4.len());
    assert(hoff(g, 6) == hoff(g, 5) + p5.len());
    assert(hoff(g, 7) == hoff(g, 6) + p6.len());
    assert(hoff(g, 8) == hoff(g, 7) + p7.len());
    assert(hoff(g, 9) == hoff(g, 8) + p8.len());
}

impl LogFileHeader {
    /// Encodes this header into the binary schema.
    pub fn as_vec_u8(&self) -> (r: Result<Vec<u8>, Error>)
        ensures
            r matches Ok(v) ==> v@ == spec_enc_header(self@) && self@.enc_ok(),
            r matches Err(e) ==> (e matches Error::MsgPackEncode(EncodeError::TooLong))
                && !self@.enc_ok(),
    {
        let mut buf: Vec<u8> = Vec::new();
        buf.push(0x98);
        put_u64(&mut buf, self.lvls as u64);
        put_bool(&mut buf, self.only_audit);
        put_u64(&mut buf, self.start_pos);
        put_u64(&mut buf, self.cur_pos);
        put_u64(&mut buf, self.max_size);
        put_u64(&mut buf, self.seam_pos);
        put_i64(&mut buf, self.version as i64);
        match put_str(&mut buf, self._helper_msg.as_str()) {
            Ok(_) => {},
            Err(e) => {
                return Err(e);
            },
        }
        proof {
            assert(buf@ =~= spec_enc_header(self@));
        }
        Ok(buf)
    }

    /// Decodes a header from the binary schema. Succeeds exactly on the
    /// encoding of a header that carries the supported version and
    /// satisfies the invariants; so decoding what [`Self::as_vec_u8`]
    /// wrote gives the header back.
    pub fn from_vec_u8(bytes: &Vec<u8>) -> (r: Result<LogFileHeader, Error>)
        ensures
            r matches Ok(h) ==> bytes@ == spec_enc_header(h@) && h@.wf() && h.version == 1
                && h@.enc_ok(),
            forall|g: HeaderView|
                g.wf() && g.version == 1 && g.enc_ok() && bytes@ == spec_enc_header(g) ==> (
                r matches Ok(h) && h@ == g),
            r matches Err(e) ==> (e matches Error::MsgPackDecode(_)),
    {
        let ghost s = bytes@;
        proof {
            assert forall|g: HeaderView| s == spec_enc_header(g) implies starts_at(
                s,
                0,
                seq![0x98u8],
            ) && (forall|k: int| 0 <= k < 9 ==> starts_at(s, hoff(g, k), hpiece(g, k)))
                && s.len() == hoff(g, 9) by {
                lemma_split_header(s, g);
            }
        }
        if bytes.len() == 0 || bytes[0] != 0x98 {
            return Err(Error::MsgPackDecode(DecodeError::Malformed));
        }
        let r1 = get_u64(bytes, 1);
        if r1.is_none() {
            proof {
                assert forall|g: HeaderView| s != spec_enc_header(g) by {
                    if s == spec_enc_header(g) {
                        assert(starts_at(s, hoff(g, 1), hpiece(g, 1)));
                        assert(hoff(g, 1) == 1);
                    }
                }
            }
            return Err(Error::MsgPackDecode(DecodeError::Malformed));
        }
        let (lvls64, pos1) = r1.unwrap();
        proof {
            assert forall|g: HeaderView| s == spec_enc_header(g) implies g.lvls == lvls64 && hoff(
                g,
                2,
            ) == pos1 by {
                assert(starts_at(s, hoff(g, 1), hpiece(g, 1)));
                lemma_enc_u64_prefix(s, 1, g.lvls as u64, lvls64);
            }
        }
        if lvls64 > 0xff {
            proof {
                assert forall|g: HeaderView| s != spec_enc_header(g) by {}
            }
            return Err(Error::MsgPackDecode(DecodeError::Malformed));
        }
        let r2 = get_bool(bytes, pos1);
        if r2.is_none() {
            proof {
                assert forall|g: HeaderView| s != spec_enc_header(g) by {
                    if s == spec_enc_header(g) {
                        assert(starts_at(s, hoff(g, 2), hpiece(g, 2)));
                    }
                }
            }
            return Err(Error::MsgPackDecode(DecodeError::Malformed));
        }
        let (only_audit, pos2) = r2.unwrap();
        proof {
            assert forall|g: HeaderView| s == spec_enc_header(g) implies g.only_audit == only_audit
                && hoff(g, 3) == pos2 by {
                assert(starts_at(s, hoff(g, 2), hpiece(g, 2)));
                lemma_starts_at_index(s, pos1 as int, enc_bool(only_audit), 0);
                lemma_starts_at_index(s, pos1 as int, enc_bool(g.only_audit), 0);
            }
        }
        let r3 = get_u64(bytes, pos2);
        if r3.is_none() {
            proof {
                assert forall|g: HeaderView| s != spec_enc_header(g) by {
                    if s == spec_enc_header(g) {
                        assert(starts_at(s, hoff(g, 3), hpiece(g, 3)));
                    }
                }
            }
            return Err(Error::MsgPackDecode(DecodeError::Malformed));
        }
        let (start_pos, pos3) = r3.unwrap();
        proof {
            assert forall|g: HeaderView| s == spec_enc_header(g) implies g.start_pos == start_pos
                && hoff(g, 4) == pos3 by {
                assert(starts_at(s, hoff(g, 3), hpiece(g, 3)));
                lemma_enc_u64_prefix(s, pos2 as int, g.start_pos, start_pos);
            }
        }
        let r4 = get_u64(bytes, pos3);
        if r4.is_none() {
            proof {
                assert forall|g: HeaderView| s != spec_enc_header(g) by {
                    if s == spec_enc_header(g) {
                        assert(starts_at(s, hoff(g, 4), hpiece(g, 4)));
                    }
                }
            }
            return Err(Error::MsgPackDecode(DecodeError::Malformed));
        }
        let (cur_pos, pos4) = r4.unwrap();
        proof {
            assert forall|g: HeaderView| s == spec_enc_header(g) implies g.cur_pos == cur_pos
                && hoff(g, 5) == pos4 by {
                assert(starts_at(s, hoff(g, 4), hpiece(g, 4)));
                lemma_enc_u64_prefix(s, pos3 as int, g.cur_pos, cur_pos);
            }
        }
        let r5 = get_u64(bytes, pos4);
        if r5.is_none() {
            proof {
                assert forall|g: HeaderView| s != spec_enc_header(g) by {
                    if s == spec_enc_header(g) {
                        assert(starts_at(s, hoff(g, 5), hpiece(g, 5)));
                    }
                }
            }
            return Err(Error::MsgPackDecode(DecodeError::Malformed));
        }
        let (max_size, pos5) = r5.unwrap();
        proof {
            assert forall|g: HeaderView| s == spec_enc_header(g) implies g.max_size == max_size
                && hoff(g, 6) == pos5 by {
                assert(starts_at(s, hoff(g, 5), hpiece(g, 5)));
                lemma_enc_u64_prefix(s, pos4 as int, g.max_size, max_size);
            }
        }
        let r6 = get_u64(bytes, pos5);
        if r6.is_none() {
            proof {
                assert forall|g: HeaderView| s != spec_enc_header(g) by {
                    if s == spec_enc_header(g) {
                        assert(starts_at(s, hoff(g, 6), hpiece(g, 6)));
                    }
                }
            }
            return Err(Error::MsgPackDecode(DecodeError::Malformed));
        }
        let (seam_pos, pos6) = r6.unwrap();
        proof {
            assert forall|g: HeaderView| s == spec_enc_header(g) implies g.seam_pos == seam_pos
                && hoff(g, 7) == pos6 by {
                assert(starts_at(s, hoff(g, 6), hpiece(g, 6)));
                lemma_enc_u64_prefix(s, pos5 as int, g.seam_pos, seam_pos);
            }
        }
        let r7 = get_i64(bytes, pos6);
        if r7.is_none() {
            proof {
                assert forall|g: HeaderView| s != spec_enc_header(g) by {
                    if s == spec_enc_header(g) {
                        assert(starts_at(s, hoff(g, 7), hpiece(g, 7)));
                    }
                }
            }
            return Err(Error::MsgPackDecode(DecodeError::Malformed));
        }
        let (version, pos7) = r7.unwrap();
        proof {
            assert forall|g: HeaderView| s == spec_enc_header(g) implies g.version as i64 == version
                && hoff(g, 8) == pos7 by {
                assert(starts_at(s, hoff(g, 7), hpiece(g, 7)));
                lemma_enc_i64_prefix(s, pos6 as int, g.version as i64, version);
            }
        }
        if version != 1 {
            proof {
                assert forall|g: HeaderView| g.version == 1 implies s != spec_enc_header(g) by {}
            }
            return Err(Error::MsgPackDecode(DecodeError::VersionMismatch));
        }
        let r8 = get_str(bytes, pos7);
        if r8.is_none() {
            proof {
                assert forall|g: HeaderView| g.enc_ok() implies s != spec_enc_header(g) by {
                    if s == spec_enc_header(g) {
                        assert(starts_at(s, hoff(g, 8), hpiece(g, 8)));
                    }
                }
            }
            return Err(Error::MsgPackDecode(DecodeError::Malformed));
        }
        let (helper, pos8) = r8.unwrap();
        proof {
            assert forall|g: HeaderView|
                g.enc_ok() && s == spec_enc_header(g) implies g.helper_msg == helper@ && hoff(g, 9)
                == pos8 by {
                assert(starts_at(s, hoff(g, 8), hpiece(g, 8)));
                lemma_enc_str_prefix(s, pos7 as int, g.helper_msg, helper@);
            }
        }
        if pos8 != bytes.len() {
            proof {
                assert forall|g: HeaderView| g.enc_ok() implies s != spec_enc_header(g) by {}
            }
            return Err(Error::MsgPackDecode(DecodeError::Malformed));
        }
        let h = LogFileHeader {
            lvls: lvls64 as u8,
            only_audit,
            start_pos,
            cur_pos,
            max_size,
            seam_pos,
            version: 1,
            _helper_msg: helper,
        };
        if !(start_pos <= cur_pos && cur_pos <= max_size && start_pos < max_size && (seam_pos == 0
            || (start_pos <= seam_pos && seam_pos <= max_size))) {
            proof {
                assert forall|g: HeaderView| g.wf() && g.enc_ok() implies s != spec_enc_header(
                    g,
                ) by {}
            }
            return Err(Error::MsgPackDecode(DecodeError::Malformed));
        }
        proof {
            assert(starts_at(s, 0, seq![0x98u8])) by {
                assert(s.subrange(0, 1) =~= seq![0x98u8]);
            }
            lemma_starts_at_join(s, 0, seq![0x98u8], enc_u64(h@.lvls as u64));
            lemma_starts_at_join(
                s,
                0,
                seq![0x98u8] + enc_u64(h@.lvls as u64),
                enc_bool(h@.only_audit),
            );
            lemma_starts_at_join(
                s,
                0,
                seq![0x98u8] + enc_u64(h@.lvls as u64) + enc_bool(h@.only_audit),
                enc_u64(h@.start_pos),
            );
            lemma_starts_at_join(
                s,
                0,
                seq![0x98u8] + enc_u64(h@.lvls as u64) + enc_bool(h@.only_audit) + enc_u64(
                    h@.start_pos,
                ),
                enc_u64(h@.cur_pos),
            );
            lemma_starts_at_join(
                s,
                0,
                seq![0x98u8] + enc_u64(h@.lvls as u64) + enc_bool(h@.only_audit) + enc_u64(
                    h@.start_pos,
                ) + enc_u64(h@.cur_pos),
                enc_u64(h@.max_size),
            );
            lemma_starts_at_join(
                s,
                0,
                seq![0x98u8] + enc_u64(h@.lvls as u64) + enc_bool(h@.only_audit) + enc_u64(
                    h@.start_pos,
                ) + enc_u64(h@.cur_pos) + enc_u64(h@.max_size),
                enc_u64(h@.seam_pos),
            );
            lemma_starts_at_join(
                s,
                0,
                seq![0x98u8] + enc_u64(h@.lvls as u64) + enc_bool(h@.only_audit) + enc_u64(
                    h@.start_pos,
                ) + enc_u64(h@.cur_pos) + enc_u64(h@.max_size) + enc_u64(h@.seam_pos),
                enc_i64(h@.version as i64),
            );
            lemma_starts_at_join(
                s,
                0,
                seq![0x98u8] + enc_u64(h@.lvls as u64) + enc_bool(h@.only_audit) + enc_u64(
                    h@.start_pos,
                ) + enc_u64(h@.cur_pos) + enc_u64(h@.max_size) + enc_u64(h@.seam_pos) + enc_i64(
                    h@.version as i64,
                ),
                enc_str(h@.helper_msg),
            );
            assert(s =~= spec_enc_header(h@));
        }
        Ok(h)
    }
}

impl Default for LogFileHeader {
    /// The defaults: warnings and worse, 4 KiB header region, 16 MiB
    /// capacity, no wraparound yet.
    fn default() -> (r: LogFileHeader)
        ensures
            r@ == default_header(),
    {
        let lvls: u8 = 1 | 2 | 4 | 8;
        proof {
            assert((1u8 | 2 | 4 | 8) == 15) by (bit_vector);
        }
        LogFileHeader {
            lvls,
            only_audit: false,
            start_pos: DEFAULT_START_POS,
            cur_pos: DEFAULT_START_POS,
            max_size: DEFAULT_MAX_SIZE,
            seam_pos: 0,
            version: 1,
            _helper_msg: "log file of github.com/gjvnq/rs-loged".to_owned(),
        }
    }
}

/// The header a fresh store starts from.
pub open spec fn default_header() -> HeaderView {
    HeaderView {
        lvls: 15,
        only_audit: false,
        start_pos: DEFAULT_START_POS,
        cur_pos: DEFAULT_START_POS,
        max_size: DEFAULT_MAX_SIZE,
        seam_pos: 0,
        version: 1,
        helper_msg: "log file of github.com/gjvnq/rs-loged"@,
    }
}

} // verus!

verus! {

use memmap::MmapMut;
use crate::log_entry::{LogEntry, EntryView, spec_enc_entry};
use crate::msgpack::{be, be_val, push_be, p256, lemma_be_len, lemma_be_val_of_be};

/// memmap's mutable memory map, declared so the store can hold one.
#[verifier::external_type_specification]
#[verifier::external_body]
pub struct ExMmapMut(MmapMut);

/// The bytes a mapped region holds.
pub uninterp spec fn mm_bytes(m: MmapMut) -> Seq<u8>;

/// Relies on MmapMut's Deref to a byte slice: the region's length.
#[verifier::external_body]
fn mm_len(m: &MmapMut) -> (r: usize)
    ensures
        r == mm_bytes(*m).len(),
{
    m.len()
}

/// Relies on MmapMut's DerefMut to a byte slice: copies `data` over the
/// bytes at `at`, leaving the rest of the region unchanged.
#[verifier::external_body]
fn mm_write(m: &mut MmapMut, at: usize, data: &Vec<u8>)
    requires
        at + data@.len() <= mm_bytes(*old(m)).len(),
    ensures
        mm_bytes(*final(m)) == mm_bytes(*old(m)).take(at as int) + data@ + mm_bytes(
            *old(m),
        ).skip(at + data@.len()),
{
    m[at..at + data.len()].copy_from_slice(data.as_slice());
}

/// Relies on MmapMut's Deref to a byte slice: copies `len` bytes at
/// `at` out of the region.
#[verifier::external_body]
fn mm_read(m: &MmapMut, at: usize, len: usize) -> (r: Vec<u8>)
    requires
        at + len <= mm_bytes(*m).len(),
    ensures
        r@ == mm_bytes(*m).subrange(at as int, at + len),
{
    m[at..at + len].to_vec()
}

/// Relies on MmapMut::flush: asks the system to write the mapped pages
/// back to the file; the region's bytes are not changed by it.
#[verifier::external_body]
fn mm_flush(m: &MmapMut) -> (r: Result<(), std::io::Error>)
{
    m.flush()
}

/// The runtime object binding a header to a live memory mapping.
#[derive(Debug)]
pub struct LogFile {
    header: LogFileHeader,
    mmap: MmapMut,
}

/// The length-prefixed record of an entry: four big-endian length
/// bytes, then the encoded entry.
pub open spec fn spec_record(e: EntryView) -> Seq<u8> {
    be(spec_enc_entry(e).len(), 4) + spec_enc_entry(e)
}

/// Law: after its four big-endian length bytes, a record holds exactly
/// the entry's encoding — so the bytes an append writes decode back to
/// the entry through [`LogEntry::from_vec_u8`]'s round-trip contract.
pub proof fn lemma_record_body(e: EntryView)
    ensures
        spec_record(e).len() == spec_enc_entry(e).len() + 4,
        spec_record(e).skip(4) == spec_enc_entry(e),
        be_val(spec_record(e).take(4)) == spec_enc_entry(e).len() || spec_enc_entry(e).len()
            >= 0x100000000,
{
    lemma_be_len(spec_enc_entry(e).len(), 4);
    assert(spec_record(e).skip(4) =~= spec_enc_entry(e));
    assert(spec_record(e).take(4) =~= be(spec_enc_entry(e).len(), 4));
    if spec_enc_entry(e).len() < 0x100000000 {
        reveal_with_fuel(p256, 9);
        lemma_be_val_of_be(spec_enc_entry(e).len(), 4);
    }
}

/// Whether the store's configuration excludes the entry.
pub open spec fn rejected_by_policy(h: HeaderView, e: EntryView) -> bool {
    (h.only_audit && !e.iau) || !spec_mask_matches(h.lvls, e.lvl)
}

/// Whether an entry can be framed: it fits the format and its record's
/// length fits the four length bytes.
pub open spec fn framable(e: EntryView) -> bool {
    e.enc_ok() && spec_enc_entry(e).len() < 0x100000000
}

/// The region after `rec` is copied over the bytes at `at`.
pub open spec fn write_at(old_b: Seq<u8>, at: int, rec: Seq<u8>) -> Seq<u8> {
    old_b.take(at) + rec + old_b.skip(at + rec.len())
}

impl LogFile {
    /// The header as the store sees it.
    pub closed spec fn header_view(self) -> HeaderView {
        self.header@
    }

    /// The bytes of the mapped region.
    pub closed spec fn bytes(self) -> Seq<u8> {
        mm_bytes(self.mmap)
    }

    /// The store invariant: a well-formed header whose capacity is the
    /// mapped region's length.
    pub closed spec fn wf(self) -> bool {
        self.header@.wf() && mm_bytes(self.mmap).len() == self.header.max_size
    }

    /// The store's header, for inspection.
    pub fn header(&self) -> (r: &LogFileHeader)
        ensures
            r@ == self.header_view(),
    {
        &self.header
    }

    /// Binds a fresh default header to a mapped region of `max_size`
    /// bytes. The caller opens the file, sizes it to `max_size`, and
    /// maps it; the capacity must exceed the default header region.
    pub fn from_map(mmap: MmapMut, max_size: u64) -> (r: LogFile)
        requires
            mm_bytes(mmap).len() == max_size,
            max_size > DEFAULT_START_POS,
        ensures
            r.wf(),
            r.header_view() == (HeaderView { max_size: max_size, ..default_header() }),
            r.bytes() == mm_bytes(mmap),
    {
        let mut header = LogFileHeader::default();
        header.max_size = max_size;
        LogFile { header, mmap }
    }

    /// Sets the store's acceptance policy: the level mask and the
    /// audit-only flag; nothing is written to the region.
    pub fn set_policy(&mut self, lvls: u8, only_audit: bool)
        requires
            old(self).wf(),
        ensures
            final(self).wf(),
            final(self).bytes() == old(self).bytes(),
            final(self).header_view() == (HeaderView {
                lvls: lvls,
                only_audit: only_audit,
                ..old(self).header_view()
            }),
    {
        self.header.lvls = lvls;
        self.header.only_audit = only_audit;
    }

    /// Reads `len` bytes at offset `at` of the mapped region.
    pub fn read_bytes(&self, at: usize, len: usize) -> (r: Vec<u8>)
        requires
            self.wf(),
            at + len <= self.bytes().len(),
        ensures
            r@ == self.bytes().subrange(at as int, at + len),
    {
        mm_read(&self.mmap, at, len)
    }

    /// Encodes the header and writes it at byte offset zero of the
    /// region, never exceeding `start_pos` bytes; the in-memory header
    /// is left as it was.
    pub fn save_header(&mut self) -> (r: Result<(), Error>)
        requires
            old(self).wf(),
        ensures
            final(self).wf(),
            final(self).header_view() == old(self).header_view(),
            r matches Ok(u) ==> {
                &&& old(self).header_view().enc_ok()
                &&& spec_enc_header(old(self).header_view()).len()
                    <= old(self).header_view().start_pos
                &&& final(self).bytes() == write_at(
                    old(self).bytes(),
                    0,
                    spec_enc_header(old(self).header_view()),
                )
            },
            r matches Err(e) ==> {
                &&& final(self).bytes() == old(self).bytes()
                &&& (e matches Error::MsgPackEncode(_))
                &&& !(old(self).header_view().enc_ok() && spec_enc_header(
                    old(self).header_view(),
                ).len() <= old(self).header_view().start_pos)
            },
    {
        let dat = match self.header.as_vec_u8() {
            Ok(v) => v,
            Err(e) => {
                return Err(e);
            },
        };
        let mlen = mm_len(&self.mmap);
        if (dat.len() as u64) > self.header.start_pos {
            return Err(Error::MsgPackEncode(EncodeError::TooLong));
        }
        mm_write(&mut self.mmap, 0, &dat);
        proof {
            assert(mm_bytes(self.mmap).take(0) =~= Seq::<u8>::empty());
            assert(final(self).bytes() =~= write_at(
                old(self).bytes(),
                0,
                spec_enc_header(old(self).header_view()),
            ));
        }
        Ok(())
    }

    /// Appends one entry. The policy is checked first; an accepted
    /// entry is encoded and written as a length-prefixed record at the
    /// cursor, wrapping back to `start_pos` (and marking the seam at
    /// the old cursor) when the record would cross the end. The cursor
    /// advances only after a successful write; a record that cannot fit
    /// the entry region at all is rejected whole.
    pub fn add_entry(&mut self, entry: &LogEntry) -> (r: Result<(), Error>)
        requires
            old(self).wf(),
        ensures
            final(self).wf(),
            r matches Err(e) ==> final(self).header_view() == old(self).header_view() && final(self).bytes() == old(self).bytes(),
            rejected_by_policy(old(self).header_view(), entry@) ==> (r matches Err(
                Error::PolicyRejected,
            )),
            !rejected_by_policy(old(self).header_view(), entry@) && !framable(entry@) ==> (
            r matches Err(Error::MsgPackEncode(_))),
            !rejected_by_policy(old(self).header_view(), entry@) && framable(entry@)
                && old(self).header_view().start_pos + spec_record(entry@).len() > old(self).header_view().max_size ==> (r matches Err(Error::EntryTooLarge)),
            !rejected_by_policy(old(self).header_view(), entry@) && framable(entry@)
                && old(self).header_view().start_pos + spec_record(entry@).len() <= old(self).header_view().max_size ==> {
                &&& r matches Ok(u)
                &&& (if old(self).header_view().cur_pos + spec_record(entry@).len() <= old(self).header_view().max_size {
                    final(self).header_view() == (HeaderView {
                        cur_pos: (old(self).header_view().cur_pos + spec_record(entry@).len()) as u64,
                        ..old(self).header_view()
                    }) && final(self).bytes() == write_at(
                        old(self).bytes(),
                        old(self).header_view().cur_pos as int,
                        spec_record(entry@),
                    )
                } else {
                    final(self).header_view() == (HeaderView {
                        seam_pos: old(self).header_view().cur_pos,
                        cur_pos: (old(self).header_view().start_pos + spec_record(entry@).len()) as u64,
                        ..old(self).header_view()
                    }) && final(self).bytes() == write_at(
                        old(self).bytes(),
                        old(self).header_view().start_pos as int,
                        spec_record(entry@),
                    )
                })
            },
    {
        if self.header.only_audit && !entry.iau {
            return Err(Error::PolicyRejected);
        }
        if !mask_matches(self.header.lvls, entry.lvl) {
            return Err(Error::PolicyRejected);
        }
        let enc = match entry.as_vec_u8() {
            Ok(v) => v,
            Err(e) => {
                return Err(e);
            },
        };
        if (enc.len() as u64) >= 0x100000000 {
            return Err(Error::MsgPackEncode(EncodeError::TooLong));
        }
        let len32: u64 = enc.len() as u64;
        let rec_len: u64 = len32 + 4;
        let mlen = mm_len(&self.mmap);
        if rec_len > self.header.max_size - self.header.start_pos {
            proof {
                lemma_be_len(spec_enc_entry(entry@).len(), 4);
            }
            return Err(Error::EntryTooLarge);
        }
        proof {
            lemma_be_len(spec_enc_entry(entry@).len(), 4);
        }
        let wrap = rec_len > self.header.max_size - self.header.cur_pos;
        let at: u64 = if wrap {
            self.header.seam_pos = self.header.cur_pos;
            self.header.start_pos
        } else {
            self.header.cur_pos
        };
        let mut rec: Vec<u8> = Vec::new();
        proof {
            reveal_with_fuel(p256, 9);
        }
        push_be(&mut rec, len32, 4);
        let mut i: usize = 0;
        let n = enc.len();
        while i < n
            invariant
                i <= n,
                n == enc@.len(),
                rec@ == be(len32 as nat, 4) + enc@.subrange(0, i as int),
            decreases n - i,
        {
            rec.push(enc[i]);
            i = i + 1;
            proof {
                assert(rec@ =~= be(len32 as nat, 4) + enc@.subrange(0, i as int));
            }
        }
        proof {
            assert(enc@.subrange(0, n as int) =~= enc@);
            assert(rec@ =~= spec_record(entry@));
        }
        mm_write(&mut self.mmap, at as usize, &rec);
        self.header.cur_pos = at + rec_len;
        proof {
            assert(final(self).bytes() =~= write_at(old(self).bytes(), at as int, spec_record(entry@)));
        }
        Ok(())
    }

    /// Asks the operating environment to flush the mapped pages to
    /// durable storage; this is the only durability checkpoint.
    pub fn sync(&mut self) -> (r: Result<(), Error>)
        requires
            old(self).wf(),
        ensures
            *final(self) == *old(self),
            final(self).wf(),
            r matches Err(e) ==> (e matches Error::IOErr(_)),
    {
        match mm_flush(&self.mmap) {
            Ok(_) => Ok(()),
            Err(e) => Err(Error::IOErr(e)),
        }
    }

    /// Flushes, then releases the mapping and the underlying file
    /// handle; no further operation is valid on the store.
    pub fn close(self) -> (r: Result<(), Error>)
        requires
            self.wf(),
        ensures
            r matches Err(e) ==> (e matches Error::IOErr(_)),
    {
        match mm_flush(&self.mmap) {
            Ok(_) => Ok(()),
            Err(e) => Err(Error::IOErr(e)),
        }
    }
}

} // verus!
