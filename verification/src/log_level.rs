//! Severity levels and their bitmask combinator.
//!
//! Each level carries a distinct power-of-two tag so that an arbitrary
//! subset of levels can be stored in one byte by OR-ing the tags.

use vstd::prelude::*;

verus! {

/// One of the seven severity levels of a log entry.
#[derive(Clone, Copy, PartialEq, Eq, Structural, Debug, Hash)]
pub enum LogLevel {
    Fatal,
    Error,
    Warning,
    Notice,
    Info,
    Debug,
    Trace,
}

impl LogLevel {
    /// The distinct power-of-two tag of this level, within one byte.
    pub open spec fn spec_tag(self) -> u8 {
        match self {
            LogLevel::Fatal => 1,
            LogLevel::Error => 2,
            LogLevel::Warning => 4,
            LogLevel::Notice => 8,
            LogLevel::Info => 16,
            LogLevel::Debug => 32,
            LogLevel::Trace => 64,
        }
    }

    /// The numeric tag of this level.
    #[verifier::when_used_as_spec(spec_tag)]
    pub fn tag(self) -> (r: u8)
        ensures
            r == self.spec_tag(),
    {
        match self {
            LogLevel::Fatal => 1,
            LogLevel::Error => 2,
            LogLevel::Warning => 4,
            LogLevel::Notice => 8,
            LogLevel::Info => 16,
            LogLevel::Debug => 32,
            LogLevel::Trace => 64,
        }
    }
}

impl Default for LogLevel {
    /// The level used when none is given.
    fn default() -> (r: LogLevel)
        ensures
            r == LogLevel::Debug,
    {
        LogLevel::Debug
    }
}

/// The combined bitmask of a sequence of levels: OR of their tags.
pub open spec fn spec_mask(levels: Seq<LogLevel>) -> u8
    decreases levels.len(),
{
    if levels.len() == 0 {
        0
    } else {
        spec_mask(levels.drop_last()) | levels.last().spec_tag()
    }
}

/// True when the tag bit of `level` is set in `mask`.
pub open spec fn spec_mask_matches(mask: u8, level: LogLevel) -> bool {
    mask & level.spec_tag() != 0
}

/// Reduces a set of levels, given in any order and possibly with
/// duplicates, to their combined one-byte bitmask.
pub fn log_levels_to_bitmask(levels: &[LogLevel]) -> (r: u8)
    ensures
        r == spec_mask(levels@),
{
    let mut ans: u8 = 0;
    let mut i: usize = 0;
    while i < levels.len()
        invariant
            i <= levels@.len(),
            ans == spec_mask(levels@.take(i as int)),
        decreases levels@.len() - i,
    {
        ans = ans | levels[i].tag();
        i = i + 1;
        proof {
            assert(levels@.take(i as int).drop_last() =~= levels@.take(i - 1));
        }
    }
    proof {
        assert(levels@.take(levels@.len() as int) =~= levels@);
    }
    ans
}

/// True when the severity `level` is admitted by the bitmask `mask`.
pub fn mask_matches(mask: u8, level: LogLevel) -> (r: bool)
    ensures
        r == spec_mask_matches(mask, level),
{
    mask & level.tag() != 0
}

/// Law: the tags are pairwise distinct powers of two — two tags share
/// a set bit only when the levels are the same.
pub proof fn lemma_tag_disjoint(l1: LogLevel, l2: LogLevel)
    ensures
        (l1.spec_tag() & l2.spec_tag() != 0) <==> l1 == l2,
{
    let t1 = l1.spec_tag();
    let t2 = l2.spec_tag();
    assert(t1 == 1 || t1 == 2 || t1 == 4 || t1 == 8 || t1 == 16 || t1 == 32 || t1 == 64);
    assert(t2 == 1 || t2 == 2 || t2 == 4 || t2 == 8 || t2 == 16 || t2 == 32 || t2 == 64);
    assert(forall|a: u8, b: u8|
        (a == 1 || a == 2 || a == 4 || a == 8 || a == 16 || a == 32 || a == 64)
            && (b == 1 || b == 2 || b == 4 || b == 8 || b == 16 || b == 32 || b == 64)
            ==> ((a & b != 0) <==> a == b)) by (bit_vector);
    if l1 == l2 {
    } else {
        assert(l1.spec_tag() != l2.spec_tag());
    }
}

/// Law: combining masks is commutative and idempotent — OR-ing a
/// duplicate tag is a no-op.
pub proof fn lemma_mask_or_comm_idem(a: u8, b: u8)
    ensures
        a | b == b | a,
        (a | b) | b == a | b,
{
    assert(forall|x: u8, y: u8| (x | y) == (y | x) && ((x | y) | y) == (x | y)) by (bit_vector);
}

/// Law: a level is matched by the mask built from a sequence of levels
/// exactly when that level occurs in the sequence.
pub proof fn lemma_mask_matches_iff_member(levels: Seq<LogLevel>, level: LogLevel)
    ensures
        spec_mask_matches(spec_mask(levels), level) <==> levels.contains(level),
    decreases levels.len(),
{
    assert(forall|x: u8, y: u8, t: u8|
        ((x | y) & t != 0) <==> (x & t != 0 || y & t != 0)) by (bit_vector);
    if levels.len() == 0 {
        assert(forall|t: u8| (0u8 & t) == 0) by (bit_vector);
    } else {
        lemma_mask_matches_iff_member(levels.drop_last(), level);
        lemma_tag_disjoint(levels.last(), level);
        if levels.contains(level) {
            if levels.last() == level {
            } else {
                let i = choose|i: int| 0 <= i < levels.len() && levels[i] == level;
                assert(levels.drop_last()[i] == level);
            }
        } else {
            assert(!levels.drop_last().contains(level)) by {
                if levels.drop_last().contains(level) {
                    let i = choose|i: int|
                        0 <= i < levels.drop_last().len() && levels.drop_last()[i] == level;
                    assert(levels[i] == level);
                }
            }
        }
    }
}

} // verus!

verus! {

/// The terminal color escape of each level.
pub open spec fn spec_ansi_code(l: LogLevel) -> Seq<char> {
    match l {
        LogLevel::Fatal => "\x1b[0;35m"@,
        LogLevel::Error => "\x1b[0;31m"@,
        LogLevel::Warning => "\x1b[0;33m"@,
        LogLevel::Notice => "\x1b[0;32m"@,
        LogLevel::Info => "\x1b[0;34m"@,
        LogLevel::Debug => "\x1b[0;36m"@,
        LogLevel::Trace => "\x1b[0;m"@,
    }
}

/// The padded label of each level.
pub open spec fn spec_label(l: LogLevel) -> Seq<char> {
    match l {
        LogLevel::Fatal => "FATAL  "@,
        LogLevel::Error => "ERROR  "@,
        LogLevel::Warning => "WARNING"@,
        LogLevel::Notice => "NOTICE "@,
        LogLevel::Info => "INFO   "@,
        LogLevel::Debug => "DEBUG  "@,
        LogLevel::Trace => "TRACE  "@,
    }
}

impl LogLevel {
    /// The color escape that opens this level's rendered line.
    pub fn to_ansi_code(&self) -> (r: &'static str)
        ensures
            r@ == spec_ansi_code(*self),
    {
        match self {
            LogLevel::Fatal => "\x1b[0;35m",
            LogLevel::Error => "\x1b[0;31m",
            LogLevel::Warning => "\x1b[0;33m",
            LogLevel::Notice => "\x1b[0;32m",
            LogLevel::Info => "\x1b[0;34m",
            LogLevel::Debug => "\x1b[0;36m",
            LogLevel::Trace => "\x1b[0;m",
        }
    }

    /// The fixed-width label of this level.
    pub fn to_str(&self) -> (r: &'static str)
        ensures
            r@ == spec_label(*self),
    {
        match self {
            LogLevel::Fatal => "FATAL  ",
            LogLevel::Error => "ERROR  ",
            LogLevel::Warning => "WARNING",
            LogLevel::Notice => "NOTICE ",
            LogLevel::Info => "INFO   ",
            LogLevel::Debug => "DEBUG  ",
            LogLevel::Trace => "TRACE  ",
        }
    }
}

} // verus!
