//! The directory records of a tap file, as written by the first editions of
//! Unix.
//!
//! Follows the logic of tapfs from Plan 9 and the V1 stat conversion in
//! Apout.

use std::ops::Range;

use jiff::civil::Date;
use jiff::tz::TimeZone;
use jiff::Timestamp;
use vstd::prelude::*;

use crate::util::{decimal, digit_char, digit_str, le16, push_decimal, U16Le, U32Me};

verus! {

/// A file header in a tap file.
#[derive(Clone, Debug, PartialEq, Eq)]
pub struct Header {
    /// The file path.
    pub path: [u8; 32],
    /// The permission bits.
    pub mode: u8,
    /// The user ID.
    pub uid: u8,
    /// The length of the file contents.
    pub size: U16Le,
    /// The modification time in Unix V1 format.
    pub mtime: U32Me,
    /// The index of the 512-byte block which the file contents start at.
    pub block: U16Le,
    /// Unused padding.
    pub unused: [u8; 20],
    /// The checksum of this header.
    pub cksum: U16Le,
}

/// Permission bits in the Unix V1 format.
pub struct Mode(pub u8);

/// Timestamp in the Unix V1 format, i.e., 1/60 seconds since an epoch.
pub struct Time(pub u32);

/// The epoch of a Unix V1 timestamp: the counter of sixtieths of a second
/// overflows in two and a half years, so its epoch was moved from year to
/// year, and nothing in a timestamp tells which one it counts from.
#[derive(Clone, Copy, Debug, PartialEq, Eq, Structural)]
pub enum Epoch {
    /// 1970 epoch.
    Y1970,
    /// 1971 epoch.
    Y1971,
    /// 1972 epoch.
    Y1972,
    /// 1973 epoch.
    Y1973,
}

/// The bytes of a header as it is stored on tape.
pub open spec fn header_bytes(h: Header) -> Seq<u8> {
    h.path@ + seq![h.mode, h.uid] + h.size.0@ + h.mtime.0@ + h.block.0@ + h.unused@ + h.cksum.0@
}

/// The sum of the first `n` little-endian words of `b`.
pub open spec fn word_sum(b: Seq<u8>, n: int) -> int
    decreases n,
{
    if n <= 0 {
        0
    } else {
        word_sum(b, n - 1) + le16(b[2 * (n - 1)], b[2 * (n - 1) + 1])
    }
}

/// The 64 bytes of a record sum to zero in 16-bit wrapping arithmetic.
pub open spec fn checksum_ok(b: Seq<u8>) -> bool {
    word_sum(b, 32) % 65536 == 0
}

/// `s` without its trailing NULs.
pub open spec fn trim_nul(s: Seq<u8>) -> Seq<u8>
    decreases s.len(),
{
    if s.len() > 0 && s.last() == 0 {
        trim_nul(s.drop_last())
    } else {
        s
    }
}

/// Whether every byte of `b` is NUL.
pub open spec fn all_nul(b: Seq<u8>) -> bool {
    forall|i: int| 0 <= i < b.len() ==> #[trigger] b[i] == 0
}

/// Whether the 64 bytes of `raw` sum to zero as 16-bit words.
fn checksum_zero(raw: &[u8]) -> (r: bool)
    requires
        raw@.len() == 64,
    ensures
        r == checksum_ok(raw@),
{
    let mut sum: u16 = 0;
    let mut i: usize = 0;
    while i < 32
        invariant
            raw@.len() == 64,
            i <= 32,
            sum == word_sum(raw@, i as int) % 65536,
        decreases 32 - i,
    {
        let w = U16Le([raw[2 * i], raw[2 * i + 1]]).get();
        sum = ((sum as u32 + w as u32) % 65536) as u16;
        i += 1;
    }
    sum == 0
}

impl Header {
    /// Reads a header from its 64 stored bytes, unless they are all NUL
    /// or their checksum fails.
    pub fn parse(raw: &[u8; 64]) -> (r: Option<Self>)
        ensures
            r is Some <==> !all_nul(raw@) && checksum_ok(raw@),
            r matches Some(h) ==> header_bytes(h) == raw@,
    {
        let mut zero = true;
        let mut i: usize = 0;
        while i < 64
            invariant
                i <= 64,
                zero <==> forall|k: int| 0 <= k < i ==> #[trigger] raw@[k] == 0,
            decreases 64 - i,
        {
            if raw[i] != 0 {
                zero = false;
            }
            i += 1;
        }
        if zero || !checksum_zero(raw.as_slice()) {
            return None;
        }
        let h = Header::from_bytes(raw);
        Some(h)
    }

    /// The header whose stored bytes are `raw`.
    pub fn from_bytes(raw: &[u8; 64]) -> (r: Self)
        ensures
            header_bytes(r) == raw@,
    {
        let mut path = [0u8; 32];
        let mut i: usize = 0;
        while i < 32
            invariant
                i <= 32,
                forall|k: int| 0 <= k < i ==> path@[k] == raw@[k],
            decreases 32 - i,
        {
            path[i] = raw[i];
            i += 1;
        }
        let mut unused = [0u8; 20];
        let mut j: usize = 0;
        while j < 20
            invariant
                j <= 20,
                forall|k: int| 0 <= k < j ==> unused@[k] == raw@[42 + k],
            decreases 20 - j,
        {
            unused[j] = raw[42 + j];
            j += 1;
        }
        let h = Header {
            path,
            mode: raw[32],
            uid: raw[33],
            size: U16Le([raw[34], raw[35]]),
            mtime: U32Me([raw[36], raw[37], raw[38], raw[39]]),
            block: U16Le([raw[40], raw[41]]),
            unused,
            cksum: U16Le([raw[62], raw[63]]),
        };
        assert(header_bytes(h) =~= raw@);
        h
    }

    /// The bytes of the header as it is stored on tape.
    pub fn to_bytes(&self) -> (r: Vec<u8>)
        ensures
            r@ == header_bytes(*self),
    {
        let mut out: Vec<u8> = Vec::new();
        let mut i: usize = 0;
        while i < 32
            invariant
                i <= 32,
                out@ == self.path@.subrange(0, i as int),
            decreases 32 - i,
        {
            out.push(self.path[i]);
            i += 1;
            assert(out@ =~= self.path@.subrange(0, i as int));
        }
        out.push(self.mode);
        out.push(self.uid);
        out.push(self.size.0[0]);
        out.push(self.size.0[1]);
        out.push(self.mtime.0[0]);
        out.push(self.mtime.0[1]);
        out.push(self.mtime.0[2]);
        out.push(self.mtime.0[3]);
        out.push(self.block.0[0]);
        out.push(self.block.0[1]);
        let ghost head = out@;
        let mut j: usize = 0;
        while j < 20
            invariant
                j <= 20,
                out@ == head + self.unused@.subrange(0, j as int),
            decreases 20 - j,
        {
            out.push(self.unused[j]);
            j += 1;
            assert(out@ =~= head + self.unused@.subrange(0, j as int));
        }
        out.push(self.cksum.0[0]);
        out.push(self.cksum.0[1]);
        assert(out@ =~= header_bytes(*self));
        out
    }

    /// Validates the header against its checksum.
    pub fn valid(&self) -> (r: bool)
        ensures
            r == checksum_ok(header_bytes(*self)),
    {
        let bytes = self.to_bytes();
        checksum_zero(bytes.as_slice())
    }

    /// The file path, without its trailing NULs.
    pub fn path(&self) -> (r: &[u8])
        ensures
            r@ == trim_nul(self.path@),
    {
        let mut n: usize = 32;
        assert(self.path@.subrange(0, 32) =~= self.path@);
        while n > 0 && self.path[n - 1] == 0
            invariant
                n <= 32,
                trim_nul(self.path@) == trim_nul(self.path@.subrange(0, n as int)),
            decreases n,
        {
            assert(self.path@.subrange(0, n as int).drop_last() =~= self.path@.subrange(
                0,
                n - 1,
            ));
            n -= 1;
        }
        let r = &self.path.as_slice()[0..n];
        assert(r@ =~= self.path@.subrange(0, n as int));
        r
    }

    /// The permission bits.
    pub fn mode(&self) -> (r: Mode)
        ensures
            r.0 == self.mode,
    {
        Mode(self.mode)
    }

    /// The length of the file contents.
    pub fn size(&self) -> (r: u16)
        ensures
            r == self.size.value(),
    {
        self.size.get()
    }

    /// The modification time in the Unix V1 format.
    pub fn mtime(&self) -> (r: Time)
        ensures
            r.0 == self.mtime.value(),
    {
        Time(self.mtime.get())
    }

    /// The index of the 512-byte block which the file contents start at.
    pub fn block(&self) -> (r: u16)
        ensures
            r == self.block.value(),
    {
        self.block.get()
    }

    /// The byte offset in the tap file of the start of the file.
    pub fn offset(&self) -> (r: usize)
        ensures
            r == self.block.value() * 512,
    {
        (self.block() as usize) * 512
    }

    /// The byte offsets in the tap file of the file contents.
    pub fn range(&self) -> (r: Range<usize>)
        ensures
            r.start == self.block.value() * 512,
            r.end == self.block.value() * 512 + self.size.value(),
    {
        let offset = self.offset();
        offset..offset + self.size() as usize
    }

    /// The checksum of this header.
    pub fn cksum(&self) -> (r: u16)
        ensures
            r == self.cksum.value(),
    {
        self.cksum.get()
    }
}

/// Set-user-ID bit of a V1 mode.
pub const V1_SET_UID: u8 = 0o40;
/// Executable bit of a V1 mode.
pub const V1_EXEC: u8 = 0o20;
/// Owner read bit of a V1 mode.
pub const V1_OWNER_READ: u8 = 0o10;
/// Owner write bit of a V1 mode.
pub const V1_OWNER_WRITE: u8 = 0o04;
/// World read bit of a V1 mode.
pub const V1_WORLD_READ: u8 = 0o02;
/// World write bit of a V1 mode.
pub const V1_WORLD_WRITE: u8 = 0o01;

/// Set-user-ID bit of a POSIX mode.
pub const POSIX_SET_UID: u16 = 0o004000;
/// Owner read bit of a POSIX mode.
pub const POSIX_OWNER_READ: u16 = 0o000400;
/// Owner write bit of a POSIX mode.
pub const POSIX_OWNER_WRITE: u16 = 0o000200;
/// Owner execute bit of a POSIX mode.
pub const POSIX_OWNER_EXEC: u16 = 0o000100;
/// Group read bit of a POSIX mode.
pub const POSIX_GROUP_READ: u16 = 0o000040;
/// Group write bit of a POSIX mode.
pub const POSIX_GROUP_WRITE: u16 = 0o000020;
/// Group execute bit of a POSIX mode.
pub const POSIX_GROUP_EXEC: u16 = 0o000010;
/// Other read bit of a POSIX mode.
pub const POSIX_OTHER_READ: u16 = 0o000004;
/// Other write bit of a POSIX mode.
pub const POSIX_OTHER_WRITE: u16 = 0o000002;
/// Other execute bit of a POSIX mode.
pub const POSIX_OTHER_EXEC: u16 = 0o000001;

/// The V1 mode of POSIX mode `p`: set-user-ID as it is, executable if
/// anyone may execute, owner read and write as they are, and world read or
/// write if group or others may.
pub open spec fn v1_of_posix(p: u16) -> u8 {
    (if p & POSIX_SET_UID != 0 { V1_SET_UID } else { 0u8 }) | (if p & (POSIX_OWNER_EXEC
        | POSIX_GROUP_EXEC | POSIX_OTHER_EXEC) != 0 {
        V1_EXEC
    } else {
        0u8
    }) | (if p & POSIX_OWNER_READ != 0 { V1_OWNER_READ } else { 0u8 }) | (if p & POSIX_OWNER_WRITE
        != 0 {
        V1_OWNER_WRITE
    } else {
        0u8
    }) | (if p & (POSIX_GROUP_READ | POSIX_OTHER_READ) != 0 {
        V1_WORLD_READ
    } else {
        0u8
    }) | (if p & (POSIX_GROUP_WRITE | POSIX_OTHER_WRITE) != 0 {
        V1_WORLD_WRITE
    } else {
        0u8
    })
}

/// The POSIX mode of V1 mode `v`: set-user-ID as it is, execute for all if
/// executable, owner read and write as they are, and group and others read
/// or write as the world may.
pub open spec fn posix_of_v1(v: u8) -> u16 {
    (if v & V1_SET_UID != 0 { POSIX_SET_UID } else { 0u16 }) | (if v & V1_EXEC != 0 {
        POSIX_OWNER_EXEC | POSIX_GROUP_EXEC | POSIX_OTHER_EXEC
    } else {
        0u16
    }) | (if v & V1_OWNER_READ != 0 { POSIX_OWNER_READ } else { 0u16 }) | (if v & V1_OWNER_WRITE
        != 0 {
        POSIX_OWNER_WRITE
    } else {
        0u16
    }) | (if v & V1_WORLD_READ != 0 { POSIX_GROUP_READ | POSIX_OTHER_READ } else { 0u16 }) | (if v
        & V1_WORLD_WRITE != 0 {
        POSIX_GROUP_WRITE | POSIX_OTHER_WRITE
    } else {
        0u16
    })
}

impl Mode {
    /// Converts a POSIX mode to V1.
    pub fn from_posix(mode: u16) -> (r: Mode)
        ensures
            r.0 == v1_of_posix(mode),
    {
        let posix = mode;
        let set_uid = if posix & POSIX_SET_UID != 0 { V1_SET_UID } else { 0u8 };
        let exec = if posix & (POSIX_OWNER_EXEC | POSIX_GROUP_EXEC | POSIX_OTHER_EXEC) != 0 {
            V1_EXEC
        } else {
            0u8
        };
        let owner_read = if posix & POSIX_OWNER_READ != 0 { V1_OWNER_READ } else { 0u8 };
        let owner_write = if posix & POSIX_OWNER_WRITE != 0 { V1_OWNER_WRITE } else { 0u8 };
        let world_read = if posix & (POSIX_GROUP_READ | POSIX_OTHER_READ) != 0 {
            V1_WORLD_READ
        } else {
            0u8
        };
        let world_write = if posix & (POSIX_GROUP_WRITE | POSIX_OTHER_WRITE) != 0 {
            V1_WORLD_WRITE
        } else {
            0u8
        };
        Mode(set_uid | exec | owner_read | owner_write | world_read | world_write)
    }

    /// Converts a V1 mode to POSIX.
    pub fn to_posix(self) -> (r: u16)
        ensures
            r == posix_of_v1(self.0),
    {
        let v1 = self.0;
        let set_uid = if v1 & V1_SET_UID != 0 { POSIX_SET_UID } else { 0u16 };
        let exec = if v1 & V1_EXEC != 0 {
            POSIX_OWNER_EXEC | POSIX_GROUP_EXEC | POSIX_OTHER_EXEC
        } else {
            0u16
        };
        let owner_read = if v1 & V1_OWNER_READ != 0 { POSIX_OWNER_READ } else { 0u16 };
        let owner_write = if v1 & V1_OWNER_WRITE != 0 { POSIX_OWNER_WRITE } else { 0u16 };
        let world_read = if v1 & V1_WORLD_READ != 0 {
            POSIX_GROUP_READ | POSIX_OTHER_READ
        } else {
            0u16
        };
        let world_write = if v1 & V1_WORLD_WRITE != 0 {
            POSIX_GROUP_WRITE | POSIX_OTHER_WRITE
        } else {
            0u16
        };
        set_uid | exec | owner_read | owner_write | world_read | world_write
    }
}

/// jiff's `Timestamp`, an instant that the time conversions hand out as it
/// is; nothing is assumed of what it holds.
#[verifier::external_type_specification]
#[verifier::external_body]
pub struct ExTimestamp(Timestamp);

/// The Unix time, in seconds, of the first instant of January 1 of `year`
/// in UTC, for the years 1970 to 1973: 86400 seconds for each day since
/// 1970-01-01, 1972 being a leap year.
pub open spec fn new_year_second(year: int) -> int {
    86400 * (365 * (year - 1970) + if year == 1973 { 1int } else { 0int })
}

/// Relies on jiff's `Date::constant`, `Date::to_zoned` in UTC,
/// `Zoned::timestamp` and `Timestamp::as_second`: the Unix time of the
/// start of the year, which Unix time counts as 86400 seconds for each day
/// since 1970-01-01.
#[verifier::external_body]
fn unix_new_year(year: i16) -> (r: i64)
    requires
        1970 <= year <= 1973,
    ensures
        r == new_year_second(year as int),
{
    Date::constant(year, 1, 1).to_zoned(TimeZone::UTC).unwrap().timestamp().as_second()
}

/// Relies on jiff's `Timestamp::new`, which accepts a second in the range
/// of its `Timestamp::MIN` and `Timestamp::MAX` and a nanosecond below one
/// second.
#[verifier::external_body]
fn timestamp_at(second: i64, nanosecond: i32) -> (r: Timestamp)
    requires
        0 <= second <= 253402207200,
        0 <= nanosecond < 1_000_000_000,
{
    Timestamp::new(second, nanosecond).unwrap()
}

/// The UTC date and time of a Unix time, as `YYYY-MM-DD HH:MM:SS`.
pub uninterp spec fn civil_text_of(second: int) -> Seq<char>;

/// Relies on jiff's `Timestamp::from_second`, which accepts a second in the
/// range of its `Timestamp::MIN` and `Timestamp::MAX`, and on
/// `Timestamp::strftime` with `%F %T`: the date and time in UTC.
#[verifier::external_body]
fn civil_text(second: i64) -> (r: String)
    requires
        0 <= second <= 253402207200,
    ensures
        r@ == civil_text_of(second as int),
{
    Timestamp::from_second(second).unwrap().strftime("%F %T").to_string()
}

impl Epoch {
    /// The year of the epoch.
    pub open spec fn year_spec(self) -> int {
        match self {
            Epoch::Y1970 => 1970,
            Epoch::Y1971 => 1971,
            Epoch::Y1972 => 1972,
            Epoch::Y1973 => 1973,
        }
    }

    /// The year of the epoch.
    pub fn year(self) -> (r: i16)
        ensures
            r == self.year_spec(),
    {
        match self {
            Epoch::Y1970 => 1970,
            Epoch::Y1971 => 1971,
            Epoch::Y1972 => 1972,
            Epoch::Y1973 => 1973,
        }
    }

    /// The Unix time, in seconds, of the epoch.
    pub fn second(self) -> (r: i64)
        ensures
            r == new_year_second(self.year_spec()),
            0 <= r <= 94694400,
    {
        unix_new_year(self.year())
    }

    /// The epoch as a timestamp.
    pub fn timestamp(self) -> Timestamp {
        timestamp_at(self.second(), 0)
    }
}

impl Time {
    /// The number of whole seconds since the epoch.
    pub open spec fn whole_seconds(&self) -> int {
        self.0 as int / 60
    }

    /// The time as a timestamp in the given epoch.
    pub fn timestamp(&self, epoch: Epoch) -> Timestamp {
        let seconds = epoch.second() + (self.0 / 60) as i64;
        let frac = self.0 % 60;
        timestamp_at(seconds, (frac as u64 * 1_000_000_000 / 60) as i32)
    }

    /// The time as a timestamp with seconds resolution in the given epoch.
    pub fn timestamp_seconds(&self, epoch: Epoch) -> Timestamp {
        timestamp_at(self.seconds(epoch) as i64, 0)
    }

    /// The number of seconds since the 1970 Unix epoch.
    pub fn seconds(&self, epoch: Epoch) -> (r: u32)
        ensures
            r == new_year_second(epoch.year_spec()) + self.whole_seconds(),
    {
        (epoch.second() + (self.0 / 60) as i64) as u32
    }

    /// The time as `YYYY-MM-DD HH:MM:SS:FF (T)` in the given epoch, where
    /// `FF` counts the sixtieths of a second and `T` is the stored value.
    pub fn text(&self, epoch: Epoch) -> (r: String)
        ensures
            r@ == civil_text_of(new_year_second(epoch.year_spec()) + self.whole_seconds()) + seq![
                ':',
                digit_char((self.0 % 60) as int / 10),
                digit_char((self.0 % 60) as int % 10),
                ' ',
                '(',
            ] + decimal(self.0 as nat) + seq![')'],
    {
        proof {
            reveal_strlit(":");
            reveal_strlit(" (");
            reveal_strlit(")");
        }
        let mut s = civil_text(self.seconds(epoch) as i64);
        let ghost head = s@;
        let sub = self.0 % 60;
        s.append(":");
        s.append(digit_str(sub / 10));
        s.append(digit_str(sub % 10));
        s.append(" (");
        let ghost mid = s@;
        push_decimal(&mut s, self.0);
        s.append(")");
        assert(s@ =~= head + seq![
            ':',
            digit_char(sub as int / 10),
            digit_char(sub as int % 10),
            ' ',
            '(',
        ] + decimal(self.0 as nat) + seq![')']);
        s
    }

    /// The number of 1/60ths of a second in this time.
    pub fn subseconds(&self) -> (r: u8)
        ensures
            r == self.0 % 60,
    {
        (self.0 % 60) as u8
    }
}

} // verus!
