//! Fixed-width integers stored as raw bytes in on-tape records.

use vstd::prelude::*;

verus! {

/// The value of the little-endian 16-bit word with bytes `lo`, `hi`.
pub open spec fn le16(lo: u8, hi: u8) -> int {
    lo + 256 * hi
}

/// The value of a 32-bit word stored as two little-endian 16-bit halves,
/// high half first: the bytes are `b[2]`, `b[3]`, `b[0]`, `b[1]` from the
/// least significant.
pub open spec fn me32(b: [u8; 4]) -> int {
    le16(b[2], b[3]) + 65536 * le16(b[0], b[1])
}

/// A little-endian 16-bit word.
#[derive(Clone, Copy, PartialEq, Eq, Hash, PartialOrd, Ord, Debug)]
pub struct U16Le(pub [u8; 2]);

/// A 32-bit word in the mixed ("middle") endianness of the PDP-11: the high
/// 16-bit half comes first, each half little-endian.
#[derive(Clone, Copy, PartialEq, Eq, Hash, PartialOrd, Ord, Debug)]
pub struct U32Me(pub [u8; 4]);

impl U16Le {
    /// The value of the word.
    pub open spec fn value(self) -> int {
        le16(self.0[0], self.0[1])
    }

    /// The value of the word.
    pub fn get(self) -> (r: u16)
        ensures
            r == self.value(),
    {
        let b = self.0;
        b[0] as u16 + (b[1] as u16) * 256
    }
}

impl U32Me {
    /// The value of the word.
    pub open spec fn value(self) -> int {
        me32(self.0)
    }

    /// The value of the word.
    pub fn get(self) -> (r: u32)
        ensures
            r == self.value(),
    {
        let b = self.0;
        let low = b[2] as u32 + (b[3] as u32) * 256;
        let high = b[0] as u32 + (b[1] as u32) * 256;
        low + high * 65536
    }
}

/// The character of decimal digit `d`.
pub open spec fn digit_char(d: int) -> char {
    (48 + d) as char
}

/// The decimal digits of `n`, without leading zeros.
pub open spec fn decimal(n: nat) -> Seq<char>
    decreases n,
{
    if n < 10 {
        seq![digit_char(n as int)]
    } else {
        decimal(n / 10) + seq![digit_char((n % 10) as int)]
    }
}

/// The text of decimal digit `d`.
pub(crate) fn digit_str(d: u32) -> (r: &'static str)
    requires
        d < 10,
    ensures
        r@ == seq![digit_char(d as int)],
{
    proof {
        reveal_strlit("0");
        reveal_strlit("1");
        reveal_strlit("2");
        reveal_strlit("3");
        reveal_strlit("4");
        reveal_strlit("5");
        reveal_strlit("6");
        reveal_strlit("7");
        reveal_strlit("8");
        reveal_strlit("9");
    }
    match d {
        0 => "0",
        1 => "1",
        2 => "2",
        3 => "3",
        4 => "4",
        5 => "5",
        6 => "6",
        7 => "7",
        8 => "8",
        _ => "9",
    }
}

/// Appends the decimal digits of `n` to `s`.
pub(crate) fn push_decimal(s: &mut String, n: u32)
    ensures
        final(s)@ == old(s)@ + decimal(n as nat),
    decreases n,
{
    let ghost s0 = s@;
    if n >= 10 {
        push_decimal(s, n / 10);
    }
    s.append(digit_str(n % 10));
    assert(s@ =~= s0 + decimal(n as nat));
}

/// Relies on `String::push`, which appends one character.
#[verifier::external_body]
pub(crate) fn push_char(s: &mut String, c: char)
    ensures
        final(s)@ == old(s)@.push(c),
{
    s.push(c)
}

/// Whether `b` is an ASCII decimal digit.
pub open spec fn is_digit(b: u8) -> bool {
    0x30 <= b <= 0x39
}

/// How byte `i` of `s` is shown: a backslash or a printable character as
/// it is, a quote, tab, line feed or carriage return escaped with a
/// backslash, a NUL as `\0` unless a digit follows, and any other byte as a
/// backslash and three octal digits.
pub open spec fn escape_at(s: Seq<u8>, i: int) -> Seq<char> {
    let b = s[i];
    if b == 0x5c {
        seq!['\\']
    } else if b == 0x22 {
        seq!['\\', '"']
    } else if 0x20 <= b <= 0x7e {
        seq![b as char]
    } else if b == 0x09 {
        seq!['\\', 't']
    } else if b == 0x0a {
        seq!['\\', 'n']
    } else if b == 0x0d {
        seq!['\\', 'r']
    } else if b == 0 && !(i + 1 < s.len() && is_digit(s[i + 1])) {
        seq!['\\', '0']
    } else {
        seq!['\\', digit_char(b as int / 64), digit_char((b as int / 8) % 8), digit_char(b as int % 8)]
    }
}

/// How the first `n` bytes of `s` are shown.
pub open spec fn escape_prefix(s: Seq<u8>, n: int) -> Seq<char>
    decreases n,
{
    if n <= 0 {
        seq![]
    } else {
        escape_prefix(s, n - 1) + escape_at(s, n - 1)
    }
}

/// Bytes shown as an escaped string.
pub struct Bytes<'a>(pub &'a [u8]);

impl<'a> Bytes<'a> {
    /// The bytes between quotes, each shown as [`escape_at`] says.
    pub fn text(&self) -> (r: String)
        ensures
            r@ == seq!['"'] + escape_prefix(self.0@, self.0@.len() as int) + seq!['"'],
    {
        let s = self.0;
        let mut out = String::new();
        push_char(&mut out, '"');
        let mut i: usize = 0;
        while i < s.len()
            invariant
                i <= s@.len(),
                out@ == seq!['"'] + escape_prefix(s@, i as int),
            decreases s@.len() - i,
        {
            let ghost before = out@;
            let b = s[i];
            if b == 0x5c {
                push_char(&mut out, '\\');
            } else if b == 0x22 {
                push_char(&mut out, '\\');
                push_char(&mut out, '"');
            } else if 0x20 <= b && b <= 0x7e {
                push_char(&mut out, b as char);
            } else if b == 0x09 {
                push_char(&mut out, '\\');
                push_char(&mut out, 't');
            } else if b == 0x0a {
                push_char(&mut out, '\\');
                push_char(&mut out, 'n');
            } else if b == 0x0d {
                push_char(&mut out, '\\');
                push_char(&mut out, 'r');
            } else if b == 0 && !(i + 1 < s.len() && 0x30 <= s[i + 1] && s[i + 1] <= 0x39) {
                push_char(&mut out, '\\');
                push_char(&mut out, '0');
            } else {
                push_char(&mut out, '\\');
                out.append(digit_str((b / 64) as u32));
                out.append(digit_str(((b / 8) % 8) as u32));
                out.append(digit_str((b % 8) as u32));
            }
            assert(out@ =~= before + escape_at(s@, i as int));
            i += 1;
        }
        push_char(&mut out, '"');
        out
    }
}

/// A length, shown also in blocks of 512 bytes where it is a multiple of
/// more than one block.
pub struct BlockLen(pub usize);

impl BlockLen {
    /// The length in decimal, followed by ` (k * 512)` when it is `k` whole
    /// blocks of 512 bytes with `k` above one.
    pub fn text(&self) -> (r: String)
        ensures
            r@ == decimal(self.0 as nat) + if self.0 % 512 == 0 && self.0 > 512 {
                seq![' ', '('] + decimal((self.0 / 512) as nat) + seq![' ', '*', ' ', '5', '1', '2', ')']
            } else {
                seq![]
            },
    {
        proof {
            reveal_strlit(" (");
            reveal_strlit(" * 512)");
        }
        let len = self.0;
        let mut out = String::new();
        push_decimal_usize(&mut out, len);
        if len % 512 == 0 && len > 512 {
            let ghost head = out@;
            out.append(" (");
            push_decimal_usize(&mut out, len / 512);
            out.append(" * 512)");
            assert(out@ =~= head + (seq![' ', '('] + decimal((len / 512) as nat) + seq![
                ' ',
                '*',
                ' ',
                '5',
                '1',
                '2',
                ')',
            ]));
        } else {
            assert(out@ =~= decimal(len as nat) + seq![]);
        }
        out
    }
}

/// Appends the decimal digits of `n` to `s`.
pub(crate) fn push_decimal_usize(s: &mut String, n: usize)
    ensures
        final(s)@ == old(s)@ + decimal(n as nat),
    decreases n,
{
    let ghost s0 = s@;
    if n >= 10 {
        push_decimal_usize(s, n / 10);
    }
    s.append(digit_str((n % 10) as u32));
    assert(s@ =~= s0 + decimal(n as nat));
}

} // verus!
