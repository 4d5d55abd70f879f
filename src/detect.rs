//! Recognition of text and of the magic numbers that start executables.

use vstd::prelude::*;

use crate::util::{le16, U16Le};

verus! {

/// Whether `b` is a byte of ASCII text: a printable character, a control
/// character from BEL to SI, or ESC.
pub open spec fn is_text_byte(b: u8) -> bool {
    (0x07 <= b <= 0x0f) || b == 0x1b || (0x20 <= b <= 0x7e)
}

/// Whether every byte of `data` is text.
#[verifier::opaque]
pub open spec fn all_text(data: Seq<u8>) -> bool {
    forall|i: int| 0 <= i < data.len() ==> is_text_byte(#[trigger] data[i])
}

/// Detects whether the file data is ASCII text.
pub fn is_text(data: &[u8]) -> (r: bool)
    ensures
        r == all_text(data@),
{
    reveal(all_text);
    let mut i: usize = 0;
    while i < data.len()
        invariant
            i <= data@.len(),
            forall|k: int| 0 <= k < i ==> is_text_byte(#[trigger] data@[k]),
        decreases data@.len() - i,
    {
        let b = data[i];
        if !((0x07 <= b && b <= 0x0f) || b == 0x1b || (0x20 <= b && b <= 0x7e)) {
            assert(!is_text_byte(data@[i as int]));
            reveal(all_text);
            return false;
        }
        i += 1;
    }
    true
}

/// Magic number for an a.out binary or a shell script.
///
/// Follows the logic of Apout's a.out loader.
#[derive(Clone, Copy, Debug, PartialEq, Eq, Structural)]
pub enum Magic {
    /// Normal: V1, six words long.
    V1Normal,
    /// Normal: V5, V6, V7, 2.11BSD.
    AnyNormal,
    /// Read-only text: V5, V6, V7, 2.11BSD.
    AnyRoText,
    /// Separated I&D: V5, V6, V7, 2.11BSD.
    AnySplitID,
    /// 2.11BSD overlay, non-separate.
    BsdOverlay,
    /// 2.11BSD overlay, separate.
    BsdROverlay,
    /// V1 'raw' binary: `rm`, `ln`, `chmod` from s2.
    V1Raw,
    /// Algol 68 binary.
    Algol68,
    /// Shell script shebang, i.e., `#!`.
    Shell,
}

/// The little-endian word of `#!`.
pub const SHEBANG: u16 = 0x2123;

/// The secondary magic number of an Algol 68 binary, in its third word.
pub const ALGOL68_SECOND: u16 = 0o107116;

/// The magic number whose value is `w`, if any.
pub open spec fn magic_of(w: int) -> Option<Magic> {
    if w == 0o405 {
        Some(Magic::V1Normal)
    } else if w == 0o407 {
        Some(Magic::AnyNormal)
    } else if w == 0o410 {
        Some(Magic::AnyRoText)
    } else if w == 0o411 {
        Some(Magic::AnySplitID)
    } else if w == 0o430 {
        Some(Magic::BsdOverlay)
    } else if w == 0o431 {
        Some(Magic::BsdROverlay)
    } else if w == 0o104421 {
        Some(Magic::V1Raw)
    } else if w == 0 {
        Some(Magic::Algol68)
    } else if w == 0x2123 {
        Some(Magic::Shell)
    } else {
        None
    }
}

/// The magic number that starts `data`: any but Algol 68 by its first word
/// alone; Algol 68, whose first word is zero, only with its secondary
/// number in the third word.
#[verifier::opaque]
pub open spec fn detect_spec(data: Seq<u8>) -> Option<Magic> {
    if data.len() < 2 {
        None
    } else {
        match magic_of(le16(data[0], data[1])) {
            Some(Magic::Algol68) => if data.len() >= 6 && le16(data[4], data[5])
                == ALGOL68_SECOND {
                Some(Magic::Algol68)
            } else {
                None
            },
            m => m,
        }
    }
}

impl Magic {
    /// The number stored in the first word of a file of this kind.
    pub open spec fn word_spec(self) -> u16 {
        match self {
            Magic::V1Normal => 0o405,
            Magic::AnyNormal => 0o407,
            Magic::AnyRoText => 0o410,
            Magic::AnySplitID => 0o411,
            Magic::BsdOverlay => 0o430,
            Magic::BsdROverlay => 0o431,
            Magic::V1Raw => 0o104421,
            Magic::Algol68 => 0,
            Magic::Shell => SHEBANG,
        }
    }

    /// The number stored in the first word of a file of this kind.
    pub fn word(self) -> (r: u16)
        ensures
            r == self.word_spec(),
            magic_of(r as int) == Some(self),
    {
        match self {
            Magic::V1Normal => 0o405,
            Magic::AnyNormal => 0o407,
            Magic::AnyRoText => 0o410,
            Magic::AnySplitID => 0o411,
            Magic::BsdOverlay => 0o430,
            Magic::BsdROverlay => 0o431,
            Magic::V1Raw => 0o104421,
            Magic::Algol68 => 0,
            Magic::Shell => SHEBANG,
        }
    }

    /// Detects a magic number for the file data.
    pub fn detect(data: &[u8]) -> (r: Option<Self>)
        ensures
            r == detect_spec(data@),
    {
        reveal(detect_spec);
        if data.len() < 2 {
            return None;
        }
        let first_word = U16Le([data[0], data[1]]).get();
        let magic = Magic::from_first(first_word);
        // Only handle secondary magic numbers for Algol 68, because its
        // primary magic number is so generic.
        match magic {
            Some(Magic::Algol68) => {
                if data.len() >= 6 && U16Le([data[4], data[5]]).get() == ALGOL68_SECOND {
                    Some(Magic::Algol68)
                } else {
                    None
                }
            },
            _ => magic,
        }
    }

    /// The magic number whose value is `first_word`, if any.
    pub fn from_first(first_word: u16) -> (r: Option<Self>)
        ensures
            r == magic_of(first_word as int),
    {
        match first_word {
            0o405 => Some(Magic::V1Normal),
            0o407 => Some(Magic::AnyNormal),
            0o410 => Some(Magic::AnyRoText),
            0o411 => Some(Magic::AnySplitID),
            0o430 => Some(Magic::BsdOverlay),
            0o431 => Some(Magic::BsdROverlay),
            0o104421 => Some(Magic::V1Raw),
            0 => Some(Magic::Algol68),
            SHEBANG => Some(Magic::Shell),
            _ => None,
        }
    }

    /// Whether this is the magic number of an a.out executable.
    pub open spec fn is_aout_spec(self) -> bool {
        match self {
            Magic::V1Normal | Magic::AnyNormal | Magic::AnyRoText | Magic::AnySplitID
            | Magic::BsdOverlay | Magic::BsdROverlay => true,
            _ => false,
        }
    }

    /// Whether this is the magic number of an a.out executable.
    pub fn is_aout(self) -> (r: bool)
        ensures
            r == self.is_aout_spec(),
    {
        match self {
            Magic::V1Normal | Magic::AnyNormal | Magic::AnyRoText | Magic::AnySplitID
            | Magic::BsdOverlay | Magic::BsdROverlay => true,
            _ => false,
        }
    }
}

/// a.out header.
#[derive(Clone, Debug, PartialEq, Eq)]
pub struct AOut {
    /// Magic number.
    pub magic: U16Le,
    /// Size of the text segment.
    pub text_size: U16Le,
    /// Size of the data segment.
    pub data_size: U16Le,
    /// Size of the bss segment.
    pub bss_size: U16Le,
    /// Size of the symbol table.
    pub symtab_size: U16Le,
    /// Entry point.
    pub entry_point: U16Le,
    /// Unused.
    pub unused: U16Le,
    /// Whether relocation info is stripped.
    pub flag: U16Le,
}

/// The `k`-th little-endian word of `data`.
pub open spec fn word_at(data: Seq<u8>, k: int) -> U16Le {
    U16Le([data[2 * k], data[2 * k + 1]])
}

impl AOut {
    /// The header's first word is the magic number of an a.out executable.
    pub open spec fn wf(&self) -> bool {
        match magic_of(self.magic.value()) {
            Some(m) => m.is_aout_spec(),
            None => false,
        }
    }

    /// The magic number of the header.
    pub open spec fn magic_spec(&self) -> Magic {
        magic_of(self.magic.value()).unwrap()
    }

    /// Reads the eight words of an a.out header from the start of `data`,
    /// if it is long enough and starts with an a.out magic number.
    pub fn parse(data: &[u8]) -> (r: Option<Self>)
        ensures
            r is Some <==> data@.len() >= 16 && (match magic_of(le16(data@[0], data@[1])) {
                Some(m) => m.is_aout_spec(),
                None => false,
            }),
            r matches Some(h) ==> h.wf() && h.magic == word_at(data@, 0) && h.text_size
                == word_at(data@, 1) && h.data_size == word_at(data@, 2) && h.bss_size
                == word_at(data@, 3) && h.symtab_size == word_at(data@, 4) && h.entry_point
                == word_at(data@, 5) && h.unused == word_at(data@, 6) && h.flag == word_at(
                data@,
                7,
            ),
    {
        if data.len() < 16 {
            return None;
        }
        let magic = U16Le([data[0], data[1]]);
        match Magic::from_first(magic.get()) {
            Some(m) => {
                if !m.is_aout() {
                    return None;
                }
            },
            None => {
                return None;
            },
        }
        Some(
            AOut {
                magic,
                text_size: U16Le([data[2], data[3]]),
                data_size: U16Le([data[4], data[5]]),
                bss_size: U16Le([data[6], data[7]]),
                symtab_size: U16Le([data[8], data[9]]),
                entry_point: U16Le([data[10], data[11]]),
                unused: U16Le([data[12], data[13]]),
                flag: U16Le([data[14], data[15]]),
            },
        )
    }

    /// The magic number of the header.
    pub fn magic(&self) -> (r: Magic)
        requires
            self.wf(),
        ensures
            r == self.magic_spec(),
    {
        Magic::from_first(self.magic.get()).unwrap()
    }

    /// The file size that the header declares: the header and the text,
    /// data and symbol table for a normal executable, text, data and bss for
    /// a V1 one, and none for an Algol 68 binary or a shell script.
    pub open spec fn file_size_spec(&self) -> Option<int> {
        match magic_of(self.magic.value()) {
            Some(Magic::AnyNormal) => Some(
                16 + self.text_size.value() + self.data_size.value() + self.symtab_size.value(),
            ),
            Some(Magic::V1Normal) => Some(
                self.text_size.value() + self.data_size.value() + self.bss_size.value(),
            ),
            _ => None,
        }
    }

    /// The size of the file that the header declares. The header must carry
    /// a magic number, and the layouts other than the normal ones, the
    /// Algol 68 binaries and the shell scripts are not handled.
    pub fn file_size(&self) -> (r: Option<usize>)
        requires
            magic_of(self.magic.value()) matches Some(m) && (m is AnyNormal || m is V1Normal
                || m is Algol68 || m is Shell),
        ensures
            opt_usize(r) == self.file_size_spec(),
    {
        match Magic::from_first(self.magic.get()) {
            Some(Magic::AnyNormal) => Some(
                16 + self.text_size.get() as usize + self.data_size.get() as usize
                    + self.symtab_size.get() as usize,
            ),
            Some(Magic::V1Normal) => Some(
                self.text_size.get() as usize + self.data_size.get() as usize
                    + self.bss_size.get() as usize,
            ),
            _ => None,
        }
    }
}

/// `o` with its value as an integer.
pub open spec fn opt_usize(o: Option<usize>) -> Option<int> {
    match o {
        Some(x) => Some(x as int),
        None => None,
    }
}

} // verus!
