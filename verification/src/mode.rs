//! Filesystem entry modes and their six-digit octal encodings.

use vstd::prelude::*;

use crate::errors::StoreError;
use crate::kind::Kind;

verus! {

/// How a filesystem entry is classified inside a tree object.
#[derive(Clone, Copy, Debug, PartialEq, Eq, Structural)]
pub enum Mode {
    File,
    Executable,
    Directory,
    SymbolicLink,
}

/// The six-character octal encoding of a mode, as characters.
pub open spec fn mode_chars(m: Mode) -> Seq<char> {
    match m {
        Mode::File => seq!['1', '0', '0', '6', '4', '4'],
        Mode::Executable => seq!['1', '0', '0', '7', '5', '5'],
        Mode::Directory => seq!['0', '4', '0', '0', '0', '0'],
        Mode::SymbolicLink => seq!['1', '2', '0', '0', '0', '0'],
    }
}

/// The six-character octal encoding of a mode, as ASCII bytes.
pub open spec fn mode_bytes(m: Mode) -> Seq<u8> {
    match m {
        Mode::File => seq![49u8, 48u8, 48u8, 54u8, 52u8, 52u8],
        Mode::Executable => seq![49u8, 48u8, 48u8, 55u8, 53u8, 53u8],
        Mode::Directory => seq![48u8, 52u8, 48u8, 48u8, 48u8, 48u8],
        Mode::SymbolicLink => seq![49u8, 50u8, 48u8, 48u8, 48u8, 48u8],
    }
}

/// Classification of an entry from plain filesystem facts: directories win,
/// then symbolic links, then files, which are executable when any of the
/// three execute permission bits (octal 111) is set.
pub open spec fn classified_mode(
    is_dir: bool,
    is_symlink: bool,
    is_file: bool,
    unix_perm: u32,
) -> Mode {
    if is_dir {
        Mode::Directory
    } else if is_symlink {
        Mode::SymbolicLink
    } else if is_file && unix_perm & 73u32 != 0 {
        Mode::Executable
    } else {
        Mode::File
    }
}

impl Mode {
    /// Decodes a six-character octal mode string; any other string is
    /// rejected as an unsupported kind of entry.
    pub fn from_str(s: &str) -> (r: Result<Mode, StoreError>)
        ensures
            forall|m: Mode| r == Ok::<Mode, StoreError>(m) <==> s@ == mode_chars(m),
            r is Err ==> r == Err::<Mode, StoreError>(StoreError::UnsupportedKind),
    {
        let len = s.unicode_len();
        if len != 6 {
            return Err(StoreError::UnsupportedKind);
        }
        let c0 = s.get_char(0);
        let c1 = s.get_char(1);
        let c2 = s.get_char(2);
        let c3 = s.get_char(3);
        let c4 = s.get_char(4);
        let c5 = s.get_char(5);
        proof {
            assert forall|m: Mode| s@ == mode_chars(m) implies (s@[0] == mode_chars(m)[0]
                && s@[1] == mode_chars(m)[1] && s@[2] == mode_chars(m)[2] && s@[3] == mode_chars(
                m,
            )[3] && s@[4] == mode_chars(m)[4] && s@[5] == mode_chars(m)[5]) by {}
        }
        if c0 == '0' && c1 == '4' && c2 == '0' && c3 == '0' && c4 == '0' && c5 == '0' {
            proof {
                assert(s@ =~= mode_chars(Mode::Directory));
            }
            Ok(Mode::Directory)
        } else if c0 == '1' && c1 == '0' && c2 == '0' && c3 == '6' && c4 == '4' && c5 == '4' {
            proof {
                assert(s@ =~= mode_chars(Mode::File));
            }
            Ok(Mode::File)
        } else if c0 == '1' && c1 == '0' && c2 == '0' && c3 == '7' && c4 == '5' && c5 == '5' {
            proof {
                assert(s@ =~= mode_chars(Mode::Executable));
            }
            Ok(Mode::Executable)
        } else if c0 == '1' && c1 == '2' && c2 == '0' && c3 == '0' && c4 == '0' && c5 == '0' {
            proof {
                assert(s@ =~= mode_chars(Mode::SymbolicLink));
            }
            Ok(Mode::SymbolicLink)
        } else {
            Err(StoreError::UnsupportedKind)
        }
    }

    /// Whether this mode names a directory entry.
    pub fn is_dir(&self) -> (r: bool)
        ensures
            r == (*self is Directory),
    {
        match self {
            Mode::Directory => true,
            _ => false,
        }
    }

    /// The six ASCII bytes of this mode's octal encoding.
    pub fn to_bytes(&self) -> (r: Vec<u8>)
        ensures
            r@ == mode_bytes(*self),
    {
        let mut v: Vec<u8> = Vec::new();
        match self {
            Mode::File => {
                v.push(49);
                v.push(48);
                v.push(48);
                v.push(54);
                v.push(52);
                v.push(52);
            }
            Mode::Executable => {
                v.push(49);
                v.push(48);
                v.push(48);
                v.push(55);
                v.push(53);
                v.push(53);
            }
            Mode::Directory => {
                v.push(48);
                v.push(52);
                v.push(48);
                v.push(48);
                v.push(48);
                v.push(48);
            }
            Mode::SymbolicLink => {
                v.push(49);
                v.push(50);
                v.push(48);
                v.push(48);
                v.push(48);
                v.push(48);
            }
        }
        proof {
            assert(v@ =~= mode_bytes(*self));
        }
        v
    }

    /// Classifies an entry from plain filesystem facts; `unix_perm` carries
    /// the permission bits of a regular file.
    pub fn from_flags(is_dir: bool, is_symlink: bool, is_file: bool, unix_perm: u32) -> (m: Mode)
        ensures
            m == classified_mode(is_dir, is_symlink, is_file, unix_perm),
    {
        if is_dir {
            Mode::Directory
        } else if is_symlink {
            Mode::SymbolicLink
        } else if is_file && unix_perm & 73u32 != 0 {
            Mode::Executable
        } else {
            Mode::File
        }
    }
}

/// The object kind stored for an entry of each mode. Directories hold trees;
/// everything else holds its content as a blob. A symbolic link stores its
/// target path as blob content.
pub open spec fn kind_of_mode(m: Mode) -> Kind {
    match m {
        Mode::Directory => Kind::Tree,
        _ => Kind::Blob,
    }
}

impl core::convert::From<Mode> for Kind {
    fn from(m: Mode) -> (k: Kind) {
        match m {
            Mode::Directory => Kind::Tree,
            _ => Kind::Blob,
        }
    }
}

impl vstd::std_specs::convert::FromSpecImpl<Mode> for Kind {
    open spec fn obeys_from_spec() -> bool {
        true
    }

    open spec fn from_spec(m: Mode) -> Kind {
        kind_of_mode(m)
    }
}

} // verus!
