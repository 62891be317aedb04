//! The four object kinds and their on-disk names.

use vstd::prelude::*;

verus! {

/// The kind of a stored object.
#[derive(Clone, Copy, Debug, PartialEq, Eq, Structural)]
pub enum Kind {
    Blob,
    Tree,
    Commit,
    Tag,
}

/// The lowercase ASCII name of a kind, as it appears in an object header.
pub open spec fn kind_name(k: Kind) -> Seq<u8> {
    match k {
        Kind::Blob => seq![98u8, 108u8, 111u8, 98u8],
        Kind::Tree => seq![116u8, 114u8, 101u8, 101u8],
        Kind::Commit => seq![99u8, 111u8, 109u8, 109u8, 105u8, 116u8],
        Kind::Tag => seq![116u8, 97u8, 103u8],
    }
}

impl Kind {
    /// The name of this kind as bytes, e.g. `blob` for `Kind::Blob`.
    pub fn name_bytes(&self) -> (r: Vec<u8>)
        ensures
            r@ == kind_name(*self),
    {
        let mut v: Vec<u8> = Vec::new();
        match self {
            Kind::Blob => {
                v.push(98);
                v.push(108);
                v.push(111);
                v.push(98);
            }
            Kind::Tree => {
                v.push(116);
                v.push(114);
                v.push(101);
                v.push(101);
            }
            Kind::Commit => {
                v.push(99);
                v.push(111);
                v.push(109);
                v.push(109);
                v.push(105);
                v.push(116);
            }
            Kind::Tag => {
                v.push(116);
                v.push(97);
                v.push(103);
            }
        }
        proof {
            assert(v@ =~= kind_name(*self));
        }
        v
    }
}

} // verus!
