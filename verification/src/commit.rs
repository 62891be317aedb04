//! Commit objects: a tree digest, an optional parent, identity lines, and
//! a message, serialized as line-feed-terminated text.

use vstd::prelude::*;

use crate::kind::Kind;
use crate::store::{copy_bytes, digest_of, Store};

verus! {

/// The view of an optional byte vector.
pub open spec fn opt_bytes(p: Option<&Vec<u8>>) -> Option<Seq<u8>> {
    match p {
        Some(v) => Some(v@),
        None => None,
    }
}

/// The payload of a commit object: a `tree` line, a `parent` line when a
/// parent is given, an `author` line, a `committer` line, a blank line,
/// then the message, each line-feed-terminated.
pub open spec fn commit_payload_rep(
    tree_hex: Seq<u8>,
    parent_hex: Option<Seq<u8>>,
    author: Seq<u8>,
    committer: Seq<u8>,
    message: Seq<u8>,
) -> Seq<u8> {
    seq![116u8, 114u8, 101u8, 101u8, 32u8] + tree_hex + seq![10u8] + (match parent_hex {
        Some(p) => seq![112u8, 97u8, 114u8, 101u8, 110u8, 116u8, 32u8] + p + seq![10u8],
        None => Seq::<u8>::empty(),
    }) + seq![97u8, 117u8, 116u8, 104u8, 111u8, 114u8, 32u8] + author + seq![10u8] + seq![
        99u8,
        111u8,
        109u8,
        109u8,
        105u8,
        116u8,
        116u8,
        101u8,
        114u8,
        32u8,
    ] + committer + seq![10u8] + seq![10u8] + message + seq![10u8]
}

/// Appends a copy of `src` to `dst`.
fn push_all(dst: &mut Vec<u8>, src: &Vec<u8>)
    ensures
        final(dst)@ == old(dst)@ + src@,
{
    let mut tmp = copy_bytes(src);
    dst.append(&mut tmp);
}

/// Builds the commit payload text.
pub fn build_commit_payload(
    tree_hex: &Vec<u8>,
    parent_hex: Option<&Vec<u8>>,
    author: &Vec<u8>,
    committer: &Vec<u8>,
    message: &Vec<u8>,
) -> (r: Vec<u8>)
    ensures
        r@ == commit_payload_rep(tree_hex@, opt_bytes(parent_hex), author@, committer@, message@),
{
    let mut r: Vec<u8> = Vec::new();
    r.push(116);
    r.push(114);
    r.push(101);
    r.push(101);
    r.push(32);
    push_all(&mut r, tree_hex);
    r.push(10);
    match parent_hex {
        Some(p) => {
            r.push(112);
            r.push(97);
            r.push(114);
            r.push(101);
            r.push(110);
            r.push(116);
            r.push(32);
            push_all(&mut r, p);
            r.push(10);
        },
        None => {},
    }
    r.push(97);
    r.push(117);
    r.push(116);
    r.push(104);
    r.push(111);
    r.push(114);
    r.push(32);
    push_all(&mut r, author);
    r.push(10);
    r.push(99);
    r.push(111);
    r.push(109);
    r.push(109);
    r.push(105);
    r.push(116);
    r.push(116);
    r.push(101);
    r.push(114);
    r.push(32);
    push_all(&mut r, committer);
    r.push(10);
    r.push(10);
    push_all(&mut r, message);
    r.push(10);
    proof {
        assert(r@ =~= commit_payload_rep(
            tree_hex@,
            opt_bytes(parent_hex),
            author@,
            committer@,
            message@,
        ));
    }
    r
}

/// Serializes a commit and stores it, returning its digest. The digest is
/// a function of the payload text alone, and the stored history only
/// grows: everything stored before is still stored, unchanged.
pub fn commit_tree(
    store: &mut Store,
    tree_hex: &Vec<u8>,
    parent_hex: Option<&Vec<u8>>,
    author: &Vec<u8>,
    committer: &Vec<u8>,
    message: &Vec<u8>,
) -> (d: [u8; 20])
    requires
        old(store).wf(),
    ensures
        final(store).wf(),
        old(store)@.submap_of(final(store)@),
        d@ == digest_of(
            Kind::Commit,
            commit_payload_rep(
                tree_hex@,
                opt_bytes(parent_hex),
                author@,
                committer@,
                message@,
            ),
        ),
        final(store)@.contains_key(d@),
{
    let payload = build_commit_payload(tree_hex, parent_hex, author, committer, message);
    let n = payload.len();
    proof {
        assert(payload@.len() == n);
        assert(payload@.len() <= u64::MAX);
    }
    store.put(Kind::Commit, &payload)
}

} // verus!
