//! In-memory snapshots of a working tree, and the recursive builder that
//! stores every blob and tree of a snapshot.
//!
//! The builder walks a captured directory, stores file contents and
//! symbolic link targets as blobs, recursively stores subdirectories as
//! trees, leaves out the reserved metadata directory and any directory
//! that ends up empty, and serializes each directory's entries in
//! canonical tree order. The digest it returns is a function of the
//! snapshot alone: rebuilding an unchanged snapshot reproduces every
//! digest bit for bit.

use vstd::prelude::*;

use crate::errors::StoreError;
use crate::kind::Kind;
use crate::mode::Mode;
use crate::store::{copy_bytes, digest_of, Store};
use crate::tree::{
    serialize_tree, sort_entries, sort_entries_spec, tree_rep, valid_name, views, EntryV,
    TreeEntry,
};

verus! {

/// A filesystem entry captured in memory: a regular file (with its
/// executable bit), a symbolic link (its target path), or a directory.
pub enum Node {
    File { executable: bool, content: Vec<u8> },
    Symlink { target: Vec<u8> },
    Dir { children: Vec<DirEntry> },
}

/// A named child of a captured directory.
pub struct DirEntry {
    pub name: Vec<u8>,
    pub node: Node,
}

/// The name of the reserved metadata directory, which is never stored.
pub open spec fn metadata_dir_name() -> Seq<u8> {
    seq![46u8, 103u8, 105u8, 116u8]
}

/// The mode a node is recorded under in its parent's tree.
pub open spec fn node_mode(n: Node) -> Mode {
    match n {
        Node::File { executable, .. } => if executable {
            Mode::Executable
        } else {
            Mode::File
        },
        Node::Symlink { .. } => Mode::SymbolicLink,
        Node::Dir { .. } => Mode::Directory,
    }
}

/// A well-formed snapshot: every name is usable as a tree entry name.
pub open spec fn node_wf(n: Node) -> bool
    decreases n,
{
    match n {
        Node::File { .. } => true,
        Node::Symlink { .. } => true,
        Node::Dir { children } => children_wf(children@),
    }
}

/// Every child has a usable name and is itself well formed.
pub open spec fn children_wf(s: Seq<DirEntry>) -> bool
    decreases s,
{
    forall|i: int|
        0 <= i < s.len() ==> valid_name(#[trigger] s[i].name@) && node_wf(s[i].node)
}

/// The object a snapshot yields: a blob for a file or a symbolic link
/// target, a tree for a directory — or no object at all, for a directory
/// that is empty once the metadata directory and empty subdirectories are
/// left out.
pub open spec fn node_object(n: Node) -> Option<(Kind, Seq<u8>)>
    decreases n,
{
    match n {
        Node::File { content, .. } => Some((Kind::Blob, content@)),
        Node::Symlink { target } => Some((Kind::Blob, target@)),
        Node::Dir { children } => {
            let es = dir_entries(children@);
            if es.len() == 0 {
                None
            } else {
                Some((Kind::Tree, tree_rep(sort_entries_spec(es))))
            }
        },
    }
}

/// The tree entries a run of children contributes, in the order given.
pub open spec fn dir_entries(s: Seq<DirEntry>) -> Seq<EntryV>
    decreases s,
{
    if s.len() == 0 {
        Seq::empty()
    } else {
        dir_entries(s.drop_last()) + child_entry(s.last())
    }
}

/// What one child contributes: nothing for the metadata directory or an
/// elided empty directory, else one entry carrying the child's digest.
pub open spec fn child_entry(c: DirEntry) -> Seq<EntryV>
    decreases c,
{
    if c.node is Dir && c.name@ == metadata_dir_name() {
        Seq::empty()
    } else {
        match node_object(c.node) {
            None => Seq::empty(),
            Some(kp) => seq![
                EntryV { mode: node_mode(c.node), name: c.name@, digest: digest_of(kp.0, kp.1) },
            ],
        }
    }
}

/// Snapshots a whole working tree into the store and returns the root
/// tree digest. At the root an empty snapshot is an error: a repository
/// snapshot must never be truly empty.
pub fn write_tree_root(store: &mut Store, root: &Node) -> (r: Result<[u8; 20], StoreError>)
    requires
        old(store).wf(),
        node_wf(*root),
    ensures
        final(store).wf(),
        old(store)@.submap_of(final(store)@),
        r is Ok <==> node_object(*root) is Some,
        (r matches Ok(d) ==> (node_object(*root) matches Some(kp) && d@ == digest_of(kp.0, kp.1)
            && final(store)@.contains_key(d@))),
        r matches Err(e) ==> e == StoreError::EmptySnapshot && node_object(*root) is None,
{
    match store_node(store, root) {
        Some(d) => Ok(d),
        None => Err(StoreError::EmptySnapshot),
    }
}

/// A directory with nothing to record contributes no entry at all to its
/// parent: the subdirectory simply does not appear.
pub proof fn lemma_empty_subdir_elided(c: DirEntry)
    requires
        c.node is Dir,
        node_object(c.node) is None,
    ensures
        child_entry(c) == Seq::<EntryV>::empty(),
{
}

/// Whether a name is the reserved metadata directory name.
fn is_metadata_name(name: &Vec<u8>) -> (r: bool)
    ensures
        r == (name@ == metadata_dir_name()),
{
    if name.len() != 4 {
        proof {
            if name@ == metadata_dir_name() {
                assert(name@.len() == 4);
            }
        }
        return false;
    }
    let r = name[0] == 46 && name[1] == 103 && name[2] == 105 && name[3] == 116;
    proof {
        if r {
            assert(name@ =~= metadata_dir_name());
        } else {
            if name@ == metadata_dir_name() {
                assert(name@[0] == 46 && name@[1] == 103 && name@[2] == 105 && name@[3] == 116);
            }
        }
    }
    r
}

/// The mode of a node.
fn node_mode_exec(n: &Node) -> (m: Mode)
    ensures
        m == node_mode(*n),
{
    match n {
        Node::File { executable, .. } => if *executable {
            Mode::Executable
        } else {
            Mode::File
        },
        Node::Symlink { .. } => Mode::SymbolicLink,
        Node::Dir { .. } => Mode::Directory,
    }
}

/// Stores every object of a snapshot, leaves first, and returns the digest
/// of the node's own object — or None for a directory with nothing to
/// record. The digest is a function of the snapshot alone, and the store
/// only grows.
pub fn store_node(store: &mut Store, node: &Node) -> (r: Option<[u8; 20]>)
    requires
        old(store).wf(),
        node_wf(*node),
    ensures
        final(store).wf(),
        old(store)@.submap_of(final(store)@),
        r is Some <==> node_object(*node) is Some,
        (r matches Some(d) ==> (node_object(*node) matches Some(kp) && d@ == digest_of(
            kp.0,
            kp.1,
        ) && final(store)@.contains_key(d@))),
    decreases *node,
{
    broadcast use vstd::map_lib::lemma_submap_of_trans;

    match node {
        Node::File { executable, content } => {
            let n = content.len();
            proof {
                assert(content@.len() == n);
            }
            Some(store.put(Kind::Blob, content))
        },
        Node::Symlink { target } => {
            let n = target.len();
            proof {
                assert(target@.len() == n);
            }
            Some(store.put(Kind::Blob, target))
        },
        Node::Dir { children } => {
            let ghost cs = children@;
            proof {
                assert(*node == Node::Dir { children: *children });
                assert(dir_entries(cs.take(0)) =~= Seq::<EntryV>::empty()) by {
                    assert(cs.take(0) =~= Seq::<DirEntry>::empty());
                }
                assert(children_wf(cs));
            }
            let mut entries: Vec<TreeEntry> = Vec::new();
            let mut i: usize = 0;
            while i < children.len()
                invariant
                    i <= cs.len(),
                    children@ == cs,
                    store.wf(),
                    old(store)@.submap_of(store@),
                    children_wf(cs),
                    *node == (Node::Dir { children: *children }),
                    views(entries@) == dir_entries(cs.take(i as int)),
                decreases cs.len() - i,
            {
                broadcast use vstd::map_lib::lemma_submap_of_trans;

                let ghost pre_entries = entries@;
                let c = &children[i];
                proof {
                    assert(*c == cs[i as int]);
                }
                let skip = match &c.node {
                    Node::Dir { .. } => is_metadata_name(&c.name),
                    _ => false,
                };
                if !skip {
                    proof {
                        assert(valid_name(cs[i as int].name@) && node_wf(cs[i as int].node));
                        let ghost nv = *node;
                        assert(nv is Dir);
                        assert(nv->Dir_children == *children);
                        assert(decreases_to!(nv => nv->Dir_children));
                        assert(decreases_to!(*children => children@));
                        assert(decreases_to!(cs => cs[i as int]));
                        assert(decreases_to!(cs[i as int] => cs[i as int].node));
                        assert(c.node == cs[i as int].node);
                        assert(decreases_to!(*node => c.node));
                    }
                    let sub = store_node(store, &c.node);
                    match sub {
                        None => {
                            proof {
                                assert(child_entry(cs[i as int]) =~= Seq::<EntryV>::empty());
                            }
                        },
                        Some(dg) => {
                            let m = node_mode_exec(&c.node);
                            let name_copy = copy_bytes(&c.name);
                            let te = TreeEntry { mode: m, name: name_copy, digest: dg };
                            proof {
                                let kp = node_object(c.node)->Some_0;
                                assert(te@ == EntryV {
                                    mode: node_mode(c.node),
                                    name: c.name@,
                                    digest: digest_of(kp.0, kp.1),
                                });
                                assert(child_entry(cs[i as int]) =~= seq![te@]);
                            }
                            entries.push(te);
                            proof {
                                assert(views(entries@) =~= views(pre_entries).push(te@)) by {
                                    assert(entries@ == pre_entries.push(te));
                                }
                                assert(views(pre_entries).push(te@) =~= views(pre_entries)
                                    + seq![te@]);
                            }
                        },
                    }
                } else {
                    proof {
                        assert(child_entry(cs[i as int]) =~= Seq::<EntryV>::empty());
                    }
                }
                proof {
                    assert(cs.take(i + 1).drop_last() =~= cs.take(i as int));
                    assert(cs.take(i + 1).last() == cs[i as int]);
                    assert(views(entries@) =~= dir_entries(cs.take(i + 1)));
                }
                i = i + 1;
            }
            proof {
                assert(cs.take(cs.len() as int) =~= cs);
            }
            if entries.len() == 0 {
                proof {
                    assert(views(entries@).len() == 0);
                    assert(dir_entries(cs).len() == 0);
                }
                None
            } else {
                let ghost evs = views(entries@);
                let sorted = sort_entries(entries);
                let payload = serialize_tree(&sorted);
                let n = payload.len();
                proof {
                    assert(payload@.len() == n);
                    assert(evs.len() > 0);
                    crate::tree::lemma_sort_entries_spec_props(evs);
                    assert(dir_entries(cs).len() > 0);
                }
                let d = store.put(Kind::Tree, &payload);
                proof {
                    assert(payload@ == tree_rep(sort_entries_spec(dir_entries(cs))));
                    assert(node_object(*node) matches Some(kp) && d@ == digest_of(kp.0, kp.1));
                }
                Some(d)
            }
        },
    }
}

} // verus!
