//! A minimal content-addressable object store and working-tree snapshot
//! builder, in the style of a version-control plumbing layer.
//!
//! Objects are byte payloads tagged with a kind and a decimal size, hashed
//! with SHA-1 over the uncompressed tagged representation, and stored
//! zlib-compressed under their digest.

use vstd::prelude::*;

mod codec;
mod commit;
mod compress;
mod errors;
mod hexfmt;
mod kind;
mod mode;
mod snapshot;
mod store;
mod tree;

pub use codec::{
    dec_rep, dec_val, decode_object, encode_rep, is_digit_seq, kind_of_name,
    lemma_object_rep_injective, lemma_parse_object_rep, object_rep, parse_object, u64_to_dec,
    Object,
};
pub use commit::{build_commit_payload, commit_payload_rep, commit_tree, opt_bytes};
pub use compress::zlib_compress;
pub use errors::StoreError;
pub use hexfmt::{bytes_to_hex, digest_to_hex, hex_of, hex_to_bytes, nibble_of};
pub use kind::{kind_name, Kind};
pub use mode::{classified_mode, kind_of_mode, mode_bytes, mode_chars, Mode};
pub use snapshot::{
    child_entry, dir_entries, lemma_empty_subdir_elided, metadata_dir_name, node_mode,
    node_object, node_wf, store_node, write_tree_root, DirEntry, Node,
};
pub use store::{decode_stored, digest_of, hash_and_compress, sha1_of, valid_stored, Store};
pub use tree::{
    entries_sorted, entry_le, entry_rep, lemma_lex_le_antisym, lemma_lex_le_total,
    lemma_lex_le_trans, lemma_sort_entries_spec_props, lemma_sorted_unique, lex_le, parse_tree,
    serialize_tree, sort_entries, sort_entries_spec, sort_key, tree_rep, valid_name, views,
    wf_entries, EntryV, TreeEntry,
};
