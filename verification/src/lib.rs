//! Reader, writer and merger for the Erigon 3 **seg** state file format.
//!
//! Erigon stores a snapshot of domain state (accounts, storage, code, …) as a triple of
//! sibling files sharing one base name, e.g. `v1.1-accounts.0-1024.{kv,bt,kvei}`:
//!
//! * **`.kv`**: the data, a `seg`-compressed stream of *words*. For a domain file the
//!   words alternate `key`, `value`, `key`, `value`, … and the keys are sorted.
//! * **`.bt`**: a B-tree index whose payload is an Elias-Fano array giving the `.kv` byte
//!   offset of every key, enabling an `O(log n)` point lookup.
//! * **`.kvei`**: an existence (bloom) filter, a *negative* accelerator. If it says a key
//!   is absent, the `.bt` search can be skipped entirely. It never reports a real key as
//!   absent, so it is safe to trust for the negative case.
//!
//! The library works on the bytes of these files; mapping, reading and writing them is
//! left to its callers. What each function does is stated in its contract, and the
//! functions named `law_…` state what holds of several of them together: a written file
//! reads back, narrowing loses no key, a filter has no false negatives, newest wins.
//!
//! The reader handles both released on-disk layouts:
//!
//! * `.kv`: the legacy `v0` header (body at offset 0) and the `v1` header (a leading
//!   `[version, feature-flags]` pair, an optional page-compression byte, and optional
//!   out-of-band metadata).
//! * `.bt`: the legacy layout (Elias-Fano at offset 0) and the newer footer layout (a
//!   trailing `erigon\0\0` magic locating the Elias-Fano section).
//! * `.kvei`: the bloom layout (`v02\n` magic). The newer "fuse filter" layout is detected
//!   and skipped (lookups remain correct, just unaccelerated).

pub mod ages;
pub mod bits;
pub mod bitwriter;
pub mod bloom;
pub mod bt_writer;
pub mod btree;
pub mod built;
pub mod byte_laws;
pub mod bytes;
pub mod code;
pub mod coder;
pub mod compress;
pub mod data_laws;
pub mod depth;
pub mod dictionary;
pub mod domain;
pub mod domain_laws;
pub mod double;
pub mod ef_builder;
pub mod eliasfano;
pub mod error;
pub mod hash;
pub mod hash_laws;
pub mod huffman;
pub mod huffman_laws;
pub mod kvei_writer;
pub mod layout_laws;
pub mod lookup_laws;
pub mod memlock;
pub mod merge;
pub mod merge_laws;
pub mod name_laws;
pub mod names;
pub mod newest;
pub mod ngrams;
pub mod pattern_laws;
pub mod readback;
pub mod reader;
pub mod roundtrip;
pub mod salt;
pub mod seg;
pub mod seg_laws;
pub mod seg_writer;
pub mod shortest;
pub mod sort;
pub mod stack;
pub mod stack_laws;
pub mod table;
pub mod varint;
pub mod words;
pub mod writer_laws;

pub use bloom::{ExistenceFilter, FilterKind};
pub use bt_writer::{build_bt, build_bt_from_seg, BtLayout, BtOptions, DEFAULT_BTREE_M};
pub use btree::{BtreeIndex, Nodes};
pub use domain::{DomainFiles, DomainOptions, DomainWriter};
pub use eliasfano::EliasFano;
pub use error::{Error, FormatError, Result};
pub use hash::murmur3_x64_128_h1;
pub use kvei_writer::{build_kvei, build_kvei_from_seg, KveiBuilder};
pub use merge::{merge, MergeInput, MergeOptions};
pub use reader::{KvIter, KvReader};
pub use salt::{salt_from_bytes, Salt};
pub use seg::{Getter, OpenOptions, Seg};
pub use seg_writer::SegWriter;
pub use stack::KvStack;
