//! A small file database that indexes files by an unordered set of tags
//! derived from the segments of a slash-delimited path, rather than by a
//! single path.  Queries ask either for every file whose tag set is a
//! superset of some required tags, or for the one file carrying a given
//! name together with those tags.

mod fdb_trait;
mod file;
mod filequery;
pub mod fromstr;
mod hashtags;
mod hashtags2;
mod naive;
mod tagset;
mod tagtree;

pub use crate::fdb_trait::FileDB;
pub use crate::fdb_trait::FileVecIterator;
pub use crate::fdb_trait::GetFileError;
pub use crate::fdb_trait::lemma_exact_query_unique;
pub use crate::fdb_trait::lemma_single_tag_query_finds;
pub use crate::fdb_trait::lemma_superset_semantics;
pub use crate::fdb_trait::matches_of;
pub use crate::fdb_trait::multi_match;
pub use crate::fdb_trait::no_match;
pub use crate::fdb_trait::unique_match;
pub use crate::file::File;
pub use crate::filequery::FileKey;
pub use crate::filequery::FileQuery;
pub use crate::filequery::key_matches;
pub use crate::hashtags::HashTagsDBFS;
pub use crate::hashtags::file_pairs_files;
pub use crate::hashtags2::HashTags2DBFS;
pub use crate::hashtags2::name_pairs_files;
pub use crate::hashtags2::name_pairs_known;
pub use crate::hashtags2::name_pairs_tags_of;
pub use crate::naive::NaiveDBFS;
pub use crate::tagset::TagSet;
pub use crate::tagset::chars_lt;
pub use crate::tagset::file_name_of;
pub use crate::tagset::file_tags_of;
pub use crate::tagset::is_seg;
pub use crate::tagset::name_start;
pub use crate::tagset::path_tags;
pub use crate::tagset::path_tags_upto;
pub use crate::tagtree::Node;
pub use crate::tagtree::TagTreeDBFS;
pub use crate::tagtree::branchnode::BranchNode;
pub use crate::tagtree::branchnode::node_files;
pub use crate::tagtree::branchnode::node_height;
pub use crate::tagtree::branchnode::node_wf;
pub use crate::tagtree::branchnode::nodes_files_upto;
pub use crate::tagtree::branchnode::nodes_height_upto;
pub use crate::tagtree::branchnode::nodes_wf_upto;
pub use crate::tagtree::endnode::EndNode;
pub use crate::tagtree::endnodeiterator::EndNodeIterator;
pub use crate::tagtree::multiendnodeiterator::MultiNodeIterator;
pub use crate::tagtree::multiendnodeiterator::concat_from;
pub use crate::tagtree::multiendnodeiterator::iters_height_upto;
pub use crate::tagtree::multiendnodeiterator::nit_height;
pub use crate::tagtree::multiendnodeiterator::nit_inv;
pub use crate::tagtree::multiendnodeiterator::nit_views;
pub use crate::tagtree::nodeiterator::NodeIterator;
pub use crate::tagtree::tagmaskbits::TagMaskBits;
pub use crate::tagtree::tagmaskbits::bit32;
pub use crate::tagtree::tagmaskbits::count_bits_below;
