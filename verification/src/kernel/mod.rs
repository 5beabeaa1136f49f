//! Canonical objects and the machines that read and change them.

pub mod allocation;
pub mod attribute;
pub mod attribute_access;
pub mod attribute_list;
pub mod attribute_mutation;
pub mod batch;
pub mod blob;
pub mod blob_build;
pub mod blob_outcome;
pub mod blob_pages;
pub mod blob_plan;
pub mod blob_read;
pub mod checkpoint;
pub mod closure;
pub mod closure_attribute;
pub mod closure_extent;
pub mod closure_laws;
pub mod closure_outcome;
pub mod closure_reach;
pub mod closure_table;
pub mod closure_tree;
pub mod codec;
pub mod encoded_length;
pub mod export;
pub mod extent;
pub mod extent_clone;
pub mod extent_laws;
pub mod extent_mutation;
pub mod extent_patch;
pub mod extent_rewrite;
pub mod extent_tree;
pub mod file_lookup;
pub mod file_read;
pub mod file_table;
pub mod generation_proof;
pub mod name;
pub mod namespace;
pub mod namespace_laws;
pub mod object_table;
pub mod pagination;
pub mod patch_plan;
pub mod radix;
pub mod rule_laws;
pub mod visited;
