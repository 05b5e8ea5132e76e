//! Deleted files manifests: a content-addressed tree that records, for one
//! changeset, which paths are deleted and which changeset deleted them,
//! together with the derivation of such a manifest from the manifests of the
//! changeset's parents.
//!
//! A manifest is made of nodes ([`manifest`]), each held in a store under
//! the hash of its serialized form ([`hash`], [`blob`], [`store`]). The
//! changes that a changeset makes to the set of paths are gathered into a
//! tree ([`changes`], [`path_tree`]). The derivation ([`derive`]) walks
//! that tree and the parents' manifests together: at each node it decides
//! what happens there ([`unfold`]) and then makes the node ([`fold`]).
//! What holds of every derivation is proved in [`laws`].
//!
//! Beside this stand the rules of a few services and commands: the
//! directories of an EdenFS instance ([`instance`]), the counters of the
//! HTTP traffic ([`progress`]), the choice of a segmented changelog
//! ([`segmented_changelog`]), and the options of two commands
//! ([`skiplist`], [`runlog`]).

pub mod hash;
pub mod path;
pub mod entries;
pub mod manifest;
pub mod blob;
pub mod path_tree;
pub mod store;
pub mod changes;
pub mod unfold;
pub mod fold;
pub mod derive;
pub mod laws;
pub mod instance;
pub mod progress;
pub mod runlog;
pub mod segmented_changelog;
pub mod skiplist;
