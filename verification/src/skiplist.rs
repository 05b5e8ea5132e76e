//! The command that builds or reads the skiplist index of a repository.

use vstd::prelude::*;

verus! {

/// How the skiplist index is built.
#[derive(Clone, Copy, Debug, PartialEq, Eq, Structural)]
pub struct SkiplistBuildArgs {
    /// Build the index anew, without looking at the stored one.
    pub rebuild: bool,
    /// The power of two up to which skip edges are made.
    pub exponent: u32,
}

#[derive(Clone, Copy, Debug, PartialEq, Eq, Structural)]
pub enum SkiplistSubcommand {
    /// Build the skiplist index and store it in blobstore
    Build(SkiplistBuildArgs),
    /// Read and display stored skiplist index
    Read,
}

/// Neither the command line nor the repository's configuration names a
/// blobstore key.
#[derive(Clone, Copy, Debug, PartialEq, Eq, Structural)]
pub struct NoBlobstoreKey {}

/// The blobstore key of the skiplist index: the one given as argument,
/// or else the one in the repository's configuration.
pub fn get_blobstore_key(key_arg: Option<String>, config_key: Option<String>) -> (r: Result<String, NoBlobstoreKey>)
    ensures
        r == match key_arg {
            Some(key_val) => Ok::<String, NoBlobstoreKey>(key_val),
            None => match config_key {
                Some(key_val) => Ok(key_val),
                None => Err(NoBlobstoreKey {  }),
            },
        },
{
    match key_arg {
        Some(key_val) => Ok(key_val),
        None => match config_key {
            None => Err(NoBlobstoreKey {  }),
            Some(key_val) => Ok(key_val),
        },
    }
}

} // verus!
