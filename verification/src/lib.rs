use vstd::prelude::*;

pub mod app_config;
pub mod cache;
pub mod editor;
pub mod nix_config;
pub mod parse;
pub mod search;
pub mod text;

verus! {

/// Failure taxonomy of the package reconciliation engine.
///
/// Cache errors abort an invocation outright; `DocumentParse` covers both an
/// unreadable configuration file and a file in which no target package list
/// can be located; `Edit` means a structural edit could not find its
/// insertion point even though the list itself was located.
#[derive(Debug, Clone, Copy, PartialEq, Eq, Structural)]
pub enum FritzError {
    /// The external index query failed or produced unparseable output.
    CacheFetch,
    /// The cache file could not be read or written.
    CacheIo,
    /// The configuration document is unreadable or holds no package list.
    DocumentParse,
    /// The edit could not locate an insertion point inside the list.
    Edit,
    /// The running platform is not one of the supported variants.
    UnsupportedPlatform,
}

} // verus!
