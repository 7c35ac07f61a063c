use vstd::prelude::*;

verus! {

/// How a storage entry is returned when fetched, and what a missing key
/// yields: `Optional` gives an `Option<T>` with `None` for a missing key;
/// `Default` gives a `T`, the default value for a missing key.
#[derive(Clone, Copy, Debug, PartialEq, Eq, Structural)]
pub enum StorageEntryModifierIR {
    /// The entry returns an `Option<T>`, `None` if the key is not present.
    Optional,
    /// The entry returns `T::Default` if the key is not present.
    Default,
}

/// Hasher used by storage maps.
#[derive(Clone, Copy, Debug, PartialEq, Eq, Structural)]
pub enum StorageHasherIR {
    /// 128-bit Blake2 hash.
    Blake2_128,
    /// 256-bit Blake2 hash.
    Blake2_256,
    /// Multiple 128-bit Blake2 hashes concatenated.
    Blake2_128Concat,
    /// 128-bit XX hash.
    Twox128,
    /// 256-bit XX hash.
    Twox256,
    /// Multiple 64-bit XX hashes concatenated.
    Twox64Concat,
    /// Identity hashing (no hashing).
    Identity,
}

} // verus!
