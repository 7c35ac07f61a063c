use notifications::metadata::{StorageEntryModifierIR, StorageHasherIR};

#[test]
fn storage_metadata_variants_compare() {
    let m = StorageEntryModifierIR::Optional;
    assert_eq!(m, m.clone());
    assert_ne!(StorageEntryModifierIR::Optional, StorageEntryModifierIR::Default);
    let hashers = [
        StorageHasherIR::Blake2_128,
        StorageHasherIR::Blake2_256,
        StorageHasherIR::Blake2_128Concat,
        StorageHasherIR::Twox128,
        StorageHasherIR::Twox256,
        StorageHasherIR::Twox64Concat,
        StorageHasherIR::Identity,
    ];
    for (i, a) in hashers.iter().enumerate() {
        for (j, b) in hashers.iter().enumerate() {
            assert_eq!(i == j, a == b);
        }
    }
}
