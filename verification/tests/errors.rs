use altered_catalog::error::CatalogError;

#[test]
fn every_failure_has_its_message() {
    assert_eq!(CatalogError::MissingKey.message(), "record without a reference key");
    assert_eq!(CatalogError::PoolOverflow.message(), "string pool is full");
    assert_eq!(CatalogError::TableOverflow.message(), "lookup table has more codes than indices");
    assert_eq!(CatalogError::BufferOverflow.message(), "encoded database is too large");
    assert_eq!(CatalogError::CodecFailure.message(), "codec failure");
    assert_eq!(
        CatalogError::VersionMismatch.message(),
        "delta was made for another base version"
    );
    assert_eq!(CatalogError::ChecksumMismatch.message(), "delta checksum does not match");
    assert_eq!(CatalogError::MalformedPackage.message(), "bytes are not a delta package");
}
