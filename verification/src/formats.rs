//! The artifacts that are published for one catalog: the encoded database,
//! and the same bytes packed with each codec.

use crate::catalog::OptimizedData;
use crate::compression::{
    compress_with_gzip, compress_with_lz4, decoded_by, gzip_encoded, lz4_accepts, lz4_bound, Codec,
};
use crate::database::{create_optimized_database, database_result};
use crate::error::CatalogError;
use vstd::prelude::*;

verus! {

/// The encoded database of a catalog and its packed forms.
#[derive(Debug, PartialEq, Eq)]
pub struct OptimizedFormats {
    /// The encoded database.
    pub database: Vec<u8>,
    /// The encoded database, packed with gzip.
    pub gzip: Vec<u8>,
    /// The encoded database, packed with LZ4.
    pub lz4: Vec<u8>,
}

impl OptimizedFormats {
    /// The sizes of the three artifacts in kibibytes, rounded down: encoded
    /// database, gzip, LZ4.
    pub fn sizes_in_kib(&self) -> (sizes: (usize, usize, usize))
        ensures
            sizes == (
                (self.database@.len() / 1024) as usize,
                (self.gzip@.len() / 1024) as usize,
                (self.lz4@.len() / 1024) as usize,
            ),
    {
        (self.database.len() / 1024, self.gzip.len() / 1024, self.lz4.len() / 1024)
    }
}

/// Whether both codecs pack an encoded database: gzip gives bytes for it,
/// and LZ4 accepts its length.
pub open spec fn both_pack(database: Seq<u8>) -> bool {
    gzip_encoded(database) is Some && lz4_accepts(database.len())
}

/// Encodes a catalog and packs the encoded database with gzip and with LZ4.
///
/// Where the encoding fails, its failure is the result. Where it succeeds,
/// the result is `Ok` exactly where both codecs pack its bytes, and a codec
/// failure otherwise. In an `Ok` all three artifacts are there: the gzip
/// form is the member that the encoder gives for the database, and each
/// packed form is what its decoder turns back into the database.
pub fn optimized_formats(data: &OptimizedData) -> (outcome: Result<OptimizedFormats, CatalogError>)
    requires
        data.wf(),
    ensures
        match database_result(data.cards.card_views(), data.lookup_tables, data.meta) {
            Err(failure) => outcome == Err::<OptimizedFormats, CatalogError>(failure),
            Ok(database) => {
                &&& outcome is Ok <==> both_pack(database)
                &&& outcome is Err ==> outcome->Err_0 == CatalogError::CodecFailure
                &&& outcome is Ok ==> {
                    &&& outcome->Ok_0.database@ == database
                    &&& outcome->Ok_0.gzip@ == gzip_encoded(database)->0
                    &&& decoded_by(Codec::Gzip, outcome->Ok_0.gzip@) == Some(database)
                    &&& decoded_by(Codec::Lz4, outcome->Ok_0.lz4@) == Some(database)
                    &&& outcome->Ok_0.lz4@.len() <= lz4_bound(database.len())
                }
            },
        },
{
    let database = match create_optimized_database(data) {
        Ok(bytes) => bytes,
        Err(e) => {
            return Err(e);
        },
    };
    let gzip = match compress_with_gzip(database.as_slice()) {
        Ok(bytes) => bytes,
        Err(e) => {
            return Err(e);
        },
    };
    let lz4 = match compress_with_lz4(database.as_slice()) {
        Ok(bytes) => bytes,
        Err(e) => {
            return Err(e);
        },
    };
    Ok(OptimizedFormats { database, gzip, lz4 })
}

} // verus!
