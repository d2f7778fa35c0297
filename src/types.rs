use vstd::prelude::*;

verus! {

/// External identifier of a point, chosen by the user.
pub type PointIdType = u64;

/// Dense internal index of a point inside one segment.
pub type PointOffsetType = usize;

/// Operation version, used to skip stale or replayed operations.
pub type SeqNumberType = u64;

/// Element of a stored vector: a fixed-point number chosen by the caller.
pub type VectorElementType = i32;

/// Similarity score; higher is better for every distance.
pub type ScoreType = i128;

/// Similarity measure of a segment.
#[derive(Clone, Copy, Debug, PartialEq, Eq, Structural)]
pub enum Distance {
    /// Dot product of vectors that the caller normalised beforehand.
    Cosine,
    /// Plain dot product.
    Dot,
    /// Negated squared Euclidean distance, so that a higher score is closer.
    Euclid,
}

/// Tunables of the graph index.
#[derive(Clone, Copy, Debug, PartialEq, Eq, Structural)]
pub struct HnswConfig {
    pub m: usize,
    pub ef_construct: usize,
    pub full_scan_threshold: usize,
}

/// Kind of vector index of a segment.
#[derive(Clone, Copy, Debug, PartialEq, Eq, Structural)]
pub enum Indexes {
    Plain,
    Hnsw(HnswConfig),
}

/// Kind of payload index of a segment.
#[derive(Clone, Copy, Debug, PartialEq, Eq, Structural)]
pub enum PayloadIndexType {
    Plain,
    Struct,
}

/// Backing medium of the vector storage.
#[derive(Clone, Copy, Debug, PartialEq, Eq, Structural)]
pub enum StorageType {
    InMemory,
    Mmap,
}

/// Per-query tunables of the index.
#[derive(Clone, Copy, Debug, PartialEq, Eq, Structural)]
pub struct SearchParams {
    pub hnsw_ef: Option<usize>,
}

/// Immutable description of a segment, fixed when it is built.
#[derive(Clone, Copy, Debug, PartialEq, Eq, Structural)]
pub struct SegmentConfig {
    pub vector_size: usize,
    pub index: Indexes,
    pub payload_index: Option<PayloadIndexType>,
    pub distance: Distance,
    pub storage_type: StorageType,
}

/// A search hit: external point id and its score.
#[derive(Clone, Copy, Debug, PartialEq, Eq, Structural)]
pub struct ScoredPoint {
    pub id: PointIdType,
    pub score: ScoreType,
}

/// Failure of a segment operation.
#[derive(Clone, Debug)]
pub enum OperationError {
    WrongVector { expected_dim: usize, received_dim: usize },
    PointIdError { missed_point_id: PointIdType },
    TypeError { field_name: String, expected_type: String },
    ServiceError { description: String },
}

pub type OperationResult<T> = Result<T, OperationError>;

/// Distance selected by its numeric code: 0 cosine, 1 dot, 2 Euclid.
pub fn distance_from_code(code: usize) -> (r: Option<Distance>)
    ensures
        code == 0 ==> r == Some(Distance::Cosine),
        code == 1 ==> r == Some(Distance::Dot),
        code == 2 ==> r == Some(Distance::Euclid),
        code > 2 ==> r is None,
{
    match code {
        0 => Some(Distance::Cosine),
        1 => Some(Distance::Dot),
        2 => Some(Distance::Euclid),
        _ => None,
    }
}

/// Storage type selected by its numeric code: 0 in memory, 1 memory-mapped.
pub fn storage_type_from_code(code: usize) -> (r: Option<StorageType>)
    ensures
        code == 0 ==> r == Some(StorageType::InMemory),
        code == 1 ==> r == Some(StorageType::Mmap),
        code > 1 ==> r is None,
{
    match code {
        0 => Some(StorageType::InMemory),
        1 => Some(StorageType::Mmap),
        _ => None,
    }
}

/// Payload index type selected by its numeric code: 0 plain, 1 structured.
pub fn payload_index_type_from_code(code: usize) -> (r: Option<PayloadIndexType>)
    ensures
        code == 0 ==> r == Some(PayloadIndexType::Plain),
        code == 1 ==> r == Some(PayloadIndexType::Struct),
        code > 1 ==> r is None,
{
    match code {
        0 => Some(PayloadIndexType::Plain),
        1 => Some(PayloadIndexType::Struct),
        _ => None,
    }
}

/// Vector index selected by its numeric code: 0 plain, 1 graph, which needs
/// its configuration.
pub fn vector_index_from_code(code: usize, hnsw_config: Option<HnswConfig>) -> (r: Option<Indexes>)
    ensures
        code == 0 ==> r == Some(Indexes::Plain),
        code == 1 && hnsw_config is Some ==> r == Some(Indexes::Hnsw(hnsw_config->Some_0)),
        code == 1 && hnsw_config is None ==> r is None,
        code > 1 ==> r is None,
{
    match code {
        0 => Some(Indexes::Plain),
        1 => match hnsw_config {
            Some(c) => Some(Indexes::Hnsw(c)),
            None => None,
        },
        _ => None,
    }
}

} // verus!
