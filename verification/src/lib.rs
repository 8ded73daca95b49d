//! Semantic deduplication, outlier filtering and representative sampling of records.
//!
//! A record is plain text or a dictionary. Records are grouped by exact match, the first record of
//! each group is encoded as a vector, and vectors are compared by cosine similarity. The library
//! decides everything that can be decided without floating-point arithmetic: how records are
//! validated and compared, which neighbors count, what is a duplicate, how records rank and which
//! are chosen. Its callers compute the similarities and hand them in.

pub mod coercion_laws;
pub mod conversions;
pub mod datamodels;
pub mod deduplication;
pub mod deduplication_laws;
pub mod encoding_laws;
pub mod error;
pub mod failure_laws;
pub mod features;
pub mod float;
pub mod grouping_laws;
pub mod hashing;
pub mod index;
pub mod instance_laws;
mod key_table;
pub mod message_laws;
pub mod neighbor_laws;
pub mod number_laws;
pub mod order;
pub mod order_laws;
pub mod ranking;
pub mod ranking_laws;
pub mod record_laws;
pub mod records;
pub mod rendering;
pub mod representatives;
pub mod result_laws;
pub mod sampling_laws;
pub mod scaling;
pub mod self_deduplication_laws;
pub mod semhash;
pub mod semhash_laws;
pub mod strategy;
pub mod sublists;
pub mod text;
pub mod text_laws;
pub mod utils;
pub mod value;
pub mod value_order;

pub use datamodels::{
    DeduplicationResult, DuplicateRecord, FilterResult, Ratio, SelectedWithDuplicates,
};
pub use error::{Result, SemHashError};
pub use features::{featurize, Embeddings, Encoder};
pub use float::{Float32, Float64};
pub use hashing::HashingEncoder;
pub use index::{Backend, DocScore, DocScores, Index, SingleQueryResult};
pub use representatives::CandidateLimit;
pub use semhash::{PendingDeduplication, RankedDiversification, SemHash, SemHashOptions};
pub use strategy::{diversify, Diversification, DiversifyResult, Strategy};
pub use utils::{
    coerce_value, compute_candidate_limit, compute_candidate_limit_default, make_hashable,
    to_frozendict, to_key_map,
};
pub use value::{DictRecord, Record, Value};
