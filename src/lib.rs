/// Columnar tables: typed columns with nulls, schemas, projection.
pub mod table;
/// Row-wise stacking of same-schema tables.
pub mod stacking;
/// Left join on one key column.
pub mod join;
/// Grouping by a text column and null-skipping group means.
pub mod aggregate;
/// Mean of the group means, as an exact fraction.
pub mod summary;
/// The eager pipeline: each stage built in full before the next.
pub mod pipeline;
/// The deferred query, with projection fused into the shard scan.
pub mod lazy;
/// Properties of the pipeline, stated and proved.
pub mod laws;
