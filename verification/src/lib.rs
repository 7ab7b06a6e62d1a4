//! Query operators and the scan of a heap file, with their behaviour stated in contracts.
//!
//! An operator gives tuples, one at each call of `next`: see `opiterator`. `aggregate` holds
//! the operator that groups tuples, `hash_join` the one that joins them, and `laws` what
//! holds of the two as a whole: `results` says it of the operations in numbers, `output` of the
//! rows of an aggregation, `pairing` of the pairs of a join. `heapfileiter` goes through the
//! values of a heap file.
pub mod aggregate;
pub mod bytecode_expr;
pub mod decimal;
pub mod error;
pub mod field;
pub mod hash_join;
pub mod heapfileiter;
pub mod ids;
pub mod laws;
pub mod opiterator;
pub mod order;
pub mod output;
pub mod pairing;
pub mod results;
pub mod sorted_map;
pub mod tuple;

pub use aggregate::{AggOp, Aggregate};
pub use bytecode_expr::{colidx_expr, ByteCodeExpr, ByteCodes};
pub use decimal::Decimal;
pub use error::CrustyError;
pub use field::Field;
pub use hash_join::HashEqJoin;
pub use heapfileiter::HeapFileIterator;
pub use ids::{ContainerId, PageId, SegmentId, SlotId, TransactionId, ValueId};
pub use opiterator::{OpIterator, TupleIterator};
pub use order::{Order, SortKey};
pub use sorted_map::SortedMap;
pub use tuple::{Attribute, DataType, TableSchema, Tuple};
