//! Small verified helpers over sequences, string-keyed maps and fallible results.
//!
//! Every operation carries a contract over a mathematical model: a
//! [`Sequence`](sequence_ops::Sequence) is viewed as a `Seq<i32>`, a
//! [`Mapping`](map_ops::Mapping) as a `Map<Seq<char>, i32>`.

pub mod map_ops;
pub mod result_ops;
pub mod sequence_ops;
