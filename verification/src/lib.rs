//! Parallel listing of an object store by lexicographic range splitting,
//! and composition of many objects into few.
//!
//! - `range_splitter`: reads string ranges as numbers over a growing
//!   alphabet and splits them evenly; `split_laws` and `split_termination`
//!   hold what is proved of the split points and of when splitting returns.
//! - `fast_list`: the decisions of the parallel listing (page filtering,
//!   resumption, request bounds, work stealing, final deduplication).
//! - `compose`: planning of hierarchical composition and the cutting of a
//!   downloaded composite back into its source objects.
//! - `alphabet`, `lexical`, `name_order`, `bignum`: sorted alphabets, the
//!   lexicographic order, ordering by name, and big integers.
pub mod alphabet;
pub mod bignum;
pub mod compose;
pub mod fast_list;
pub mod lexical;
pub mod name_order;
pub mod range_splitter;
pub mod split_count;
pub mod split_laws;
pub mod split_termination;
