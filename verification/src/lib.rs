//! A zero-copy scanning cursor over an immutable byte buffer, with
//! table-driven byte classification and checkpoint/restore backtracking.

pub mod lookup;
pub mod parse;
