//! Regular-expression matching by Brzozowski derivatives over an append-only node arena.
pub mod regex;
pub mod vec_alloc;
