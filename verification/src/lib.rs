//! Dynamic sets of integer keys: an AVL tree, a two-level perfect hash set
//! and the Bentley-Saxe transformation that turns the static hash set into a
//! dynamic one.

pub mod avl_drevo;
mod nakljucno;
pub mod hash_tabela;
pub mod bentley_saxe;
pub mod generiraj_csv;
pub mod primerjava;
