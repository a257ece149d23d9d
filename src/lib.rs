//! Nested nucleic-acid secondary structures: a pair-table representation with
//! its loop index and move primitive, base-pair maximisation over domain
//! sequences, and the partial order of pair formation along folding paths.

pub mod pair;
pub mod pair_table;
pub mod loop_table;
pub mod text;
pub mod apply_move;
pub mod int_hash;
pub mod pair_set;
pub mod matrix;
pub mod nussinov;
pub mod structures;
pub mod structure_set;
pub mod domain;
pub mod partial_order;
pub mod acfp;

pub use pair::{Pair, PairList, NAIDX, P1KEY};
pub use pair_table::{DotBracketError, PairTable};
pub use loop_table::{LoopInfo, LoopTable};
pub use apply_move::ApplyMove;
pub use pair_set::PairSet;
pub use matrix::ScoreMatrix;
pub use nussinov::NussinovDP;
pub use domain::{Domain, DomainRegistry, RegistryError};
pub use partial_order::PartialOrder;
pub use acfp::display_acfp;
