//! Feasibility of collision structures for Linicrypt programs.
//!
//! A program is a set of rows over a space of wires; a collision structure is a pattern of
//! agreement and divergence between two executions. Whether a program admits a structure is
//! decided by exact span membership, by Gaussian elimination over a prime field GF(p) whose
//! order the caller chooses; `laws` states what holds of spans and of the decision.
pub mod echelon;
pub mod field;
pub mod laws;
pub mod model;
pub mod schemes;
pub mod span;

pub use echelon::{is_in_span, is_rank_deficient};
pub use field::PrimeField;
pub use model::{
    decimal_string, linicrypt_to_lines, row_string, AlgebraicRepresentation, CollisionStructure, Constraint, Direction, Operation, RawConstraint,
};
pub use schemes::{generate_all_schemes, scheme_to_lines, SchemeType, SingleQueryScheme};
