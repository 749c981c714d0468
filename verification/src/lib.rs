mod bound_op;
mod card;
mod op;
mod rat;

pub use bound_op::dedup_solutions;
pub use bound_op::lemma_commutative_swap_equiv;
pub use bound_op::lemma_node_count;
pub use bound_op::lemma_dedup_drops_adjacent_equivalent;
pub use bound_op::lemma_dedup_monotone;
pub use bound_op::lemma_equiv_reflexive;
pub use bound_op::lemma_equiv_symmetric;
pub use bound_op::lemma_equiv_transitive;
pub use bound_op::subsequence_of;
pub use bound_op::BoundOp;
pub use bound_op::Solutions;
pub use card::lemma_emitted_trees_shape;
pub use card::lemma_solve_deterministic;
pub use card::Cards;
pub use card::CartesianProduct;
pub use card::TARGET;
pub use op::default_universe;
pub use op::Op;
pub use op::Ops;
pub use rat::rat_of_u8;
pub use rat::Rat;
pub use rat::MAX_EXPONENT;
