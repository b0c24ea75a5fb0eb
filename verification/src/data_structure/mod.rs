pub mod implicit_treap;
pub mod lazy_reversible_rbst;
pub mod weighted_dsu;
pub mod monoid_actions;
