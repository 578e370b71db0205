//! Attribute-based access control: a small S-expression policy language,
//! a hierarchy of resources annotated with policies, and the decision walk
//! that tells whether an operation on a resource is permitted.
pub mod config;
pub mod eval;
pub mod literal;
pub mod parse;
pub mod permission;
pub mod resource;
pub mod rule;
pub mod text;
