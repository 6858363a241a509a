//! Multifractal workflow: verified process-geometry manufacture, admission gates and
//! the small state machines that tie the workflow families together.

pub mod relation;
pub mod text;
pub mod lex;
pub mod digest;
pub mod powl;
pub mod routing;
pub mod plan;
pub mod grouping;
pub mod geometry;
pub mod geometry_detail;
pub mod shape;
pub mod shape_laws;
pub mod turtle;
pub mod growth;
pub mod graft;
pub mod contraction;
pub mod projector;
pub mod planning;
pub mod runtime;
pub mod admission;
pub mod datalog;
pub mod crown;
pub mod case_text;
pub mod case_closure;
pub mod obligations;
