//! Template-based synthesis of loop invariants: templates for unknown
//! functions, and the counterexample-guided search for their coefficients.

pub mod admissible;
pub mod ast;
pub mod calls;
pub mod cegis;
pub mod cegis_laws;
pub mod collecting_laws;
pub mod collections;
pub mod conditions;
pub mod decls;
pub mod evaluation;
pub mod functions;
pub mod guards;
pub mod inlining;
pub mod monomials;
pub mod naming;
pub mod pieces;
pub mod polynomial;
pub mod polynomial_laws;
pub mod rational;
pub mod regions;
pub mod scripts;
pub mod semantics;
pub mod seqs;
pub mod smt;
pub mod smt_laws;
pub mod solver;
pub mod substitution;
pub mod subterms;
pub mod synthesis;
pub mod template;
pub mod template_laws;
pub mod template_value;
pub mod text;
