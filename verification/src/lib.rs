//! A DPLL satisfiability solver for propositional formulas in conjunctive
//! normal form, together with a DIMACS CNF reader and an assignment printer.

pub mod dimacs;
pub mod sat;
