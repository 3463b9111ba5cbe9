//! A small propositional-logic engine: postfix formulas are parsed into a
//! recursive `Operator` tree, rewritten into negation and conjunctive normal
//! form, decided by a DPLL search, tabulated as truth tables, and
//! re-interpreted over finite integer sets.  A few standalone bit-level
//! utilities (a ripple-carry adder, a shift-and-add multiplier, a Gray-code
//! converter, a powerset generator) live alongside.

pub mod adder;
pub mod conjunctive_normal_form;
pub mod evaluation;
pub mod gray_code;
pub mod multiplier;
pub mod negation_normal_form;
pub mod operator;
pub mod powerset;
pub mod sat;
pub mod set_evaluation;
pub mod truth_table;
