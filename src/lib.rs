//! Weighted random picking and exact inclusion probabilities.
//!
//! Weights are carried as their IEEE-754 binary64 encodings (`u64`), and every
//! decision the library makes about them (sign, equality, order, which entries
//! take part) is stated and proved over those encodings. The arithmetic on the
//! weights themselves is left to the caller, which follows the moves that the
//! verified state machines hand back.

mod calc;
mod cli;
mod config;
mod draw;
mod error;
mod table;
mod timing;
mod walk;
mod weight;

pub use crate::calc::{Method, method_of, plan};
pub use crate::cli::{
    Arg, Operation, answer_of, arg_of, classify_arg, digits_of, digits_value, first_visible,
    is_digit, is_white_space, read_answer, unsigned_part, usize_of,
};
pub use crate::config::{
    Directive, DirectiveView, bool_of, directive_of, directives_of, is_blank, is_line_break,
    lines, parse_config, pieces, words,
};
pub use crate::draw::{Draw, lemma_draw_can_progress, le, le_bits, locate, tally};
pub use crate::error::Error;
pub use crate::table::{
    check, is_fair, rejects, table_fair, table_valid, takes_part, usable_indexes,
};
pub use crate::timing::measure_exec_time;
pub use crate::walk::{
    Move, Walker, advances, can_descend, count_true, finished, has_sibling, is_free, is_node,
    is_path, lemma_finished_has_no_next, lemma_finished_is_last, lemma_next_node_unique,
    lemma_step_moves_forward, lemma_step_skips_nothing, precedes,
};
pub use crate::weight::{
    INFINITY_BITS, SIGN_BIT, is_nan_bits, is_negative, is_negative_bits, is_positive,
    is_positive_bits, is_zero, is_zero_bits, magnitude, same_value, same_value_bits,
};
