//! A first-order term rewriting library.
//!
//! Terms are trees of operators and variables whose identities live in a
//! shared [`Signature`]. Rules pair a left-hand side with one or more
//! right-hand sides; a [`TRS`] is an ordered collection of rules which can be
//! applied to a term under several evaluation strategies.

use vstd::prelude::*;

mod display;
mod numbers;
mod rewrite;
mod rule;
mod sig;
mod strings;
mod term;
mod trs;
mod unify;

pub use crate::display::dec_chars;
pub use crate::display::op_display;
pub use crate::display::rule_display;
pub use crate::display::term_display;
pub use crate::display::trs_display;
pub use crate::display::var_display;
pub use crate::numbers::bounded_sub_mass;
pub use crate::numbers::convert_list_to_string;
pub use crate::numbers::digit_to_usize;
pub use crate::numbers::feasible_triples;
pub use crate::numbers::insertion_counts;
pub use crate::numbers::num_to_atom;
pub use crate::numbers::num_to_usize;
pub use crate::numbers::sum_below;
pub use crate::numbers::sum_top;
pub use crate::rewrite::Strategy;
pub use crate::rewrite::all_spec;
pub use crate::rewrite::eager_spec;
pub use crate::rewrite::normal_spec;
pub use crate::rewrite::rewrite_head_all;
pub use crate::rewrite::rewrite_head_at;
pub use crate::rewrite::is_subterm;
pub use crate::rewrite::lemma_all_self_yield;
pub use crate::rewrite::lemma_eager_self_yield;
pub use crate::rewrite::lemma_normal_self_yield;
pub use crate::rewrite::lemma_all_wf;
pub use crate::rewrite::lemma_variable_no_redex;
pub use crate::rewrite::lemma_eager_in_all;
pub use crate::rewrite::lemma_eager_wf;
pub use crate::rewrite::lemma_normal_in_all;
pub use crate::rewrite::lemma_normal_wf;
pub use crate::rule::Rule;
pub use crate::rule::RuleView;
pub use crate::rule::canon_rule;
pub use crate::rule::lemma_canonicalize_idempotent;
pub use crate::rule::lemma_canonicalize_alpha_stable;
pub use crate::rule::lemma_canonicalize_stable;
pub use crate::rule::lemma_rule_merge_wf;
pub use crate::rule::rule_rewrite;
pub use crate::sig::Atom;
pub use crate::sig::AtomView;
pub use crate::sig::Operator;
pub use crate::sig::SigView;
pub use crate::sig::Signature;
pub use crate::sig::Variable;
pub use crate::sig::find_dot;
pub use crate::strings::atoms_view;
pub use crate::strings::build_left;
pub use crate::strings::convert_term_to_string;
pub use crate::strings::convert_to_term;
pub use crate::strings::lemma_string_round_trip;
pub use crate::strings::lemma_string_strategy_defined;
pub use crate::strings::breaks_spec;
pub use crate::strings::lemma_breaks_spec_complete;
pub use crate::strings::lemma_breaks_spec_valid;
pub use crate::strings::one_rule_rewrites_spec;
pub use crate::strings::rules_loop;
pub use crate::strings::string_rewrite_spec;
pub use crate::strings::string_to_term_spec;
pub use crate::strings::valid_tail;
pub use crate::strings::term_to_string_spec;
pub use crate::term::IdMap;
pub use crate::term::canon_args;
pub use crate::term::canon_term;
pub use crate::term::injective_renaming;
pub use crate::term::Subst;
pub use crate::term::Term;
pub use crate::term::TermView;
pub use crate::term::dedup_first;
pub use crate::term::ids_of;
pub use crate::term::op_ids_of;
pub use crate::term::subst_of_renaming;
pub use crate::term::term_eq;
pub use crate::term::terms_view;
pub use crate::trs::TRS;
pub use crate::trs::TRSError;
pub use crate::trs::TrsView;
pub use crate::trs::find_alpha;
pub use crate::trs::insert_idx_spec;
pub use crate::trs::lhs_alpha;
pub use crate::trs::rules_view;
pub use crate::trs::trs_alphas;
pub use crate::trs::trs_pmatches;
pub use crate::trs::trs_unifies;
pub use crate::trs::lemma_insert_idx_preserves_inv;
pub use crate::trs::lemma_insert_preserves_inv;
pub use crate::trs::lemma_make_deterministic_preserves_inv;
pub use crate::trs::lemma_pushes_preserves_flag;
pub use crate::trs::lemma_pushes_preserves_inv;
pub use crate::trs::lemma_pushes_preserves_rules_wf;
pub use crate::trs::lemma_remove_idx_preserves_inv;
pub use crate::unify::alpha_pairs;
pub use crate::unify::equalized;
pub use crate::unify::lemma_alpha_is_shape_with_identity_ops;
pub use crate::unify::lemma_alpha_sound;
pub use crate::unify::lemma_alpha_sym;
pub use crate::unify::lemma_occurs_check;
pub use crate::unify::lemma_pmatch_sound;
pub use crate::unify::lemma_unify_sound;
pub use crate::unify::pairs_lhs_vars;
pub use crate::unify::pairs_vars;
pub use crate::unify::pairs_view;
pub use crate::unify::pmatch_pairs;
pub use crate::unify::shape_pairs;
pub use crate::unify::unify_pairs;
pub use crate::unify::zip_views;

verus! {

} // verus!
