//! Query grammar: OR binds tighter than AND. Matching is NFC-normalized and fully case-folded
//! unless `case:` is specified.
pub mod atoms;
pub mod binding;
pub mod dates;
pub mod evaluate;
pub mod laws;
pub mod lexer;
pub mod literals;
pub mod matcher;
pub mod pattern_laws;
pub mod keyword_laws;
pub mod words;
pub mod meaning_laws;
pub mod grammar_laws;
pub mod truth_laws;
pub mod prefix_laws;
pub mod model;
pub mod numbers;
pub mod options;
pub mod parser;

pub use crate::fold::{fold, fold_search, natural_cmp};
pub use crate::natural::natural_cmp_folded;
pub use binding::parse_at;
pub use matcher::TextMatcher;
pub use model::{NumberBounds, Query, ResolvedPredicate, Term};
pub use options::{Field, MatchOptions, TextTarget};
