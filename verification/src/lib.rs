//! Checks, scores and revises app store listing copy.
//!
//! A listing is described by a [`store_spec::Spec`]. [`checks`] finds what is wrong with a document
//! by rules alone. [`generate`], [`schema`] and [`score`] say what models are asked and what becomes
//! of their answers, and [`loop_run`] decides when a draft is good enough. Asking the models, and
//! arithmetic on scores, is left to the program around the library. [`laws`] states what can be
//! relied on of all this, and [`wording`] which phrases the patterns of [`phrases`] are to find.
pub mod checks;
pub mod double;
pub mod generate;
pub mod json;
pub mod laws;
pub mod loop_run;
pub mod overlap;
pub mod pattern;
pub mod phrases;
pub mod reading;
pub mod schema;
pub mod score;
pub mod similarity;
pub mod sorted;
pub mod store_spec;
pub mod text;
pub mod wording;
