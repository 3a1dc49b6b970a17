//! What the library promises, stated apart from the definitions: how the result of an operation
//! relates to what it was given, and how the results of two calls relate.
pub mod checks;
pub mod double;
pub mod generate;
pub mod json;
pub mod loop_run;
pub mod phrases;
pub mod reading;
pub mod schema;
pub mod score;
pub mod sorted;
pub mod store_spec;
pub mod text;
