//! Extension tables: the constraints on the rows of an execution trace, turned into quotients over an
//! evaluation domain, and upper bounds on the degrees of these quotients.
pub mod b_field_element;
pub mod base_table;
pub mod challenges;
pub mod composition;
pub mod decimal;
pub mod degree_bounds;
pub mod degree_with_origin;
pub mod extension_table;
pub mod field_model;
pub mod fri_domain;
pub mod interpolation;
pub mod laws;
pub mod mpolynomial;
pub mod operations;
mod parallel;
pub mod prime;
pub mod quotients;
pub mod table_collection;
pub mod univariate;
pub mod valid_trace;
pub mod violations;
pub mod x_field_element;
