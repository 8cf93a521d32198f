//! Small numeric, assertion and text-rendering helpers.
pub mod assertions;
pub mod hint;
pub mod num;
pub mod print;
