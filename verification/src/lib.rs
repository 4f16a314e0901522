//! Semantic resolution for a recipe language: links each recipe's
//! dependencies into a validated graph (rejecting cycles, unknown or
//! parameterized dependencies) and then checks every variable and
//! function reference inside parameter defaults and body interpolations.

pub mod name;
pub mod error;
pub mod table;
pub mod recipe;
pub mod function;
pub mod resolver;
