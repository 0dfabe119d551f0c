//! augur: a structure-aware, lossless context-mixing compressor.
//!
//! Predict the next bit, code only the surprise. Every model contributes a
//! stretched probability that the next bit is 1, a mixer blends them, and one
//! binary arithmetic coder turns the blend into bytes. The decoder runs the same
//! predict, code, update loop, so the two sides cannot drift apart; that this
//! makes the codec lossless is proved in [`codec`].
//!
//! What the parts promise is stated beside them or in modules of its own: of the mixer in
//! [`mixing`] and [`contexts`], of the match models in [`repeats`], of the numeric model
//! in [`foresight`], [`knowledge`] and [`columns`], of the parsers in [`tokens`] and, for
//! whole texts, in [`json_text`], [`csv_text`], [`csv_fields`], [`sql_text`] and
//! [`xml_text`], of the formats in [`formats`], of the length of a stream in [`economy`],
//! and of the lookup tables in [`accuracy`].

pub mod accuracy;
pub mod ascii;
pub mod cli;
pub mod codec;
pub mod coder;
pub mod columns;
pub mod container;
pub mod contexts;
pub mod csv;
pub mod csv_fields;
pub mod csv_text;
pub mod economy;
pub mod foresight;
pub mod formats;
pub mod generic;
pub mod hashing;
pub mod json;
pub mod json_text;
pub mod knowledge;
pub mod match_model;
pub mod mixing;
pub mod mode;
pub mod numeric;
pub mod parser;
pub mod predictor;
pub mod relation;
pub mod repeats;
pub mod sql;
pub mod sql_text;
pub mod tables;
pub mod tokens;
pub mod tracking;
pub mod xml;
pub mod xml_text;
