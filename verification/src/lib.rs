//! Deterministic world runtime: transactions, ownership, and a small language
//! that compiles to executable world programs.

pub mod api;
pub mod eir;
pub mod emit;
pub mod expr;
pub mod names;
pub mod text;
pub mod scope;
pub mod lower;
pub mod block;
pub mod refs;
pub mod rules;
pub mod update;
pub mod rk4;
pub mod checks;
pub mod pools;
pub mod fields;
pub mod chan;
pub mod bodies;
pub mod program;
pub mod double;
pub mod grammar;
pub mod peg;
pub mod fault;
pub mod numbers;
pub mod syntax;
pub mod units;
pub mod decl;
pub mod stmts;
pub mod entity;
pub mod shapes;
pub mod parse;
pub mod systems;
pub mod kinds;
pub mod diagnostics;
pub mod dims;
pub mod imports;
pub mod merge;
pub mod loader;
pub mod compile;
pub mod numbering;
pub mod registers;
pub mod functions;
pub mod sensing;
pub mod simultaneity;
pub mod meaning;
pub mod motion;
pub mod evaluation;
pub mod integration;
pub mod stepping;
pub mod responses;
pub mod observing;
pub mod progress;
pub mod table;
pub mod bytes;
pub mod world;
pub mod ownership;
pub mod scene;
pub mod setup;
pub mod runtime;
pub mod verdicts;
pub mod pipeline;
pub mod simulation;
pub mod vm;
pub mod contacts;
pub mod neighbors;
