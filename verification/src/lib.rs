//! # Agent IR
//!
//! A compilation infrastructure for agentic systems: a textual intermediate
//! representation for agent programs, a verifier, optimization passes, a
//! scheduler and a durable runtime.
//!
//! ```text
//! text → parse → verify → analyse → optimize → verify safety → schedule → lower → run
//!                   ↓                                ↓
//!            structured diagnostic            structured diagnostic
//! ```
//!
//! The representation: [`module`] with its [`types`], [`effect`]s,
//! [`capability`] sets, [`attribute`]s, [`provenance`] and [`ids`];
//! [`structure`] says when it is well formed, [`traversal`] walks it,
//! [`nesting`] shows that it is a tree, [`builder`] writes it by hand.
//!
//! The text: [`lexer`], [`grammar`] and [`parser`] read it, [`tree`] and
//! [`printer`] print it. [`relex`], [`emit`], [`reparse`], [`rebuild`] and
//! [`roundtrip`] show that what is printed reads back; [`readable`],
//! [`reading`], [`shape`] and [`stable`] that whatever was read can be printed;
//! [`defaults`] says what is read where the text says nothing.
//!
//! The compiler: [`dialects`], [`effects`], [`uses`], [`dominance`] and
//! [`dependency`] analyse a program, [`rules`] and [`verify`] reject it,
//! [`pass`], [`dead_action`], [`dedup`], [`parallelize`] and [`manager`]
//! optimize it, [`cost`], [`plan`] and [`scheduler`] order it, [`compile`] does
//! all of it, and [`driver`] holds what the command line prints.
//! [`vocabulary`], [`precedence`], [`judgement`], [`acceptance`] and
//! [`guarantees`] say what is accepted, [`identity`], [`reuse`], [`removal`],
//! [`grouping`], [`regroup`], [`preservation`], [`convergence`], [`fixpoint`]
//! and [`reporting`] what optimizing comes to, and [`planning`], [`ordering`],
//! [`estimates`] and [`degrading`] what is planned.
//!
//! The runtime: [`value`], [`event`], [`state`], [`env`](mod@env), [`world`],
//! [`recovery`] and [`executor`]; [`execution`] says what a run is, [`control`],
//! [`steps`] and [`comparison`] what it comes to, [`durability`] what it keeps,
//! [`repetition`] when it is stopped, [`audit`] what it may do, and [`recording`]
//! what a test world answers.
//!
//! [`text`], [`number`], [`assoc`] and [`copying`] are what the rest is written in.

pub mod acceptance;
pub mod assoc;
pub mod attribute;
pub mod audit;
pub mod builder;
pub mod capability;
pub mod comparison;
pub mod compile;
pub mod control;
pub mod convergence;
mod copying;
pub mod cost;
pub mod dead_action;
pub mod dedup;
pub mod defaults;
pub mod degrading;
pub mod dependency;
pub mod diagnostic;
pub mod dialects;
pub mod dominance;
pub mod driver;
pub mod durability;
pub mod effect;
pub mod effects;
pub mod emit;
pub mod env;
pub mod estimates;
pub mod event;
pub mod execution;
pub mod executor;
pub mod fixpoint;
pub mod grammar;
pub mod grouping;
pub mod guarantees;
pub mod identity;
pub mod ids;
pub mod judgement;
pub mod lexer;
pub mod manager;
pub mod module;
pub mod nesting;
pub mod number;
pub mod ordering;
pub mod parallelize;
pub mod parser;
pub mod pass;
pub mod plan;
pub mod planning;
pub mod precedence;
pub mod preservation;
pub mod printer;
pub mod provenance;
pub mod readable;
pub mod reading;
pub mod rebuild;
pub mod recording;
pub mod recovery;
pub mod regroup;
pub mod relex;
pub mod removal;
pub mod reparse;
pub mod repetition;
pub mod reporting;
pub mod reuse;
pub mod roundtrip;
pub mod rules;
pub mod scheduler;
pub mod shape;
pub mod stable;
pub mod state;
pub mod steps;
pub mod structure;
pub mod text;
pub mod traversal;
pub mod tree;
pub mod types;
pub mod uses;
pub mod value;
pub mod verify;
pub mod vocabulary;
pub mod world;
