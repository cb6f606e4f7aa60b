//! An ASCII-art line-chart engine for a terminal typing tutor.
//!
//! The heart of the crate is the charting pipeline: a vertical magnitude
//! scaler, a horizontal sample decimator that removes points evenly, a
//! fixed-size character canvas with an integer line rasterizer, and an
//! orchestrator that turns a series of magnitudes into a bordered text block.
//! Around it stand the word trie that feeds the typing lessons and the
//! command-line option parser.

pub mod canvas;
pub mod chart;
pub mod command_line;
pub mod decimate;
pub mod scale;
pub mod word_tree;
