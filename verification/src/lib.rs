//! Verified core of the tools for a container-yard puzzle: a `D x D` yard with an
//! entrance at the middle of the top row, obstacles, and numbered containers that
//! are first put into the yard and then taken out again, as close to sorted
//! order as possible.
//!
//! - `grid`: the yard and which squares can be walked to from the entrance;
//! - `input`: an instance, its text form and reading it back;
//! - `output`: reading an answer;
//! - `score`: carrying out an answer and scoring it;
//! - `generate`: random instances;
//! - `vis`: the picture of an answer, as shapes;
//! - `text`: numbers, white space, tokens and lines of text;
//! - `minmax`: in-place minimum and maximum.

#![allow(non_snake_case)]

pub mod generate;
pub mod grid;
pub mod input;
pub mod minmax;
pub mod output;
pub mod score;
pub mod text;
pub mod vis;

pub use generate::gen;
pub use grid::reachable;
pub use input::{parse_input, try_parse_input, Input};
pub use minmax::SetMinMax;
pub use output::{parse_output, read, Output};
pub use score::{compute_score_details, try_compute_score_details, ScoreDetails, ScoreError};
pub use vis::{try_vis_plan, vis_plan, VisPlan};
