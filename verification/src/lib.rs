//! Hash visualiser: the analysis, evaluation and formatting logic behind the diagrams that show how data flows
//! through hash algorithms described in the `.hv` DSL.

pub mod ast;
pub mod word;
pub mod text;
pub mod graph;
pub mod eval;
pub mod search;
pub mod inspect;
pub mod format;
pub mod map;
pub mod value;
pub mod grid;
pub mod reduce;
pub mod describe;
pub mod live;
pub mod layering;
pub mod viz;
pub mod stepper;
pub mod scene;
