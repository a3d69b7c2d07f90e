pub mod assign;
pub mod change;
pub mod checks;
pub mod completeness;
pub mod config;
pub mod diagnostic;
pub mod diff;
pub mod fallback;
pub mod frontier;
pub mod git;
pub mod group;
pub mod grouping;
pub mod hover;
pub mod items;
pub mod lines;
pub mod lsp;
pub mod matching;
pub mod md;
pub mod model;
pub mod modules;
pub mod opened;
pub mod order;
pub mod propagate;
pub mod prose;
pub mod protocol;
pub mod reference;
pub mod report;
pub mod review;
pub mod shape;
pub mod symbols;
pub mod syntax;
pub mod testing;
pub mod text;
pub mod walk;
pub mod walking;
