pub mod text;
pub mod prefix_tree;
pub mod pattern;
pub mod format;
pub mod ngram;
pub mod digest;
pub mod paths;
pub mod mask;
pub mod logram;
pub mod frame;
pub mod drain;
