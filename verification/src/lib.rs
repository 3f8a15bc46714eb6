pub mod char_index;
pub mod direction;
pub mod multi_line_parser;
pub mod parser;
pub mod solution;
pub mod submission;
pub mod text;
pub mod y2023;
pub mod y2024;

pub use char_index::{CharIndex, Point};
pub use direction::Direction;
pub use multi_line_parser::MultiLineParser;
pub use parser::Parser;
pub use solution::SolutionPart;
