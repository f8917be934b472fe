//! Client-side route matching: route patterns, path matching and the
//! navigation state that holds the active path.

pub mod navigation;
pub mod parser;
pub mod path;
pub mod route;
pub mod segment;

pub use navigation::Router;
pub use parser::Parser;
pub use path::{join_path, split_path};
pub use route::{Route, RouteMatch};
pub use segment::Segment;
