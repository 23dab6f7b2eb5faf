//! Byte-span engine: scans the document's bytes and turns its markers into
//! syntax spans in absolute byte offsets.

pub mod api;
pub mod bytes;
pub mod collector;
pub mod dependency;
pub mod edit;
pub mod line_map;
pub mod parser;
pub mod simd;
pub mod timing;
pub mod resolver;

pub use resolver::{SyntaxKind, SyntaxSpan};
pub use api::{dispatch_spans, EngineHandle, SpanSink};
pub use dependency::DependencyGraph;
pub use line_map::LineMap;
pub use parser::Engine;
pub use simd::scan;
