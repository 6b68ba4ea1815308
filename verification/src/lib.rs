//! Source maps between `.rsx` files and the Rust generated from them, and the
//! position, token and module-path logic that an Outou language server builds
//! on them.
use vstd::prelude::*;

pub mod broker;
pub mod builder;
pub mod complete;
pub mod diagnostics;
pub mod edits;
pub mod graph;
pub mod json;
pub mod legend;
pub mod line_index;
pub mod mapping;
pub mod modules;
pub mod notifications;
pub mod outou_tokens;
pub mod paths;
pub mod references;
pub mod registry;
pub mod rename;
pub mod requests;
pub mod response;
pub mod semantic;
pub mod sorting;
pub mod source_map;
pub mod span;
pub mod text;
pub mod tokens;
pub mod translate;
pub mod uri_path;

pub use builder::{BuildError, SourceMapBuilder};
pub use json::{FromJsonError, MappingJson, SourceMapJson, SourceSpanJson, ToJsonError, SOURCE_MAP_JSON_VERSION};
pub use legend::{Legend, ATTRIBUTE_TYPE, COMPONENT_TYPE, ELEMENT_TYPE, EVENT_TYPE, TEXT_TYPE};
pub use line_index::{LineIndex, Position, PositionRange};
pub use registry::Registry;
pub use source_map::{Mapped, Mapping, MappingKind, NarrowOutcome, SourceMap, scale_offset};
pub use span::{SourceId, SourceSpan, Span, Uri};
pub use tokens::{AbsoluteToken, SemanticToken, decode, encode, merge, span_to_line_tokens};
