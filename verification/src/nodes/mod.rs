//! The authoring-time graph: identifiers, handles, edges, node kinds and the
//! blueprint that holds them.

pub mod blueprint;
pub mod config;
pub mod cycles;
pub mod dummy;
pub mod ident;
pub mod infer;
pub mod kahn;
pub mod laws;
pub mod lint;
pub mod sort;
pub mod table;

pub use blueprint::{GraphBlueprint, GraphBlueprintError};
pub use config::{Config, ConfigError, NodeConfig};
pub use dummy::DummyNode;
pub use ident::{DataType, Edge, HandleDef, HandleRef, Id, Name, RankConstraint, TensorShape};
pub use lint::{LintError, LintOutput};
pub use sort::SortedGraphBlueprint;
