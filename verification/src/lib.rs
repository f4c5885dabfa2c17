//! Workspace-wide visibility analysis over compiler-emitted reference graphs.
//!
//! The library decides which `pub` and restricted-visibility declarations of a
//! Cargo workspace are dead, needed only within their crate, or visible more
//! widely than their compiled uses require.

pub mod text;
pub mod model;
pub mod scope;
pub mod reach;
pub mod keys;
pub mod nodes;
pub mod frames;
pub mod equivalence;
pub mod adjacency;
pub mod stars;
pub mod graph;
pub mod fixpoint;
pub mod live;
pub mod publicity;
pub mod restricted;
pub mod identities;
pub mod findings;
pub mod analysis;
pub mod order;
pub mod config;
pub mod lints;
pub mod report;
pub mod render;
pub mod settings;
pub mod suppression;
pub mod invocation;
pub mod session;
pub mod workspace;
pub mod sorted;
pub mod catalog;
pub mod locations;
pub mod collection;
pub mod records;

pub use model::{
    CollectionOptions, Definition, DefinitionId, DefinitionIdentity, DefinitionKind, DeclarationSpan, Edge, EdgeKind,
    ExpansionSpan, Finding, FindingKind, FixPlan, FixTarget, Fragment, ProductionTargetKind, ProtocolVersion, Span,
    UniformFieldGroup, VisibilityReduction,
};
pub use scope::RequiredScope;
pub use identities::AuditedFragments;
pub use analysis::{analyze, analyze_with_options};
