//! A causal-reasoning engine on a two-phase graph: a mutable adjacency-list
//! graph that is frozen into a compact immutable form before any graph
//! algorithm runs, with evaluable causal nodes on top of it.
//!
//! Observations and probabilities are fixed-point integers: `UNIT` stands for
//! 1.0. A node's activation is part of the node and changes only through
//! `&mut` evaluation calls.

pub mod errors;
pub mod graph_spec;
pub mod text;
pub mod node_slots;
pub mod effect;
pub mod causaloid;
pub mod collection;
pub mod causaloid_graph;
pub mod context_types;
pub mod model;
pub mod csm;
pub mod dynamic_graph;
pub mod static_graph;
pub mod graph_view;
pub mod ultra_graph;

pub use errors::GraphError;
pub use dynamic_graph::DynamicGraph;
pub use static_graph::CsmGraph;
pub use graph_view::GraphView;
pub use ultra_graph::{GraphState, UltraGraph, UltraGraphContainer};
pub use effect::{AggregateLogic, CausalityError, IdentificationValue, NumericalValue, PropagatingEffect, UNIT};
pub use causaloid::{Causable, Causaloid, ContextualCausaloid};
pub use collection::{Aggregation, CausalCollection, Outcome};
pub use causaloid_graph::CausaloidGraph;
pub use context_types::{
    AdjustableData, AdjustableSpace, AdjustableSpaceTime, AdjustableTime, Contextoid, ContextoidType, Data, IndexError,
    RelationKind, Root, Space, SpaceTime, Time, TimeScale,
};
pub use model::{Assumption, Inference, Model, Observation};
pub use csm::{ActionError, CausalAction, CausalState, UpdateError, CSM};
