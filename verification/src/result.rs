//! Deferred mutation commands and creation descriptors.
//!
//! A process never mutates the graph directly: it returns `ExecutionResult`
//! commands, which the model applies after the whole collect phase. `A` is
//! the host's process-action type and `C` its condition type.

use vstd::prelude::*;
use crate::types::{EntityType, RelationType};
use crate::value::Value;

verus! {

/// Describes one relation to create during the apply phase. The source
/// defaults to the entity owning the emitting process when
/// `source_entity_id` is `None`; the target is resolved by id, or else by
/// exact name (first entity in creation order).
pub struct RelationCreationInfo {
    pub name: String,
    pub source_entity_id: Option<u64>,
    pub target_entity_id: Option<u64>,
    pub target_entity_name: Option<String>,
    pub metadata: Option<Vec<(String, Value)>>,
}

/// Describes one process to create during the apply phase.
pub struct ProcessCreationInfo<A, C> {
    pub name: String,
    pub action: A,
    pub condition: Option<C>,
}

/// Describes one function to create during the apply phase.
pub struct FunctionCreationInfo<A, C> {
    pub name: String,
    pub initial_parameters: Vec<(String, Value)>,
    pub processes: Vec<ProcessCreationInfo<A, C>>,
}

/// Describes one entity to create during the apply phase, together with its
/// initial state and nested functions and relations.
pub struct EntityCreationInfo<A, C> {
    pub name: String,
    pub entity_type: EntityType,
    pub initial_state: Vec<(String, Value)>,
    pub functions: Vec<FunctionCreationInfo<A, C>>,
    pub relations: Vec<RelationCreationInfo>,
}

/// One deferred mutation command. Commands are collected during a step and
/// applied in order once every process has run; a command whose target no
/// longer exists when applied is dropped rather than aborting the step.
pub enum ExecutionResult<A, C> {
    UpdateEntityState(u64, String, Value),
    DeleteEntityState(u64, String),
    CreateEntity(EntityCreationInfo<A, C>),
    DeleteEntity(u64),
    CreateRelation(RelationCreationInfo),
    DeleteRelation(u64),
    AddFunction(u64, FunctionCreationInfo<A, C>),
    RemoveFunction(u64, String),
    ActivateFunction(u64, String),
    DeactivateFunction(u64, String),
    UpdateFunctionParameter(u64, String, String, Value),
    DeleteFunctionParameter(u64, String, String),
    AddProcess(u64, String, ProcessCreationInfo<A, C>),
    RemoveProcess(u64, String, String),
    AddCondition(u64, String, String, C),
    RemoveCondition(u64, String, String),
    AddRelationMetadata(u64, String, Value),
    RemoveRelationMetadata(u64, String),
}

/// A condition during the apply phase that the fail-soft policy cannot
/// express by dropping a command silently: relation creation that could not
/// be resolved or validated, or an exhausted id space. A step still runs to
/// completion; these are reported to the caller of `simulate`.
pub enum ApplyFault {
    /// Relation creation named a relation with no registered definition.
    UndefinedRelation(String),
    /// Relation creation had neither an explicit source nor an owning entity.
    SourceEntityMissing,
    /// Relation creation named no target, by id or by name.
    TargetEntityMissing,
    /// No entity carries the name given for the relation target.
    TargetEntityNameNotFound(String),
    /// A relation endpoint id resolved to no entity.
    EntityMissing(u64),
    /// The endpoint entity types do not match the relation's definition.
    WrongRelationEntityTypes(String),
    /// The relation's cardinality class forbids another same-named relation.
    CardinalityViolation(String, RelationType),
    /// No fresh id is left for a new entity or relation.
    IdSpaceExhausted,
}

} // verus!
