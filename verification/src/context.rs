//! Read-only projections of the graph, the execution context handed to
//! process bodies, and the capability traits a host implements.
//!
//! During the collect phase every process sees a `ModelSnapshot`: a plain
//! copy of the graph as it stood when the step began. The snapshot exposes
//! getters only, so business logic can read but never mutate the live graph;
//! all effects travel back as `ExecutionResult` commands.

use vstd::prelude::*;
use crate::entity::{backref_ids_named, RelationRef, RelationRefModel, EntityModel};
use crate::function::{FunctionModel, Process, ProcessModel};
use crate::relation::{find_relation, lemma_find_relation, Relation, RelationModel};
use crate::result::ExecutionResult;
use crate::types::{EntityType, EntityTypeModel};
use crate::value::{str_eq, ValueModel, Variable};

verus! {

/// The mathematical content of a `FunctionSnapshot`.
pub struct FunctionSnapshotModel {
    pub name: Seq<char>,
    pub parameter: Map<Seq<char>, ValueModel>,
    pub active: bool,
}

/// A read-only copy of one function: name, parameters, and activation flag.
pub struct FunctionSnapshot {
    pub name: String,
    pub parameter: Variable,
    pub active: bool,
}

impl View for FunctionSnapshot {
    type V = FunctionSnapshotModel;

    open spec fn view(&self) -> FunctionSnapshotModel {
        FunctionSnapshotModel {
            name: self.name@,
            parameter: self.parameter@,
            active: self.active,
        }
    }
}

impl FunctionSnapshot {
    /// The function's parameters as of the start of the step.
    pub fn get_parameter(&self) -> (r: &Variable)
        ensures
            r == &self.parameter,
    {
        &self.parameter
    }

    /// Whether the function was active when the step began.
    pub fn is_active(&self) -> (r: bool)
        ensures
            r == self@.active,
    {
        self.active
    }
}

/// The mathematical content of an `EntitySnapshot`.
pub struct EntitySnapshotModel {
    pub id: u64,
    pub name: Seq<char>,
    pub entity_type: EntityTypeModel,
    pub state: Map<Seq<char>, ValueModel>,
    pub functions: Seq<FunctionSnapshotModel>,
    pub relations: Seq<RelationRefModel>,
}

/// A read-only copy of one entity as of the start of the step. Processes are
/// not part of the projection: a process body reads data, never behaviors.
pub struct EntitySnapshot {
    pub id: u64,
    pub name: String,
    pub entity_type: EntityType,
    pub state: Variable,
    pub functions: Vec<FunctionSnapshot>,
    pub relations: Vec<RelationRef>,
}

/// The snapshots a function snapshot list denotes, in order.
pub open spec fn function_snapshots_model(s: Seq<FunctionSnapshot>) -> Seq<FunctionSnapshotModel> {
    Seq::new(s.len(), |i: int| s[i]@)
}

impl View for EntitySnapshot {
    type V = EntitySnapshotModel;

    open spec fn view(&self) -> EntitySnapshotModel {
        EntitySnapshotModel {
            id: self.id,
            name: self.name@,
            entity_type: self.entity_type@,
            state: self.state@,
            functions: function_snapshots_model(self.functions@),
            relations: crate::entity::backrefs_model(self.relations@),
        }
    }
}

/// The read-only projection of one function.
pub open spec fn project_function<A, C>(f: FunctionModel<A, C>) -> FunctionSnapshotModel {
    FunctionSnapshotModel { name: f.name, parameter: f.parameter, active: f.active }
}

/// The read-only projection of one entity.
pub open spec fn project_entity<A, C>(e: EntityModel<A, C>) -> EntitySnapshotModel {
    EntitySnapshotModel {
        id: e.id,
        name: e.name,
        entity_type: e.entity_type,
        state: e.state,
        functions: Seq::new(e.functions.len(), |i: int| project_function(e.functions[i])),
        relations: e.relations,
    }
}

/// The index of the first snapshot function carrying `name`, if any.
pub open spec fn find_snapshot_function(funcs: Seq<FunctionSnapshotModel>, name: Seq<char>)
    -> Option<int>
    decreases funcs.len(),
{
    if funcs.len() == 0 {
        None
    } else if funcs.first().name == name {
        Some(0int)
    } else {
        match find_snapshot_function(funcs.drop_first(), name) {
            Some(i) => Some(i + 1),
            None => None,
        }
    }
}

/// `find_snapshot_function` returns the first index carrying the name, and
/// `None` exactly when no function carries it.
pub proof fn lemma_find_snapshot_function(funcs: Seq<FunctionSnapshotModel>, name: Seq<char>)
    ensures
        match find_snapshot_function(funcs, name) {
            Some(i) => 0 <= i < funcs.len() && funcs[i].name == name && forall|j: int|
                0 <= j < i ==> (#[trigger] funcs[j]).name != name,
            None => forall|j: int| 0 <= j < funcs.len() ==> (#[trigger] funcs[j]).name != name,
        },
    decreases funcs.len(),
{
    if funcs.len() > 0 {
        let rest = funcs.drop_first();
        lemma_find_snapshot_function(rest, name);
        if funcs.first().name == name {
            assert(funcs[0] == funcs.first());
        } else {
            match find_snapshot_function(rest, name) {
                Some(i) => {
                    assert(funcs[i + 1] == rest[i]);
                    assert forall|j: int| 0 <= j < i + 1 implies (#[trigger] funcs[j]).name
                        != name by {
                        if j == 0 {
                            assert(funcs[0] == funcs.first());
                        } else {
                            assert(funcs[j] == rest[j - 1]);
                        }
                    }
                },
                None => {
                    assert forall|j: int| 0 <= j < funcs.len() implies (#[trigger] funcs[j]).name
                        != name by {
                        if j == 0 {
                            assert(funcs[0] == funcs.first());
                        } else {
                            assert(funcs[j] == rest[j - 1]);
                        }
                    }
                },
            }
        }
    }
}

/// The index of the first snapshot entity carrying `id`, if any.
pub open spec fn find_snapshot_entity(ents: Seq<EntitySnapshotModel>, id: u64) -> Option<int>
    decreases ents.len(),
{
    if ents.len() == 0 {
        None
    } else if ents.first().id == id {
        Some(0int)
    } else {
        match find_snapshot_entity(ents.drop_first(), id) {
            Some(i) => Some(i + 1),
            None => None,
        }
    }
}

/// `find_snapshot_entity` returns the first index carrying the id, and
/// `None` exactly when no entity carries it.
pub proof fn lemma_find_snapshot_entity(ents: Seq<EntitySnapshotModel>, id: u64)
    ensures
        match find_snapshot_entity(ents, id) {
            Some(i) => 0 <= i < ents.len() && ents[i].id == id && forall|j: int|
                0 <= j < i ==> (#[trigger] ents[j]).id != id,
            None => forall|j: int| 0 <= j < ents.len() ==> (#[trigger] ents[j]).id != id,
        },
    decreases ents.len(),
{
    if ents.len() > 0 {
        let rest = ents.drop_first();
        lemma_find_snapshot_entity(rest, id);
        if ents.first().id == id {
            assert(ents[0] == ents.first());
        } else {
            match find_snapshot_entity(rest, id) {
                Some(i) => {
                    assert(ents[i + 1] == rest[i]);
                    assert forall|j: int| 0 <= j < i + 1 implies (#[trigger] ents[j]).id != id by {
                        if j == 0 {
                            assert(ents[0] == ents.first());
                        } else {
                            assert(ents[j] == rest[j - 1]);
                        }
                    }
                },
                None => {
                    assert forall|j: int| 0 <= j < ents.len() implies (#[trigger] ents[j]).id
                        != id by {
                        if j == 0 {
                            assert(ents[0] == ents.first());
                        } else {
                            assert(ents[j] == rest[j - 1]);
                        }
                    }
                },
            }
        }
    }
}

/// The ids of the snapshot entities carrying exactly `name`, in order.
pub open spec fn snapshot_ids_named(s: Seq<EntitySnapshotModel>, name: Seq<char>) -> Seq<u64>
    decreases s.len(),
{
    if s.len() == 0 {
        Seq::empty()
    } else {
        let rest = snapshot_ids_named(s.drop_last(), name);
        if s.last().name == name {
            rest.push(s.last().id)
        } else {
            rest
        }
    }
}

/// The ids of the snapshot entities carrying `entity_type`, in order.
pub open spec fn snapshot_ids_of_type(s: Seq<EntitySnapshotModel>, t: EntityTypeModel) -> Seq<u64>
    decreases s.len(),
{
    if s.len() == 0 {
        Seq::empty()
    } else {
        let rest = snapshot_ids_of_type(s.drop_last(), t);
        if s.last().entity_type == t {
            rest.push(s.last().id)
        } else {
            rest
        }
    }
}

impl EntitySnapshot {
    /// The entity's state as of the start of the step.
    pub fn get_state(&self) -> (r: &Variable)
        ensures
            r == &self.state,
    {
        &self.state
    }

    /// Looks a function snapshot up by name.
    pub fn get_function(&self, name: &str) -> (r: Option<&FunctionSnapshot>)
        ensures
            match r {
                Some(f) => find_snapshot_function(self@.functions, name@) matches Some(i) && f@
                    == self@.functions[i],
                None => find_snapshot_function(self@.functions, name@) is None,
            },
    {
        let n = self.functions.len();
        let mut i: usize = 0;
        while i < n
            invariant
                n == self.functions@.len(),
                i <= n,
                forall|t: int| 0 <= t < i ==> self@.functions[t].name != name@,
            decreases n - i,
        {
            if str_eq(self.functions[i].name.as_str(), name) {
                proof {
                    lemma_find_snapshot_function(self@.functions, name@);
                    assert(self@.functions[i as int] == self.functions@[i as int]@);
                    assert(find_snapshot_function(self@.functions, name@) == Some(i as int));
                }
                return Some(&self.functions[i]);
            }
            proof {
                assert(self@.functions[i as int] == self.functions@[i as int]@);
            }
            i = i + 1;
        }
        proof {
            lemma_find_snapshot_function(self@.functions, name@);
        }
        None
    }

    /// The ids of the incident relations registered under `name`, in order,
    /// as of the start of the step.
    pub fn get_relations(&self, name: &str) -> (r: Vec<u64>)
        ensures
            r@ == backref_ids_named(self@.relations, name@),
    {
        let n = self.relations.len();
        let mut out: Vec<u64> = Vec::new();
        let mut i: usize = 0;
        while i < n
            invariant
                n == self.relations@.len(),
                i <= n,
                out@ == backref_ids_named(self@.relations.subrange(0, i as int), name@),
            decreases n - i,
        {
            let ghost prefix = self@.relations.subrange(0, i as int);
            let ghost next = self@.relations.subrange(0, i as int + 1);
            proof {
                assert(next.drop_last() =~= prefix);
                assert(next.last() == self@.relations[i as int]);
                assert(self@.relations[i as int] == self.relations@[i as int]@);
            }
            if str_eq(self.relations[i].name.as_str(), name) {
                out.push(self.relations[i].relation_id);
            }
            i = i + 1;
        }
        proof {
            assert(self@.relations.subrange(0, n as int) =~= self@.relations);
        }
        out
    }
}

/// The mathematical content of a `ModelSnapshot`.
pub struct ModelSnapshotModel {
    pub entities: Seq<EntitySnapshotModel>,
    pub relations: Seq<RelationModel>,
}

/// A read-only copy of the whole graph as it stood when a step began: every
/// process in the step reads this copy, so no process observes another's
/// writes from the same step.
pub struct ModelSnapshot {
    pub entities: Vec<EntitySnapshot>,
    pub relations: Vec<Relation>,
}

/// The snapshots an entity snapshot list denotes, in order.
pub open spec fn entity_snapshots_model(s: Seq<EntitySnapshot>) -> Seq<EntitySnapshotModel> {
    Seq::new(s.len(), |i: int| s[i]@)
}

/// The relations a relation list denotes, in order.
pub open spec fn relations_model(s: Seq<Relation>) -> Seq<RelationModel> {
    Seq::new(s.len(), |i: int| s[i]@)
}

impl View for ModelSnapshot {
    type V = ModelSnapshotModel;

    open spec fn view(&self) -> ModelSnapshotModel {
        ModelSnapshotModel {
            entities: entity_snapshots_model(self.entities@),
            relations: relations_model(self.relations@),
        }
    }
}

impl ModelSnapshot {
    /// Looks an entity snapshot up by id.
    pub fn get_entity(&self, id: u64) -> (r: Option<&EntitySnapshot>)
        ensures
            match r {
                Some(e) => find_snapshot_entity(self@.entities, id) matches Some(i) && e@
                    == self@.entities[i],
                None => find_snapshot_entity(self@.entities, id) is None,
            },
    {
        let n = self.entities.len();
        let mut i: usize = 0;
        while i < n
            invariant
                n == self.entities@.len(),
                i <= n,
                forall|t: int| 0 <= t < i ==> self@.entities[t].id != id,
            decreases n - i,
        {
            if self.entities[i].id == id {
                proof {
                    lemma_find_snapshot_entity(self@.entities, id);
                    assert(self@.entities[i as int] == self.entities@[i as int]@);
                    assert(find_snapshot_entity(self@.entities, id) == Some(i as int));
                }
                return Some(&self.entities[i]);
            }
            proof {
                assert(self@.entities[i as int] == self.entities@[i as int]@);
            }
            i = i + 1;
        }
        proof {
            lemma_find_snapshot_entity(self@.entities, id);
        }
        None
    }

    /// All entity snapshots, in creation order.
    pub fn get_all_entities(&self) -> (r: &Vec<EntitySnapshot>)
        ensures
            r == &self.entities,
    {
        &self.entities
    }

    /// The ids of the entities carrying `entity_type`, in creation order.
    pub fn get_entities_by_type(&self, entity_type: &EntityType) -> (r: Vec<u64>)
        ensures
            r@ == snapshot_ids_of_type(self@.entities, entity_type@),
    {
        let n = self.entities.len();
        let mut out: Vec<u64> = Vec::new();
        let mut i: usize = 0;
        while i < n
            invariant
                n == self.entities@.len(),
                i <= n,
                out@ == snapshot_ids_of_type(self@.entities.subrange(0, i as int), entity_type@),
            decreases n - i,
        {
            let ghost prefix = self@.entities.subrange(0, i as int);
            let ghost next = self@.entities.subrange(0, i as int + 1);
            proof {
                assert(next.drop_last() =~= prefix);
                assert(next.last() == self@.entities[i as int]);
                assert(self@.entities[i as int] == self.entities@[i as int]@);
            }
            if self.entities[i].entity_type == *entity_type {
                out.push(self.entities[i].id);
            }
            i = i + 1;
        }
        proof {
            assert(self@.entities.subrange(0, n as int) =~= self@.entities);
        }
        out
    }

    /// The ids of the entities carrying exactly `name`, in creation order.
    pub fn get_entities_by_name(&self, name: &str) -> (r: Vec<u64>)
        ensures
            r@ == snapshot_ids_named(self@.entities, name@),
    {
        let n = self.entities.len();
        let mut out: Vec<u64> = Vec::new();
        let mut i: usize = 0;
        while i < n
            invariant
                n == self.entities@.len(),
                i <= n,
                out@ == snapshot_ids_named(self@.entities.subrange(0, i as int), name@),
            decreases n - i,
        {
            let ghost prefix = self@.entities.subrange(0, i as int);
            let ghost next = self@.entities.subrange(0, i as int + 1);
            proof {
                assert(next.drop_last() =~= prefix);
                assert(next.last() == self@.entities[i as int]);
                assert(self@.entities[i as int] == self.entities@[i as int]@);
            }
            if str_eq(self.entities[i].name.as_str(), name) {
                out.push(self.entities[i].id);
            }
            i = i + 1;
        }
        proof {
            assert(self@.entities.subrange(0, n as int) =~= self@.entities);
        }
        out
    }

    /// Looks a relation up by id.
    pub fn get_relation(&self, id: u64) -> (r: Option<&Relation>)
        ensures
            match r {
                Some(rel) => find_relation(self@.relations, id) matches Some(i) && rel@
                    == self@.relations[i],
                None => find_relation(self@.relations, id) is None,
            },
    {
        let n = self.relations.len();
        let mut i: usize = 0;
        while i < n
            invariant
                n == self.relations@.len(),
                i <= n,
                forall|t: int| 0 <= t < i ==> self@.relations[t].id != id,
            decreases n - i,
        {
            if self.relations[i].id == id {
                proof {
                    lemma_find_relation(self@.relations, id);
                    assert(self@.relations[i as int] == self.relations@[i as int]@);
                    assert(find_relation(self@.relations, id) == Some(i as int));
                }
                return Some(&self.relations[i]);
            }
            proof {
                assert(self@.relations[i as int] == self.relations@[i as int]@);
            }
            i = i + 1;
        }
        proof {
            lemma_find_relation(self@.relations, id);
        }
        None
    }

    /// All relations, in creation order.
    pub fn get_all_relations(&self) -> (r: &Vec<Relation>)
        ensures
            r == &self.relations,
    {
        &self.relations
    }
}

/// The read-only surroundings a process body runs against: the snapshot of
/// the whole graph, plus the owning entity and function within it.
pub struct ExecutionContext<'a> {
    pub model: &'a ModelSnapshot,
    pub owner_entity: &'a EntitySnapshot,
    pub owner_function: &'a FunctionSnapshot,
}

/// A predicate gating one process, evaluated against the snapshot.
pub trait Condition: Sized {
    /// Whether the process may run this step.
    fn is_met(&self, context: &ExecutionContext<'_>) -> bool;
}

/// The condition that always holds: a process carrying it runs whenever its
/// owning function is active.
pub struct AlwaysTrueCondition {}

impl Condition for AlwaysTrueCondition {
    fn is_met(&self, _context: &ExecutionContext<'_>) -> bool {
        true
    }
}

/// One process body: a pure function from the read-only context to a list of
/// deferred mutation commands.
pub trait ProcessAction<C: Condition>: Sized {
    /// Produces this step's commands; the graph itself is never touched.
    fn run(&self, context: &ExecutionContext<'_>) -> Vec<ExecutionResult<Self, C>>;
}

impl<A: ProcessAction<C>, C: Condition> Process<A, C> {
    /// Runs the process if its owning function is active and its condition
    /// (if any) holds; an inactive function contributes nothing, whatever the
    /// condition says.
    pub fn execute(&self, owner_active: bool, context: &ExecutionContext<'_>) -> (r: Vec<
        ExecutionResult<A, C>,
    >)
        ensures
            !owner_active ==> r@ =~= Seq::<ExecutionResult<A, C>>::empty(),
    {
        if !owner_active {
            return Vec::new();
        }
        let met = match &self.condition {
            Some(c) => c.is_met(context),
            None => true,
        };
        if met {
            self.action.run(context)
        } else {
            Vec::new()
        }
    }
}

} // verus!
