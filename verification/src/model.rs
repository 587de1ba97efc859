//! The model: owner of all entities, relations, the relationship registry,
//! and the registered process list; orchestrator of the two-phase simulation
//! step.

use vstd::prelude::*;
use crate::entity::{
    backref_ids_named, backrefs_without, find_function, functions_model, lemma_backref_ids_named,
    lemma_backrefs_without, lemma_find_function, Entity, EntityModel, RelationRefModel,
};
use crate::function::{find_process, lemma_find_process, Function, FunctionModel, Process, ProcessModel};
use crate::result::{ApplyFault, EntityCreationInfo, ExecutionResult, FunctionCreationInfo,
    ProcessCreationInfo, RelationCreationInfo};
use crate::value::entries_model;
use crate::registry::{
    find_definition, lemma_find_definition, DefinitionModel, RelationshipDefinition,
    RelationshipRegistry,
};
use crate::relation::{find_relation, lemma_find_relation, Relation, RelationModel};
use crate::context::{
    project_entity, project_function, Condition, EntitySnapshot, ExecutionContext,
    FunctionSnapshot, ModelSnapshot, ModelSnapshotModel, ProcessAction,
};
use crate::types::{EntityType, EntityTypeModel, RelationType};
use crate::value::{str_eq, str_starts_with, Value, ValueModel, value_model};

verus! {

/// The mathematical content of a `ProcessRef`.
pub struct ProcessRefModel {
    pub entity_id: u64,
    pub function_name: Seq<char>,
    pub process_name: Seq<char>,
}

/// One entry of the model's flat process list: the process named
/// `process_name` inside the function named `function_name` on the entity
/// carrying `entity_id`. A reference whose target has since disappeared is
/// simply skipped by the simulation step.
pub struct ProcessRef {
    pub entity_id: u64,
    pub function_name: String,
    pub process_name: String,
}

impl View for ProcessRef {
    type V = ProcessRefModel;

    open spec fn view(&self) -> ProcessRefModel {
        ProcessRefModel {
            entity_id: self.entity_id,
            function_name: self.function_name@,
            process_name: self.process_name@,
        }
    }
}

/// The process references a reference list denotes, in order.
pub open spec fn process_refs_model(s: Seq<ProcessRef>) -> Seq<ProcessRefModel> {
    Seq::new(s.len(), |i: int| s[i]@)
}

/// The mathematical content of a `Model`.
pub struct ModelModel<A, C> {
    pub entities: Seq<EntityModel<A, C>>,
    pub relations: Seq<RelationModel>,
    pub definitions: Seq<DefinitionModel>,
    pub processes: Seq<ProcessRefModel>,
    pub next_id: u64,
}

/// The index of the first entity carrying `id`, if any.
pub open spec fn find_entity<A, C>(ents: Seq<EntityModel<A, C>>, id: u64) -> Option<int>
    decreases ents.len(),
{
    if ents.len() == 0 {
        None
    } else if ents.first().id == id {
        Some(0int)
    } else {
        match find_entity(ents.drop_first(), id) {
            Some(i) => Some(i + 1),
            None => None,
        }
    }
}

/// `find_entity` returns the first index carrying the id, and `None` exactly
/// when no entity carries it.
pub proof fn lemma_find_entity<A, C>(ents: Seq<EntityModel<A, C>>, id: u64)
    ensures
        match find_entity(ents, id) {
            Some(i) => 0 <= i < ents.len() && ents[i].id == id && forall|j: int|
                0 <= j < i ==> (#[trigger] ents[j]).id != id,
            None => forall|j: int| 0 <= j < ents.len() ==> (#[trigger] ents[j]).id != id,
        },
    decreases ents.len(),
{
    if ents.len() > 0 {
        let rest = ents.drop_first();
        lemma_find_entity(rest, id);
        if ents.first().id == id {
            assert(ents[0] == ents.first());
        } else {
            match find_entity(rest, id) {
                Some(i) => {
                    assert(ents[i + 1] == rest[i]);
                    assert forall|j: int| 0 <= j < i + 1 implies (#[trigger] ents[j]).id != id by {
                        if j == 0 {
                            assert(ents[0] == ents.first());
                        } else {
                            assert(ents[j] == rest[j - 1]);
                        }
                    }
                },
                None => {
                    assert forall|j: int| 0 <= j < ents.len() implies (#[trigger] ents[j]).id
                        != id by {
                        if j == 0 {
                            assert(ents[0] == ents.first());
                        } else {
                            assert(ents[j] == rest[j - 1]);
                        }
                    }
                },
            }
        }
    }
}

/// The index of the first entity carrying exactly `name`, if any. Deferred
/// creation resolves a relation target by name through this: when several
/// entities share the name, the first in creation order wins.
pub open spec fn find_entity_named<A, C>(ents: Seq<EntityModel<A, C>>, name: Seq<char>) -> Option<
    int,
>
    decreases ents.len(),
{
    if ents.len() == 0 {
        None
    } else if ents.first().name == name {
        Some(0int)
    } else {
        match find_entity_named(ents.drop_first(), name) {
            Some(i) => Some(i + 1),
            None => None,
        }
    }
}

/// `find_entity_named` returns the first index carrying the name, and `None`
/// exactly when no entity carries it.
pub proof fn lemma_find_entity_named<A, C>(ents: Seq<EntityModel<A, C>>, name: Seq<char>)
    ensures
        match find_entity_named(ents, name) {
            Some(i) => 0 <= i < ents.len() && ents[i].name == name && forall|j: int|
                0 <= j < i ==> (#[trigger] ents[j]).name != name,
            None => forall|j: int| 0 <= j < ents.len() ==> (#[trigger] ents[j]).name != name,
        },
    decreases ents.len(),
{
    if ents.len() > 0 {
        let rest = ents.drop_first();
        lemma_find_entity_named(rest, name);
        if ents.first().name == name {
            assert(ents[0] == ents.first());
        } else {
            match find_entity_named(rest, name) {
                Some(i) => {
                    assert(ents[i + 1] == rest[i]);
                    assert forall|j: int| 0 <= j < i + 1 implies (#[trigger] ents[j]).name
                        != name by {
                        if j == 0 {
                            assert(ents[0] == ents.first());
                        } else {
                            assert(ents[j] == rest[j - 1]);
                        }
                    }
                },
                None => {
                    assert forall|j: int| 0 <= j < ents.len() implies (#[trigger] ents[j]).name
                        != name by {
                        if j == 0 {
                            assert(ents[0] == ents.first());
                        } else {
                            assert(ents[j] == rest[j - 1]);
                        }
                    }
                },
            }
        }
    }
}

impl<A, C> ModelModel<A, C> {
    /// Whether one back-reference resolves to a live relation that carries
    /// the same name and touches the referencing entity.
    pub open spec fn backref_ok(&self, b: RelationRefModel, entity_id: u64) -> bool {
        match find_relation(self.relations, b.relation_id) {
            Some(t) => self.relations[t].name == b.name && self.relations[t].incident_to(
                entity_id,
            ),
            None => false,
        }
    }

    /// Whether the entity at index `i` holds a back-reference naming the
    /// relation `rid` under `name`.
    pub open spec fn entity_has_backref(&self, i: int, name: Seq<char>, rid: u64) -> bool {
        exists|k: int|
            0 <= k < self.entities[i].relations.len() && (
            #[trigger] self.entities[i].relations[k]).name == name
                && self.entities[i].relations[k].relation_id == rid
    }

    /// Entity ids are unique.
    pub open spec fn entity_ids_unique(&self) -> bool {
        forall|i: int, j: int|
            0 <= i < j < self.entities.len() ==> (#[trigger] self.entities[i]).id != (
            #[trigger] self.entities[j]).id
    }

    /// Relation ids are unique.
    pub open spec fn relation_ids_unique(&self) -> bool {
        forall|i: int, j: int|
            0 <= i < j < self.relations.len() ==> (#[trigger] self.relations[i]).id != (
            #[trigger] self.relations[j]).id
    }

    /// Every issued id lies below the id counter.
    pub open spec fn ids_bounded(&self) -> bool {
        &&& forall|i: int|
            0 <= i < self.entities.len() ==> (#[trigger] self.entities[i]).id < self.next_id
        &&& forall|j: int|
            0 <= j < self.relations.len() ==> (#[trigger] self.relations[j]).id < self.next_id
    }

    /// Every entity keeps its function and process names unique.
    pub open spec fn entities_wf(&self) -> bool {
        forall|i: int| 0 <= i < self.entities.len() ==> (#[trigger] self.entities[i]).wf()
    }

    /// Relation names are defined at most once.
    pub open spec fn definitions_unique(&self) -> bool {
        forall|i: int, j: int|
            0 <= i < j < self.definitions.len() ==> (#[trigger] self.definitions[i]).name != (
            #[trigger] self.definitions[j]).name
    }

    /// Every back-reference points at a live, same-named, incident relation:
    /// stale references are pruned, never left dangling.
    pub open spec fn backrefs_valid(&self) -> bool {
        forall|i: int, k: int|
            #![trigger self.entities[i].relations[k]]
            0 <= i < self.entities.len() && 0 <= k < self.entities[i].relations.len()
                ==> self.backref_ok(self.entities[i].relations[k], self.entities[i].id)
    }

    /// Both endpoints of every relation resolve to entities in the model,
    /// and each endpoint holds a matching back-reference.
    pub open spec fn backrefs_complete(&self) -> bool {
        forall|j: int|
            0 <= j < self.relations.len() ==> {
                let r = #[trigger] self.relations[j];
                &&& find_entity(self.entities, r.entity1) matches Some(i1)
                    && self.entity_has_backref(i1, r.name, r.id)
                &&& find_entity(self.entities, r.entity2) matches Some(i2)
                    && self.entity_has_backref(i2, r.name, r.id)
            }
    }

    /// Graph integrity: ids unique and bounded, entities well formed,
    /// definitions unique, every back-reference live, every relation
    /// anchored at both endpoints.
    pub open spec fn wf(&self) -> bool {
        &&& self.entity_ids_unique()
        &&& self.relation_ids_unique()
        &&& self.ids_bounded()
        &&& self.entities_wf()
        &&& self.definitions_unique()
        &&& self.backrefs_valid()
        &&& self.backrefs_complete()
    }
}

/// Owner of the whole object graph. Entities and relations are addressed by
/// stable ids issued from a single counter and resolved through the model's
/// tables; processes are registered in a flat, ordered list that `simulate`
/// walks each step.
pub struct Model<A, C> {
    pub entities: Vec<Entity<A, C>>,
    pub relations: Vec<Relation>,
    pub relationship_registry: RelationshipRegistry,
    pub processes: Vec<ProcessRef>,
    pub next_id: u64,
}

/// The entities an entity list denotes, in order.
pub open spec fn entities_model<A, C>(s: Seq<Entity<A, C>>) -> Seq<EntityModel<A, C>> {
    Seq::new(s.len(), |i: int| s[i]@)
}

impl<A, C> View for Model<A, C> {
    type V = ModelModel<A, C>;

    open spec fn view(&self) -> ModelModel<A, C> {
        ModelModel {
            entities: entities_model(self.entities@),
            relations: crate::context::relations_model(self.relations@),
            definitions: self.relationship_registry@,
            processes: process_refs_model(self.processes@),
            next_id: self.next_id,
        }
    }
}

/// The errors of the direct, setup-phase calls. Deferred commands never
/// raise these: the apply phase is fail-soft.
#[derive(Debug)]
pub enum ModelError {
    EntityNotFound(u64),
    RelationNotFound(u64),
    RelationAlreadyExists(String),
    InvalidRelationType { name: String, relation_type: RelationType },
    UndefinedRelation(String),
    InvalidRelationEntityTypes,
}

impl<A, C> Model<A, C> {
    /// Representation invariant: every key-value store keeps its keys unique,
    /// and the mathematical model is well formed.
    pub open spec fn inv(&self) -> bool {
        &&& forall|i: int|
            0 <= i < self.entities@.len() ==> (#[trigger] self.entities@[i]).rep_wf()
        &&& forall|j: int|
            0 <= j < self.relations@.len() ==> (#[trigger] self.relations@[j]).rep_wf()
        &&& self@.wf()
    }

    /// An empty model.
    pub fn new() -> (r: Model<A, C>)
        ensures
            r.inv(),
            r@.entities =~= Seq::<EntityModel<A, C>>::empty(),
            r@.relations =~= Seq::<RelationModel>::empty(),
            r@.definitions =~= Seq::<DefinitionModel>::empty(),
            r@.processes =~= Seq::<ProcessRefModel>::empty(),
            r@.next_id == 1u64,
    {
        Model {
            entities: Vec::new(),
            relations: Vec::new(),
            relationship_registry: RelationshipRegistry::new(),
            processes: Vec::new(),
            next_id: 1,
        }
    }

    /// The index of the entity carrying `id`, if it is present.
    fn entity_index(&self, id: u64) -> (r: Option<usize>)
        ensures
            match r {
                Some(i) => find_entity(self@.entities, id) == Some(i as int),
                None => find_entity(self@.entities, id) is None,
            },
    {
        let n = self.entities.len();
        let mut i: usize = 0;
        while i < n
            invariant
                n == self.entities@.len(),
                i <= n,
                forall|t: int| 0 <= t < i ==> (#[trigger] self@.entities[t]).id != id,
            decreases n - i,
        {
            if self.entities[i].id == id {
                proof {
                    lemma_find_entity(self@.entities, id);
                    assert(self@.entities[i as int] == self.entities@[i as int]@);
                    assert(find_entity(self@.entities, id) == Some(i as int));
                }
                return Some(i);
            }
            proof {
                assert(self@.entities[i as int] == self.entities@[i as int]@);
            }
            i = i + 1;
        }
        proof {
            lemma_find_entity(self@.entities, id);
        }
        None
    }

    /// The index of the relation carrying `id`, if it is present.
    fn relation_index(&self, id: u64) -> (r: Option<usize>)
        ensures
            match r {
                Some(i) => find_relation(self@.relations, id) == Some(i as int),
                None => find_relation(self@.relations, id) is None,
            },
    {
        let n = self.relations.len();
        let mut i: usize = 0;
        while i < n
            invariant
                n == self.relations@.len(),
                i <= n,
                forall|t: int| 0 <= t < i ==> (#[trigger] self@.relations[t]).id != id,
            decreases n - i,
        {
            if self.relations[i].id == id {
                proof {
                    lemma_find_relation(self@.relations, id);
                    assert(self@.relations[i as int] == self.relations@[i as int]@);
                    assert(find_relation(self@.relations, id) == Some(i as int));
                }
                return Some(i);
            }
            proof {
                assert(self@.relations[i as int] == self.relations@[i as int]@);
            }
            i = i + 1;
        }
        proof {
            lemma_find_relation(self@.relations, id);
        }
        None
    }

    /// Creates a fresh entity with the next id and returns its id.
    pub fn create_entity(&mut self, name: String, entity_type: EntityType) -> (r: u64)
        requires
            old(self).inv(),
            old(self).next_id < u64::MAX,
        ensures
            final(self).inv(),
            r == old(self)@.next_id,
            final(self)@ == t_create_entity(old(self)@, name@, entity_type@),
    {
        let id = self.next_id;
        let entity = Entity::new(id, name, entity_type);
        let ghost pre = self@;
        self.entities.push(entity);
        self.next_id = self.next_id + 1;
        proof {
            assert(self@.entities =~= pre.entities.push(entity@));
            assert(self@ == t_create_entity(pre, entity@.name, entity@.entity_type));
            lemma_wf_create_entity(pre, entity@.name, entity@.entity_type);
            assert forall|t: int|
                0 <= t < self.entities@.len() implies (#[trigger] self.entities@[t]).rep_wf() by {
                if t < pre.entities.len() {
                    assert(self.entities@[t] == old(self).entities@[t]);
                }
            }
        }
        id
    }

    /// Looks an entity up by id.
    pub fn get_entity(&self, id: u64) -> (r: Option<&Entity<A, C>>)
        ensures
            match r {
                Some(e) => find_entity(self@.entities, id) matches Some(i) && e@
                    == self@.entities[i],
                None => find_entity(self@.entities, id) is None,
            },
    {
        match self.entity_index(id) {
            Some(i) => {
                proof {
                    lemma_find_entity(self@.entities, id);
                    assert(0 <= (i as int) && (i as int) < self.entities@.len());
                    assert(self@.entities[i as int] == self.entities@[i as int]@);
                }
                Some(&self.entities[i])
            },
            None => None,
        }
    }

    /// All entities, in creation order.
    pub fn get_all_entities(&self) -> (r: &Vec<Entity<A, C>>)
        ensures
            r == &self.entities,
    {
        &self.entities
    }

    /// Looks a relation up by id.
    pub fn get_relation(&self, id: u64) -> (r: Option<&Relation>)
        ensures
            match r {
                Some(rel) => find_relation(self@.relations, id) matches Some(i) && rel@
                    == self@.relations[i],
                None => find_relation(self@.relations, id) is None,
            },
    {
        match self.relation_index(id) {
            Some(i) => {
                proof {
                    lemma_find_relation(self@.relations, id);
                    assert(0 <= (i as int) && (i as int) < self.relations@.len());
                    assert(self@.relations[i as int] == self.relations@[i as int]@);
                }
                Some(&self.relations[i])
            },
            None => None,
        }
    }

    /// All relations, in creation order.
    pub fn get_all_relations(&self) -> (r: &Vec<Relation>)
        ensures
            r == &self.relations,
    {
        &self.relations
    }

    /// Registers (or overwrites) a relationship definition. Registering a
    /// name again silently replaces the earlier definition.
    pub fn define_relationship(
        &mut self,
        name: String,
        source_type: EntityType,
        target_type: EntityType,
        relation_type: RelationType,
    ) -> (r: Result<(), String>)
        requires
            old(self).inv(),
        ensures
            final(self).inv(),
            r is Ok,
            final(self)@ == (ModelModel {
                definitions: match find_definition(old(self)@.definitions, name@) {
                    Some(i) => old(self)@.definitions.update(
                        i,
                        DefinitionModel {
                            name: name@,
                            source_type: source_type@,
                            target_type: target_type@,
                            relation_type,
                        },
                    ),
                    None => old(self)@.definitions.push(
                        DefinitionModel {
                            name: name@,
                            source_type: source_type@,
                            target_type: target_type@,
                            relation_type,
                        },
                    ),
                },
                ..old(self)@
            }),
    {
        let definition = RelationshipDefinition { name, source_type, target_type, relation_type };
        let ghost pre = self@;
        self.relationship_registry.add_definition(definition);
        proof {
            assert(self@.entities == pre.entities);
            assert(self@.wf()) by {
                assert(self@.definitions_unique());
            }
        }
        Ok(())
    }

    /// Registers a process reference at the end of the step order.
    pub fn add_process(&mut self, process: ProcessRef)
        requires
            old(self).inv(),
        ensures
            final(self).inv(),
            final(self)@ == (ModelModel {
                processes: old(self)@.processes.push(process@),
                ..old(self)@
            }),
    {
        let ghost pre = self@;
        self.processes.push(process);
        proof {
            assert(self@.processes =~= pre.processes.push(process@));
            assert(self@ == (ModelModel { processes: pre.processes.push(process@), ..pre }));
        }
    }
}

/// Appending a fresh entity under the next id.
pub open spec fn t_create_entity<A, C>(
    m: ModelModel<A, C>,
    name: Seq<char>,
    entity_type: EntityTypeModel,
) -> ModelModel<A, C> {
    if m.next_id == u64::MAX {
        m
    } else {
        ModelModel {
            entities: m.entities.push(
                EntityModel {
                    id: m.next_id,
                    name,
                    entity_type,
                    state: Map::empty(),
                    functions: Seq::empty(),
                    relations: Seq::empty(),
                },
            ),
            next_id: (m.next_id + 1) as u64,
            ..m
        }
    }
}

/// Creating an entity preserves graph integrity.
pub proof fn lemma_wf_create_entity<A, C>(
    m: ModelModel<A, C>,
    name: Seq<char>,
    entity_type: EntityTypeModel,
)
    requires
        m.wf(),
    ensures
        t_create_entity(m, name, entity_type).wf(),
{
    if m.next_id != u64::MAX {
        let m2 = t_create_entity(m, name, entity_type);
        let n = m.entities.len();
        assert(forall|t: int| 0 <= t < n ==> #[trigger] m2.entities[t] == m.entities[t]);
        assert(m2.entities[n as int].id == m.next_id);
        assert(m2.entity_ids_unique()) by {
            assert(forall|i: int|
                0 <= i < n ==> (#[trigger] m.entities[i]).id < m.next_id);
        }
        assert(m2.entities_wf()) by {
            assert(m2.entities[n as int].wf());
        }
        assert(m2.backrefs_valid()) by {
            assert forall|i: int, k: int|
                #![trigger m2.entities[i].relations[k]]
                0 <= i < m2.entities.len() && 0 <= k < m2.entities[i].relations.len() implies m2
                .backref_ok(m2.entities[i].relations[k], m2.entities[i].id) by {
                assert(i < n);
                assert(m2.entities[i] == m.entities[i]);
                assert(m.backref_ok(m.entities[i].relations[k], m.entities[i].id));
            }
        }
        assert(m2.backrefs_complete()) by {
            assert forall|j: int| 0 <= j < m2.relations.len() implies {
                let r = #[trigger] m2.relations[j];
                &&& find_entity(m2.entities, r.entity1) matches Some(i1) && m2.entity_has_backref(
                    i1,
                    r.name,
                    r.id,
                )
                &&& find_entity(m2.entities, r.entity2) matches Some(i2) && m2.entity_has_backref(
                    i2,
                    r.name,
                    r.id,
                )
            } by {
                let r = m2.relations[j];
                assert(m.relations[j] == r);
                lemma_find_entity(m.entities, r.entity1);
                lemma_find_entity(m.entities, r.entity2);
                lemma_find_entity_push_stable(m.entities, m2.entities[n as int], r.entity1);
                lemma_find_entity_push_stable(m.entities, m2.entities[n as int], r.entity2);
                let i1 = find_entity(m.entities, r.entity1)->Some_0;
                let i2 = find_entity(m.entities, r.entity2)->Some_0;
                assert(m2.entities[i1] == m.entities[i1]);
                assert(m2.entities[i2] == m.entities[i2]);
                let k1 = choose|k: int|
                    0 <= k < m.entities[i1].relations.len() && (
                    #[trigger] m.entities[i1].relations[k]).name == r.name
                        && m.entities[i1].relations[k].relation_id == r.id;
                assert(m2.entities[i1].relations[k1] == m.entities[i1].relations[k1]);
                let k2 = choose|k: int|
                    0 <= k < m.entities[i2].relations.len() && (
                    #[trigger] m.entities[i2].relations[k]).name == r.name
                        && m.entities[i2].relations[k].relation_id == r.id;
                assert(m2.entities[i2].relations[k2] == m.entities[i2].relations[k2]);
            }
        }
    }
}

/// Pushing an entity does not change where an already-present id is found.
pub proof fn lemma_find_entity_push_stable<A, C>(
    s: Seq<EntityModel<A, C>>,
    e: EntityModel<A, C>,
    id: u64,
)
    requires
        find_entity(s, id) is Some,
    ensures
        find_entity(s.push(e), id) == find_entity(s, id),
{
    lemma_find_entity(s, id);
    lemma_find_entity(s.push(e), id);
    let i = find_entity(s, id)->Some_0;
    assert(s.push(e)[i] == s[i]);
    match find_entity(s.push(e), id) {
        Some(k) => {
            if k < i {
                assert(s.push(e)[k] == s[k]);
            } else if k > i {
                assert(s.push(e)[i].id == id);
            }
        },
        None => {
            assert(s.push(e)[i].id == id);
        },
    }
}


/// Replacing the entity at index `i`.
pub open spec fn with_entity<A, C>(m: ModelModel<A, C>, i: int, e: EntityModel<A, C>) -> ModelModel<
    A,
    C,
> {
    ModelModel { entities: m.entities.update(i, e), ..m }
}

/// Replacing the relation at index `t`.
pub open spec fn with_relation<A, C>(m: ModelModel<A, C>, t: int, r: RelationModel) -> ModelModel<
    A,
    C,
> {
    ModelModel { relations: m.relations.update(t, r), ..m }
}

/// Upserting one entry of an entity's state.
pub open spec fn t_update_entity_state<A, C>(
    m: ModelModel<A, C>,
    entity_id: u64,
    key: Seq<char>,
    v: ValueModel,
) -> ModelModel<A, C> {
    match find_entity(m.entities, entity_id) {
        Some(i) => with_entity(
            m,
            i,
            EntityModel { state: m.entities[i].state.insert(key, v), ..m.entities[i] },
        ),
        None => m,
    }
}

/// Deleting one entry of an entity's state.
pub open spec fn t_delete_entity_state<A, C>(
    m: ModelModel<A, C>,
    entity_id: u64,
    key: Seq<char>,
) -> ModelModel<A, C> {
    match find_entity(m.entities, entity_id) {
        Some(i) => with_entity(
            m,
            i,
            EntityModel { state: m.entities[i].state.remove(key), ..m.entities[i] },
        ),
        None => m,
    }
}

/// Setting a function's activation flag.
pub open spec fn t_set_function_active<A, C>(
    m: ModelModel<A, C>,
    entity_id: u64,
    function_name: Seq<char>,
    active: bool,
) -> ModelModel<A, C> {
    match find_entity(m.entities, entity_id) {
        Some(i) => match find_function(m.entities[i].functions, function_name) {
            Some(j) => with_entity(
                m,
                i,
                EntityModel {
                    functions: m.entities[i].functions.update(
                        j,
                        FunctionModel { active, ..m.entities[i].functions[j] },
                    ),
                    ..m.entities[i]
                },
            ),
            None => m,
        },
        None => m,
    }
}

/// Upserting one entry of a function's parameters.
pub open spec fn t_update_function_parameter<A, C>(
    m: ModelModel<A, C>,
    entity_id: u64,
    function_name: Seq<char>,
    key: Seq<char>,
    v: ValueModel,
) -> ModelModel<A, C> {
    match find_entity(m.entities, entity_id) {
        Some(i) => match find_function(m.entities[i].functions, function_name) {
            Some(j) => with_entity(
                m,
                i,
                EntityModel {
                    functions: m.entities[i].functions.update(
                        j,
                        FunctionModel {
                            parameter: m.entities[i].functions[j].parameter.insert(key, v),
                            ..m.entities[i].functions[j]
                        },
                    ),
                    ..m.entities[i]
                },
            ),
            None => m,
        },
        None => m,
    }
}

/// Deleting one entry of a function's parameters.
pub open spec fn t_delete_function_parameter<A, C>(
    m: ModelModel<A, C>,
    entity_id: u64,
    function_name: Seq<char>,
    key: Seq<char>,
) -> ModelModel<A, C> {
    match find_entity(m.entities, entity_id) {
        Some(i) => match find_function(m.entities[i].functions, function_name) {
            Some(j) => with_entity(
                m,
                i,
                EntityModel {
                    functions: m.entities[i].functions.update(
                        j,
                        FunctionModel {
                            parameter: m.entities[i].functions[j].parameter.remove(key),
                            ..m.entities[i].functions[j]
                        },
                    ),
                    ..m.entities[i]
                },
            ),
            None => m,
        },
        None => m,
    }
}

/// Attaching or detaching one process's condition.
pub open spec fn t_set_condition<A, C>(
    m: ModelModel<A, C>,
    entity_id: u64,
    function_name: Seq<char>,
    process_name: Seq<char>,
    condition: Option<C>,
) -> ModelModel<A, C> {
    match find_entity(m.entities, entity_id) {
        Some(i) => match find_function(m.entities[i].functions, function_name) {
            Some(j) => match find_process(m.entities[i].functions[j].processes, process_name) {
                Some(k) => with_entity(
                    m,
                    i,
                    EntityModel {
                        functions: m.entities[i].functions.update(
                            j,
                            FunctionModel {
                                processes: m.entities[i].functions[j].processes.update(
                                    k,
                                    ProcessModel {
                                        condition,
                                        ..m.entities[i].functions[j].processes[k]
                                    },
                                ),
                                ..m.entities[i].functions[j]
                            },
                        ),
                        ..m.entities[i]
                    },
                ),
                None => m,
            },
            None => m,
        },
        None => m,
    }
}

/// Upserting one entry of a relation's metadata.
pub open spec fn t_add_relation_metadata<A, C>(
    m: ModelModel<A, C>,
    relation_id: u64,
    key: Seq<char>,
    v: ValueModel,
) -> ModelModel<A, C> {
    match find_relation(m.relations, relation_id) {
        Some(t) => with_relation(
            m,
            t,
            RelationModel { meta: m.relations[t].meta.insert(key, v), ..m.relations[t] },
        ),
        None => m,
    }
}

/// Deleting one entry of a relation's metadata.
pub open spec fn t_remove_relation_metadata<A, C>(
    m: ModelModel<A, C>,
    relation_id: u64,
    key: Seq<char>,
) -> ModelModel<A, C> {
    match find_relation(m.relations, relation_id) {
        Some(t) => with_relation(
            m,
            t,
            RelationModel { meta: m.relations[t].meta.remove(key), ..m.relations[t] },
        ),
        None => m,
    }
}

/// Entity lists whose ids agree pointwise are searched alike.
pub proof fn lemma_find_entity_congruent<A, C>(
    s1: Seq<EntityModel<A, C>>,
    s2: Seq<EntityModel<A, C>>,
    id: u64,
)
    requires
        s1.len() == s2.len(),
        forall|i: int| #![all_triggers] 0 <= i < s1.len() ==> s1[i].id == s2[i].id,
    ensures
        find_entity(s1, id) == find_entity(s2, id),
    decreases s1.len(),
{
    if s1.len() > 0 {
        let r1 = s1.drop_first();
        let r2 = s2.drop_first();
        assert forall|i: int| #![all_triggers] 0 <= i < r1.len() implies r1[i].id == r2[i].id by {
            assert(r1[i] == s1[i + 1]);
            assert(r2[i] == s2[i + 1]);
            assert(s1[i + 1].id == s2[i + 1].id);
        }
        lemma_find_entity_congruent(r1, r2, id);
        assert(s1[0].id == s2[0].id);
        assert(s1.first() == s1[0] && s2.first() == s2[0]);
    }
}

/// Relation lists whose ids agree pointwise are searched alike.
pub proof fn lemma_find_relation_congruent(
    s1: Seq<RelationModel>,
    s2: Seq<RelationModel>,
    id: u64,
)
    requires
        s1.len() == s2.len(),
        forall|i: int| #![all_triggers] 0 <= i < s1.len() ==> s1[i].id == s2[i].id,
    ensures
        find_relation(s1, id) == find_relation(s2, id),
    decreases s1.len(),
{
    if s1.len() > 0 {
        let r1 = s1.drop_first();
        let r2 = s2.drop_first();
        assert forall|i: int| #![all_triggers] 0 <= i < r1.len() implies r1[i].id == r2[i].id by {
            assert(r1[i] == s1[i + 1]);
            assert(r2[i] == s2[i + 1]);
            assert(s1[i + 1].id == s2[i + 1].id);
        }
        lemma_find_relation_congruent(r1, r2, id);
        assert(s1[0].id == s2[0].id);
        assert(s1.first() == s1[0] && s2.first() == s2[0]);
    }
}

/// A model that differs from a well-formed one only in entity content — ids
/// and back-references untouched, every entity still well formed — is well
/// formed.
pub proof fn lemma_wf_entity_content<A, C>(m1: ModelModel<A, C>, m2: ModelModel<A, C>)
    requires
        m1.wf(),
        m2.relations == m1.relations,
        m2.definitions == m1.definitions,
        m2.next_id == m1.next_id,
        m2.entities.len() == m1.entities.len(),
        forall|i: int|
            #![all_triggers]
            0 <= i < m2.entities.len() ==> m2.entities[i].id == m1.entities[i].id
                && m2.entities[i].relations == m1.entities[i].relations && m2.entities[i].wf(),
    ensures
        m2.wf(),
{
    assert(m2.entity_ids_unique()) by {
        assert forall|i: int, j: int|
            0 <= i < j < m2.entities.len() implies (#[trigger] m2.entities[i]).id != (
        #[trigger] m2.entities[j]).id by {
            assert(m1.entities[i].id != m1.entities[j].id);
        }
    }
    assert(m2.ids_bounded()) by {
        assert forall|i: int|
            0 <= i < m2.entities.len() implies (#[trigger] m2.entities[i]).id < m2.next_id by {
            assert(m1.entities[i].id < m1.next_id);
        }
    }
    assert(m2.backrefs_valid()) by {
        assert forall|i: int, k: int|
            #![trigger m2.entities[i].relations[k]]
            0 <= i < m2.entities.len() && 0 <= k < m2.entities[i].relations.len() implies m2
            .backref_ok(m2.entities[i].relations[k], m2.entities[i].id) by {
            assert(m1.backref_ok(m1.entities[i].relations[k], m1.entities[i].id));
        }
    }
    assert(m2.backrefs_complete()) by {
        assert forall|j: int| 0 <= j < m2.relations.len() implies {
            let r = #[trigger] m2.relations[j];
            &&& find_entity(m2.entities, r.entity1) matches Some(i1) && m2.entity_has_backref(
                i1,
                r.name,
                r.id,
            )
            &&& find_entity(m2.entities, r.entity2) matches Some(i2) && m2.entity_has_backref(
                i2,
                r.name,
                r.id,
            )
        } by {
            let r = m2.relations[j];
            assert(m1.relations[j] == r);
            lemma_find_entity_congruent(m1.entities, m2.entities, r.entity1);
            lemma_find_entity_congruent(m1.entities, m2.entities, r.entity2);
            lemma_find_entity(m1.entities, r.entity1);
            lemma_find_entity(m1.entities, r.entity2);
            let i1 = find_entity(m1.entities, r.entity1)->Some_0;
            let i2 = find_entity(m1.entities, r.entity2)->Some_0;
            let k1 = choose|k: int|
                0 <= k < m1.entities[i1].relations.len() && (
                #[trigger] m1.entities[i1].relations[k]).name == r.name
                    && m1.entities[i1].relations[k].relation_id == r.id;
            assert(m2.entities[i1].relations[k1] == m1.entities[i1].relations[k1]);
            let k2 = choose|k: int|
                0 <= k < m1.entities[i2].relations.len() && (
                #[trigger] m1.entities[i2].relations[k]).name == r.name
                    && m1.entities[i2].relations[k].relation_id == r.id;
            assert(m2.entities[i2].relations[k2] == m1.entities[i2].relations[k2]);
        }
    }
}

/// A model that differs from a well-formed one only in relation metadata is
/// well formed.
pub proof fn lemma_wf_relation_content<A, C>(m1: ModelModel<A, C>, m2: ModelModel<A, C>)
    requires
        m1.wf(),
        m2.entities == m1.entities,
        m2.definitions == m1.definitions,
        m2.next_id == m1.next_id,
        m2.relations.len() == m1.relations.len(),
        forall|t: int|
            #![all_triggers]
            0 <= t < m2.relations.len() ==> m2.relations[t].id == m1.relations[t].id
                && m2.relations[t].name == m1.relations[t].name && m2.relations[t].entity1
                == m1.relations[t].entity1 && m2.relations[t].entity2 == m1.relations[t].entity2,
    ensures
        m2.wf(),
{
    assert(m2.relation_ids_unique()) by {
        assert forall|i: int, j: int|
            0 <= i < j < m2.relations.len() implies (#[trigger] m2.relations[i]).id != (
        #[trigger] m2.relations[j]).id by {
            assert(m1.relations[i].id != m1.relations[j].id);
        }
    }
    assert(m2.ids_bounded()) by {
        assert forall|j: int|
            0 <= j < m2.relations.len() implies (#[trigger] m2.relations[j]).id < m2.next_id by {
            assert(m1.relations[j].id < m1.next_id);
        }
    }
    assert(m2.backrefs_valid()) by {
        assert forall|i: int, k: int|
            #![trigger m2.entities[i].relations[k]]
            0 <= i < m2.entities.len() && 0 <= k < m2.entities[i].relations.len() implies m2
            .backref_ok(m2.entities[i].relations[k], m2.entities[i].id) by {
            let b = m2.entities[i].relations[k];
            assert(m1.backref_ok(b, m1.entities[i].id));
            lemma_find_relation_congruent(m1.relations, m2.relations, b.relation_id);
            let t = find_relation(m1.relations, b.relation_id)->Some_0;
            lemma_find_relation(m1.relations, b.relation_id);
            assert(m2.relations[t].name == m1.relations[t].name);
        }
    }
    assert(m2.backrefs_complete()) by {
        assert forall|j: int| 0 <= j < m2.relations.len() implies {
            let r = #[trigger] m2.relations[j];
            &&& find_entity(m2.entities, r.entity1) matches Some(i1) && m2.entity_has_backref(
                i1,
                r.name,
                r.id,
            )
            &&& find_entity(m2.entities, r.entity2) matches Some(i2) && m2.entity_has_backref(
                i2,
                r.name,
                r.id,
            )
        } by {
            let r = m2.relations[j];
            assert(m1.relations[j].name == r.name && m1.relations[j].id == r.id && m1.relations[j].entity1
                == r.entity1 && m1.relations[j].entity2 == r.entity2);
        }
    }
}


impl<A, C> Model<A, C> {
    /// Upserts one entry of an entity's state; no effect when the entity is
    /// gone by the time the command applies.
    pub fn update_entity_state_internal(&mut self, entity_id: u64, key: String, value: Value)
        requires
            old(self).inv(),
        ensures
            final(self).inv(),
            final(self)@ == t_update_entity_state(
                old(self)@,
                entity_id,
                key@,
                value_model(value),
            ),
    {
        let ghost pre = self@;
        match self.entity_index(entity_id) {
            None => {
            },
            Some(i) => {
                proof {
                    lemma_find_entity(pre.entities, entity_id);
                    assert(pre.entities[i as int] == self.entities@[i as int]@);
                }
                self.entities[i].state.set(key, value);
                proof {
                    let e2 = EntityModel {
                        state: pre.entities[i as int].state.insert(key@, value_model(value)),
                        ..pre.entities[i as int]
                    };
                    assert(self.entities@[i as int]@ == e2);
                    assert(self@.entities =~= pre.entities.update(i as int, e2)) by {
                        assert(forall|t: int|
                            0 <= t < self.entities@.len() && t != i as int
                                ==> #[trigger] self.entities@[t] == old(self).entities@[t]);
                    }
                    assert(self@ == t_update_entity_state(pre, entity_id, key@, value_model(value)));
                    lemma_wf_entity_content(pre, self@);
                    assert forall|t: int|
                        0 <= t < self.entities@.len() implies (
                    #[trigger] self.entities@[t]).rep_wf() by {
                        if t != i as int {
                            assert(self.entities@[t] == old(self).entities@[t]);
                        }
                    }
                }
            },
        }
    }
}


/// An entity whose functions changed only in content — names kept, each
/// function still well formed — is well formed.
pub proof fn lemma_entity_wf_function_update<A, C>(e1: EntityModel<A, C>, e2: EntityModel<A, C>)
    requires
        e1.wf(),
        e2.functions.len() == e1.functions.len(),
        forall|j: int|
            #![all_triggers]
            0 <= j < e2.functions.len() ==> e2.functions[j].name == e1.functions[j].name
                && e2.functions[j].wf(),
    ensures
        e2.wf(),
{
    assert forall|i: int, j: int|
        0 <= i < j < e2.functions.len() implies e2.functions[i].name != e2.functions[j].name by {
        assert(e1.functions[i].name != e1.functions[j].name);
    }
}

/// A function whose processes changed only in content — names kept — is well
/// formed.
pub proof fn lemma_function_wf_process_update<A, C>(
    f1: FunctionModel<A, C>,
    f2: FunctionModel<A, C>,
)
    requires
        f1.wf(),
        f2.processes.len() == f1.processes.len(),
        forall|k: int|
            #![all_triggers]
            0 <= k < f2.processes.len() ==> f2.processes[k].name == f1.processes[k].name,
    ensures
        f2.wf(),
{
    assert forall|i: int, j: int|
        0 <= i < j < f2.processes.len() implies f2.processes[i].name != f2.processes[j].name by {
        assert(f1.processes[i].name != f1.processes[j].name);
    }
}

/// The index of the first function carrying `name`, if it is present.
fn function_index<A, C>(functions: &Vec<crate::function::Function<A, C>>, name: &str) -> (r:
    Option<usize>)
    ensures
        match r {
            Some(j) => find_function(functions_model(functions@), name@) == Some(j as int),
            None => find_function(functions_model(functions@), name@) is None,
        },
{
    let n = functions.len();
    let mut i: usize = 0;
    while i < n
        invariant
            n == functions@.len(),
            i <= n,
            forall|t: int| 0 <= t < i ==> functions_model(functions@)[t].name != name@,
        decreases n - i,
    {
        if str_eq(functions[i].name.as_str(), name) {
            proof {
                lemma_find_function(functions_model(functions@), name@);
                assert(functions_model(functions@)[i as int] == functions@[i as int]@);
                assert(find_function(functions_model(functions@), name@) == Some(i as int));
            }
            return Some(i);
        }
        proof {
            assert(functions_model(functions@)[i as int] == functions@[i as int]@);
        }
        i = i + 1;
    }
    proof {
        lemma_find_function(functions_model(functions@), name@);
    }
    None
}

/// The index of the first process carrying `name`, if it is present.
fn process_index<A, C>(processes: &Vec<crate::function::Process<A, C>>, name: &str) -> (r: Option<
    usize,
>)
    ensures
        match r {
            Some(k) => find_process(crate::function::processes_model(processes@), name@) == Some(
                k as int,
            ),
            None => find_process(crate::function::processes_model(processes@), name@) is None,
        },
{
    let n = processes.len();
    let mut i: usize = 0;
    while i < n
        invariant
            n == processes@.len(),
            i <= n,
            forall|t: int|
                0 <= t < i ==> crate::function::processes_model(processes@)[t].name != name@,
        decreases n - i,
    {
        if str_eq(processes[i].name.as_str(), name) {
            proof {
                lemma_find_process(crate::function::processes_model(processes@), name@);
                assert(crate::function::processes_model(processes@)[i as int] == processes@[i as int]@);
                assert(find_process(crate::function::processes_model(processes@), name@) == Some(
                    i as int,
                ));
            }
            return Some(i);
        }
        proof {
            assert(crate::function::processes_model(processes@)[i as int] == processes@[i as int]@);
        }
        i = i + 1;
    }
    proof {
        lemma_find_process(crate::function::processes_model(processes@), name@);
    }
    None
}

impl<A, C> Model<A, C> {
    /// Deletes one entry of an entity's state; no effect when the entity or
    /// the entry is gone.
    pub fn delete_entity_state_internal(&mut self, entity_id: u64, key: &str)
        requires
            old(self).inv(),
        ensures
            final(self).inv(),
            final(self)@ == t_delete_entity_state(old(self)@, entity_id, key@),
    {
        let ghost pre = self@;
        match self.entity_index(entity_id) {
            None => {
            },
            Some(i) => {
                proof {
                    lemma_find_entity(pre.entities, entity_id);
                    assert(pre.entities[i as int] == self.entities@[i as int]@);
                }
                self.entities[i].state.remove(key);
                proof {
                    let e2 = EntityModel {
                        state: pre.entities[i as int].state.remove(key@),
                        ..pre.entities[i as int]
                    };
                    assert(self.entities@[i as int]@ == e2);
                    assert(self@.entities =~= pre.entities.update(i as int, e2)) by {
                        assert(forall|t: int|
                            0 <= t < self.entities@.len() && t != i as int
                                ==> #[trigger] self.entities@[t] == old(self).entities@[t]);
                    }
                    assert(self@ == t_delete_entity_state(pre, entity_id, key@));
                    lemma_wf_entity_content(pre, self@);
                    assert forall|t: int|
                        0 <= t < self.entities@.len() implies (
                    #[trigger] self.entities@[t]).rep_wf() by {
                        if t != i as int {
                            assert(self.entities@[t] == old(self).entities@[t]);
                        }
                    }
                }
            },
        }
    }

    /// Sets a function's activation flag; no effect when the entity or the
    /// function is gone.
    fn set_function_active_internal(&mut self, entity_id: u64, function_name: &str, active: bool)
        requires
            old(self).inv(),
        ensures
            final(self).inv(),
            final(self)@ == t_set_function_active(old(self)@, entity_id, function_name@, active),
    {
        let ghost pre = self@;
        match self.entity_index(entity_id) {
            None => {
            },
            Some(i) => {
                proof {
                    lemma_find_entity(pre.entities, entity_id);
                    assert(pre.entities[i as int] == self.entities@[i as int]@);
                }
                match function_index(&self.entities[i].functions, function_name) {
                    None => {
                    },
                    Some(j) => {
                        proof {
                            lemma_find_function(pre.entities[i as int].functions, function_name@);
                            assert(pre.entities[i as int].functions[j as int]
                                == self.entities@[i as int].functions@[j as int]@);
                        }
                        if active {
                            self.entities[i].functions[j].activate();
                        } else {
                            self.entities[i].functions[j].deactivate();
                        }
                        proof {
                            let f2 = FunctionModel {
                                active,
                                ..pre.entities[i as int].functions[j as int]
                            };
                            let e2 = EntityModel {
                                functions: pre.entities[i as int].functions.update(j as int, f2),
                                ..pre.entities[i as int]
                            };
                            assert(self.entities@[i as int]@.functions =~= e2.functions) by {
                                assert(forall|t: int|
                                    0 <= t < self.entities@[i as int].functions@.len() && t != j as int
                                        ==> #[trigger] self.entities@[i as int].functions@[t]
                                        == old(self).entities@[i as int].functions@[t]);
                            }
                            assert(self.entities@[i as int]@ == e2);
                            assert(self@.entities =~= pre.entities.update(i as int, e2)) by {
                                assert(forall|t: int|
                                    0 <= t < self.entities@.len() && t != i as int
                                        ==> #[trigger] self.entities@[t] == old(self).entities@[t]);
                            }
                            assert(self@ == t_set_function_active(
                                pre,
                                entity_id,
                                function_name@,
                                active,
                            ));
                            assert(e2.wf()) by {
                                lemma_entity_wf_function_update(pre.entities[i as int], e2);
                            }
                            lemma_wf_entity_content(pre, self@);
                            assert forall|t: int|
                                0 <= t < self.entities@.len() implies (
                            #[trigger] self.entities@[t]).rep_wf() by {
                                if t != i as int {
                                    assert(self.entities@[t] == old(self).entities@[t]);
                                }
                            }
                            assert(self.entities@[i as int].rep_wf()) by {
                                assert forall|t: int|
                                    0 <= t < self.entities@[i as int].functions@.len() implies (
                                #[trigger] self.entities@[i as int].functions@[t]).rep_wf() by {
                                    if t != j as int {
                                        assert(self.entities@[i as int].functions@[t]
                                            == old(self).entities@[i as int].functions@[t]);
                                        assert(old(self).entities@[i as int].rep_wf());
                                    }
                                }
                            }
                        }
                    },
                }
            },
        }
    }

    /// Makes a function eligible to run; no effect on missing targets.
    pub fn activate_function_internal(&mut self, entity_id: u64, function_name: &str)
        requires
            old(self).inv(),
        ensures
            final(self).inv(),
            final(self)@ == t_set_function_active(old(self)@, entity_id, function_name@, true),
    {
        self.set_function_active_internal(entity_id, function_name, true);
    }

    /// Stops a function from running; no effect on missing targets.
    pub fn deactivate_function_internal(&mut self, entity_id: u64, function_name: &str)
        requires
            old(self).inv(),
        ensures
            final(self).inv(),
            final(self)@ == t_set_function_active(old(self)@, entity_id, function_name@, false),
    {
        self.set_function_active_internal(entity_id, function_name, false);
    }
}


impl<A, C> Model<A, C> {
    /// Upserts one entry of a function's parameters; no effect on missing
    /// targets.
    pub fn update_function_parameter_internal(
        &mut self,
        entity_id: u64,
        function_name: &str,
        key: String,
        value: Value,
    )
        requires
            old(self).inv(),
        ensures
            final(self).inv(),
            final(self)@ == t_update_function_parameter(
                old(self)@,
                entity_id,
                function_name@,
                key@,
                value_model(value),
            ),
    {
        let ghost pre = self@;
        match self.entity_index(entity_id) {
            None => {
            },
            Some(i) => {
                proof {
                    lemma_find_entity(pre.entities, entity_id);
                    assert(pre.entities[i as int] == self.entities@[i as int]@);
                }
                match function_index(&self.entities[i].functions, function_name) {
                    None => {
                    },
                    Some(j) => {
                        proof {
                            lemma_find_function(pre.entities[i as int].functions, function_name@);
                            assert(pre.entities[i as int].functions[j as int]
                                == self.entities@[i as int].functions@[j as int]@);
                            assert(old(self).entities@[i as int].rep_wf());
                            assert(old(self).entities@[i as int].functions@[j as int].rep_wf());
                        }
                        self.entities[i].functions[j].set_parameter(key, value);
                        proof {
                            let f2 = FunctionModel {
                                parameter: pre.entities[i as int].functions[j as int].parameter
                                    .insert(key@, value_model(value)),
                                ..pre.entities[i as int].functions[j as int]
                            };
                            let e2 = EntityModel {
                                functions: pre.entities[i as int].functions.update(j as int, f2),
                                ..pre.entities[i as int]
                            };
                            assert(self.entities@[i as int]@.functions =~= e2.functions) by {
                                assert(forall|t: int|
                                    0 <= t < self.entities@[i as int].functions@.len() && t != j as int
                                        ==> #[trigger] self.entities@[i as int].functions@[t]
                                        == old(self).entities@[i as int].functions@[t]);
                            }
                            assert(self.entities@[i as int]@ == e2);
                            assert(self@.entities =~= pre.entities.update(i as int, e2)) by {
                                assert(forall|t: int|
                                    0 <= t < self.entities@.len() && t != i as int
                                        ==> #[trigger] self.entities@[t] == old(self).entities@[t]);
                            }
                            assert(self@ == t_update_function_parameter(
                                pre,
                                entity_id,
                                function_name@,
                                key@,
                                value_model(value),
                            ));
                            assert(e2.wf()) by {
                                lemma_entity_wf_function_update(pre.entities[i as int], e2);
                            }
                            lemma_wf_entity_content(pre, self@);
                            assert(self.entities@[i as int].rep_wf()) by {
                                assert forall|t: int|
                                    0 <= t < self.entities@[i as int].functions@.len() implies (
                                #[trigger] self.entities@[i as int].functions@[t]).rep_wf() by {
                                    if t != j as int {
                                        assert(self.entities@[i as int].functions@[t]
                                            == old(self).entities@[i as int].functions@[t]);
                                        assert(old(self).entities@[i as int].rep_wf());
                                    }
                                }
                            }
                            assert forall|t: int|
                                0 <= t < self.entities@.len() implies (
                            #[trigger] self.entities@[t]).rep_wf() by {
                                if t != i as int {
                                    assert(self.entities@[t] == old(self).entities@[t]);
                                }
                            }
                        }
                    },
                }
            },
        }
    }

    /// Deletes one entry of a function's parameters; no effect on missing
    /// targets.
    pub fn delete_function_parameter_internal(
        &mut self,
        entity_id: u64,
        function_name: &str,
        key: &str,
    )
        requires
            old(self).inv(),
        ensures
            final(self).inv(),
            final(self)@ == t_delete_function_parameter(
                old(self)@,
                entity_id,
                function_name@,
                key@,
            ),
    {
        let ghost pre = self@;
        match self.entity_index(entity_id) {
            None => {
            },
            Some(i) => {
                proof {
                    lemma_find_entity(pre.entities, entity_id);
                    assert(pre.entities[i as int] == self.entities@[i as int]@);
                }
                match function_index(&self.entities[i].functions, function_name) {
                    None => {
                    },
                    Some(j) => {
                        proof {
                            lemma_find_function(pre.entities[i as int].functions, function_name@);
                            assert(pre.entities[i as int].functions[j as int]
                                == self.entities@[i as int].functions@[j as int]@);
                            assert(old(self).entities@[i as int].rep_wf());
                            assert(old(self).entities@[i as int].functions@[j as int].rep_wf());
                        }
                        self.entities[i].functions[j].remove_parameter(key);
                        proof {
                            let f2 = FunctionModel {
                                parameter: pre.entities[i as int].functions[j as int].parameter
                                    .remove(key@),
                                ..pre.entities[i as int].functions[j as int]
                            };
                            let e2 = EntityModel {
                                functions: pre.entities[i as int].functions.update(j as int, f2),
                                ..pre.entities[i as int]
                            };
                            assert(self.entities@[i as int]@.functions =~= e2.functions) by {
                                assert(forall|t: int|
                                    0 <= t < self.entities@[i as int].functions@.len() && t != j as int
                                        ==> #[trigger] self.entities@[i as int].functions@[t]
                                        == old(self).entities@[i as int].functions@[t]);
                            }
                            assert(self.entities@[i as int]@ == e2);
                            assert(self@.entities =~= pre.entities.update(i as int, e2)) by {
                                assert(forall|t: int|
                                    0 <= t < self.entities@.len() && t != i as int
                                        ==> #[trigger] self.entities@[t] == old(self).entities@[t]);
                            }
                            assert(self@ == t_delete_function_parameter(
                                pre,
                                entity_id,
                                function_name@,
                                key@,
                            ));
                            assert(e2.wf()) by {
                                lemma_entity_wf_function_update(pre.entities[i as int], e2);
                            }
                            lemma_wf_entity_content(pre, self@);
                            assert(self.entities@[i as int].rep_wf()) by {
                                assert forall|t: int|
                                    0 <= t < self.entities@[i as int].functions@.len() implies (
                                #[trigger] self.entities@[i as int].functions@[t]).rep_wf() by {
                                    if t != j as int {
                                        assert(self.entities@[i as int].functions@[t]
                                            == old(self).entities@[i as int].functions@[t]);
                                        assert(old(self).entities@[i as int].rep_wf());
                                    }
                                }
                            }
                            assert forall|t: int|
                                0 <= t < self.entities@.len() implies (
                            #[trigger] self.entities@[t]).rep_wf() by {
                                if t != i as int {
                                    assert(self.entities@[t] == old(self).entities@[t]);
                                }
                            }
                        }
                    },
                }
            },
        }
    }

    /// Attaches or detaches one process's condition; no effect on missing
    /// targets.
    fn set_condition_internal(
        &mut self,
        entity_id: u64,
        function_name: &str,
        process_name: &str,
        condition: Option<C>,
    )
        requires
            old(self).inv(),
        ensures
            final(self).inv(),
            final(self)@ == t_set_condition(
                old(self)@,
                entity_id,
                function_name@,
                process_name@,
                condition,
            ),
    {
        let ghost pre = self@;
        match self.entity_index(entity_id) {
            None => {
            },
            Some(i) => {
                proof {
                    lemma_find_entity(pre.entities, entity_id);
                    assert(pre.entities[i as int] == self.entities@[i as int]@);
                }
                match function_index(&self.entities[i].functions, function_name) {
                    None => {
                    },
                    Some(j) => {
                        proof {
                            lemma_find_function(pre.entities[i as int].functions, function_name@);
                            assert(pre.entities[i as int].functions[j as int]
                                == self.entities@[i as int].functions@[j as int]@);
                        }
                        match process_index(&self.entities[i].functions[j].processes, process_name)
                        {
                            None => {
                            },
                            Some(k) => {
                                proof {
                                    lemma_find_process(
                                        pre.entities[i as int].functions[j as int].processes,
                                        process_name@,
                                    );
                                    assert(pre.entities[i as int].functions[j as int].processes[k as int]
                                        == self.entities@[i as int].functions@[j as int].processes@[k as int]@);
                                }
                                self.entities[i].functions[j].processes[k].condition = condition;
                                proof {
                                    let p2 = ProcessModel {
                                        condition,
                                        ..pre.entities[i as int].functions[j as int].processes[k as int]
                                    };
                                    let f2 = FunctionModel {
                                        processes: pre.entities[i as int].functions[j as int]
                                            .processes.update(k as int, p2),
                                        ..pre.entities[i as int].functions[j as int]
                                    };
                                    let e2 = EntityModel {
                                        functions: pre.entities[i as int].functions.update(
                                            j as int,
                                            f2,
                                        ),
                                        ..pre.entities[i as int]
                                    };
                                    assert(self.entities@[i as int].functions@[j as int]@.processes
                                        =~= f2.processes) by {
                                        assert(forall|t: int|
                                            0 <= t < self.entities@[i as int].functions@[j as int]
                                                .processes@.len() && t != k as int
                                                ==> #[trigger] self.entities@[i as int].functions@[j as int].processes@[t]
                                                == old(self).entities@[i as int].functions@[j as int].processes@[t]);
                                    }
                                    assert(self.entities@[i as int].functions@[j as int]@ == f2);
                                    assert(self.entities@[i as int]@.functions =~= e2.functions) by {
                                        assert(forall|t: int|
                                            0 <= t < self.entities@[i as int].functions@.len() && t
                                                != j as int
                                                ==> #[trigger] self.entities@[i as int].functions@[t]
                                                == old(self).entities@[i as int].functions@[t]);
                                    }
                                    assert(self.entities@[i as int]@ == e2);
                                    assert(self@.entities =~= pre.entities.update(i as int, e2)) by {
                                        assert(forall|t: int|
                                            0 <= t < self.entities@.len() && t != i as int
                                                ==> #[trigger] self.entities@[t] == old(
                                                self,
                                            ).entities@[t]);
                                    }
                                    assert(self@ == t_set_condition(
                                        pre,
                                        entity_id,
                                        function_name@,
                                        process_name@,
                                        condition,
                                    ));
                                    assert(f2.wf()) by {
                                        lemma_function_wf_process_update(
                                            pre.entities[i as int].functions[j as int],
                                            f2,
                                        );
                                    }
                                    assert(e2.wf()) by {
                                        lemma_entity_wf_function_update(pre.entities[i as int], e2);
                                    }
                                    lemma_wf_entity_content(pre, self@);
                                    assert(self.entities@[i as int].rep_wf()) by {
                                        assert forall|t: int|
                                            0 <= t < self.entities@[i as int].functions@.len() implies (
                                        #[trigger] self.entities@[i as int].functions@[t]).rep_wf() by {
                                            assert(old(self).entities@[i as int].rep_wf());
                                            if t != j as int {
                                                assert(self.entities@[i as int].functions@[t]
                                                    == old(self).entities@[i as int].functions@[t]);
                                            } else {
                                                assert(self.entities@[i as int].functions@[t].parameter
                                                    == old(self).entities@[i as int].functions@[t].parameter);
                                            }
                                        }
                                    }
                                    assert forall|t: int|
                                        0 <= t < self.entities@.len() implies (
                                    #[trigger] self.entities@[t]).rep_wf() by {
                                        if t != i as int {
                                            assert(self.entities@[t] == old(self).entities@[t]);
                                        }
                                    }
                                }
                            },
                        }
                    },
                }
            },
        }
    }

    /// Attaches (or replaces) one process's condition; no effect on missing
    /// targets.
    pub fn add_condition_internal(
        &mut self,
        entity_id: u64,
        function_name: &str,
        process_name: &str,
        condition: C,
    )
        requires
            old(self).inv(),
        ensures
            final(self).inv(),
            final(self)@ == t_set_condition(
                old(self)@,
                entity_id,
                function_name@,
                process_name@,
                Some(condition),
            ),
    {
        self.set_condition_internal(entity_id, function_name, process_name, Some(condition));
    }

    /// Detaches one process's condition; no effect on missing targets.
    pub fn remove_condition_internal(
        &mut self,
        entity_id: u64,
        function_name: &str,
        process_name: &str,
    )
        requires
            old(self).inv(),
        ensures
            final(self).inv(),
            final(self)@ == t_set_condition(
                old(self)@,
                entity_id,
                function_name@,
                process_name@,
                None::<C>,
            ),
    {
        self.set_condition_internal(entity_id, function_name, process_name, None);
    }

    /// Upserts one entry of a relation's metadata; no effect when the
    /// relation is gone.
    pub fn add_relation_metadata_internal(&mut self, relation_id: u64, key: String, value: Value)
        requires
            old(self).inv(),
        ensures
            final(self).inv(),
            final(self)@ == t_add_relation_metadata(
                old(self)@,
                relation_id,
                key@,
                value_model(value),
            ),
    {
        let ghost pre = self@;
        match self.relation_index(relation_id) {
            None => {
            },
            Some(t) => {
                proof {
                    lemma_find_relation(pre.relations, relation_id);
                    assert(pre.relations[t as int] == self.relations@[t as int]@);
                }
                self.relations[t].add_metadata(key, value);
                proof {
                    let r2 = RelationModel {
                        meta: pre.relations[t as int].meta.insert(key@, value_model(value)),
                        ..pre.relations[t as int]
                    };
                    assert(self.relations@[t as int]@ == r2);
                    assert(self@.relations =~= pre.relations.update(t as int, r2)) by {
                        assert(forall|u: int|
                            0 <= u < self.relations@.len() && u != t as int
                                ==> #[trigger] self.relations@[u] == old(self).relations@[u]);
                    }
                    assert(self@ == t_add_relation_metadata(
                        pre,
                        relation_id,
                        key@,
                        value_model(value),
                    ));
                    lemma_wf_relation_content(pre, self@);
                    assert forall|u: int|
                        0 <= u < self.relations@.len() implies (
                    #[trigger] self.relations@[u]).rep_wf() by {
                        if u != t as int {
                            assert(self.relations@[u] == old(self).relations@[u]);
                        }
                    }
                }
            },
        }
    }

    /// Deletes one entry of a relation's metadata; no effect when the
    /// relation is gone.
    pub fn remove_relation_metadata_internal(&mut self, relation_id: u64, key: &str)
        requires
            old(self).inv(),
        ensures
            final(self).inv(),
            final(self)@ == t_remove_relation_metadata(old(self)@, relation_id, key@),
    {
        let ghost pre = self@;
        match self.relation_index(relation_id) {
            None => {
            },
            Some(t) => {
                proof {
                    lemma_find_relation(pre.relations, relation_id);
                    assert(pre.relations[t as int] == self.relations@[t as int]@);
                }
                self.relations[t].remove_metadata(key);
                proof {
                    let r2 = RelationModel {
                        meta: pre.relations[t as int].meta.remove(key@),
                        ..pre.relations[t as int]
                    };
                    assert(self.relations@[t as int]@ == r2);
                    assert(self@.relations =~= pre.relations.update(t as int, r2)) by {
                        assert(forall|u: int|
                            0 <= u < self.relations@.len() && u != t as int
                                ==> #[trigger] self.relations@[u] == old(self).relations@[u]);
                    }
                    assert(self@ == t_remove_relation_metadata(pre, relation_id, key@));
                    lemma_wf_relation_content(pre, self@);
                    assert forall|u: int|
                        0 <= u < self.relations@.len() implies (
                    #[trigger] self.relations@[u]).rep_wf() by {
                        if u != t as int {
                            assert(self.relations@[u] == old(self).relations@[u]);
                        }
                    }
                }
            },
        }
    }
}


/// The outcome of validating a prospective relation against the registry and
/// the graph, as laid out for `add_relation`.
pub enum RelationCheck {
    /// No definition carries the name.
    Undefined,
    /// The first endpoint id resolves to no entity.
    MissingEntity1,
    /// The second endpoint id resolves to no entity.
    MissingEntity2,
    /// The endpoint types do not match the definition.
    BadTypes,
    /// The cardinality class forbids another same-named relation.
    BadCardinality(RelationType),
    /// The relation may be created, with this cardinality class.
    Accepted(RelationType),
}

/// Validates a prospective relation: the definition must exist, both
/// endpoints must resolve, their types must match the definition, and the
/// cardinality class bounds the endpoints' existing same-named relations —
/// one-to-one forbids either endpoint a same-named relation, one-to-many
/// constrains the first endpoint, many-to-one the second, many-to-many
/// nothing.
pub open spec fn relation_check<A, C>(
    m: ModelModel<A, C>,
    name: Seq<char>,
    entity1_id: u64,
    entity2_id: u64,
) -> RelationCheck {
    match find_definition(m.definitions, name) {
        None => RelationCheck::Undefined,
        Some(d) => {
            let def = m.definitions[d];
            match find_entity(m.entities, entity1_id) {
                None => RelationCheck::MissingEntity1,
                Some(i1) => match find_entity(m.entities, entity2_id) {
                    None => RelationCheck::MissingEntity2,
                    Some(i2) => {
                        if m.entities[i1].entity_type != def.source_type || m.entities[i2].entity_type
                            != def.target_type {
                            RelationCheck::BadTypes
                        } else {
                            let e1_has = m.entities[i1].has_relation_named(name);
                            let e2_has = m.entities[i2].has_relation_named(name);
                            let violated = match def.relation_type {
                                RelationType::OneToOne => e1_has || e2_has,
                                RelationType::OneToMany => e1_has,
                                RelationType::ManyToOne => e2_has,
                                RelationType::ManyToMany => false,
                            };
                            if violated {
                                RelationCheck::BadCardinality(def.relation_type)
                            } else {
                                RelationCheck::Accepted(def.relation_type)
                            }
                        }
                    },
                },
            }
        },
    }
}

/// Creating an accepted relation: the relation joins the table under the
/// next id, and both endpoints gain a back-reference.
pub open spec fn t_add_relation<A, C>(
    m: ModelModel<A, C>,
    name: Seq<char>,
    entity1_id: u64,
    entity2_id: u64,
    relation_type: RelationType,
) -> ModelModel<A, C> {
    let rid = m.next_id;
    let rel = RelationModel {
        id: rid,
        name,
        relation_type,
        entity1: entity1_id,
        entity2: entity2_id,
        meta: Map::empty(),
    };
    let i1 = find_entity(m.entities, entity1_id)->Some_0;
    let i2 = find_entity(m.entities, entity2_id)->Some_0;
    let bref = RelationRefModel { name, relation_id: rid };
    let ents1 = m.entities.update(
        i1,
        EntityModel { relations: m.entities[i1].relations.push(bref), ..m.entities[i1] },
    );
    let ents2 = ents1.update(
        i2,
        EntityModel { relations: ents1[i2].relations.push(bref), ..ents1[i2] },
    );
    ModelModel {
        entities: ents2,
        relations: m.relations.push(rel),
        next_id: (m.next_id + 1) as u64,
        ..m
    }
}

/// Pushing a relation does not change where an already-present id is found.
pub proof fn lemma_find_relation_push_stable(s: Seq<RelationModel>, r: RelationModel, id: u64)
    requires
        find_relation(s, id) is Some,
    ensures
        find_relation(s.push(r), id) == find_relation(s, id),
{
    lemma_find_relation(s, id);
    lemma_find_relation(s.push(r), id);
    let i = find_relation(s, id)->Some_0;
    assert(s.push(r)[i] == s[i]);
    match find_relation(s.push(r), id) {
        Some(k) => {
            if k < i {
                assert(s.push(r)[k] == s[k]);
            } else if k > i {
                assert(s.push(r)[i].id == id);
            }
        },
        None => {
            assert(s.push(r)[i].id == id);
        },
    }
}

/// Creating an accepted relation preserves graph integrity.
pub proof fn lemma_wf_add_relation<A, C>(
    m: ModelModel<A, C>,
    name: Seq<char>,
    entity1_id: u64,
    entity2_id: u64,
    relation_type: RelationType,
)
    requires
        m.wf(),
        m.next_id < u64::MAX,
        relation_check(m, name, entity1_id, entity2_id) == RelationCheck::Accepted(relation_type),
    ensures
        t_add_relation(m, name, entity1_id, entity2_id, relation_type).wf(),
{
    let m2 = t_add_relation(m, name, entity1_id, entity2_id, relation_type);
    let rid = m.next_id;
    lemma_find_entity(m.entities, entity1_id);
    lemma_find_entity(m.entities, entity2_id);
    let i1 = find_entity(m.entities, entity1_id)->Some_0;
    let i2 = find_entity(m.entities, entity2_id)->Some_0;
    let n = m.entities.len();
    let nr = m.relations.len();
    assert(m2.entities.len() == n);
    assert(forall|t: int|
        #![all_triggers]
        0 <= t < n ==> m2.entities[t].id == m.entities[t].id && m2.entities[t].functions
            == m.entities[t].functions && m2.entities[t].state == m.entities[t].state);
    assert(forall|t: int|
        0 <= t < n && t != i1 && t != i2 ==> #[trigger] m2.entities[t] == m.entities[t]);
    assert(forall|t: int| 0 <= t < nr ==> #[trigger] m2.relations[t] == m.relations[t]);
    assert(m2.relations[nr as int].id == rid);
    assert(m2.entity_ids_unique()) by {
        assert forall|i: int, j: int|
            0 <= i < j < m2.entities.len() implies (#[trigger] m2.entities[i]).id != (
        #[trigger] m2.entities[j]).id by {
            assert(m.entities[i].id != m.entities[j].id);
        }
    }
    assert(m2.relation_ids_unique()) by {
        assert forall|i: int, j: int|
            0 <= i < j < m2.relations.len() implies (#[trigger] m2.relations[i]).id != (
        #[trigger] m2.relations[j]).id by {
            if j < nr as int {
                assert(m.relations[i].id != m.relations[j].id);
            } else {
                assert(m.relations[i].id < m.next_id);
            }
        }
    }
    assert(m2.ids_bounded()) by {
        assert forall|i: int|
            0 <= i < m2.entities.len() implies (#[trigger] m2.entities[i]).id < m2.next_id by {
            assert(m.entities[i].id < m.next_id);
        }
        assert forall|j: int|
            0 <= j < m2.relations.len() implies (#[trigger] m2.relations[j]).id < m2.next_id by {
            if j < nr as int {
                assert(m.relations[j].id < m.next_id);
            }
        }
    }
    assert(m2.entities_wf()) by {
        assert forall|i: int| 0 <= i < m2.entities.len() implies (
        #[trigger] m2.entities[i]).wf() by {
            assert(m.entities[i].wf());
            assert(m2.entities[i].functions == m.entities[i].functions);
        }
    }
    assert(m2.backrefs_valid()) by {
        assert forall|i: int, k: int|
            #![trigger m2.entities[i].relations[k]]
            0 <= i < m2.entities.len() && 0 <= k < m2.entities[i].relations.len() implies m2
            .backref_ok(m2.entities[i].relations[k], m2.entities[i].id) by {
            let b = m2.entities[i].relations[k];
            if k < m.entities[i].relations.len() && m.entities[i].relations[k] == b {
                assert(m.backref_ok(b, m.entities[i].id));
                lemma_find_relation_push_stable(m.relations, m2.relations[nr as int], b.relation_id);
                let t = find_relation(m.relations, b.relation_id)->Some_0;
                lemma_find_relation(m.relations, b.relation_id);
                assert(m2.relations[t] == m.relations[t]);
            } else {
                assert(b == (RelationRefModel { name, relation_id: rid }));
                assert(m2.entities[i].id == entity1_id || m2.entities[i].id == entity2_id);
                lemma_find_relation(m2.relations, rid);
                match find_relation(m2.relations, rid) {
                    Some(t) => {
                        if t < nr as int {
                            assert(m.relations[t].id < m.next_id);
                        }
                        assert(t == nr as int);
                    },
                    None => {
                        assert(m2.relations[nr as int].id == rid);
                    },
                }
            }
        }
    }
    assert(m2.backrefs_complete()) by {
        assert forall|j: int| 0 <= j < m2.relations.len() implies {
            let r = #[trigger] m2.relations[j];
            &&& find_entity(m2.entities, r.entity1) matches Some(a1) && m2.entity_has_backref(
                a1,
                r.name,
                r.id,
            )
            &&& find_entity(m2.entities, r.entity2) matches Some(a2) && m2.entity_has_backref(
                a2,
                r.name,
                r.id,
            )
        } by {
            let r = m2.relations[j];
            lemma_find_entity_congruent(m.entities, m2.entities, r.entity1);
            lemma_find_entity_congruent(m.entities, m2.entities, r.entity2);
            if j < nr as int {
                assert(m.relations[j] == r);
                lemma_find_entity(m.entities, r.entity1);
                lemma_find_entity(m.entities, r.entity2);
                let a1 = find_entity(m.entities, r.entity1)->Some_0;
                let a2 = find_entity(m.entities, r.entity2)->Some_0;
                let k1 = choose|k: int|
                    0 <= k < m.entities[a1].relations.len() && (
                    #[trigger] m.entities[a1].relations[k]).name == r.name
                        && m.entities[a1].relations[k].relation_id == r.id;
                assert(m2.entities[a1].relations[k1] == m.entities[a1].relations[k1]);
                let k2 = choose|k: int|
                    0 <= k < m.entities[a2].relations.len() && (
                    #[trigger] m.entities[a2].relations[k]).name == r.name
                        && m.entities[a2].relations[k].relation_id == r.id;
                assert(m2.entities[a2].relations[k2] == m.entities[a2].relations[k2]);
            } else {
                assert(r.entity1 == entity1_id && r.entity2 == entity2_id);
                assert(find_entity(m2.entities, r.entity1) == Some(i1));
                assert(find_entity(m2.entities, r.entity2) == Some(i2));
                let b = RelationRefModel { name, relation_id: rid };
                if i1 == i2 {
                    let len2 = m2.entities[i1].relations.len();
                    assert(m2.entities[i1].relations[len2 - 1] == b);
                } else {
                    let len1 = m2.entities[i1].relations.len();
                    assert(m2.entities[i1].relations[len1 - 1] == b);
                    let len2 = m2.entities[i2].relations.len();
                    assert(m2.entities[i2].relations[len2 - 1] == b);
                }
            }
        }
    }
}


impl<A, C> Model<A, C> {
    /// Creates a relation under a registered name between two entities,
    /// returning the new relation's id.
    ///
    /// Fails with `UndefinedRelation` when no definition carries the name,
    /// `EntityNotFound` when an endpoint id resolves to no entity,
    /// `InvalidRelationEntityTypes` when the endpoint types do not match the
    /// definition, and `InvalidRelationType` when the cardinality class
    /// forbids another same-named relation at a constrained endpoint.
    pub fn add_relation(&mut self, name: String, entity1_id: u64, entity2_id: u64) -> (r: Result<
        u64,
        ModelError,
    >)
        requires
            old(self).inv(),
            old(self).next_id < u64::MAX,
        ensures
            final(self).inv(),
            match relation_check(old(self)@, name@, entity1_id, entity2_id) {
                RelationCheck::Accepted(rt) => r matches Ok(rid) && rid == old(self)@.next_id
                    && final(self)@ == t_add_relation(
                    old(self)@,
                    name@,
                    entity1_id,
                    entity2_id,
                    rt,
                ),
                RelationCheck::Undefined => (r matches Err(e) && e matches
                    ModelError::UndefinedRelation(n) && n@ == name@) && final(self)@ == old(
                    self,
                )@,
                RelationCheck::MissingEntity1 => (r matches Err(e) && e matches
                    ModelError::EntityNotFound(id) && id == entity1_id) && final(self)@ == old(
                    self,
                )@,
                RelationCheck::MissingEntity2 => (r matches Err(e) && e matches
                    ModelError::EntityNotFound(id) && id == entity2_id) && final(self)@ == old(
                    self,
                )@,
                RelationCheck::BadTypes => (r matches Err(e) && e matches
                    ModelError::InvalidRelationEntityTypes) && final(self)@ == old(self)@,
                RelationCheck::BadCardinality(rt) => (r matches Err(e) && e matches
                    ModelError::InvalidRelationType { name: n, relation_type: t } && n@ == name@
                    && t == rt) && final(self)@ == old(self)@,
            },
    {
        let ghost pre = self@;
        let def_parts: Option<(RelationType, EntityType, EntityType)> = match self
            .relationship_registry.get_definition(name.as_str()) {
            None => None,
            Some(d) => Some((d.relation_type, d.source_type.clone(), d.target_type.clone())),
        };
        let (relation_type, source_type, target_type) = match def_parts {
            None => {
                return Err(ModelError::UndefinedRelation(name));
            },
            Some(parts) => parts,
        };
        proof {
            lemma_find_definition(pre.definitions, name@);
        }
        let i1 = match self.entity_index(entity1_id) {
            None => {
                return Err(ModelError::EntityNotFound(entity1_id));
            },
            Some(i) => i,
        };
        let i2 = match self.entity_index(entity2_id) {
            None => {
                return Err(ModelError::EntityNotFound(entity2_id));
            },
            Some(i) => i,
        };
        proof {
            lemma_find_entity(pre.entities, entity1_id);
            lemma_find_entity(pre.entities, entity2_id);
            assert(pre.entities[i1 as int] == self.entities@[i1 as int]@);
            assert(pre.entities[i2 as int] == self.entities@[i2 as int]@);
        }
        if !(self.entities[i1].entity_type == source_type) || !(self.entities[i2].entity_type
            == target_type) {
            return Err(ModelError::InvalidRelationEntityTypes);
        }
        let e1_rel = self.entities[i1].get_relations(name.as_str());
        let e2_rel = self.entities[i2].get_relations(name.as_str());
        proof {
            lemma_backref_ids_named(pre.entities[i1 as int].relations, name@);
            lemma_backref_ids_named(pre.entities[i2 as int].relations, name@);
        }
        let violated = match relation_type {
            RelationType::OneToOne => e1_rel.len() > 0 || e2_rel.len() > 0,
            RelationType::OneToMany => e1_rel.len() > 0,
            RelationType::ManyToOne => e2_rel.len() > 0,
            RelationType::ManyToMany => false,
        };
        if violated {
            return Err(ModelError::InvalidRelationType { name, relation_type });
        }
        proof {
            assert(relation_check(pre, name@, entity1_id, entity2_id) == RelationCheck::Accepted(
                relation_type,
            ));
        }
        let rid = self.next_id;
        let relation = Relation::new(rid, name.clone(), relation_type, entity1_id, entity2_id);
        self.relations.push(relation);
        self.entities[i1].add_relation(name.clone(), rid);
        self.entities[i2].add_relation(name, rid);
        self.next_id = self.next_id + 1;
        proof {
            let rel = RelationModel {
                id: rid,
                name: name@,
                relation_type,
                entity1: entity1_id,
                entity2: entity2_id,
                meta: Map::empty(),
            };
            let bref = RelationRefModel { name: name@, relation_id: rid };
            let ents1 = pre.entities.update(
                i1 as int,
                EntityModel {
                    relations: pre.entities[i1 as int].relations.push(bref),
                    ..pre.entities[i1 as int]
                },
            );
            let ents2 = ents1.update(
                i2 as int,
                EntityModel { relations: ents1[i2 as int].relations.push(bref), ..ents1[i2 as int] },
            );
            assert(self@.relations =~= pre.relations.push(rel));
            assert(self@.entities =~= ents2) by {
                assert(forall|t: int|
                    0 <= t < self.entities@.len() && t != i1 as int && t != i2 as int
                        ==> #[trigger] self.entities@[t] == old(self).entities@[t]);
                if i1 == i2 {
                    assert(self.entities@[i1 as int]@.relations =~= pre.entities[i1 as int]
                        .relations.push(bref).push(bref));
                } else {
                    assert(self.entities@[i1 as int]@.relations =~= pre.entities[i1 as int]
                        .relations.push(bref));
                    assert(self.entities@[i2 as int]@.relations =~= pre.entities[i2 as int]
                        .relations.push(bref));
                }
            }
            assert(self@ == t_add_relation(pre, name@, entity1_id, entity2_id, relation_type));
            lemma_wf_add_relation(pre, name@, entity1_id, entity2_id, relation_type);
            assert forall|t: int|
                0 <= t < self.entities@.len() implies (#[trigger] self.entities@[t]).rep_wf() by {
                if t != i1 as int && t != i2 as int {
                    assert(self.entities@[t] == old(self).entities@[t]);
                }
            }
            assert forall|t: int|
                0 <= t < self.relations@.len() implies (#[trigger] self.relations@[t]).rep_wf() by {
                if t < old(self).relations@.len() {
                    assert(self.relations@[t] == old(self).relations@[t]);
                }
            }
        }
        Ok(rid)
    }
}


/// Deleting a relation: it leaves the table and every back-reference to it
/// is pruned from the entities.
pub open spec fn t_delete_relation<A, C>(m: ModelModel<A, C>, relation_id: u64) -> ModelModel<
    A,
    C,
> {
    match find_relation(m.relations, relation_id) {
        None => m,
        Some(t) => ModelModel {
            relations: m.relations.remove(t),
            entities: Seq::new(
                m.entities.len(),
                |i: int|
                    EntityModel {
                        relations: backrefs_without(m.entities[i].relations, relation_id),
                        ..m.entities[i]
                    },
            ),
            ..m
        },
    }
}

/// Deleting a relation preserves graph integrity.
pub proof fn lemma_wf_delete_relation<A, C>(m: ModelModel<A, C>, relation_id: u64)
    requires
        m.wf(),
    ensures
        t_delete_relation(m, relation_id).wf(),
{
    if find_relation(m.relations, relation_id) is Some {
        let m2 = t_delete_relation(m, relation_id);
        let t = find_relation(m.relations, relation_id)->Some_0;
        lemma_find_relation(m.relations, relation_id);
        let n = m.entities.len();
        let nr = m.relations.len();
        assert(m2.entities.len() == n);
        assert(forall|i: int|
            #![all_triggers]
            0 <= i < n ==> m2.entities[i].id == m.entities[i].id && m2.entities[i].functions
                == m.entities[i].functions && m2.entities[i].relations == backrefs_without(
                m.entities[i].relations,
                relation_id,
            ));
        assert(forall|j: int| 0 <= j < t ==> #[trigger] m2.relations[j] == m.relations[j]);
        assert(forall|j: int|
            t <= j < m2.relations.len() ==> #[trigger] m2.relations[j] == m.relations[j + 1]);
        assert(m2.entity_ids_unique()) by {
            assert forall|i: int, j: int|
                0 <= i < j < m2.entities.len() implies (#[trigger] m2.entities[i]).id != (
            #[trigger] m2.entities[j]).id by {
                assert(m.entities[i].id != m.entities[j].id);
            }
        }
        assert(m2.relation_ids_unique()) by {
            assert forall|i: int, j: int|
                0 <= i < j < m2.relations.len() implies (#[trigger] m2.relations[i]).id != (
            #[trigger] m2.relations[j]).id by {
                let oi: int = if i < t { i } else { i + 1 };
                let oj: int = if j < t { j } else { j + 1 };
                assert(m2.relations[i] == m.relations[oi]);
                assert(m2.relations[j] == m.relations[oj]);
                assert(m.relations[oi].id != m.relations[oj].id);
            }
        }
        assert(m2.ids_bounded()) by {
            assert forall|i: int|
                0 <= i < m2.entities.len() implies (#[trigger] m2.entities[i]).id < m2.next_id by {
                assert(m.entities[i].id < m.next_id);
            }
            assert forall|j: int|
                0 <= j < m2.relations.len() implies (#[trigger] m2.relations[j]).id
                < m2.next_id by {
                let oj: int = if j < t { j } else { j + 1 };
                assert(m2.relations[j] == m.relations[oj]);
                assert(m.relations[oj].id < m.next_id);
            }
        }
        assert(m2.entities_wf()) by {
            assert forall|i: int| 0 <= i < m2.entities.len() implies (
            #[trigger] m2.entities[i]).wf() by {
                assert(m.entities[i].wf());
                assert(m2.entities[i].functions == m.entities[i].functions);
            }
        }
        assert(m2.backrefs_valid()) by {
            assert forall|i: int, k: int|
                #![trigger m2.entities[i].relations[k]]
                0 <= i < m2.entities.len() && 0 <= k < m2.entities[i].relations.len() implies m2
                .backref_ok(m2.entities[i].relations[k], m2.entities[i].id) by {
                let b = m2.entities[i].relations[k];
                lemma_backrefs_without(m.entities[i].relations, relation_id);
                assert(b.relation_id != relation_id);
                let j = choose|j: int|
                    0 <= j < m.entities[i].relations.len() && m.entities[i].relations[j] == b;
                assert(m.backref_ok(b, m.entities[i].id));
                lemma_find_relation(m.relations, b.relation_id);
                let tp = find_relation(m.relations, b.relation_id)->Some_0;
                assert(tp != t) by {
                    assert(m.relations[t].id == relation_id);
                }
                let np: int = if tp < t { tp } else { tp - 1 };
                assert(m2.relations[np] == m.relations[tp]);
                lemma_find_relation(m2.relations, b.relation_id);
                match find_relation(m2.relations, b.relation_id) {
                    Some(u) => {
                        let ou: int = if u < t { u } else { u + 1 };
                        assert(m2.relations[u] == m.relations[ou]);
                        assert(m.relations[ou].id == b.relation_id);
                        assert(ou == tp) by {
                            if ou < tp {
                                assert(m.relations[ou].id != b.relation_id);
                            } else if ou > tp {
                                assert(m.relations[tp].id == m.relations[ou].id);
                            }
                        }
                    },
                    None => {
                        assert(m2.relations[np].id == b.relation_id);
                    },
                }
            }
        }
        assert(m2.backrefs_complete()) by {
            assert forall|j: int| 0 <= j < m2.relations.len() implies {
                let r = #[trigger] m2.relations[j];
                &&& find_entity(m2.entities, r.entity1) matches Some(a1) && m2.entity_has_backref(
                    a1,
                    r.name,
                    r.id,
                )
                &&& find_entity(m2.entities, r.entity2) matches Some(a2) && m2.entity_has_backref(
                    a2,
                    r.name,
                    r.id,
                )
            } by {
                let r = m2.relations[j];
                let oj: int = if j < t { j } else { j + 1 };
                assert(r == m.relations[oj]);
                assert(r.id != relation_id) by {
                    assert(m.relations[t].id == relation_id);
                    assert(oj != t);
                }
                lemma_find_entity_congruent(m.entities, m2.entities, r.entity1);
                lemma_find_entity_congruent(m.entities, m2.entities, r.entity2);
                lemma_find_entity(m.entities, r.entity1);
                lemma_find_entity(m.entities, r.entity2);
                let a1 = find_entity(m.entities, r.entity1)->Some_0;
                let a2 = find_entity(m.entities, r.entity2)->Some_0;
                let k1 = choose|k: int|
                    0 <= k < m.entities[a1].relations.len() && (
                    #[trigger] m.entities[a1].relations[k]).name == r.name
                        && m.entities[a1].relations[k].relation_id == r.id;
                lemma_backrefs_without(m.entities[a1].relations, relation_id);
                let u1 = choose|u: int|
                    0 <= u < m2.entities[a1].relations.len() && (
                    #[trigger] m2.entities[a1].relations[u]) == m.entities[a1].relations[k1];
                assert(m2.entity_has_backref(a1, r.name, r.id));
                let k2 = choose|k: int|
                    0 <= k < m.entities[a2].relations.len() && (
                    #[trigger] m.entities[a2].relations[k]).name == r.name
                        && m.entities[a2].relations[k].relation_id == r.id;
                lemma_backrefs_without(m.entities[a2].relations, relation_id);
                let u2 = choose|u: int|
                    0 <= u < m2.entities[a2].relations.len() && (
                    #[trigger] m2.entities[a2].relations[u]) == m.entities[a2].relations[k2];
                assert(m2.entity_has_backref(a2, r.name, r.id));
            }
        }
    }
}

impl<A, C> Model<A, C> {
    /// Deletes a relation and prunes every back-reference to it; no effect
    /// when the relation is gone.
    pub fn delete_relation_internal(&mut self, relation_id: u64)
        requires
            old(self).inv(),
        ensures
            final(self).inv(),
            final(self)@ == t_delete_relation(old(self)@, relation_id),
    {
        let ghost pre = self@;
        match self.relation_index(relation_id) {
            None => {
            },
            Some(t) => {
                proof {
                    lemma_find_relation(pre.relations, relation_id);
                }
                self.relations.remove(t);
                let ghost rels2 = pre.relations.remove(t as int);
                proof {
                    assert(self@.relations =~= rels2);
                }
                let n = self.entities.len();
                let mut i: usize = 0;
                while i < n
                    invariant
                        old(self).inv(),
                        pre == old(self)@,
                        n == self.entities@.len(),
                        n == old(self).entities@.len(),
                        i <= n,
                        self.relations@ == old(self).relations@.remove(t as int),
                        self.relationship_registry == old(self).relationship_registry,
                        self.processes == old(self).processes,
                        self.next_id == old(self).next_id,
                        forall|u: int|
                            0 <= u < i ==> (#[trigger] self.entities@[u])@ == (EntityModel {
                                relations: backrefs_without(
                                    pre.entities[u].relations,
                                    relation_id,
                                ),
                                ..pre.entities[u]
                            }),
                        forall|u: int|
                            i <= u < n ==> (#[trigger] self.entities@[u]) == old(
                                self,
                            ).entities@[u],
                        forall|u: int|
                            0 <= u < n ==> (#[trigger] self.entities@[u]).rep_wf(),
                    decreases n - i,
                {
                    proof {
                        assert(self.entities@[i as int] == old(self).entities@[i as int]);
                        assert(pre.entities[i as int] == self.entities@[i as int]@);
                    }
                    self.entities[i].remove_relation(relation_id);
                    i = i + 1;
                }
                proof {
                    assert(self@.entities =~= Seq::new(
                        pre.entities.len(),
                        |u: int|
                            EntityModel {
                                relations: backrefs_without(
                                    pre.entities[u].relations,
                                    relation_id,
                                ),
                                ..pre.entities[u]
                            },
                    ));
                    assert(self@.relations =~= pre.relations.remove(t as int));
                    assert(self@.definitions == pre.definitions);
                    assert(self@.processes =~= pre.processes);
                    assert(self@ == t_delete_relation(pre, relation_id));
                    lemma_wf_delete_relation(pre, relation_id);
                    assert forall|u: int|
                        0 <= u < self.relations@.len() implies (
                    #[trigger] self.relations@[u]).rep_wf() by {
                        let ou: int = if u < t as int { u } else { u + 1 };
                        assert(self.relations@[u] == old(self).relations@[ou]);
                    }
                }
            },
        }
    }

    /// Removes a relation by id, unlinking both endpoints' back-references.
    /// Fails with `RelationNotFound` when no relation carries the id.
    pub fn remove_relation(&mut self, relation_id: u64) -> (r: Result<(), ModelError>)
        requires
            old(self).inv(),
        ensures
            final(self).inv(),
            match find_relation(old(self)@.relations, relation_id) {
                Some(t) => r is Ok && final(self)@ == t_delete_relation(old(self)@, relation_id),
                None => (r matches Err(e) && e matches ModelError::RelationNotFound(id) && id
                    == relation_id) && final(self)@ == old(self)@,
            },
    {
        match self.relation_index(relation_id) {
            None => Err(ModelError::RelationNotFound(relation_id)),
            Some(_) => {
                self.delete_relation_internal(relation_id);
                Ok(())
            },
        }
    }
}


/// The relations left after dropping every relation incident to `entity_id`.
pub open spec fn relations_not_incident(s: Seq<RelationModel>, entity_id: u64) -> Seq<
    RelationModel,
>
    decreases s.len(),
{
    if s.len() == 0 {
        Seq::empty()
    } else {
        let rest = relations_not_incident(s.drop_last(), entity_id);
        if s.last().incident_to(entity_id) {
            rest
        } else {
            rest.push(s.last())
        }
    }
}

/// `relations_not_incident` keeps exactly the relations that do not touch
/// the entity.
pub proof fn lemma_relations_not_incident(s: Seq<RelationModel>, entity_id: u64)
    ensures
        forall|k: int|
            0 <= k < relations_not_incident(s, entity_id).len() ==> !(
            #[trigger] relations_not_incident(s, entity_id)[k]).incident_to(entity_id) && exists|
                j: int,
            | 0 <= j < s.len() && s[j] == relations_not_incident(s, entity_id)[k],
        forall|j: int|
            0 <= j < s.len() && !(#[trigger] s[j]).incident_to(entity_id) ==> exists|k: int|
                0 <= k < relations_not_incident(s, entity_id).len() && relations_not_incident(
                    s,
                    entity_id,
                )[k] == s[j],
    decreases s.len(),
{
    if s.len() > 0 {
        let prefix = s.drop_last();
        lemma_relations_not_incident(prefix, entity_id);
        assert(forall|j: int| 0 <= j < prefix.len() ==> #[trigger] prefix[j] == s[j]);
        assert(s[s.len() - 1] == s.last());
        let res = relations_not_incident(s, entity_id);
        let pres = relations_not_incident(prefix, entity_id);
        assert forall|k: int| 0 <= k < res.len() implies !(#[trigger] res[k]).incident_to(
            entity_id,
        ) && exists|j: int| 0 <= j < s.len() && s[j] == res[k] by {
            if k < pres.len() {
                assert(res[k] == pres[k]);
                let j = choose|j: int| 0 <= j < prefix.len() && prefix[j] == pres[k];
                assert(s[j] == res[k]);
            } else {
                assert(s[s.len() - 1] == res[k]);
            }
        }
        assert forall|j: int|
            0 <= j < s.len() && !(#[trigger] s[j]).incident_to(entity_id) implies exists|k: int|
            0 <= k < res.len() && res[k] == s[j] by {
            if j < prefix.len() {
                let k = choose|k: int| 0 <= k < pres.len() && pres[k] == prefix[j];
                assert(res[k] == s[j]);
            } else {
                assert(res[res.len() - 1] == s[j]);
            }
        }
    }
}

/// Dropping incident relations keeps relation ids unique.
pub proof fn lemma_relations_not_incident_unique(s: Seq<RelationModel>, entity_id: u64)
    requires
        forall|i: int, j: int|
            0 <= i < j < s.len() ==> (#[trigger] s[i]).id != (#[trigger] s[j]).id,
    ensures
        forall|i: int, j: int|
            0 <= i < j < relations_not_incident(s, entity_id).len() ==> (
            #[trigger] relations_not_incident(s, entity_id)[i]).id != (
            #[trigger] relations_not_incident(s, entity_id)[j]).id,
    decreases s.len(),
{
    if s.len() > 0 {
        let prefix = s.drop_last();
        assert(forall|j: int| 0 <= j < prefix.len() ==> #[trigger] prefix[j] == s[j]);
        lemma_relations_not_incident_unique(prefix, entity_id);
        lemma_relations_not_incident(prefix, entity_id);
        let res = relations_not_incident(s, entity_id);
        let pres = relations_not_incident(prefix, entity_id);
        assert(s[s.len() - 1] == s.last());
        assert forall|i: int, j: int| 0 <= i < j < res.len() implies (#[trigger] res[i]).id != (
        #[trigger] res[j]).id by {
            if j < pres.len() {
                assert(pres[i].id != pres[j].id);
            } else {
                assert(res[j] == s.last());
                assert(res[i] == pres[i]);
                let oi = choose|o: int| 0 <= o < prefix.len() && prefix[o] == pres[i];
                assert(s[oi].id != s[s.len() - 1].id);
            }
        }
    }
}

/// The back-references left after dropping those whose relation is no longer
/// in the table.
pub open spec fn backrefs_resolved(s: Seq<RelationRefModel>, rels: Seq<RelationModel>) -> Seq<
    RelationRefModel,
>
    decreases s.len(),
{
    if s.len() == 0 {
        Seq::empty()
    } else {
        let rest = backrefs_resolved(s.drop_last(), rels);
        if find_relation(rels, s.last().relation_id) is Some {
            rest.push(s.last())
        } else {
            rest
        }
    }
}

/// `backrefs_resolved` keeps exactly the back-references whose relation is
/// still present.
pub proof fn lemma_backrefs_resolved(s: Seq<RelationRefModel>, rels: Seq<RelationModel>)
    ensures
        forall|k: int|
            0 <= k < backrefs_resolved(s, rels).len() ==> find_relation(
                rels,
                (#[trigger] backrefs_resolved(s, rels)[k]).relation_id,
            ) is Some && exists|j: int|
                0 <= j < s.len() && s[j] == backrefs_resolved(s, rels)[k],
        forall|j: int|
            0 <= j < s.len() && find_relation(rels, (#[trigger] s[j]).relation_id) is Some
                ==> exists|k: int|
                0 <= k < backrefs_resolved(s, rels).len() && backrefs_resolved(s, rels)[k] == s[j],
    decreases s.len(),
{
    if s.len() > 0 {
        let prefix = s.drop_last();
        lemma_backrefs_resolved(prefix, rels);
        assert(forall|j: int| 0 <= j < prefix.len() ==> #[trigger] prefix[j] == s[j]);
        assert(s[s.len() - 1] == s.last());
        let res = backrefs_resolved(s, rels);
        let pres = backrefs_resolved(prefix, rels);
        assert forall|k: int| 0 <= k < res.len() implies find_relation(
            rels,
            (#[trigger] res[k]).relation_id,
        ) is Some && exists|j: int| 0 <= j < s.len() && s[j] == res[k] by {
            if k < pres.len() {
                assert(res[k] == pres[k]);
                let j = choose|j: int| 0 <= j < prefix.len() && prefix[j] == pres[k];
                assert(s[j] == res[k]);
            } else {
                assert(s[s.len() - 1] == res[k]);
            }
        }
        assert forall|j: int|
            0 <= j < s.len() && find_relation(rels, (#[trigger] s[j]).relation_id)
                is Some implies exists|k: int| 0 <= k < res.len() && res[k] == s[j] by {
            if j < prefix.len() {
                let k = choose|k: int| 0 <= k < pres.len() && pres[k] == prefix[j];
                assert(res[k] == s[j]);
            } else {
                assert(res[res.len() - 1] == s[j]);
            }
        }
    }
}

/// The process references left after dropping those owned by `entity_id`.
pub open spec fn procrefs_without_entity(s: Seq<ProcessRefModel>, entity_id: u64) -> Seq<
    ProcessRefModel,
>
    decreases s.len(),
{
    if s.len() == 0 {
        Seq::empty()
    } else {
        let rest = procrefs_without_entity(s.drop_last(), entity_id);
        if s.last().entity_id == entity_id {
            rest
        } else {
            rest.push(s.last())
        }
    }
}

/// Deleting an entity: the entity leaves the table, every incident relation
/// is removed, the other endpoints' matching back-references are pruned, and
/// the entity's registered processes leave the step order.
pub open spec fn t_delete_entity<A, C>(m: ModelModel<A, C>, entity_id: u64) -> ModelModel<A, C> {
    match find_entity(m.entities, entity_id) {
        None => m,
        Some(i) => {
            let rels2 = relations_not_incident(m.relations, entity_id);
            let ents1 = m.entities.remove(i);
            ModelModel {
                entities: Seq::new(
                    ents1.len(),
                    |u: int|
                        EntityModel {
                            relations: backrefs_resolved(ents1[u].relations, rels2),
                            ..ents1[u]
                        },
                ),
                relations: rels2,
                processes: procrefs_without_entity(m.processes, entity_id),
                ..m
            }
        },
    }
}

/// Deleting an entity preserves graph integrity.
#[verifier::rlimit(100)]
pub proof fn lemma_wf_delete_entity<A, C>(m: ModelModel<A, C>, entity_id: u64)
    requires
        m.wf(),
    ensures
        t_delete_entity(m, entity_id).wf(),
{
    if find_entity(m.entities, entity_id) is Some {
        let m2 = t_delete_entity(m, entity_id);
        let i = find_entity(m.entities, entity_id)->Some_0;
        lemma_find_entity(m.entities, entity_id);
        let rels2 = relations_not_incident(m.relations, entity_id);
        let ents1 = m.entities.remove(i);
        lemma_relations_not_incident(m.relations, entity_id);
        lemma_relations_not_incident_unique(m.relations, entity_id);
        assert(m2.entities.len() == ents1.len());
        assert(forall|u: int|
            #![all_triggers]
            0 <= u < m2.entities.len() ==> m2.entities[u].id == ents1[u].id
                && m2.entities[u].functions == ents1[u].functions && m2.entities[u].relations
                == backrefs_resolved(ents1[u].relations, rels2));
        assert(forall|u: int| 0 <= u < i ==> #[trigger] ents1[u] == m.entities[u]);
        assert(forall|u: int|
            i <= u < ents1.len() ==> #[trigger] ents1[u] == m.entities[u + 1]);
        assert(m2.entity_ids_unique()) by {
            assert forall|a: int, b: int|
                0 <= a < b < m2.entities.len() implies (#[trigger] m2.entities[a]).id != (
            #[trigger] m2.entities[b]).id by {
                let oa: int = if a < i { a } else { a + 1 };
                let ob: int = if b < i { b } else { b + 1 };
                assert(m2.entities[a].id == m.entities[oa].id);
                assert(m2.entities[b].id == m.entities[ob].id);
                assert(m.entities[oa].id != m.entities[ob].id);
            }
        }
        assert(m2.relation_ids_unique());
        assert(m2.ids_bounded()) by {
            assert forall|a: int|
                0 <= a < m2.entities.len() implies (#[trigger] m2.entities[a]).id < m2.next_id by {
                let oa: int = if a < i { a } else { a + 1 };
                assert(m2.entities[a].id == m.entities[oa].id);
                assert(m.entities[oa].id < m.next_id);
            }
            assert forall|t: int|
                0 <= t < m2.relations.len() implies (#[trigger] m2.relations[t]).id
                < m2.next_id by {
                let j = choose|j: int| 0 <= j < m.relations.len() && m.relations[j]
                    == m2.relations[t];
                assert(m.relations[j].id < m.next_id);
            }
        }
        assert(m2.entities_wf()) by {
            assert forall|a: int| 0 <= a < m2.entities.len() implies (
            #[trigger] m2.entities[a]).wf() by {
                let oa: int = if a < i { a } else { a + 1 };
                assert(m2.entities[a].functions == m.entities[oa].functions);
                assert(m.entities[oa].wf());
            }
        }
        assert(m2.backrefs_valid()) by {
            assert forall|a: int, k: int|
                #![trigger m2.entities[a].relations[k]]
                0 <= a < m2.entities.len() && 0 <= k < m2.entities[a].relations.len() implies m2
                .backref_ok(m2.entities[a].relations[k], m2.entities[a].id) by {
                let oa: int = if a < i { a } else { a + 1 };
                let b = m2.entities[a].relations[k];
                lemma_backrefs_resolved(ents1[a].relations, rels2);
                assert(find_relation(rels2, b.relation_id) is Some);
                let j = choose|j: int|
                    0 <= j < m.entities[oa].relations.len() && m.entities[oa].relations[j] == b;
                assert(m.backref_ok(b, m.entities[oa].id));
                lemma_find_relation(m.relations, b.relation_id);
                let tp = find_relation(m.relations, b.relation_id)->Some_0;
                lemma_find_relation(rels2, b.relation_id);
                let u = find_relation(rels2, b.relation_id)->Some_0;
                assert(rels2[u].id == b.relation_id);
                let ou = choose|o: int| 0 <= o < m.relations.len() && m.relations[o] == rels2[u];
                assert(ou == tp) by {
                    if ou < tp {
                        assert(m.relations[ou].id != b.relation_id);
                    } else if ou > tp {
                        assert(m.relations[tp].id == m.relations[ou].id);
                    }
                }
                assert(rels2[u].name == b.name);
                assert(rels2[u].incident_to(m2.entities[a].id));
            }
        }
        assert(m2.backrefs_complete()) by {
            assert forall|t: int| 0 <= t < m2.relations.len() implies {
                let r = #[trigger] m2.relations[t];
                &&& find_entity(m2.entities, r.entity1) matches Some(a1) && m2.entity_has_backref(
                    a1,
                    r.name,
                    r.id,
                )
                &&& find_entity(m2.entities, r.entity2) matches Some(a2) && m2.entity_has_backref(
                    a2,
                    r.name,
                    r.id,
                )
            } by {
                let r = m2.relations[t];
                let oj = choose|o: int| 0 <= o < m.relations.len() && m.relations[o] == r;
                assert(!r.incident_to(entity_id));
                lemma_find_entity(m.entities, r.entity1);
                lemma_find_entity(m.entities, r.entity2);
                let a1 = find_entity(m.entities, r.entity1)->Some_0;
                let a2 = find_entity(m.entities, r.entity2)->Some_0;
                assert(a1 != i) by {
                    assert(m.entities[i].id == entity_id);
                }
                assert(a2 != i) by {
                    assert(m.entities[i].id == entity_id);
                }
                let na1: int = if a1 < i { a1 } else { a1 - 1 };
                let na2: int = if a2 < i { a2 } else { a2 - 1 };
                assert(m2.entities[na1].id == r.entity1);
                assert(m2.entities[na2].id == r.entity2);
                lemma_find_entity(m2.entities, r.entity1);
                match find_entity(m2.entities, r.entity1) {
                    Some(w) => {
                        let ow: int = if w < i { w } else { w + 1 };
                        assert(m2.entities[w].id == m.entities[ow].id);
                        assert(ow == a1) by {
                            if ow < a1 {
                                assert(m.entities[ow].id != r.entity1);
                            } else if ow > a1 {
                                assert(m.entities[a1].id == m.entities[ow].id);
                            }
                        }
                        assert(w == na1);
                    },
                    None => {
                        assert(m2.entities[na1].id == r.entity1);
                    },
                }
                lemma_find_entity(m2.entities, r.entity2);
                match find_entity(m2.entities, r.entity2) {
                    Some(w) => {
                        let ow: int = if w < i { w } else { w + 1 };
                        assert(m2.entities[w].id == m.entities[ow].id);
                        assert(ow == a2) by {
                            if ow < a2 {
                                assert(m.entities[ow].id != r.entity2);
                            } else if ow > a2 {
                                assert(m.entities[a2].id == m.entities[ow].id);
                            }
                        }
                        assert(w == na2);
                    },
                    None => {
                        assert(m2.entities[na2].id == r.entity2);
                    },
                }
                assert(find_relation(rels2, r.id) is Some) by {
                    lemma_find_relation(rels2, r.id);
                    match find_relation(rels2, r.id) {
                        Some(_) => {
                        },
                        None => {
                            assert(rels2[t].id == r.id);
                        },
                    }
                }
                let k1 = choose|k: int|
                    0 <= k < m.entities[a1].relations.len() && (
                    #[trigger] m.entities[a1].relations[k]).name == r.name
                        && m.entities[a1].relations[k].relation_id == r.id;
                assert(m.backref_ok(m.entities[a1].relations[k1], m.entities[a1].id));
                lemma_backrefs_resolved(ents1[na1].relations, rels2);
                assert(ents1[na1] == m.entities[a1]);
                let w1 = choose|w: int|
                    0 <= w < backrefs_resolved(ents1[na1].relations, rels2).len() && (
                    #[trigger] backrefs_resolved(ents1[na1].relations, rels2)[w])
                        == m.entities[a1].relations[k1];
                assert(m2.entity_has_backref(na1, r.name, r.id));
                let k2 = choose|k: int|
                    0 <= k < m.entities[a2].relations.len() && (
                    #[trigger] m.entities[a2].relations[k]).name == r.name
                        && m.entities[a2].relations[k].relation_id == r.id;
                lemma_backrefs_resolved(ents1[na2].relations, rels2);
                assert(ents1[na2] == m.entities[a2]);
                let w2 = choose|w: int|
                    0 <= w < backrefs_resolved(ents1[na2].relations, rels2).len() && (
                    #[trigger] backrefs_resolved(ents1[na2].relations, rels2)[w])
                        == m.entities[a2].relations[k2];
                assert(m2.entity_has_backref(na2, r.name, r.id));
            }
        }
    }
}


impl<A, C> Model<A, C> {
    /// Deletes an entity: its incident relations are removed, the other
    /// endpoints' back-references pruned, and its registered processes leave
    /// the step order. No effect when the entity is gone.
    pub fn delete_entity_internal(&mut self, entity_id: u64)
        requires
            old(self).inv(),
        ensures
            final(self).inv(),
            final(self)@ == t_delete_entity(old(self)@, entity_id),
    {
        let ghost pre = self@;
        let i = match self.entity_index(entity_id) {
            None => {
                return ;
            },
            Some(i) => i,
        };
        proof {
            lemma_find_entity(pre.entities, entity_id);
        }
        self.entities.remove(i);
        let ghost ents1 = pre.entities.remove(i as int);
        proof {
            assert(self@.entities =~= ents1) by {
                assert(forall|u: int|
                    0 <= u < i as int ==> #[trigger] self.entities@[u] == old(self).entities@[u]);
                assert(forall|u: int|
                    i as int <= u < self.entities@.len() ==> #[trigger] self.entities@[u] == old(
                        self,
                    ).entities@[u + 1]);
            }
        }
        let ghost rels2 = relations_not_incident(pre.relations, entity_id);
        let nr = self.relations.len();
        let mut kept_rels: Vec<Relation> = Vec::new();
        let mut j: usize = 0;
        while j < nr
            invariant
                nr == self.relations@.len(),
                j <= nr,
                self.relations@ == old(self).relations@,
                forall|u: int|
                    0 <= u < self.relations@.len() ==> (#[trigger] self.relations@[u]).rep_wf(),
                crate::context::relations_model(kept_rels@) == relations_not_incident(
                    crate::context::relations_model(self.relations@).subrange(0, j as int),
                    entity_id,
                ),
                forall|u: int| 0 <= u < kept_rels@.len() ==> (#[trigger] kept_rels@[u]).rep_wf(),
            decreases nr - j,
        {
            let ghost whole = crate::context::relations_model(self.relations@);
            let ghost prefix = whole.subrange(0, j as int);
            let ghost next = whole.subrange(0, j as int + 1);
            proof {
                assert(next.drop_last() =~= prefix);
                assert(next.last() == whole[j as int]);
                assert(whole[j as int] == self.relations@[j as int]@);
            }
            let ghost prev = kept_rels@;
            if !(self.relations[j].entity1 == entity_id || self.relations[j].entity2 == entity_id) {
                let copy = self.relations[j].clone();
                kept_rels.push(copy);
            }
            proof {
                assert(crate::context::relations_model(kept_rels@) =~= relations_not_incident(
                    next,
                    entity_id,
                ));
            }
            j = j + 1;
        }
        proof {
            assert(crate::context::relations_model(self.relations@).subrange(
                0,
                nr as int,
            ) =~= crate::context::relations_model(self.relations@));
            assert(crate::context::relations_model(self.relations@) == pre.relations);
        }
        self.relations = kept_rels;
        proof {
            assert(self@.relations == rels2);
        }
        let n = self.entities.len();
        let ghost rels_now = self.relations@;
        let mut u: usize = 0;
        while u < n
            invariant
                n == self.entities@.len(),
                self.relations@ == rels_now,
                self@.relations == rels2,
                self.processes@ == old(self).processes@,
                self.relationship_registry == old(self).relationship_registry,
                self.next_id == old(self).next_id,
                u <= n,
                entities_model(self.entities@).len() == ents1.len(),
                forall|t: int|
                    0 <= t < u ==> (#[trigger] self.entities@[t])@ == (EntityModel {
                        relations: backrefs_resolved(ents1[t].relations, rels2),
                        ..ents1[t]
                    }),
                forall|t: int|
                    u <= t < n ==> (#[trigger] self.entities@[t])@ == ents1[t],
                forall|t: int| 0 <= t < n ==> (#[trigger] self.entities@[t]).rep_wf(),
                forall|t: int|
                    0 <= t < self.relations@.len() ==> (#[trigger] self.relations@[t]).rep_wf(),
            decreases n - u,
        {
            let m = self.entities[u].relations.len();
            let mut kept: Vec<crate::entity::RelationRef> = Vec::new();
            let mut k: usize = 0;
            while k < m
                invariant
                    0 <= u < n,
                    n == self.entities@.len(),
                    self@.relations == rels2,
                    m == self.entities@[u as int].relations@.len(),
                    k <= m,
                    entities_model(self.entities@).len() == ents1.len(),
                    self.entities@[u as int]@ == ents1[u as int],
                    crate::entity::backrefs_model(kept@) == backrefs_resolved(
                        crate::entity::backrefs_model(
                            self.entities@[u as int].relations@,
                        ).subrange(0, k as int),
                        rels2,
                    ),
                decreases m - k,
            {
                let ghost whole = crate::entity::backrefs_model(
                    self.entities@[u as int].relations@,
                );
                let ghost prefix = whole.subrange(0, k as int);
                let ghost next = whole.subrange(0, k as int + 1);
                proof {
                    assert(next.drop_last() =~= prefix);
                    assert(next.last() == whole[k as int]);
                    assert(whole[k as int] == self.entities@[u as int].relations@[k as int]@);
                }
                let rid = self.entities[u].relations[k].relation_id;
                match self.relation_index(rid) {
                    Some(_) => {
                        let nm = self.entities[u].relations[k].name.clone();
                        kept.push(crate::entity::RelationRef { name: nm, relation_id: rid });
                    },
                    None => {
                    },
                }
                proof {
                    assert(crate::entity::backrefs_model(kept@) =~= backrefs_resolved(
                        next,
                        rels2,
                    ));
                }
                k = k + 1;
            }
            proof {
                let whole = crate::entity::backrefs_model(self.entities@[u as int].relations@);
                assert(whole.subrange(0, m as int) =~= whole);
                assert(whole == ents1[u as int].relations);
            }
            let ghost preve = self.entities@[u as int];
            let ghost prevseq = self.entities@;
            self.entities[u].relations = kept;
            proof {
                assert(self.entities@[u as int]@ == (EntityModel {
                    relations: backrefs_resolved(ents1[u as int].relations, rels2),
                    ..ents1[u as int]
                }));
                assert(self.entities@[u as int].state == preve.state);
                assert(self.entities@[u as int].functions == preve.functions);
                assert(self.entities@[u as int].rep_wf());
                assert forall|t: int|
                    0 <= t < n implies (#[trigger] self.entities@[t]).rep_wf() by {
                    if t != u as int {
                        assert(self.entities@[t] == prevseq[t]);
                    }
                }
            }
            u = u + 1;
        }
        let np = self.processes.len();
        let mut kept_procs: Vec<ProcessRef> = Vec::new();
        let mut p: usize = 0;
        while p < np
            invariant
                np == self.processes@.len(),
                self.processes@ == old(self).processes@,
                p <= np,
                process_refs_model(kept_procs@) == procrefs_without_entity(
                    process_refs_model(self.processes@).subrange(0, p as int),
                    entity_id,
                ),
            decreases np - p,
        {
            let ghost whole = process_refs_model(self.processes@);
            let ghost prefix = whole.subrange(0, p as int);
            let ghost next = whole.subrange(0, p as int + 1);
            proof {
                assert(next.drop_last() =~= prefix);
                assert(next.last() == whole[p as int]);
                assert(whole[p as int] == self.processes@[p as int]@);
            }
            if !(self.processes[p].entity_id == entity_id) {
                let fname = self.processes[p].function_name.clone();
                let pname = self.processes[p].process_name.clone();
                kept_procs.push(ProcessRef {
                    entity_id: self.processes[p].entity_id,
                    function_name: fname,
                    process_name: pname,
                });
            }
            proof {
                assert(process_refs_model(kept_procs@) =~= procrefs_without_entity(
                    next,
                    entity_id,
                ));
            }
            p = p + 1;
        }
        proof {
            assert(process_refs_model(self.processes@).subrange(0, np as int)
                =~= process_refs_model(self.processes@));
            assert(process_refs_model(self.processes@) == pre.processes);
        }
        self.processes = kept_procs;
        proof {
            assert(self@.entities =~= Seq::new(
                ents1.len(),
                |t: int|
                    EntityModel {
                        relations: backrefs_resolved(ents1[t].relations, rels2),
                        ..ents1[t]
                    },
            ));
            assert(self@.processes == procrefs_without_entity(pre.processes, entity_id));
            assert(self@ == t_delete_entity(pre, entity_id));
            lemma_wf_delete_entity(pre, entity_id);
        }
    }
}


/// The process references left after dropping those owned by the function
/// named `function_name` on the entity carrying `entity_id`. A same-named
/// function on another entity keeps its references.
pub open spec fn procrefs_without_function(
    s: Seq<ProcessRefModel>,
    entity_id: u64,
    function_name: Seq<char>,
) -> Seq<ProcessRefModel>
    decreases s.len(),
{
    if s.len() == 0 {
        Seq::empty()
    } else {
        let rest = procrefs_without_function(s.drop_last(), entity_id, function_name);
        if s.last().entity_id == entity_id && s.last().function_name == function_name {
            rest
        } else {
            rest.push(s.last())
        }
    }
}

/// The process references left after dropping those naming exactly the
/// process `process_name` of the function named `function_name` on the
/// entity carrying `entity_id`. A same-named process anywhere else keeps its
/// references.
pub open spec fn procrefs_without_process(
    s: Seq<ProcessRefModel>,
    entity_id: u64,
    function_name: Seq<char>,
    process_name: Seq<char>,
) -> Seq<ProcessRefModel>
    decreases s.len(),
{
    if s.len() == 0 {
        Seq::empty()
    } else {
        let rest = procrefs_without_process(s.drop_last(), entity_id, function_name, process_name);
        if s.last().entity_id == entity_id && s.last().function_name == function_name
            && s.last().process_name == process_name {
            rest
        } else {
            rest.push(s.last())
        }
    }
}

/// Adding one process to a function: the process joins the function's set.
/// A fresh name also joins the end of the model's step order; a same-named
/// process is replaced in place and keeps its existing step-order
/// references, which now resolve to the replacement.
pub open spec fn t_add_process<A, C>(
    m: ModelModel<A, C>,
    entity_id: u64,
    function_name: Seq<char>,
    info: ProcessCreationInfo<A, C>,
) -> ModelModel<A, C> {
    match find_entity(m.entities, entity_id) {
        None => m,
        Some(i) => match find_function(m.entities[i].functions, function_name) {
            None => m,
            Some(j) => {
                let pm = ProcessModel { name: info.name@, condition: info.condition, action: info.action };
                match find_process(m.entities[i].functions[j].processes, info.name@) {
                    Some(k) => ModelModel {
                        entities: m.entities.update(
                            i,
                            EntityModel {
                                functions: m.entities[i].functions.update(
                                    j,
                                    FunctionModel {
                                        processes: m.entities[i].functions[j].processes.update(
                                            k,
                                            pm,
                                        ),
                                        ..m.entities[i].functions[j]
                                    },
                                ),
                                ..m.entities[i]
                            },
                        ),
                        ..m
                    },
                    None => ModelModel {
                        entities: m.entities.update(
                            i,
                            EntityModel {
                                functions: m.entities[i].functions.update(
                                    j,
                                    FunctionModel {
                                        processes: m.entities[i].functions[j].processes.push(pm),
                                        ..m.entities[i].functions[j]
                                    },
                                ),
                                ..m.entities[i]
                            },
                        ),
                        processes: m.processes.push(
                            ProcessRefModel {
                                entity_id,
                                function_name,
                                process_name: info.name@,
                            },
                        ),
                        ..m
                    },
                }
            },
        },
    }
}

/// Adding a list of processes in order.
pub open spec fn t_add_processes<A, C>(
    m: ModelModel<A, C>,
    entity_id: u64,
    function_name: Seq<char>,
    infos: Seq<ProcessCreationInfo<A, C>>,
) -> ModelModel<A, C>
    decreases infos.len(),
{
    if infos.len() == 0 {
        m
    } else {
        t_add_process(
            t_add_processes(m, entity_id, function_name, infos.drop_last()),
            entity_id,
            function_name,
            infos.last(),
        )
    }
}

/// Adding one function to an entity: the function joins the entity's set
/// (replacing a same-named function) with its initial parameters and an
/// inactive flag, and its processes are then added in order.
pub open spec fn t_add_function<A, C>(
    m: ModelModel<A, C>,
    entity_id: u64,
    info: FunctionCreationInfo<A, C>,
) -> ModelModel<A, C> {
    match find_entity(m.entities, entity_id) {
        None => m,
        Some(i) => {
            let f0 = FunctionModel {
                name: info.name@,
                parameter: entries_model(info.initial_parameters@),
                processes: Seq::empty(),
                active: false,
            };
            let m1 = ModelModel {
                entities: m.entities.update(
                    i,
                    EntityModel {
                        functions: match find_function(m.entities[i].functions, info.name@) {
                            Some(j) => m.entities[i].functions.update(j, f0),
                            None => m.entities[i].functions.push(f0),
                        },
                        ..m.entities[i]
                    },
                ),
                ..m
            };
            t_add_processes(m1, entity_id, info.name@, info.processes@)
        },
    }
}

/// Removing one function from an entity: the function leaves the entity's
/// set, and that function's step-order references — the entity's own, under
/// that name — leave the step order. Same-named functions on other entities
/// are untouched.
pub open spec fn t_remove_function<A, C>(
    m: ModelModel<A, C>,
    entity_id: u64,
    function_name: Seq<char>,
) -> ModelModel<A, C> {
    match find_entity(m.entities, entity_id) {
        None => m,
        Some(i) => match find_function(m.entities[i].functions, function_name) {
            None => m,
            Some(j) => ModelModel {
                entities: m.entities.update(
                    i,
                    EntityModel {
                        functions: m.entities[i].functions.remove(j),
                        ..m.entities[i]
                    },
                ),
                processes: procrefs_without_function(m.processes, entity_id, function_name),
                ..m
            },
        },
    }
}

/// Removing one process from a function: the process leaves the function's
/// set, and its own step-order references — the entity's, under that
/// function and process name — leave the step order. A function that holds
/// no such process is left as it is, and so is every other process.
pub open spec fn t_remove_process<A, C>(
    m: ModelModel<A, C>,
    entity_id: u64,
    function_name: Seq<char>,
    process_name: Seq<char>,
) -> ModelModel<A, C> {
    match find_entity(m.entities, entity_id) {
        None => m,
        Some(i) => match find_function(m.entities[i].functions, function_name) {
            None => m,
            Some(j) => match find_process(
                m.entities[i].functions[j].processes,
                process_name,
            ) {
                None => m,
                Some(k) => ModelModel {
                    entities: m.entities.update(
                        i,
                        EntityModel {
                            functions: m.entities[i].functions.update(
                                j,
                                FunctionModel {
                                    processes: m.entities[i].functions[j].processes.remove(k),
                                    ..m.entities[i].functions[j]
                                },
                            ),
                            ..m.entities[i]
                        },
                    ),
                    processes: procrefs_without_process(
                        m.processes,
                        entity_id,
                        function_name,
                        process_name,
                    ),
                    ..m
                },
            },
        },
    }
}


impl<A, C> Model<A, C> {
    /// Adds one process to a function. A fresh name is registered at the end
    /// of the step order; a replaced same-named process keeps its existing
    /// registration. No effect on missing targets.
    pub fn add_process_internal(
        &mut self,
        entity_id: u64,
        function_name: &str,
        info: ProcessCreationInfo<A, C>,
    )
        requires
            old(self).inv(),
        ensures
            final(self).inv(),
            final(self)@ == t_add_process(old(self)@, entity_id, function_name@, info),
    {
        let ghost pre = self@;
        let i = match self.entity_index(entity_id) {
            None => {
                return ;
            },
            Some(i) => i,
        };
        proof {
            lemma_find_entity(pre.entities, entity_id);
            assert(pre.entities[i as int] == self.entities@[i as int]@);
        }
        let j = match function_index(&self.entities[i].functions, function_name) {
            None => {
                return ;
            },
            Some(j) => j,
        };
        proof {
            lemma_find_function(pre.entities[i as int].functions, function_name@);
            assert(pre.entities[i as int].functions[j as int]
                == self.entities@[i as int].functions@[j as int]@);
            assert(old(self).entities@[i as int].rep_wf());
            assert(old(self).entities@[i as int].functions@[j as int].rep_wf());
            assert(pre.entities[i as int].wf());
            assert(pre.entities[i as int].functions[j as int].wf());
        }
        let ProcessCreationInfo { name, action, condition } = info;
        let pname = name.clone();
        let fresh = process_index(&self.entities[i].functions[j].processes, pname.as_str())
            .is_none();
        let process = Process { name, condition, action };
        self.entities[i].functions[j].add_process(process);
        if fresh {
            self.processes.push(
                ProcessRef {
                    entity_id,
                    function_name: function_name.to_owned(),
                    process_name: pname,
                },
            );
        }
        proof {
            let pm = ProcessModel { name: info.name@, condition: info.condition, action: info.action };
            let f2 = FunctionModel {
                processes: match find_process(
                    pre.entities[i as int].functions[j as int].processes,
                    info.name@,
                ) {
                    Some(k) => pre.entities[i as int].functions[j as int].processes.update(k, pm),
                    None => pre.entities[i as int].functions[j as int].processes.push(pm),
                },
                ..pre.entities[i as int].functions[j as int]
            };
            let e2 = EntityModel {
                functions: pre.entities[i as int].functions.update(j as int, f2),
                ..pre.entities[i as int]
            };
            assert(self.entities@[i as int].functions@[j as int]@ == f2);
            assert(self.entities@[i as int]@.functions =~= e2.functions) by {
                assert(forall|t: int|
                    0 <= t < self.entities@[i as int].functions@.len() && t != j as int
                        ==> #[trigger] self.entities@[i as int].functions@[t] == old(
                        self,
                    ).entities@[i as int].functions@[t]);
            }
            assert(self.entities@[i as int]@ == e2);
            assert(self@.entities =~= pre.entities.update(i as int, e2)) by {
                assert(forall|t: int|
                    0 <= t < self.entities@.len() && t != i as int
                        ==> #[trigger] self.entities@[t] == old(self).entities@[t]);
            }
            if fresh {
                assert(self@.processes =~= pre.processes.push(
                    ProcessRefModel {
                        entity_id,
                        function_name: function_name@,
                        process_name: info.name@,
                    },
                ));
            } else {
                assert(self@.processes =~= pre.processes);
            }
            assert(self@ == t_add_process(pre, entity_id, function_name@, info));
            assert(e2.wf()) by {
                lemma_entity_wf_function_update(pre.entities[i as int], e2);
            }
            lemma_wf_entity_content(pre, self@);
            assert(self.entities@[i as int].rep_wf()) by {
                assert forall|t: int|
                    0 <= t < self.entities@[i as int].functions@.len() implies (
                #[trigger] self.entities@[i as int].functions@[t]).rep_wf() by {
                    if t != j as int {
                        assert(self.entities@[i as int].functions@[t] == old(
                            self,
                        ).entities@[i as int].functions@[t]);
                        assert(old(self).entities@[i as int].rep_wf());
                    }
                }
            }
            assert forall|t: int|
                0 <= t < self.entities@.len() implies (#[trigger] self.entities@[t]).rep_wf() by {
                if t != i as int {
                    assert(self.entities@[t] == old(self).entities@[t]);
                }
            }
        }
    }

    /// Adds one function to an entity — parameters first, then its processes
    /// in order; no effect when the entity is gone.
    pub fn add_function_internal(&mut self, entity_id: u64, info: FunctionCreationInfo<A, C>)
        requires
            old(self).inv(),
        ensures
            final(self).inv(),
            final(self)@ == t_add_function(old(self)@, entity_id, info),
    {
        let ghost pre = self@;
        let i = match self.entity_index(entity_id) {
            None => {
                return ;
            },
            Some(i) => i,
        };
        proof {
            lemma_find_entity(pre.entities, entity_id);
            assert(pre.entities[i as int] == self.entities@[i as int]@);
            assert(old(self).entities@[i as int].rep_wf());
            assert(pre.entities[i as int].wf());
        }
        let FunctionCreationInfo { name, initial_parameters, processes } = info;
        let mut processes = processes;
        let fname = name.clone();
        let mut function: Function<A, C> = Function::new(name);
        let np = initial_parameters.len();
        let mut t: usize = 0;
        while t < np
            invariant
                np == initial_parameters@.len(),
                initial_parameters@ == info.initial_parameters@,
                t <= np,
                function.rep_wf(),
                function@.wf(),
                function@.name == info.name@,
                function@.active == false,
                function@.processes =~= Seq::<ProcessModel<A, C>>::empty(),
                function@.parameter == entries_model(initial_parameters@.subrange(0, t as int)),
            decreases np - t,
        {
            let ghost prefix = initial_parameters@.subrange(0, t as int);
            let ghost next = initial_parameters@.subrange(0, t as int + 1);
            proof {
                assert(next.drop_last() =~= prefix);
                assert(next.last() == initial_parameters@[t as int]);
            }
            let k = initial_parameters[t].0.clone();
            let v = initial_parameters[t].1.clone();
            function.set_parameter(k, v);
            proof {
                assert(function@.parameter =~= entries_model(next));
            }
            t = t + 1;
        }
        proof {
            assert(initial_parameters@.subrange(0, np as int) =~= initial_parameters@);
            assert(function@.parameter == entries_model(info.initial_parameters@));
        }
        self.entities[i].add_function(function);
        let ghost f0 = FunctionModel {
            name: info.name@,
            parameter: entries_model(info.initial_parameters@),
            processes: Seq::empty(),
            active: false,
        };
        let ghost m1 = ModelModel {
            entities: pre.entities.update(
                i as int,
                EntityModel {
                    functions: match find_function(pre.entities[i as int].functions, info.name@) {
                        Some(j) => pre.entities[i as int].functions.update(j, f0),
                        None => pre.entities[i as int].functions.push(f0),
                    },
                    ..pre.entities[i as int]
                },
            ),
            ..pre
        };
        proof {
            assert(function@ =~= f0);
            assert(self@.entities =~= m1.entities) by {
                assert(forall|u: int|
                    0 <= u < self.entities@.len() && u != i as int
                        ==> #[trigger] self.entities@[u] == old(self).entities@[u]);
            }
            assert(self@ == m1);
            lemma_wf_entity_content(pre, self@);
            assert forall|u: int|
                0 <= u < self.entities@.len() implies (#[trigger] self.entities@[u]).rep_wf() by {
                if u != i as int {
                    assert(self.entities@[u] == old(self).entities@[u]);
                }
            }
            assert(self.inv());
        }
        let ghost total = info.processes@;
        let n0 = processes.len();
        let mut c: usize = 0;
        proof {
            assert(total.subrange(0, 0int) =~= Seq::<ProcessCreationInfo<A, C>>::empty());
        }
        while processes.len() > 0
            invariant
                self.inv(),
                total.len() == n0 as int,
                c as int == total.len() - processes@.len(),
                c <= total.len(),
                processes@ == total.subrange(c as int, total.len() as int),
                fname@ == info.name@,
                self@ == t_add_processes(m1, entity_id, info.name@, total.subrange(0, c as int)),
            decreases processes@.len(),
        {
            proof {
                assert(processes@[0] == total[c as int]);
            }
            let p = processes.remove(0);
            self.add_process_internal(entity_id, fname.as_str(), p);
            proof {
                let prefix = total.subrange(0, c as int);
                let next = total.subrange(0, c as int + 1);
                assert(next.drop_last() =~= prefix);
                assert(next.last() == total[c as int]);
                assert(processes@ =~= total.subrange(c as int + 1, total.len() as int));
            }
            c = c + 1;
        }
        proof {
            assert(total.subrange(0, total.len() as int) =~= total);
            assert(self@ == t_add_function(pre, entity_id, info));
        }
    }

    /// Removes one function from an entity, together with that function's
    /// own step-order references; a same-named function on another entity is
    /// untouched. No effect on missing targets.
    pub fn remove_function_internal(&mut self, entity_id: u64, function_name: &str)
        requires
            old(self).inv(),
        ensures
            final(self).inv(),
            final(self)@ == t_remove_function(old(self)@, entity_id, function_name@),
    {
        let ghost pre = self@;
        let i = match self.entity_index(entity_id) {
            None => {
                return ;
            },
            Some(i) => i,
        };
        proof {
            lemma_find_entity(pre.entities, entity_id);
            assert(pre.entities[i as int] == self.entities@[i as int]@);
            assert(old(self).entities@[i as int].rep_wf());
            assert(pre.entities[i as int].wf());
        }
        let removed = self.entities[i].remove_function(function_name);
        match removed {
            None => {
                proof {
                    assert(self.entities@[i as int]@ == pre.entities[i as int]);
                    assert(self@.entities =~= pre.entities) by {
                        assert(forall|u: int|
                            0 <= u < self.entities@.len() && u != i as int
                                ==> #[trigger] self.entities@[u] == old(self).entities@[u]);
                    }
                    assert(self@ == t_remove_function(pre, entity_id, function_name@));
                    assert forall|u: int|
                        0 <= u < self.entities@.len() implies (
                    #[trigger] self.entities@[u]).rep_wf() by {
                        if u != i as int {
                            assert(self.entities@[u] == old(self).entities@[u]);
                        }
                    }
                }
            },
            Some(_) => {
                let ghost j = find_function(pre.entities[i as int].functions, function_name@)->Some_0;
                let ghost e2 = EntityModel {
                    functions: pre.entities[i as int].functions.remove(j),
                    ..pre.entities[i as int]
                };
                proof {
                    assert(self.entities@[i as int]@ == e2);
                }
                let np = self.processes.len();
                let mut kept_procs: Vec<ProcessRef> = Vec::new();
                let mut p: usize = 0;
                while p < np
                    invariant
                        np == self.processes@.len(),
                        p <= np,
                        process_refs_model(kept_procs@) == procrefs_without_function(
                            process_refs_model(self.processes@).subrange(0, p as int),
                            entity_id,
                            function_name@,
                        ),
                    decreases np - p,
                {
                    let ghost whole = process_refs_model(self.processes@);
                    let ghost prefix = whole.subrange(0, p as int);
                    let ghost next = whole.subrange(0, p as int + 1);
                    proof {
                        assert(next.drop_last() =~= prefix);
                        assert(next.last() == whole[p as int]);
                        assert(whole[p as int] == self.processes@[p as int]@);
                    }
                    if !(self.processes[p].entity_id == entity_id && str_eq(
                        self.processes[p].function_name.as_str(),
                        function_name,
                    )) {
                        let fname2 = self.processes[p].function_name.clone();
                        let pname2 = self.processes[p].process_name.clone();
                        kept_procs.push(
                            ProcessRef {
                                entity_id: self.processes[p].entity_id,
                                function_name: fname2,
                                process_name: pname2,
                            },
                        );
                    }
                    proof {
                        assert(process_refs_model(kept_procs@) =~= procrefs_without_function(
                            next,
                            entity_id,
                            function_name@,
                        ));
                    }
                    p = p + 1;
                }
                proof {
                    assert(process_refs_model(self.processes@).subrange(0, np as int)
                        =~= process_refs_model(self.processes@));
                    assert(process_refs_model(self.processes@) == pre.processes);
                }
                self.processes = kept_procs;
                proof {
                    assert(self@.entities =~= pre.entities.update(i as int, e2)) by {
                        assert(forall|u: int|
                            0 <= u < self.entities@.len() && u != i as int
                                ==> #[trigger] self.entities@[u] == old(self).entities@[u]);
                    }
                    assert(self@.processes == procrefs_without_function(
                        pre.processes,
                        entity_id,
                        function_name@,
                    ));
                    assert(self@ == t_remove_function(pre, entity_id, function_name@));
                    lemma_wf_entity_content(pre, self@);
                    assert forall|u: int|
                        0 <= u < self.entities@.len() implies (
                    #[trigger] self.entities@[u]).rep_wf() by {
                        if u != i as int {
                            assert(self.entities@[u] == old(self).entities@[u]);
                        }
                    }
                }
            },
        }
    }

    /// Removes one process from a function, together with that process's own
    /// step-order references; a same-named process anywhere else is
    /// untouched. No effect on missing targets.
    pub fn remove_process_internal(
        &mut self,
        entity_id: u64,
        function_name: &str,
        process_name: &str,
    )
        requires
            old(self).inv(),
        ensures
            final(self).inv(),
            final(self)@ == t_remove_process(old(self)@, entity_id, function_name@, process_name@),
    {
        let ghost pre = self@;
        let i = match self.entity_index(entity_id) {
            None => {
                return ;
            },
            Some(i) => i,
        };
        proof {
            lemma_find_entity(pre.entities, entity_id);
            assert(pre.entities[i as int] == self.entities@[i as int]@);
            assert(old(self).entities@[i as int].rep_wf());
            assert(pre.entities[i as int].wf());
        }
        let j = match function_index(&self.entities[i].functions, function_name) {
            None => {
                return ;
            },
            Some(j) => j,
        };
        proof {
            lemma_find_function(pre.entities[i as int].functions, function_name@);
            assert(pre.entities[i as int].functions[j as int]
                == self.entities@[i as int].functions@[j as int]@);
            assert(old(self).entities@[i as int].functions@[j as int].rep_wf());
            assert(pre.entities[i as int].functions[j as int].wf());
        }
        let removed = self.entities[i].functions[j].remove_process(process_name);
        if removed.is_none() {
            proof {
                assert(self.entities@[i as int].functions@[j as int]@
                    == pre.entities[i as int].functions[j as int]);
                assert(self.entities@[i as int]@.functions =~= pre.entities[i as int].functions) by {
                    assert(forall|t: int|
                        0 <= t < self.entities@[i as int].functions@.len() && t != j as int
                            ==> #[trigger] self.entities@[i as int].functions@[t] == old(
                            self,
                        ).entities@[i as int].functions@[t]);
                }
                assert(self.entities@[i as int]@ == pre.entities[i as int]);
                assert(self@.entities =~= pre.entities) by {
                    assert(forall|u: int|
                        0 <= u < self.entities@.len() && u != i as int
                            ==> #[trigger] self.entities@[u] == old(self).entities@[u]);
                }
                assert(self@ == t_remove_process(pre, entity_id, function_name@, process_name@));
                assert(self.entities@[i as int].rep_wf()) by {
                    assert forall|t: int|
                        0 <= t < self.entities@[i as int].functions@.len() implies (
                    #[trigger] self.entities@[i as int].functions@[t]).rep_wf() by {
                        if t != j as int {
                            assert(self.entities@[i as int].functions@[t] == old(
                                self,
                            ).entities@[i as int].functions@[t]);
                            assert(old(self).entities@[i as int].rep_wf());
                        }
                    }
                }
                assert forall|u: int|
                    0 <= u < self.entities@.len() implies (
                #[trigger] self.entities@[u]).rep_wf() by {
                    if u != i as int {
                        assert(self.entities@[u] == old(self).entities@[u]);
                    }
                }
            }
            return ;
        }
        let ghost k = find_process(
            pre.entities[i as int].functions[j as int].processes,
            process_name@,
        )->Some_0;
        let ghost f2 = FunctionModel {
            processes: pre.entities[i as int].functions[j as int].processes.remove(k),
            ..pre.entities[i as int].functions[j as int]
        };
        let ghost e2 = EntityModel {
            functions: pre.entities[i as int].functions.update(j as int, f2),
            ..pre.entities[i as int]
        };
        proof {
            assert(self.entities@[i as int].functions@[j as int]@ == f2);
            assert(self.entities@[i as int]@.functions =~= e2.functions) by {
                assert(forall|t: int|
                    0 <= t < self.entities@[i as int].functions@.len() && t != j as int
                        ==> #[trigger] self.entities@[i as int].functions@[t] == old(
                        self,
                    ).entities@[i as int].functions@[t]);
            }
            assert(self.entities@[i as int]@ == e2);
        }
        let np = self.processes.len();
        let mut kept_procs: Vec<ProcessRef> = Vec::new();
        let mut p: usize = 0;
        while p < np
            invariant
                np == self.processes@.len(),
                p <= np,
                process_refs_model(kept_procs@) == procrefs_without_process(
                    process_refs_model(self.processes@).subrange(0, p as int),
                    entity_id,
                    function_name@,
                    process_name@,
                ),
            decreases np - p,
        {
            let ghost whole = process_refs_model(self.processes@);
            let ghost prefix = whole.subrange(0, p as int);
            let ghost next = whole.subrange(0, p as int + 1);
            proof {
                assert(next.drop_last() =~= prefix);
                assert(next.last() == whole[p as int]);
                assert(whole[p as int] == self.processes@[p as int]@);
            }
            if !(self.processes[p].entity_id == entity_id && str_eq(
                self.processes[p].function_name.as_str(),
                function_name,
            ) && str_eq(self.processes[p].process_name.as_str(), process_name)) {
                let fname2 = self.processes[p].function_name.clone();
                let pname2 = self.processes[p].process_name.clone();
                kept_procs.push(
                    ProcessRef {
                        entity_id: self.processes[p].entity_id,
                        function_name: fname2,
                        process_name: pname2,
                    },
                );
            }
            proof {
                assert(process_refs_model(kept_procs@) =~= procrefs_without_process(
                    next,
                    entity_id,
                    function_name@,
                    process_name@,
                ));
            }
            p = p + 1;
        }
        proof {
            assert(process_refs_model(self.processes@).subrange(0, np as int)
                =~= process_refs_model(self.processes@));
        }
        self.processes = kept_procs;
        proof {
            assert(self@.entities =~= pre.entities.update(i as int, e2)) by {
                assert(forall|u: int|
                    0 <= u < self.entities@.len() && u != i as int ==> #[trigger] self.entities@[u]
                        == old(self).entities@[u]);
            }
            assert(self@.processes == procrefs_without_process(
                pre.processes,
                entity_id,
                function_name@,
                process_name@,
            ));
            assert(self@ == t_remove_process(pre, entity_id, function_name@, process_name@));
            assert(e2.wf()) by {
                lemma_entity_wf_function_update(pre.entities[i as int], e2);
            }
            lemma_wf_entity_content(pre, self@);
            assert(self.entities@[i as int].rep_wf()) by {
                assert forall|t: int|
                    0 <= t < self.entities@[i as int].functions@.len() implies (
                #[trigger] self.entities@[i as int].functions@[t]).rep_wf() by {
                    if t != j as int {
                        assert(self.entities@[i as int].functions@[t] == old(
                            self,
                        ).entities@[i as int].functions@[t]);
                        assert(old(self).entities@[i as int].rep_wf());
                    }
                }
            }
            assert forall|u: int|
                0 <= u < self.entities@.len() implies (#[trigger] self.entities@[u]).rep_wf() by {
                if u != i as int {
                    assert(self.entities@[u] == old(self).entities@[u]);
                }
            }
        }
    }
}


/// Creating one relation during the apply phase: the source defaults to the
/// emitting process's owning entity, the target resolves by id or else by
/// name (first entity in creation order), and the result is validated as in
/// `add_relation`; the relation's metadata entries are then applied in
/// order. A failure drops the command and reports one fault.
pub open spec fn t_create_relation<A, C>(
    m: ModelModel<A, C>,
    info: RelationCreationInfo,
    default_source: Option<u64>,
) -> (ModelModel<A, C>, Seq<ApplyFault>) {
    let source_opt = if info.source_entity_id is Some {
        info.source_entity_id
    } else {
        default_source
    };
    match source_opt {
        None => (m, seq![ApplyFault::SourceEntityMissing]),
        Some(src) => {
            let target_opt = if info.target_entity_id is Some {
                info.target_entity_id
            } else if info.target_entity_name is Some {
                match find_entity_named(m.entities, info.target_entity_name->0@) {
                    Some(t) => Some(m.entities[t].id),
                    None => None,
                }
            } else {
                None
            };
            match target_opt {
                None => if info.target_entity_id is None && info.target_entity_name is Some {
                    (
                        m,
                        seq![ApplyFault::TargetEntityNameNotFound(info.target_entity_name->0)],
                    )
                } else {
                    (m, seq![ApplyFault::TargetEntityMissing])
                },
                Some(tgt) => {
                    if m.next_id == u64::MAX {
                        (m, seq![ApplyFault::IdSpaceExhausted])
                    } else {
                        match relation_check(m, info.name@, src, tgt) {
                            RelationCheck::Accepted(rt) => {
                                let rid = m.next_id;
                                let m1 = t_add_relation(m, info.name@, src, tgt, rt);
                                let m2 = match info.metadata {
                                    Some(pairs) => ModelModel {
                                        relations: m1.relations.update(
                                            m1.relations.len() - 1,
                                            RelationModel {
                                                meta: entries_model(pairs@),
                                                ..m1.relations.last()
                                            },
                                        ),
                                        ..m1
                                    },
                                    None => m1,
                                };
                                (m2, Seq::empty())
                            },
                            RelationCheck::Undefined => (
                                m,
                                seq![ApplyFault::UndefinedRelation(info.name)],
                            ),
                            RelationCheck::MissingEntity1 => (
                                m,
                                seq![ApplyFault::EntityMissing(src)],
                            ),
                            RelationCheck::MissingEntity2 => (
                                m,
                                seq![ApplyFault::EntityMissing(tgt)],
                            ),
                            RelationCheck::BadTypes => (
                                m,
                                seq![ApplyFault::WrongRelationEntityTypes(info.name)],
                            ),
                            RelationCheck::BadCardinality(rt) => (
                                m,
                                seq![ApplyFault::CardinalityViolation(info.name, rt)],
                            ),
                        }
                    }
                },
            }
        },
    }
}

impl<A, C> Model<A, C> {
    /// The index of the first entity carrying exactly `name`, if any.
    fn entity_index_named(&self, name: &str) -> (r: Option<usize>)
        ensures
            match r {
                Some(i) => find_entity_named(self@.entities, name@) == Some(i as int),
                None => find_entity_named(self@.entities, name@) is None,
            },
    {
        let n = self.entities.len();
        let mut i: usize = 0;
        while i < n
            invariant
                n == self.entities@.len(),
                i <= n,
                forall|t: int| 0 <= t < i ==> (#[trigger] self@.entities[t]).name != name@,
            decreases n - i,
        {
            if str_eq(self.entities[i].name.as_str(), name) {
                proof {
                    lemma_find_entity_named(self@.entities, name@);
                    assert(self@.entities[i as int] == self.entities@[i as int]@);
                    assert(find_entity_named(self@.entities, name@) == Some(i as int));
                }
                return Some(i);
            }
            proof {
                assert(self@.entities[i as int] == self.entities@[i as int]@);
            }
            i = i + 1;
        }
        proof {
            lemma_find_entity_named(self@.entities, name@);
        }
        None
    }

    /// Creates one relation from a deferred command, defaulting the source to
    /// `default_source` (the emitting process's owning entity). Failures are
    /// reported, never raised: the step goes on.
    pub fn create_relation_internal(
        &mut self,
        info: RelationCreationInfo,
        default_source: Option<u64>,
    ) -> (faults: Vec<ApplyFault>)
        requires
            old(self).inv(),
        ensures
            final(self).inv(),
            (final(self)@, faults@) == t_create_relation(old(self)@, info, default_source),
    {
        let ghost pre = self@;
        let RelationCreationInfo {
            name,
            source_entity_id,
            target_entity_id,
            target_entity_name,
            metadata,
        } = info;
        let src = match if source_entity_id.is_some() {
            source_entity_id
        } else {
            default_source
        } {
            None => {
                let mut faults: Vec<ApplyFault> = Vec::new();
                faults.push(ApplyFault::SourceEntityMissing);
                proof {
                    assert(faults@ =~= seq![ApplyFault::SourceEntityMissing]);
                }
                return faults;
            },
            Some(s) => s,
        };
        let tgt = match target_entity_id {
            Some(t) => t,
            None => match &target_entity_name {
                Some(tname) => match self.entity_index_named(tname.as_str()) {
                    Some(ti) => {
                        proof {
                            lemma_find_entity_named(pre.entities, tname@);
                            assert(pre.entities[ti as int] == self.entities@[ti as int]@);
                        }
                        self.entities[ti].id
                    },
                    None => {
                        let mut faults: Vec<ApplyFault> = Vec::new();
                        let tn = tname.clone();
                        faults.push(ApplyFault::TargetEntityNameNotFound(tn));
                        proof {
                            assert(faults@ =~= seq![
                                ApplyFault::TargetEntityNameNotFound(
                                    info.target_entity_name->0,
                                ),
                            ]);
                        }
                        return faults;
                    },
                },
                None => {
                    let mut faults: Vec<ApplyFault> = Vec::new();
                    faults.push(ApplyFault::TargetEntityMissing);
                    proof {
                        assert(faults@ =~= seq![ApplyFault::TargetEntityMissing]);
                    }
                    return faults;
                },
            },
        };
        if self.next_id == u64::MAX {
            let mut faults: Vec<ApplyFault> = Vec::new();
            faults.push(ApplyFault::IdSpaceExhausted);
            proof {
                assert(faults@ =~= seq![ApplyFault::IdSpaceExhausted]);
            }
            return faults;
        }
        let ghost rid = self@.next_id;
        let outcome = self.add_relation(name.clone(), src, tgt);
        match outcome {
            Ok(new_id) => {
                let ghost rt = relation_check(pre, info.name@, src, tgt)->Accepted_0;
                let ghost m1 = t_add_relation(pre, info.name@, src, tgt, rt);
                match metadata {
                    None => {
                        proof {
                            assert((self@, Seq::<ApplyFault>::empty()) == t_create_relation(
                                pre,
                                info,
                                default_source,
                            ));
                        }
                        Vec::new()
                    },
                    Some(pairs) => {
                        let npairs = pairs.len();
                        let mut w: usize = 0;
                        proof {
                            let li = m1.relations.len() - 1;
                            assert(m1.relations.last() == m1.relations[li]);
                            assert(m1.relations.last().meta =~= Map::<Seq<char>, ValueModel>::empty());
                            assert(entries_model(pairs@.subrange(0, 0int)) =~= Map::<
                                Seq<char>,
                                ValueModel,
                            >::empty());
                            assert((RelationModel {
                                meta: entries_model(pairs@.subrange(0, 0int)),
                                ..m1.relations.last()
                            }) == m1.relations[li]);
                            assert(m1.relations.update(
                                li,
                                RelationModel {
                                    meta: entries_model(pairs@.subrange(0, 0int)),
                                    ..m1.relations.last()
                                },
                            ) =~= m1.relations);
                        }
                        while w < npairs
                            invariant
                                self.inv(),
                                npairs == pairs@.len(),
                                w <= npairs,
                                new_id == rid,
                                self@ == (ModelModel {
                                    relations: m1.relations.update(
                                        m1.relations.len() - 1,
                                        RelationModel {
                                            meta: entries_model(pairs@.subrange(0, w as int)),
                                            ..m1.relations.last()
                                        },
                                    ),
                                    ..m1
                                }),
                                m1.relations.len() > 0,
                                m1.relations.last().id == rid,
                            decreases npairs - w,
                        {
                            let ghost prefix = pairs@.subrange(0, w as int);
                            let ghost next = pairs@.subrange(0, w as int + 1);
                            let ghost cur = self@;
                            proof {
                                assert(next.drop_last() =~= prefix);
                                assert(next.last() == pairs@[w as int]);
                                lemma_find_relation(cur.relations, rid);
                                let li = m1.relations.len() - 1;
                                assert(cur.relations[li].id == rid);
                                match find_relation(cur.relations, rid) {
                                    Some(k) => {
                                        assert(k == li) by {
                                            if k < li {
                                                assert(cur.relations[k].id != cur.relations[li].id);
                                            }
                                        }
                                    },
                                    None => {
                                        assert(cur.relations[li].id == rid);
                                    },
                                }
                            }
                            let k = pairs[w].0.clone();
                            let v = pairs[w].1.clone();
                            self.add_relation_metadata_internal(new_id, k, v);
                            proof {
                                assert(self@.relations =~= m1.relations.update(
                                    m1.relations.len() - 1,
                                    RelationModel {
                                        meta: entries_model(next),
                                        ..m1.relations.last()
                                    },
                                ));
                                assert(self@ == (ModelModel {
                                    relations: m1.relations.update(
                                        m1.relations.len() - 1,
                                        RelationModel {
                                            meta: entries_model(next),
                                            ..m1.relations.last()
                                        },
                                    ),
                                    ..m1
                                }));
                            }
                            w = w + 1;
                        }
                        proof {
                            assert(pairs@.subrange(0, npairs as int) =~= pairs@);
                            assert((self@, Seq::<ApplyFault>::empty()) == t_create_relation(
                                pre,
                                info,
                                default_source,
                            ));
                        }
                        Vec::new()
                    },
                }
            },
            Err(e) => {
                let mut faults: Vec<ApplyFault> = Vec::new();
                match e {
                    ModelError::UndefinedRelation(_) => {
                        faults.push(ApplyFault::UndefinedRelation(name));
                        proof {
                            assert(faults@ =~= seq![ApplyFault::UndefinedRelation(info.name)]);
                        }
                    },
                    ModelError::EntityNotFound(missing) => {
                        faults.push(ApplyFault::EntityMissing(missing));
                        proof {
                            assert(faults@ =~= seq![ApplyFault::EntityMissing(missing)]);
                        }
                    },
                    ModelError::InvalidRelationEntityTypes => {
                        faults.push(ApplyFault::WrongRelationEntityTypes(name));
                        proof {
                            assert(faults@ =~= seq![
                                ApplyFault::WrongRelationEntityTypes(info.name),
                            ]);
                        }
                    },
                    ModelError::InvalidRelationType { name: _, relation_type } => {
                        faults.push(ApplyFault::CardinalityViolation(name, relation_type));
                        proof {
                            assert(faults@ =~= seq![
                                ApplyFault::CardinalityViolation(info.name, relation_type),
                            ]);
                        }
                    },
                    ModelError::RelationNotFound(_) => {
                        proof {
                            assert(false);
                        }
                    },
                    ModelError::RelationAlreadyExists(_) => {
                        proof {
                            assert(false);
                        }
                    },
                }
                faults
            },
        }
    }
}


/// Adding a list of functions in order.
pub open spec fn t_add_functions<A, C>(
    m: ModelModel<A, C>,
    entity_id: u64,
    infos: Seq<FunctionCreationInfo<A, C>>,
) -> ModelModel<A, C>
    decreases infos.len(),
{
    if infos.len() == 0 {
        m
    } else {
        t_add_function(t_add_functions(m, entity_id, infos.drop_last()), entity_id, infos.last())
    }
}

/// Creating a list of relations in order, each defaulting its source to
/// `default_source`, and collecting the faults.
pub open spec fn t_create_relations<A, C>(
    m: ModelModel<A, C>,
    infos: Seq<RelationCreationInfo>,
    default_source: u64,
) -> (ModelModel<A, C>, Seq<ApplyFault>)
    decreases infos.len(),
{
    if infos.len() == 0 {
        (m, Seq::empty())
    } else {
        let (mp, fp) = t_create_relations(m, infos.drop_last(), default_source);
        let (mf, fl) = t_create_relation(mp, infos.last(), Some(default_source));
        (mf, fp + fl)
    }
}

/// Creating one entity during the apply phase: the entity joins the table
/// under the next id with its initial state, its functions are added in
/// order, and its nested relations are created with the new entity as the
/// default source.
pub open spec fn t_create_entity_full<A, C>(
    m: ModelModel<A, C>,
    info: EntityCreationInfo<A, C>,
) -> (ModelModel<A, C>, Seq<ApplyFault>) {
    if m.next_id == u64::MAX {
        (m, seq![ApplyFault::IdSpaceExhausted])
    } else {
        let id = m.next_id;
        let m1 = ModelModel {
            entities: m.entities.push(
                EntityModel {
                    id,
                    name: info.name@,
                    entity_type: info.entity_type@,
                    state: entries_model(info.initial_state@),
                    functions: Seq::empty(),
                    relations: Seq::empty(),
                },
            ),
            next_id: (id + 1) as u64,
            ..m
        };
        let m2 = t_add_functions(m1, id, info.functions@);
        let (m3, faults) = t_create_relations(m2, info.relations@, id);
        (m3, faults)
    }
}

impl<A, C> Model<A, C> {
    /// Creates one entity from a deferred command, with its initial state,
    /// nested functions, and nested relations. Failures among the nested
    /// relations are reported, never raised: the step goes on.
    pub fn create_entity_internal(&mut self, info: EntityCreationInfo<A, C>) -> (faults: Vec<
        ApplyFault,
    >)
        requires
            old(self).inv(),
        ensures
            final(self).inv(),
            (final(self)@, faults@) == t_create_entity_full(old(self)@, info),
    {
        let ghost pre = self@;
        if self.next_id == u64::MAX {
            let mut faults: Vec<ApplyFault> = Vec::new();
            faults.push(ApplyFault::IdSpaceExhausted);
            proof {
                assert(faults@ =~= seq![ApplyFault::IdSpaceExhausted]);
            }
            return faults;
        }
        let EntityCreationInfo { name, entity_type, initial_state, functions, relations } = info;
        let mut functions = functions;
        let mut relations = relations;
        let id = self.create_entity(name, entity_type);
        let ghost m0 = self@;
        let ns = initial_state.len();
        let mut t: usize = 0;
        proof {
            assert(entries_model(initial_state@.subrange(0, 0int)) =~= Map::<
                Seq<char>,
                ValueModel,
            >::empty());
            assert(self@.entities.last() == self@.entities[self@.entities.len() - 1]);
            assert(self@ == (ModelModel {
                entities: pre.entities.push(
                    EntityModel {
                        id,
                        name: info.name@,
                        entity_type: info.entity_type@,
                        state: entries_model(initial_state@.subrange(0, 0int)),
                        functions: Seq::empty(),
                        relations: Seq::empty(),
                    },
                ),
                next_id: (id + 1) as u64,
                ..pre
            }));
        }
        while t < ns
            invariant
                self.inv(),
                ns == initial_state@.len(),
                initial_state@ == info.initial_state@,
                t <= ns,
                id == pre.next_id,
                pre.next_id < u64::MAX,
                pre.wf(),
                self@ == (ModelModel {
                    entities: pre.entities.push(
                        EntityModel {
                            id,
                            name: info.name@,
                            entity_type: info.entity_type@,
                            state: entries_model(initial_state@.subrange(0, t as int)),
                            functions: Seq::empty(),
                            relations: Seq::empty(),
                        },
                    ),
                    next_id: (id + 1) as u64,
                    ..pre
                }),
            decreases ns - t,
        {
            let ghost prefix = initial_state@.subrange(0, t as int);
            let ghost next = initial_state@.subrange(0, t as int + 1);
            let ghost cur = self@;
            proof {
                assert(next.drop_last() =~= prefix);
                assert(next.last() == initial_state@[t as int]);
                let li = cur.entities.len() - 1;
                assert(cur.entities[li].id == id);
                lemma_find_entity(cur.entities, id);
                match find_entity(cur.entities, id) {
                    Some(k) => {
                        assert(k == li) by {
                            if k < li {
                                if k < pre.entities.len() {
                                    assert(cur.entities[k] == pre.entities[k]);
                                    assert(pre.entities[k].id < pre.next_id);
                                }
                            }
                        }
                    },
                    None => {
                        assert(cur.entities[li].id == id);
                    },
                }
            }
            let k = initial_state[t].0.clone();
            let v = initial_state[t].1.clone();
            self.update_entity_state_internal(id, k, v);
            proof {
                assert(self@.entities =~= pre.entities.push(
                    EntityModel {
                        id,
                        name: info.name@,
                        entity_type: info.entity_type@,
                        state: entries_model(next),
                        functions: Seq::empty(),
                        relations: Seq::empty(),
                    },
                ));
            }
            t = t + 1;
        }
        let ghost m1 = ModelModel {
            entities: pre.entities.push(
                EntityModel {
                    id,
                    name: info.name@,
                    entity_type: info.entity_type@,
                    state: entries_model(info.initial_state@),
                    functions: Seq::empty(),
                    relations: Seq::empty(),
                },
            ),
            next_id: (id + 1) as u64,
            ..pre
        };
        proof {
            assert(initial_state@.subrange(0, ns as int) =~= initial_state@);
            assert(self@ == m1);
        }
        let ghost ftotal = info.functions@;
        let nf = functions.len();
        let mut c: usize = 0;
        proof {
            assert(ftotal.subrange(0, 0int) =~= Seq::<FunctionCreationInfo<A, C>>::empty());
        }
        while functions.len() > 0
            invariant
                self.inv(),
                ftotal.len() == nf as int,
                c as int == ftotal.len() - functions@.len(),
                c <= ftotal.len(),
                functions@ == ftotal.subrange(c as int, ftotal.len() as int),
                self@ == t_add_functions(m1, id, ftotal.subrange(0, c as int)),
            decreases functions@.len(),
        {
            proof {
                assert(functions@[0] == ftotal[c as int]);
            }
            let f = functions.remove(0);
            self.add_function_internal(id, f);
            proof {
                let prefix = ftotal.subrange(0, c as int);
                let next = ftotal.subrange(0, c as int + 1);
                assert(next.drop_last() =~= prefix);
                assert(next.last() == ftotal[c as int]);
                assert(functions@ =~= ftotal.subrange(c as int + 1, ftotal.len() as int));
            }
            c = c + 1;
        }
        let ghost m2 = t_add_functions(m1, id, info.functions@);
        proof {
            assert(ftotal.subrange(0, ftotal.len() as int) =~= ftotal);
            assert(self@ == m2);
        }
        let ghost rtotal = info.relations@;
        let nr = relations.len();
        let mut faults: Vec<ApplyFault> = Vec::new();
        let mut c2: usize = 0;
        proof {
            assert(rtotal.subrange(0, 0int) =~= Seq::<RelationCreationInfo>::empty());
            assert(faults@ =~= Seq::<ApplyFault>::empty());
        }
        while relations.len() > 0
            invariant
                self.inv(),
                rtotal.len() == nr as int,
                c2 as int == rtotal.len() - relations@.len(),
                c2 <= rtotal.len(),
                relations@ == rtotal.subrange(c2 as int, rtotal.len() as int),
                (self@, faults@) == t_create_relations(m2, rtotal.subrange(0, c2 as int), id),
            decreases relations@.len(),
        {
            proof {
                assert(relations@[0] == rtotal[c2 as int]);
            }
            let rinfo = relations.remove(0);
            let mut newf = self.create_relation_internal(rinfo, Some(id));
            faults.append(&mut newf);
            proof {
                let prefix = rtotal.subrange(0, c2 as int);
                let next = rtotal.subrange(0, c2 as int + 1);
                assert(next.drop_last() =~= prefix);
                assert(next.last() == rtotal[c2 as int]);
                assert(relations@ =~= rtotal.subrange(c2 as int + 1, rtotal.len() as int));
                assert(faults@ =~= t_create_relations(m2, next, id).1);
            }
            c2 = c2 + 1;
        }
        proof {
            assert(rtotal.subrange(0, rtotal.len() as int) =~= rtotal);
            assert((self@, faults@) == t_create_entity_full(pre, info));
        }
        faults
    }
}


/// The effect of one deferred command, with any faults it reports. A command
/// whose target no longer exists leaves the model unchanged.
pub open spec fn t_apply_command<A, C>(m: ModelModel<A, C>, cmd: ExecutionResult<A, C>) -> (
    ModelModel<A, C>,
    Seq<ApplyFault>,
) {
    match cmd {
        ExecutionResult::UpdateEntityState(id, key, value) => (
            t_update_entity_state(m, id, key@, value_model(value)),
            Seq::empty(),
        ),
        ExecutionResult::DeleteEntityState(id, key) => (
            t_delete_entity_state(m, id, key@),
            Seq::empty(),
        ),
        ExecutionResult::CreateEntity(info) => t_create_entity_full(m, info),
        ExecutionResult::DeleteEntity(id) => (t_delete_entity(m, id), Seq::empty()),
        ExecutionResult::CreateRelation(info) => t_create_relation(m, info, None),
        ExecutionResult::DeleteRelation(id) => (t_delete_relation(m, id), Seq::empty()),
        ExecutionResult::AddFunction(id, finfo) => (t_add_function(m, id, finfo), Seq::empty()),
        ExecutionResult::RemoveFunction(id, fname) => (
            t_remove_function(m, id, fname@),
            Seq::empty(),
        ),
        ExecutionResult::ActivateFunction(id, fname) => (
            t_set_function_active(m, id, fname@, true),
            Seq::empty(),
        ),
        ExecutionResult::DeactivateFunction(id, fname) => (
            t_set_function_active(m, id, fname@, false),
            Seq::empty(),
        ),
        ExecutionResult::UpdateFunctionParameter(id, fname, key, value) => (
            t_update_function_parameter(m, id, fname@, key@, value_model(value)),
            Seq::empty(),
        ),
        ExecutionResult::DeleteFunctionParameter(id, fname, key) => (
            t_delete_function_parameter(m, id, fname@, key@),
            Seq::empty(),
        ),
        ExecutionResult::AddProcess(id, fname, pinfo) => (
            t_add_process(m, id, fname@, pinfo),
            Seq::empty(),
        ),
        ExecutionResult::RemoveProcess(id, fname, pname) => (
            t_remove_process(m, id, fname@, pname@),
            Seq::empty(),
        ),
        ExecutionResult::AddCondition(id, fname, pname, condition) => (
            t_set_condition(m, id, fname@, pname@, Some(condition)),
            Seq::empty(),
        ),
        ExecutionResult::RemoveCondition(id, fname, pname) => (
            t_set_condition(m, id, fname@, pname@, None::<C>),
            Seq::empty(),
        ),
        ExecutionResult::AddRelationMetadata(id, key, value) => (
            t_add_relation_metadata(m, id, key@, value_model(value)),
            Seq::empty(),
        ),
        ExecutionResult::RemoveRelationMetadata(id, key) => (
            t_remove_relation_metadata(m, id, key@),
            Seq::empty(),
        ),
    }
}

/// The effect of an ordered command list, applied first to last, with every
/// fault reported along the way.
pub open spec fn t_apply_all<A, C>(m: ModelModel<A, C>, cmds: Seq<ExecutionResult<A, C>>) -> (
    ModelModel<A, C>,
    Seq<ApplyFault>,
)
    decreases cmds.len(),
{
    if cmds.len() == 0 {
        (m, Seq::empty())
    } else {
        let (mp, fp) = t_apply_all(m, cmds.drop_last());
        let (mf, fl) = t_apply_command(mp, cmds.last());
        (mf, fp + fl)
    }
}

impl<A, C> Model<A, C> {
    /// Applies an ordered list of deferred commands to the live graph,
    /// command by command, first to last. A command whose target no longer
    /// exists is dropped silently; a relation-creation failure or an
    /// exhausted id space is dropped and reported. The whole list is always
    /// applied.
    pub fn apply_results(&mut self, results: Vec<ExecutionResult<A, C>>) -> (faults: Vec<
        ApplyFault,
    >)
        requires
            old(self).inv(),
        ensures
            final(self).inv(),
            (final(self)@, faults@) == t_apply_all(old(self)@, results@),
    {
        let ghost pre = self@;
        let ghost total = results@;
        let mut results = results;
        let n0 = results.len();
        let mut faults: Vec<ApplyFault> = Vec::new();
        let mut c: usize = 0;
        proof {
            assert(total.subrange(0, 0int) =~= Seq::<ExecutionResult<A, C>>::empty());
            assert(faults@ =~= Seq::<ApplyFault>::empty());
        }
        while results.len() > 0
            invariant
                self.inv(),
                total.len() == n0 as int,
                c as int == total.len() - results@.len(),
                c <= total.len(),
                results@ == total.subrange(c as int, total.len() as int),
                (self@, faults@) == t_apply_all(pre, total.subrange(0, c as int)),
            decreases results@.len(),
        {
            proof {
                assert(results@[0] == total[c as int]);
            }
            let cmd = results.remove(0);
            let ghost cur = self@;
            let ghost fprev = faults@;
            match cmd {
                ExecutionResult::UpdateEntityState(id, key, value) => {
                    self.update_entity_state_internal(id, key, value);
                },
                ExecutionResult::DeleteEntityState(id, key) => {
                    self.delete_entity_state_internal(id, key.as_str());
                },
                ExecutionResult::CreateEntity(info) => {
                    let mut newf = self.create_entity_internal(info);
                    faults.append(&mut newf);
                },
                ExecutionResult::DeleteEntity(id) => {
                    self.delete_entity_internal(id);
                },
                ExecutionResult::CreateRelation(info) => {
                    let mut newf = self.create_relation_internal(info, None);
                    faults.append(&mut newf);
                },
                ExecutionResult::DeleteRelation(id) => {
                    self.delete_relation_internal(id);
                },
                ExecutionResult::AddFunction(id, finfo) => {
                    self.add_function_internal(id, finfo);
                },
                ExecutionResult::RemoveFunction(id, fname) => {
                    self.remove_function_internal(id, fname.as_str());
                },
                ExecutionResult::ActivateFunction(id, fname) => {
                    self.activate_function_internal(id, fname.as_str());
                },
                ExecutionResult::DeactivateFunction(id, fname) => {
                    self.deactivate_function_internal(id, fname.as_str());
                },
                ExecutionResult::UpdateFunctionParameter(id, fname, key, value) => {
                    self.update_function_parameter_internal(id, fname.as_str(), key, value);
                },
                ExecutionResult::DeleteFunctionParameter(id, fname, key) => {
                    self.delete_function_parameter_internal(id, fname.as_str(), key.as_str());
                },
                ExecutionResult::AddProcess(id, fname, pinfo) => {
                    self.add_process_internal(id, fname.as_str(), pinfo);
                },
                ExecutionResult::RemoveProcess(id, fname, pname) => {
                    self.remove_process_internal(id, fname.as_str(), pname.as_str());
                },
                ExecutionResult::AddCondition(id, fname, pname, condition) => {
                    self.add_condition_internal(id, fname.as_str(), pname.as_str(), condition);
                },
                ExecutionResult::RemoveCondition(id, fname, pname) => {
                    self.remove_condition_internal(id, fname.as_str(), pname.as_str());
                },
                ExecutionResult::AddRelationMetadata(id, key, value) => {
                    self.add_relation_metadata_internal(id, key, value);
                },
                ExecutionResult::RemoveRelationMetadata(id, key) => {
                    self.remove_relation_metadata_internal(id, key.as_str());
                },
            }
            proof {
                let prefix = total.subrange(0, c as int);
                let next = total.subrange(0, c as int + 1);
                assert(next.drop_last() =~= prefix);
                assert(next.last() == total[c as int]);
                assert(results@ =~= total.subrange(c as int + 1, total.len() as int));
                assert(self@ == t_apply_command(cur, total[c as int]).0);
                assert(faults@ =~= fprev + t_apply_command(cur, total[c as int]).1);
                assert((self@, faults@) == t_apply_all(pre, next));
            }
            c = c + 1;
        }
        proof {
            assert(total.subrange(0, total.len() as int) =~= total);
        }
        faults
    }
}


/// The read-only projection of the whole graph.
pub open spec fn project_model<A, C>(m: ModelModel<A, C>) -> ModelSnapshotModel {
    ModelSnapshotModel {
        entities: Seq::new(m.entities.len(), |i: int| project_entity(m.entities[i])),
        relations: m.relations,
    }
}

/// Whether a step-order reference currently resolves to a process whose
/// owning function is active. Only a runnable process contributes commands
/// to a step.
pub open spec fn process_runnable<A, C>(m: ModelModel<A, C>, pr: ProcessRefModel) -> bool {
    match find_entity(m.entities, pr.entity_id) {
        None => false,
        Some(i) => match find_function(m.entities[i].functions, pr.function_name) {
            None => false,
            Some(j) => match find_process(
                m.entities[i].functions[j].processes,
                pr.process_name,
            ) {
                None => false,
                Some(_) => m.entities[i].functions[j].active,
            },
        },
    }
}

/// The shape of a collect phase: one contribution per registered process, in
/// step order, and a process that is not runnable — its owning function
/// inactive or any link of the reference stale — contributes nothing,
/// whatever its condition says.
pub open spec fn collect_shape<A, C>(
    m: ModelModel<A, C>,
    contribs: Seq<Seq<ExecutionResult<A, C>>>,
) -> bool {
    &&& contribs.len() == m.processes.len()
    &&& forall|p: int|
        0 <= p < contribs.len() && !process_runnable(m, #[trigger] m.processes[p])
            ==> contribs[p].len() == 0
}

impl<A, C> Model<A, C> {
    /// A read-only copy of the graph as it stands now: the snapshot every
    /// process observes during one collect phase.
    pub fn snapshot(&self) -> (r: ModelSnapshot)
        requires
            self.inv(),
        ensures
            r@ == project_model(self@),
    {
        let n = self.entities.len();
        let mut ents: Vec<EntitySnapshot> = Vec::new();
        let mut i: usize = 0;
        while i < n
            invariant
                self.inv(),
                n == self.entities@.len(),
                i <= n,
                ents@.len() == i,
                forall|t: int|
                    0 <= t < i ==> (#[trigger] ents@[t])@ == project_entity(self@.entities[t]),
            decreases n - i,
        {
            proof {
                assert(self@.entities[i as int] == self.entities@[i as int]@);
                assert(self.entities@[i as int].rep_wf());
            }
            let nf = self.entities[i].functions.len();
            let mut funcs: Vec<FunctionSnapshot> = Vec::new();
            let mut j: usize = 0;
            while j < nf
                invariant
                    self.inv(),
                    0 <= i < n,
                    n == self.entities@.len(),
                    nf == self.entities@[i as int].functions@.len(),
                    j <= nf,
                    funcs@.len() == j,
                    forall|t: int|
                        0 <= t < j ==> (#[trigger] funcs@[t])@ == project_function(
                            self@.entities[i as int].functions[t],
                        ),
                decreases nf - j,
            {
                proof {
                    assert(self@.entities[i as int].functions[j as int]
                        == self.entities@[i as int].functions@[j as int]@);
                }
                let f = &self.entities[i].functions[j];
                let fs = FunctionSnapshot {
                    name: f.name.clone(),
                    parameter: f.parameter.clone(),
                    active: f.active_status,
                };
                funcs.push(fs);
                j = j + 1;
            }
            let nb = self.entities[i].relations.len();
            let mut brefs: Vec<crate::entity::RelationRef> = Vec::new();
            let mut k: usize = 0;
            while k < nb
                invariant
                    self.inv(),
                    0 <= i < n,
                    n == self.entities@.len(),
                    nb == self.entities@[i as int].relations@.len(),
                    k <= nb,
                    brefs@.len() == k,
                    forall|t: int|
                        0 <= t < k ==> (#[trigger] brefs@[t])@
                            == self@.entities[i as int].relations[t],
                decreases nb - k,
            {
                proof {
                    assert(self@.entities[i as int].relations[k as int]
                        == self.entities@[i as int].relations@[k as int]@);
                }
                let b = &self.entities[i].relations[k];
                let copy = crate::entity::RelationRef {
                    name: b.name.clone(),
                    relation_id: b.relation_id,
                };
                brefs.push(copy);
                k = k + 1;
            }
            let e = &self.entities[i];
            let es = EntitySnapshot {
                id: e.id,
                name: e.name.clone(),
                entity_type: e.entity_type.clone(),
                state: e.state.clone(),
                functions: funcs,
                relations: brefs,
            };
            proof {
                assert(crate::context::function_snapshots_model(es.functions@)
                    =~= project_entity(self@.entities[i as int]).functions);
                assert(crate::entity::backrefs_model(es.relations@) =~= self@.entities[i as int]
                    .relations);
                assert(es@ == project_entity(self@.entities[i as int]));
            }
            ents.push(es);
            i = i + 1;
        }
        let nr = self.relations.len();
        let mut rels: Vec<Relation> = Vec::new();
        let mut t: usize = 0;
        while t < nr
            invariant
                self.inv(),
                nr == self.relations@.len(),
                t <= nr,
                rels@.len() == t,
                forall|u: int| 0 <= u < t ==> (#[trigger] rels@[u])@ == self@.relations[u],
            decreases nr - t,
        {
            proof {
                assert(self@.relations[t as int] == self.relations@[t as int]@);
                assert(self.relations@[t as int].rep_wf());
            }
            let copy = self.relations[t].clone();
            rels.push(copy);
            t = t + 1;
        }
        let snap = ModelSnapshot { entities: ents, relations: rels };
        proof {
            assert(crate::context::entity_snapshots_model(snap.entities@) =~= project_model(
                self@,
            ).entities);
            assert(crate::context::relations_model(snap.relations@) =~= self@.relations);
            assert(snap@ == project_model(self@));
        }
        snap
    }
}

impl<A: ProcessAction<C>, C: Condition> Model<A, C> {
    /// The collect phase: walks the registered processes in step order
    /// against one snapshot of the graph, gathering every runnable process's
    /// commands. A process whose owning function is inactive — or whose
    /// reference no longer resolves — contributes nothing, whatever its
    /// condition says. A collected relation-creation command with no explicit
    /// source is attributed to the emitting process's owning entity.
    pub fn collect_results(&self) -> (r: Vec<ExecutionResult<A, C>>)
        requires
            self.inv(),
        ensures
            exists|contribs: Seq<Seq<ExecutionResult<A, C>>>|
                #[trigger] collect_shape(self@, contribs) && r@ == contribs.flatten(),
    {
        let snap = self.snapshot();
        let mut results: Vec<ExecutionResult<A, C>> = Vec::new();
        let ghost mut contribs: Seq<Seq<ExecutionResult<A, C>>> = Seq::empty();
        proof {
            assert(contribs.flatten() =~= Seq::<ExecutionResult<A, C>>::empty());
        }
        let n = self.processes.len();
        let mut p: usize = 0;
        while p < n
            invariant
                self.inv(),
                n == self.processes@.len(),
                p <= n,
                contribs.len() == p,
                results@ == contribs.flatten(),
                forall|q: int|
                    0 <= q < p && !process_runnable(self@, #[trigger] self@.processes[q])
                        ==> contribs[q].len() == 0,
            decreases n - p,
        {
            proof {
                assert(self@.processes[p as int] == self.processes@[p as int]@);
            }
            let owner_id = self.processes[p].entity_id;
            let mut out: Vec<ExecutionResult<A, C>> = Vec::new();
            match self.entity_index(owner_id) {
                None => {
                },
                Some(i) => {
                    proof {
                        lemma_find_entity(self@.entities, owner_id);
                        assert(self@.entities[i as int] == self.entities@[i as int]@);
                    }
                    match function_index(
                        &self.entities[i].functions,
                        self.processes[p].function_name.as_str(),
                    ) {
                        None => {
                        },
                        Some(j) => {
                            proof {
                                lemma_find_function(
                                    self@.entities[i as int].functions,
                                    self.processes@[p as int].function_name@,
                                );
                                assert(self@.entities[i as int].functions[j as int]
                                    == self.entities@[i as int].functions@[j as int]@);
                            }
                            match process_index(
                                &self.entities[i].functions[j].processes,
                                self.processes[p].process_name.as_str(),
                            ) {
                                None => {
                                },
                                Some(k) => {
                                    proof {
                                        lemma_find_process(
                                            self@.entities[i as int].functions[j as int].processes,
                                            self.processes@[p as int].process_name@,
                                        );
                                    }
                                    let active = self.entities[i].functions[j].active_status;
                                    if active {
                                        match snap.get_entity(owner_id) {
                                            None => {
                                            },
                                            Some(owner_entity) => {
                                                match owner_entity.get_function(
                                                    self.processes[p].function_name.as_str(),
                                                ) {
                                                    None => {
                                                    },
                                                    Some(owner_function) => {
                                                        let context = ExecutionContext {
                                                            model: &snap,
                                                            owner_entity,
                                                            owner_function,
                                                        };
                                                        let mut got = self.entities[i].functions[j]
                                                            .processes[k].execute(active, &context);
                                                        let ng = got.len();
                                                        let mut w: usize = 0;
                                                        while w < ng
                                                            invariant
                                                                ng == got@.len(),
                                                                w <= ng,
                                                            decreases ng - w,
                                                        {
                                                            match &mut got[w] {
                                                                ExecutionResult::CreateRelation(
                                                                    rinfo,
                                                                ) => {
                                                                    if rinfo.source_entity_id
                                                                        .is_none() {
                                                                        rinfo.source_entity_id =
                                                                            Some(owner_id);
                                                                    }
                                                                },
                                                                _ => {
                                                                },
                                                            }
                                                            w = w + 1;
                                                        }
                                                        out = got;
                                                    },
                                                }
                                            },
                                        }
                                    }
                                },
                            }
                        },
                    }
                },
            }
            let ghost piece = out@;
            let ghost prev = contribs;
            results.append(&mut out);
            proof {
                contribs = prev.push(piece);
                prev.lemma_flatten_push(piece);
                assert forall|q: int|
                    0 <= q < p + 1 && !process_runnable(self@, #[trigger] self@.processes[q])
                        implies contribs[q].len() == 0 by {
                    if q < p as int {
                        assert(contribs[q] == prev[q]);
                    }
                }
            }
            p = p + 1;
        }
        proof {
            assert(collect_shape(self@, contribs));
        }
        results
    }

    /// One simulation step: every registered process observes the same
    /// pre-step snapshot and contributes deferred commands (an inactive
    /// function contributes nothing), and the collected commands are then
    /// applied to the live graph in order. The step always completes; faults
    /// met while applying are returned.
    pub fn simulate(&mut self) -> (r: Vec<ApplyFault>)
        requires
            old(self).inv(),
        ensures
            final(self).inv(),
            exists|contribs: Seq<Seq<ExecutionResult<A, C>>>|
                #[trigger] collect_shape(old(self)@, contribs) && (final(self)@, r@)
                    == t_apply_all(old(self)@, contribs.flatten()),
    {
        let results = self.collect_results();
        let ghost contribs = choose|contribs: Seq<Seq<ExecutionResult<A, C>>>|
            #[trigger] collect_shape(self@, contribs) && results@ == contribs.flatten();
        let faults = self.apply_results(results);
        proof {
            assert(collect_shape(old(self)@, contribs) && (self@, faults@) == t_apply_all(
                old(self)@,
                contribs.flatten(),
            ));
        }
        faults
    }
}


/// The ids of the entities carrying exactly `name`, in creation order.
pub open spec fn model_ids_named<A, C>(s: Seq<EntityModel<A, C>>, name: Seq<char>) -> Seq<u64>
    decreases s.len(),
{
    if s.len() == 0 {
        Seq::empty()
    } else {
        let rest = model_ids_named(s.drop_last(), name);
        if s.last().name == name {
            rest.push(s.last().id)
        } else {
            rest
        }
    }
}

/// The ids of the entities carrying `entity_type`, in creation order.
pub open spec fn model_ids_of_type<A, C>(s: Seq<EntityModel<A, C>>, t: EntityTypeModel) -> Seq<
    u64,
>
    decreases s.len(),
{
    if s.len() == 0 {
        Seq::empty()
    } else {
        let rest = model_ids_of_type(s.drop_last(), t);
        if s.last().entity_type == t {
            rest.push(s.last().id)
        } else {
            rest
        }
    }
}

/// Whether `prefix` is a prefix of `name`.
pub open spec fn name_has_prefix(name: Seq<char>, prefix: Seq<char>) -> bool {
    prefix.len() <= name.len() && name.subrange(0, prefix.len() as int) == prefix
}

/// The ids of the entities whose name starts with `prefix`, in creation
/// order.
pub open spec fn model_ids_with_prefix<A, C>(s: Seq<EntityModel<A, C>>, prefix: Seq<char>) -> Seq<
    u64,
>
    decreases s.len(),
{
    if s.len() == 0 {
        Seq::empty()
    } else {
        let rest = model_ids_with_prefix(s.drop_last(), prefix);
        if name_has_prefix(s.last().name, prefix) {
            rest.push(s.last().id)
        } else {
            rest
        }
    }
}

/// The distinct entity types in use, each at its first occurrence in
/// creation order.
pub open spec fn distinct_entity_types<A, C>(s: Seq<EntityModel<A, C>>) -> Seq<EntityTypeModel>
    decreases s.len(),
{
    if s.len() == 0 {
        Seq::empty()
    } else {
        let rest = distinct_entity_types(s.drop_last());
        if rest.contains(s.last().entity_type) {
            rest
        } else {
            rest.push(s.last().entity_type)
        }
    }
}

/// The type tags a tag list denotes, in order.
pub open spec fn types_model(s: Seq<EntityType>) -> Seq<EntityTypeModel> {
    Seq::new(s.len(), |i: int| s[i]@)
}

impl<A, C> Model<A, C> {
    /// The ids of the entities carrying `entity_type`, in creation order.
    pub fn get_entities_by_type(&self, entity_type: &EntityType) -> (r: Vec<u64>)
        ensures
            r@ == model_ids_of_type(self@.entities, entity_type@),
    {
        let n = self.entities.len();
        let mut out: Vec<u64> = Vec::new();
        let mut i: usize = 0;
        while i < n
            invariant
                n == self.entities@.len(),
                i <= n,
                out@ == model_ids_of_type(self@.entities.subrange(0, i as int), entity_type@),
            decreases n - i,
        {
            let ghost prefix = self@.entities.subrange(0, i as int);
            let ghost next = self@.entities.subrange(0, i as int + 1);
            proof {
                assert(next.drop_last() =~= prefix);
                assert(next.last() == self@.entities[i as int]);
                assert(self@.entities[i as int] == self.entities@[i as int]@);
            }
            if self.entities[i].entity_type == *entity_type {
                out.push(self.entities[i].id);
            }
            i = i + 1;
        }
        proof {
            assert(self@.entities.subrange(0, n as int) =~= self@.entities);
        }
        out
    }

    /// The ids of the entities carrying exactly `name`, in creation order.
    pub fn get_entities_by_name(&self, name: &str) -> (r: Vec<u64>)
        ensures
            r@ == model_ids_named(self@.entities, name@),
    {
        let n = self.entities.len();
        let mut out: Vec<u64> = Vec::new();
        let mut i: usize = 0;
        while i < n
            invariant
                n == self.entities@.len(),
                i <= n,
                out@ == model_ids_named(self@.entities.subrange(0, i as int), name@),
            decreases n - i,
        {
            let ghost prefix = self@.entities.subrange(0, i as int);
            let ghost next = self@.entities.subrange(0, i as int + 1);
            proof {
                assert(next.drop_last() =~= prefix);
                assert(next.last() == self@.entities[i as int]);
                assert(self@.entities[i as int] == self.entities@[i as int]@);
            }
            if str_eq(self.entities[i].name.as_str(), name) {
                out.push(self.entities[i].id);
            }
            i = i + 1;
        }
        proof {
            assert(self@.entities.subrange(0, n as int) =~= self@.entities);
        }
        out
    }

    /// The ids of the entities whose name starts with `prefix`, in creation
    /// order.
    pub fn get_entities_by_name_prefix(&self, prefix: &str) -> (r: Vec<u64>)
        ensures
            r@ == model_ids_with_prefix(self@.entities, prefix@),
    {
        let n = self.entities.len();
        let mut out: Vec<u64> = Vec::new();
        let mut i: usize = 0;
        while i < n
            invariant
                n == self.entities@.len(),
                i <= n,
                out@ == model_ids_with_prefix(self@.entities.subrange(0, i as int), prefix@),
            decreases n - i,
        {
            let ghost pre_entities = self@.entities.subrange(0, i as int);
            let ghost next = self@.entities.subrange(0, i as int + 1);
            proof {
                assert(next.drop_last() =~= pre_entities);
                assert(next.last() == self@.entities[i as int]);
                assert(self@.entities[i as int] == self.entities@[i as int]@);
            }
            if str_starts_with(self.entities[i].name.as_str(), prefix) {
                out.push(self.entities[i].id);
            }
            i = i + 1;
        }
        proof {
            assert(self@.entities.subrange(0, n as int) =~= self@.entities);
        }
        out
    }

    /// The distinct entity types in use, each at its first occurrence in
    /// creation order.
    pub fn get_all_entity_types(&self) -> (r: Vec<EntityType>)
        ensures
            types_model(r@) == distinct_entity_types(self@.entities),
    {
        let n = self.entities.len();
        let mut out: Vec<EntityType> = Vec::new();
        let mut i: usize = 0;
        while i < n
            invariant
                n == self.entities@.len(),
                i <= n,
                types_model(out@) == distinct_entity_types(self@.entities.subrange(0, i as int)),
            decreases n - i,
        {
            let ghost prefix = self@.entities.subrange(0, i as int);
            let ghost next = self@.entities.subrange(0, i as int + 1);
            proof {
                assert(next.drop_last() =~= prefix);
                assert(next.last() == self@.entities[i as int]);
                assert(self@.entities[i as int] == self.entities@[i as int]@);
            }
            let m = out.len();
            let mut seen = false;
            let mut w: usize = 0;
            while w < m
                invariant
                    0 <= i < n,
                    n == self.entities@.len(),
                    m == out@.len(),
                    w <= m,
                    seen ==> types_model(out@).contains(self@.entities[i as int].entity_type),
                    !seen ==> forall|t: int|
                        0 <= t < w ==> types_model(out@)[t] != self@.entities[i as int].entity_type,
                decreases m - w,
            {
                proof {
                    assert(types_model(out@)[w as int] == out@[w as int]@);
                }
                if out[w] == self.entities[i].entity_type {
                    seen = true;
                }
                w = w + 1;
            }
            if !seen {
                let copy = self.entities[i].entity_type.clone();
                out.push(copy);
                proof {
                    assert(types_model(out@) =~= distinct_entity_types(next));
                }
            } else {
                proof {
                    assert(types_model(out@) =~= distinct_entity_types(next));
                }
            }
            i = i + 1;
        }
        proof {
            assert(self@.entities.subrange(0, n as int) =~= self@.entities);
        }
        out
    }
}

} // verus!
