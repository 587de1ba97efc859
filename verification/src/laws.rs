//! The kernel's global guarantees, stated and proved over the mathematical
//! model: graph integrity, cardinality exclusion, activation gating, and
//! last-writer-wins state application.

use vstd::prelude::*;
use crate::entity::find_function;
use crate::function::find_process;
use crate::entity::EntityModel;
use crate::model::{
    collect_shape, find_entity, lemma_find_entity, lemma_find_entity_congruent, process_runnable,
    relation_check, t_apply_all, t_delete_entity, t_set_function_active, t_update_entity_state,
    ModelModel, ProcessRefModel, RelationCheck,
};
use crate::registry::find_definition;
use crate::result::ExecutionResult;
use crate::types::RelationType;
use crate::value::value_model;

verus! {

/// Law: graph integrity. In a well-formed model both endpoints of every
/// relation resolve to entities present in the model.
pub proof fn lemma_graph_integrity<A, C>(m: ModelModel<A, C>)
    requires
        m.wf(),
    ensures
        forall|j: int|
            0 <= j < m.relations.len() ==> find_entity(
                m.entities,
                (#[trigger] m.relations[j]).entity1,
            ) is Some && find_entity(m.entities, m.relations[j].entity2) is Some,
{
    assert forall|j: int| 0 <= j < m.relations.len() implies find_entity(
        m.entities,
        (#[trigger] m.relations[j]).entity1,
    ) is Some && find_entity(m.entities, m.relations[j].entity2) is Some by {
        assert(m.backrefs_complete());
    }
}

/// Law: deleting an entity removes it, removes every relation incident to
/// it, and leaves no dangling back-reference anywhere: what the other
/// endpoints still reference are live relations, as graph integrity demands.
pub proof fn lemma_delete_entity_cleans<A, C>(m: ModelModel<A, C>, entity_id: u64)
    requires
        m.wf(),
    ensures
        t_delete_entity(m, entity_id).wf(),
        find_entity(t_delete_entity(m, entity_id).entities, entity_id) is None,
        forall|j: int|
            0 <= j < t_delete_entity(m, entity_id).relations.len() ==> !(
            #[trigger] t_delete_entity(m, entity_id).relations[j]).incident_to(entity_id),
        forall|i: int, k: int|
            #![trigger t_delete_entity(m, entity_id).entities[i].relations[k]]
            0 <= i < t_delete_entity(m, entity_id).entities.len() && 0 <= k < t_delete_entity(
                m,
                entity_id,
            ).entities[i].relations.len() ==> crate::relation::find_relation(
                t_delete_entity(m, entity_id).relations,
                t_delete_entity(m, entity_id).entities[i].relations[k].relation_id,
            ) is Some,
{
    crate::model::lemma_wf_delete_entity(m, entity_id);
    let mo = t_delete_entity(m, entity_id);
    assert forall|i: int, k: int|
        #![trigger mo.entities[i].relations[k]]
        0 <= i < mo.entities.len() && 0 <= k < mo.entities[i].relations.len() implies crate::relation::find_relation(
        mo.relations,
        mo.entities[i].relations[k].relation_id,
    ) is Some by {
        assert(mo.backrefs_valid());
        assert(mo.backref_ok(mo.entities[i].relations[k], mo.entities[i].id));
    }
    let m2 = t_delete_entity(m, entity_id);
    if find_entity(m.entities, entity_id) is Some {
        let i = find_entity(m.entities, entity_id)->Some_0;
        lemma_find_entity(m.entities, entity_id);
        crate::model::lemma_relations_not_incident(m.relations, entity_id);
        lemma_find_entity(m2.entities, entity_id);
        match find_entity(m2.entities, entity_id) {
            Some(w) => {
                let ow: int = if w < i {
                    w
                } else {
                    w + 1
                };
                assert(m2.entities[w].id == m.entities.remove(i)[w].id);
                assert(m.entities.remove(i)[w] == m.entities[ow]);
                assert(m.entities[ow].id != m.entities[i].id);
            },
            None => {
            },
        }
    } else {
        lemma_find_entity(m.entities, entity_id);
    }
}

/// Law: one-to-one exclusion. Once a one-to-one relation under `name` joins
/// two entities, validating another same-named relation out of its first
/// endpoint, or into its second endpoint, never succeeds.
pub proof fn lemma_one_to_one_exclusive<A, C>(
    m: ModelModel<A, C>,
    name: Seq<char>,
    j: int,
    other: u64,
)
    requires
        m.wf(),
        0 <= j < m.relations.len(),
        m.relations[j].name == name,
        find_definition(m.definitions, name) matches Some(d) && m.definitions[d].relation_type
            == RelationType::OneToOne,
    ensures
        !(relation_check(m, name, m.relations[j].entity1, other) is Accepted),
        !(relation_check(m, name, other, m.relations[j].entity2) is Accepted),
{
    let r = m.relations[j];
    assert(m.backrefs_complete());
    lemma_find_entity(m.entities, r.entity1);
    lemma_find_entity(m.entities, r.entity2);
    let i1 = find_entity(m.entities, r.entity1)->Some_0;
    let i2 = find_entity(m.entities, r.entity2)->Some_0;
    assert(m.entity_has_backref(i1, name, r.id));
    assert(m.entity_has_backref(i2, name, r.id));
    assert(m.entities[i1].has_relation_named(name));
    assert(m.entities[i2].has_relation_named(name));
}

/// Law: one-to-one rejection is a cardinality violation. Under the
/// hypotheses of the scenario — the second pair of endpoints resolves and is
/// well typed — the validation outcome is exactly `BadCardinality`, which
/// `add_relation` surfaces as `InvalidRelationType`.
pub proof fn lemma_one_to_one_rejects<A, C>(
    m: ModelModel<A, C>,
    name: Seq<char>,
    j: int,
    other: u64,
)
    requires
        m.wf(),
        0 <= j < m.relations.len(),
        m.relations[j].name == name,
        find_definition(m.definitions, name) matches Some(d) && m.definitions[d].relation_type
            == RelationType::OneToOne,
        find_entity(m.entities, other) is Some,
        ({
            let d = find_definition(m.definitions, name)->Some_0;
            let i1 = find_entity(m.entities, m.relations[j].entity1)->Some_0;
            let oi = find_entity(m.entities, other)->Some_0;
            m.entities[i1].entity_type == m.definitions[d].source_type && m.entities[oi].entity_type
                == m.definitions[d].target_type
        }),
    ensures
        relation_check(m, name, m.relations[j].entity1, other) == RelationCheck::BadCardinality(
            RelationType::OneToOne,
        ),
{
    let r = m.relations[j];
    assert(m.backrefs_complete());
    lemma_find_entity(m.entities, r.entity1);
    let i1 = find_entity(m.entities, r.entity1)->Some_0;
    assert(m.entity_has_backref(i1, name, r.id));
    assert(m.entities[i1].has_relation_named(name));
}

/// Law: activation gating, first half. A process whose reference is not
/// runnable — its owning function inactive, or any link stale — contributes
/// no command to a step, whatever its condition says.
pub proof fn lemma_inactive_never_runs<A, C>(
    m: ModelModel<A, C>,
    step: Seq<Seq<ExecutionResult<A, C>>>,
    p: int,
)
    requires
        collect_shape(m, step),
        0 <= p < m.processes.len(),
        !process_runnable(m, m.processes[p]),
    ensures
        step[p].len() == 0,
{
}

/// Law: activation gating, second half. Activating a function makes every
/// process reference that resolves through it runnable from the next step.
pub proof fn lemma_activation_enables<A, C>(m: ModelModel<A, C>, pr: ProcessRefModel)
    requires
        find_entity(m.entities, pr.entity_id) matches Some(i) && find_function(
            m.entities[i].functions,
            pr.function_name,
        ) matches Some(j) && find_process(
            m.entities[i].functions[j].processes,
            pr.process_name,
        ) is Some,
    ensures
        process_runnable(
            t_set_function_active(m, pr.entity_id, pr.function_name, true),
            pr,
        ),
{
    let i = find_entity(m.entities, pr.entity_id)->Some_0;
    let j = find_function(m.entities[i].functions, pr.function_name)->Some_0;
    lemma_find_entity(m.entities, pr.entity_id);
    crate::entity::lemma_find_function(m.entities[i].functions, pr.function_name);
    let m2 = t_set_function_active(m, pr.entity_id, pr.function_name, true);
    lemma_find_entity_congruent(m.entities, m2.entities, pr.entity_id);
    lemma_find_function_names_congruent(
        m.entities[i].functions,
        m2.entities[i].functions,
        pr.function_name,
    );
    assert(m2.entities[i].functions[j].processes == m.entities[i].functions[j].processes);
    assert(m2.entities[i].functions[j].active);
}

/// Function lists whose names agree pointwise are searched alike.
pub proof fn lemma_find_function_names_congruent<A, C>(
    s1: Seq<crate::function::FunctionModel<A, C>>,
    s2: Seq<crate::function::FunctionModel<A, C>>,
    name: Seq<char>,
)
    requires
        s1.len() == s2.len(),
        forall|t: int| #![all_triggers] 0 <= t < s1.len() ==> s1[t].name == s2[t].name,
    ensures
        find_function(s1, name) == find_function(s2, name),
    decreases s1.len(),
{
    if s1.len() > 0 {
        let r1 = s1.drop_first();
        let r2 = s2.drop_first();
        assert forall|t: int| #![all_triggers] 0 <= t < r1.len() implies r1[t].name
            == r2[t].name by {
            assert(r1[t] == s1[t + 1]);
            assert(r2[t] == s2[t + 1]);
            assert(s1[t + 1].name == s2[t + 1].name);
        }
        lemma_find_function_names_congruent(r1, r2, name);
        assert(s1[0].name == s2[0].name);
        assert(s1.first() == s1[0] && s2.first() == s2[0]);
    }
}

/// Law: snapshot isolation, write side. When every command of a step updates
/// the same key of the same live entity — as when several processes each
/// read the pre-step value and write their own increment — applying the step
/// sets that key to the value of the last command, and touches nothing else:
/// the writes are applied in step order and the last writer wins.
pub proof fn lemma_last_writer_wins<A, C>(
    m: ModelModel<A, C>,
    cmds: Seq<ExecutionResult<A, C>>,
    entity_id: u64,
    key: Seq<char>,
)
    requires
        find_entity(m.entities, entity_id) is Some,
        cmds.len() > 0,
        forall|t: int|
            0 <= t < cmds.len() ==> ((#[trigger] cmds[t])
                matches ExecutionResult::UpdateEntityState(id, k, _) && id == entity_id && k@
                == key),
    ensures
        t_apply_all(m, cmds).1 =~= Seq::<crate::result::ApplyFault>::empty(),
        ({
            let i = find_entity(m.entities, entity_id)->Some_0;
            let last_value = cmds.last()->UpdateEntityState_2;
            t_apply_all(m, cmds).0 == (ModelModel {
                entities: m.entities.update(
                    i,
                    EntityModel {
                        state: m.entities[i].state.insert(key, value_model(last_value)),
                        ..m.entities[i]
                    },
                ),
                ..m
            })
        }),
    decreases cmds.len(),
{
    lemma_find_entity(m.entities, entity_id);
    let i = find_entity(m.entities, entity_id)->Some_0;
    if cmds.len() == 1 {
        assert(cmds.drop_last().len() == 0);
        assert(cmds[0] == cmds.last());
        assert(t_apply_all(m, cmds.drop_last()).0 == m);
        assert(t_apply_all(m, cmds).0 == t_update_entity_state(
            m,
            entity_id,
            key,
            value_model(cmds.last()->UpdateEntityState_2),
        ));
    } else {
        let prefix = cmds.drop_last();
        assert forall|t: int|
            0 <= t < prefix.len() implies ((#[trigger] prefix[t])
                matches ExecutionResult::UpdateEntityState(id, k, _) && id == entity_id && k@
                == key) by {
            assert(prefix[t] == cmds[t]);
        }
        lemma_last_writer_wins(m, prefix, entity_id, key);
        let mp = t_apply_all(m, prefix).0;
        assert forall|t: int|
            #![all_triggers]
            0 <= t < m.entities.len() implies mp.entities[t].id == m.entities[t].id by {
        }
        lemma_find_entity_congruent(m.entities, mp.entities, entity_id);
        assert(t_apply_all(m, cmds).0 == t_update_entity_state(
            mp,
            entity_id,
            key,
            value_model(cmds.last()->UpdateEntityState_2),
        ));
        assert(mp.entities[i].state.insert(
            key,
            value_model(cmds.last()->UpdateEntityState_2),
        ) =~= m.entities[i].state.insert(key, value_model(cmds.last()->UpdateEntityState_2)));
        assert(mp.entities.update(
            i,
            EntityModel {
                state: m.entities[i].state.insert(
                    key,
                    value_model(cmds.last()->UpdateEntityState_2),
                ),
                ..mp.entities[i]
            },
        ) =~= m.entities.update(
            i,
            EntityModel {
                state: m.entities[i].state.insert(
                    key,
                    value_model(cmds.last()->UpdateEntityState_2),
                ),
                ..m.entities[i]
            },
        ));
    }
}

} // verus!
