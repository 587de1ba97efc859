//! Tests of the two-phase simulation step: activation gating, snapshot
//! isolation, cascading deletion, and deferred creation.

use simkernel::context::{Condition, ExecutionContext, ProcessAction};
use simkernel::model::Model;
use simkernel::result::{
    EntityCreationInfo, ExecutionResult, FunctionCreationInfo, ProcessCreationInfo,
    RelationCreationInfo,
};
use simkernel::types::{EntityType, RelationType};
use simkernel::result::ApplyFault;
use simkernel::value::Value;

pub enum StepCondition {
    Always,
    Never,
}

impl Condition for StepCondition {
    fn is_met(&self, _context: &ExecutionContext<'_>) -> bool {
        match self {
            StepCondition::Always => true,
            StepCondition::Never => false,
        }
    }
}

pub enum StepAction {
    IncrementAge,
    IncrementCounter,
    CreateChild,
    ProbeChild,
    DeleteEntity(u64),
    LinkToByName(String),
}

type Cmd = ExecutionResult<StepAction, StepCondition>;

impl ProcessAction<StepCondition> for StepAction {
    fn run(&self, context: &ExecutionContext<'_>) -> Vec<Cmd> {
        let own_id = context.owner_entity.id;
        match self {
            StepAction::IncrementAge => {
                let mut out = Vec::new();
                if let Some(Value::Integer(age)) = context.owner_entity.get_state().get("age") {
                    out.push(Cmd::UpdateEntityState(
                        own_id,
                        "age".to_string(),
                        Value::Integer(age + 1),
                    ));
                }
                out
            }
            StepAction::IncrementCounter => {
                let mut out = Vec::new();
                if let Some(Value::Integer(c)) = context.owner_entity.get_state().get("counter") {
                    out.push(Cmd::UpdateEntityState(
                        own_id,
                        "counter".to_string(),
                        Value::Integer(c + 1),
                    ));
                }
                out
            }
            StepAction::CreateChild => vec![Cmd::CreateEntity(EntityCreationInfo {
                name: "Child".to_string(),
                entity_type: EntityType::Agent,
                initial_state: vec![("age".to_string(), Value::Integer(0))],
                functions: vec![],
                relations: vec![],
            })],
            StepAction::ProbeChild => {
                let seen = !context.model.get_entities_by_name("Child").is_empty();
                vec![Cmd::UpdateEntityState(
                    own_id,
                    "saw_child".to_string(),
                    Value::Boolean(seen),
                )]
            }
            StepAction::DeleteEntity(id) => vec![Cmd::DeleteEntity(*id)],
            StepAction::LinkToByName(name) => vec![Cmd::CreateRelation(RelationCreationInfo {
                name: "knows".to_string(),
                source_entity_id: None,
                target_entity_id: None,
                target_entity_name: Some(name.clone()),
                metadata: Some(vec![("trust".to_string(), Value::Integer(7))]),
            })],
        }
    }
}

type StepModel = Model<StepAction, StepCondition>;

fn install(
    model: &mut StepModel,
    entity_id: u64,
    function_name: &str,
    process_name: &str,
    action: StepAction,
    condition: Option<StepCondition>,
    activate: bool,
) {
    model.add_function_internal(
        entity_id,
        FunctionCreationInfo {
            name: function_name.to_string(),
            initial_parameters: vec![],
            processes: vec![ProcessCreationInfo {
                name: process_name.to_string(),
                action,
                condition,
            }],
        },
    );
    if activate {
        model.activate_function_internal(entity_id, function_name);
    }
}

fn int_state(model: &StepModel, id: u64, key: &str) -> Option<i32> {
    let entity = model.get_entity(id)?;
    match entity.get_state().get(key) {
        Some(Value::Integer(n)) => Some(*n),
        _ => None,
    }
}

fn set_int(model: &mut StepModel, id: u64, key: &str, value: i32) {
    model.update_entity_state_internal(id, key.to_string(), Value::Integer(value));
}

#[test]
fn aging_scenario() {
    let mut model: StepModel = Model::new();
    let john = model.create_entity("John".to_string(), EntityType::Agent);
    set_int(&mut model, john, "age", 30);
    install(
        &mut model,
        john,
        "age_increment",
        "increment_age",
        StepAction::IncrementAge,
        Some(StepCondition::Always),
        true,
    );
    let faults = model.simulate();
    assert!(faults.is_empty());
    assert_eq!(int_state(&model, john, "age"), Some(31));
    for _ in 0..4 {
        model.simulate();
    }
    assert_eq!(int_state(&model, john, "age"), Some(35));
}

#[test]
fn inactive_function_never_executes() {
    let mut model: StepModel = Model::new();
    let john = model.create_entity("John".to_string(), EntityType::Agent);
    set_int(&mut model, john, "age", 30);
    // an always-true condition does not matter: the function stays inactive
    install(
        &mut model,
        john,
        "age_increment",
        "increment_age",
        StepAction::IncrementAge,
        Some(StepCondition::Always),
        false,
    );
    model.simulate();
    model.simulate();
    assert_eq!(int_state(&model, john, "age"), Some(30));
    // activating makes the process eligible from the next step on
    model.activate_function_internal(john, "age_increment");
    model.simulate();
    assert_eq!(int_state(&model, john, "age"), Some(31));
    // deactivating stops it again
    model.deactivate_function_internal(john, "age_increment");
    model.simulate();
    assert_eq!(int_state(&model, john, "age"), Some(31));
}

#[test]
fn false_condition_gates_process() {
    let mut model: StepModel = Model::new();
    let john = model.create_entity("John".to_string(), EntityType::Agent);
    set_int(&mut model, john, "age", 30);
    install(
        &mut model,
        john,
        "age_increment",
        "increment_age",
        StepAction::IncrementAge,
        Some(StepCondition::Never),
        true,
    );
    model.simulate();
    assert_eq!(int_state(&model, john, "age"), Some(30));
    // swapping the condition through a deferred command enables the process
    let faults = model.apply_results(vec![Cmd::AddCondition(
        john,
        "age_increment".to_string(),
        "increment_age".to_string(),
        StepCondition::Always,
    )]);
    assert!(faults.is_empty());
    model.simulate();
    assert_eq!(int_state(&model, john, "age"), Some(31));
    // an absent condition counts as always true
    model.apply_results(vec![Cmd::RemoveCondition(
        john,
        "age_increment".to_string(),
        "increment_age".to_string(),
    )]);
    model.simulate();
    assert_eq!(int_state(&model, john, "age"), Some(32));
}

#[test]
fn snapshot_isolation_last_writer_wins() {
    let mut model: StepModel = Model::new();
    let x = model.create_entity("X".to_string(), EntityType::Agent);
    set_int(&mut model, x, "counter", 10);
    install(
        &mut model,
        x,
        "bump_one",
        "inc_a",
        StepAction::IncrementCounter,
        None,
        true,
    );
    install(
        &mut model,
        x,
        "bump_two",
        "inc_b",
        StepAction::IncrementCounter,
        None,
        true,
    );
    model.simulate();
    // both processes read the pre-step value 10 and wrote 11: the writes
    // land in registration order and the last writer wins
    assert_eq!(int_state(&model, x, "counter"), Some(11));
}

#[test]
fn cascading_delete_scenario() {
    let mut model: StepModel = Model::new();
    model
        .define_relationship(
            "knows".to_string(),
            EntityType::Agent,
            EntityType::Agent,
            RelationType::ManyToMany,
        )
        .unwrap();
    let a = model.create_entity("A".to_string(), EntityType::Agent);
    let b = model.create_entity("B".to_string(), EntityType::Agent);
    let rid = model.add_relation("knows".to_string(), a, b).unwrap();
    assert_eq!(model.get_entity(b).unwrap().get_relations("knows"), vec![rid]);
    install(
        &mut model,
        b,
        "grim",
        "reap",
        StepAction::DeleteEntity(a),
        None,
        true,
    );
    let faults = model.simulate();
    assert!(faults.is_empty());
    assert!(model.get_entity(a).is_none());
    assert!(model.get_all_relations().iter().all(|r| r.entity1 != a && r.entity2 != a));
    assert!(model.get_relation(rid).is_none());
    assert!(model.get_entity(b).unwrap().get_relations("knows").is_empty());
}

#[test]
fn delete_entity_drops_its_processes() {
    let mut model: StepModel = Model::new();
    let a = model.create_entity("A".to_string(), EntityType::Agent);
    let b = model.create_entity("B".to_string(), EntityType::Agent);
    set_int(&mut model, a, "age", 1);
    install(
        &mut model,
        a,
        "age_increment",
        "increment_age",
        StepAction::IncrementAge,
        None,
        true,
    );
    install(
        &mut model,
        b,
        "grim",
        "reap",
        StepAction::DeleteEntity(a),
        None,
        true,
    );
    assert_eq!(model.processes.len(), 2);
    model.simulate();
    assert!(model.get_entity(a).is_none());
    // a's registered process left the step order with it
    assert_eq!(model.processes.len(), 1);
}

#[test]
fn deferred_creation_scenario() {
    let mut model: StepModel = Model::new();
    let parent = model.create_entity("Parent".to_string(), EntityType::Agent);
    let witness = model.create_entity("Witness".to_string(), EntityType::Agent);
    install(
        &mut model,
        parent,
        "family",
        "give_birth",
        StepAction::CreateChild,
        None,
        true,
    );
    // registered after the creator, yet it must not see the child this step
    install(
        &mut model,
        witness,
        "watch",
        "probe",
        StepAction::ProbeChild,
        None,
        true,
    );
    let faults = model.simulate();
    assert!(faults.is_empty());
    let children = model.get_entities_by_name("Child");
    assert_eq!(children.len(), 1);
    assert_eq!(int_state(&model, children[0], "age"), Some(0));
    // the witness read the pre-step snapshot: no child was visible
    assert!(matches!(
        model
            .get_entity(witness)
            .unwrap()
            .get_state()
            .get("saw_child"),
        Some(Value::Boolean(false))
    ));
    // one step later the child is visible
    model.simulate();
    assert!(matches!(
        model
            .get_entity(witness)
            .unwrap()
            .get_state()
            .get("saw_child"),
        Some(Value::Boolean(true))
    ));
}

#[test]
fn deferred_relation_by_name_with_metadata() {
    let mut model: StepModel = Model::new();
    model
        .define_relationship(
            "knows".to_string(),
            EntityType::Agent,
            EntityType::Agent,
            RelationType::ManyToMany,
        )
        .unwrap();
    let a = model.create_entity("A".to_string(), EntityType::Agent);
    let b1 = model.create_entity("B".to_string(), EntityType::Agent);
    // two entities named "B": name resolution takes the first in creation order
    let b2 = model.create_entity("B".to_string(), EntityType::Agent);
    install(
        &mut model,
        a,
        "social",
        "befriend",
        StepAction::LinkToByName("B".to_string()),
        None,
        true,
    );
    let faults = model.simulate();
    assert!(faults.is_empty());
    let rels = model.get_all_relations();
    assert_eq!(rels.len(), 1);
    // the source defaulted to the emitting process's owning entity
    assert_eq!(rels[0].entity1, a);
    assert_eq!(rels[0].entity2, b1);
    assert_ne!(rels[0].entity2, b2);
    assert!(matches!(
        rels[0].get_meta_value("trust"),
        Some(Value::Integer(7))
    ));
}

#[test]
fn apply_reports_undefined_relation_fault() {
    let mut model: StepModel = Model::new();
    let a = model.create_entity("A".to_string(), EntityType::Agent);
    let faults = model.apply_results(vec![Cmd::CreateRelation(RelationCreationInfo {
        name: "undeclared".to_string(),
        source_entity_id: Some(a),
        target_entity_id: Some(a),
        target_entity_name: None,
        metadata: None,
    })]);
    assert_eq!(faults.len(), 1);
    assert!(matches!(
        &faults[0],
        simkernel::result::ApplyFault::UndefinedRelation(name) if name == "undeclared"
    ));
    assert!(model.get_all_relations().is_empty());
}

#[test]
fn apply_drops_commands_on_missing_targets() {
    let mut model: StepModel = Model::new();
    let a = model.create_entity("A".to_string(), EntityType::Agent);
    set_int(&mut model, a, "age", 5);
    let faults = model.apply_results(vec![
        Cmd::UpdateEntityState(999, "age".to_string(), Value::Integer(1)),
        Cmd::DeleteEntityState(999, "age".to_string()),
        Cmd::DeleteEntity(999),
        Cmd::DeleteRelation(999),
        Cmd::RemoveFunction(999, "f".to_string()),
        Cmd::ActivateFunction(a, "missing".to_string()),
        Cmd::RemoveProcess(a, "missing".to_string(), "p".to_string()),
    ]);
    assert!(faults.is_empty());
    assert_eq!(int_state(&model, a, "age"), Some(5));
    assert_eq!(model.get_all_entities().len(), 1);
}

#[test]
fn function_parameter_commands() {
    let mut model: StepModel = Model::new();
    let a = model.create_entity("A".to_string(), EntityType::Agent);
    model.add_function_internal(
        a,
        FunctionCreationInfo {
            name: "move_about".to_string(),
            initial_parameters: vec![("speed".to_string(), Value::Integer(1))],
            processes: vec![],
        },
    );
    let faults = model.apply_results(vec![
        Cmd::UpdateFunctionParameter(
            a,
            "move_about".to_string(),
            "speed".to_string(),
            Value::Integer(3),
        ),
        Cmd::UpdateFunctionParameter(
            a,
            "move_about".to_string(),
            "mode".to_string(),
            Value::Text("walk".to_string()),
        ),
        Cmd::DeleteFunctionParameter(a, "move_about".to_string(), "mode".to_string()),
    ]);
    assert!(faults.is_empty());
    let entity = model.get_entity(a).unwrap();
    let f = entity.get_function("move_about").unwrap();
    assert!(matches!(
        f.get_parameter().get("speed"),
        Some(Value::Integer(3))
    ));
    assert!(f.get_parameter().get("mode").is_none());
}

#[test]
fn add_and_remove_process_commands() {
    let mut model: StepModel = Model::new();
    let a = model.create_entity("A".to_string(), EntityType::Agent);
    set_int(&mut model, a, "age", 0);
    model.add_function_internal(
        a,
        FunctionCreationInfo {
            name: "age_increment".to_string(),
            initial_parameters: vec![],
            processes: vec![],
        },
    );
    model.activate_function_internal(a, "age_increment");
    model.simulate();
    assert_eq!(int_state(&model, a, "age"), Some(0));
    let faults = model.apply_results(vec![Cmd::AddProcess(
        a,
        "age_increment".to_string(),
        ProcessCreationInfo {
            name: "increment_age".to_string(),
            action: StepAction::IncrementAge,
            condition: None,
        },
    )]);
    assert!(faults.is_empty());
    model.simulate();
    assert_eq!(int_state(&model, a, "age"), Some(1));
    model.apply_results(vec![Cmd::RemoveProcess(
        a,
        "age_increment".to_string(),
        "increment_age".to_string(),
    )]);
    model.simulate();
    assert_eq!(int_state(&model, a, "age"), Some(1));
}

#[test]
fn remove_function_command_stops_its_processes() {
    let mut model: StepModel = Model::new();
    let a = model.create_entity("A".to_string(), EntityType::Agent);
    set_int(&mut model, a, "age", 0);
    install(
        &mut model,
        a,
        "age_increment",
        "increment_age",
        StepAction::IncrementAge,
        None,
        true,
    );
    model.simulate();
    assert_eq!(int_state(&model, a, "age"), Some(1));
    let faults = model.apply_results(vec![Cmd::RemoveFunction(a, "age_increment".to_string())]);
    assert!(faults.is_empty());
    assert!(model.get_entity(a).unwrap().get_function("age_increment").is_none());
    model.simulate();
    assert_eq!(int_state(&model, a, "age"), Some(1));
}

#[test]
fn nested_entity_creation_installs_functions() {
    let mut model: StepModel = Model::new();
    let faults = model.apply_results(vec![Cmd::CreateEntity(EntityCreationInfo {
        name: "Robot".to_string(),
        entity_type: EntityType::Agent,
        initial_state: vec![("age".to_string(), Value::Integer(7))],
        functions: vec![FunctionCreationInfo {
            name: "age_increment".to_string(),
            initial_parameters: vec![("rate".to_string(), Value::Integer(1))],
            processes: vec![ProcessCreationInfo {
                name: "increment_age".to_string(),
                action: StepAction::IncrementAge,
                condition: None,
            }],
        }],
        relations: vec![],
    })]);
    assert!(faults.is_empty());
    let robot = model.get_entities_by_name("Robot")[0];
    assert_eq!(int_state(&model, robot, "age"), Some(7));
    let has_process = {
        let entity = model.get_entity(robot).unwrap();
        let f = entity.get_function("age_increment").unwrap();
        assert!(!f.is_active());
        f.get_process("increment_age").is_some()
    };
    assert!(has_process);
    // the nested process is registered but its function starts inactive
    model.simulate();
    assert_eq!(int_state(&model, robot, "age"), Some(7));
    model.activate_function_internal(robot, "age_increment");
    model.simulate();
    assert_eq!(int_state(&model, robot, "age"), Some(8));
}

#[test]
fn graph_integrity_maintained() {
    let mut model: StepModel = Model::new();
    model
        .define_relationship(
            "knows".to_string(),
            EntityType::Agent,
            EntityType::Agent,
            RelationType::ManyToMany,
        )
        .unwrap();
    let a = model.create_entity("A".to_string(), EntityType::Agent);
    let b = model.create_entity("B".to_string(), EntityType::Agent);
    let c = model.create_entity("C".to_string(), EntityType::Agent);
    model.add_relation("knows".to_string(), a, b).unwrap();
    model.add_relation("knows".to_string(), b, c).unwrap();
    let rid = model.add_relation("knows".to_string(), a, c).unwrap();
    model.remove_relation(rid).unwrap();
    install(&mut model, c, "grim", "reap", StepAction::DeleteEntity(b), None, true);
    model.simulate();
    // every remaining relation resolves at both ends, and every
    // back-reference points at a live relation
    for relation in model.get_all_relations() {
        assert!(model.get_entity(relation.entity1).is_some());
        assert!(model.get_entity(relation.entity2).is_some());
    }
    for entity in model.get_all_entities() {
        for rid in entity.get_all_relations() {
            assert!(model.get_relation(rid).is_some());
        }
    }
    assert!(model.get_all_relations().is_empty());
}

#[test]
fn apply_relation_fault_variants() {
    let mut model: StepModel = Model::new();
    model
        .define_relationship(
            "pairs".to_string(),
            EntityType::Agent,
            EntityType::Agent,
            RelationType::OneToOne,
        )
        .unwrap();
    let a = model.create_entity("A".to_string(), EntityType::Agent);
    let b = model.create_entity("B".to_string(), EntityType::Agent);
    let c = model.create_entity("C".to_string(), EntityType::Agent);
    let spot = model.create_entity("Square".to_string(), EntityType::Spot);
    model.add_relation("pairs".to_string(), a, b).unwrap();

    fn link(
        source: Option<u64>,
        target: Option<u64>,
        target_name: Option<&str>,
    ) -> Cmd {
        Cmd::CreateRelation(RelationCreationInfo {
            name: "pairs".to_string(),
            source_entity_id: source,
            target_entity_id: target,
            target_entity_name: target_name.map(|s| s.to_string()),
            metadata: None,
        })
    }

    let faults = model.apply_results(vec![
        // applied directly, no emitting process: no source to default to
        link(None, Some(b), None),
        link(Some(a), None, None),
        link(Some(a), None, Some("Nobody")),
        link(Some(a), Some(999), None),
        link(Some(a), Some(spot), None),
        link(Some(a), Some(c), None),
    ]);
    assert_eq!(faults.len(), 6);
    assert!(matches!(faults[0], ApplyFault::SourceEntityMissing));
    assert!(matches!(faults[1], ApplyFault::TargetEntityMissing));
    assert!(matches!(
        &faults[2],
        ApplyFault::TargetEntityNameNotFound(name) if name == "Nobody"
    ));
    assert!(matches!(faults[3], ApplyFault::EntityMissing(999)));
    assert!(matches!(
        &faults[4],
        ApplyFault::WrongRelationEntityTypes(name) if name == "pairs"
    ));
    assert!(matches!(
        &faults[5],
        ApplyFault::CardinalityViolation(name, RelationType::OneToOne) if name == "pairs"
    ));
    // the failed commands were dropped: the table still holds one relation
    assert_eq!(model.get_all_relations().len(), 1);
}

#[test]
fn remove_function_scoped_to_its_entity() {
    let mut model: StepModel = Model::new();
    let a = model.create_entity("A".to_string(), EntityType::Agent);
    let b = model.create_entity("B".to_string(), EntityType::Agent);
    set_int(&mut model, a, "age", 0);
    set_int(&mut model, b, "age", 0);
    // both entities own a function named "age_increment"
    install(&mut model, a, "age_increment", "increment_age", StepAction::IncrementAge, None, true);
    install(&mut model, b, "age_increment", "increment_age", StepAction::IncrementAge, None, true);
    let faults = model.apply_results(vec![Cmd::RemoveFunction(a, "age_increment".to_string())]);
    assert!(faults.is_empty());
    assert!(model.get_entity(a).unwrap().get_function("age_increment").is_none());
    assert!(model.get_entity(b).unwrap().get_function("age_increment").is_some());
    model.simulate();
    // only b's same-named function keeps running
    assert_eq!(int_state(&model, a, "age"), Some(0));
    assert_eq!(int_state(&model, b, "age"), Some(1));
}

#[test]
fn remove_process_scoped_to_its_function() {
    let mut model: StepModel = Model::new();
    let a = model.create_entity("A".to_string(), EntityType::Agent);
    let b = model.create_entity("B".to_string(), EntityType::Agent);
    set_int(&mut model, a, "age", 0);
    set_int(&mut model, b, "age", 0);
    // both entities own a process named "increment_age"
    install(&mut model, a, "growth", "increment_age", StepAction::IncrementAge, None, true);
    install(&mut model, b, "growth", "increment_age", StepAction::IncrementAge, None, true);
    let faults = model.apply_results(vec![Cmd::RemoveProcess(
        a,
        "growth".to_string(),
        "increment_age".to_string(),
    )]);
    assert!(faults.is_empty());
    model.simulate();
    // only b's same-named process keeps running
    assert_eq!(int_state(&model, a, "age"), Some(0));
    assert_eq!(int_state(&model, b, "age"), Some(1));
    // removing a name the function does not hold touches nothing
    model.apply_results(vec![Cmd::RemoveProcess(
        b,
        "growth".to_string(),
        "missing".to_string(),
    )]);
    model.simulate();
    assert_eq!(int_state(&model, b, "age"), Some(2));
}

#[test]
fn replacing_a_process_runs_it_once() {
    let mut model: StepModel = Model::new();
    let a = model.create_entity("A".to_string(), EntityType::Agent);
    set_int(&mut model, a, "age", 0);
    install(&mut model, a, "growth", "increment_age", StepAction::IncrementAge, None, true);
    // replacing the same-named process must not register a second
    // step-order reference: the step still runs it exactly once
    let faults = model.apply_results(vec![Cmd::AddProcess(
        a,
        "growth".to_string(),
        ProcessCreationInfo {
            name: "increment_age".to_string(),
            action: StepAction::IncrementAge,
            condition: None,
        },
    )]);
    assert!(faults.is_empty());
    assert_eq!(model.processes.len(), 1);
    model.simulate();
    assert_eq!(int_state(&model, a, "age"), Some(1));
}
