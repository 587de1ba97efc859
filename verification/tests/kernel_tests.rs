//! End-to-end tests of the simulation kernel: graph management, relation
//! cardinality, the two-phase simulation step, and the deferred commands.

use simkernel::context::{Condition, ExecutionContext, ProcessAction};
use simkernel::model::{Model, ModelError};
use simkernel::registry::RelationshipDefinition;
use simkernel::result::{
    EntityCreationInfo, ExecutionResult, FunctionCreationInfo, ProcessCreationInfo,
};
use simkernel::types::{EntityType, RelationType};
use simkernel::value::{Value, Variable};

/// The conditions the tests attach to processes.
pub enum TestCondition {
    Always,
    Never,
}

impl Condition for TestCondition {
    fn is_met(&self, _context: &ExecutionContext<'_>) -> bool {
        match self {
            TestCondition::Always => true,
            TestCondition::Never => false,
        }
    }
}

/// The process bodies the tests register.
pub enum TestAction {
    /// Read the owner's "age" and emit an update with age + 1.
    IncrementAge,
    /// Read the owner's "counter" and emit an update with counter + 1.
    IncrementCounter,
    /// Emit the creation of an entity named "Child" with age 0.
    CreateChild,
    /// Record in the owner's state whether an entity named "Child" is
    /// visible in the snapshot.
    ProbeChild,
    /// Emit the deletion of the given entity.
    DeleteEntity(u64),
    /// Emit nothing.
    Quiet,
}

type Cmd = ExecutionResult<TestAction, TestCondition>;

impl ProcessAction<TestCondition> for TestAction {
    fn run(&self, context: &ExecutionContext<'_>) -> Vec<Cmd> {
        let own_id = context.owner_entity.id;
        match self {
            TestAction::IncrementAge => {
                let mut out = Vec::new();
                if let Some(Value::Integer(age)) = context.owner_entity.get_state().get("age") {
                    out.push(Cmd::UpdateEntityState(
                        own_id,
                        "age".to_string(),
                        Value::Integer(age + 1),
                    ));
                }
                out
            }
            TestAction::IncrementCounter => {
                let mut out = Vec::new();
                if let Some(Value::Integer(c)) = context.owner_entity.get_state().get("counter") {
                    out.push(Cmd::UpdateEntityState(
                        own_id,
                        "counter".to_string(),
                        Value::Integer(c + 1),
                    ));
                }
                out
            }
            TestAction::CreateChild => {
                vec![Cmd::CreateEntity(EntityCreationInfo {
                    name: "Child".to_string(),
                    entity_type: EntityType::Agent,
                    initial_state: vec![("age".to_string(), Value::Integer(0))],
                    functions: vec![],
                    relations: vec![],
                })]
            }
            TestAction::ProbeChild => {
                let seen = !context.model.get_entities_by_name("Child").is_empty();
                vec![Cmd::UpdateEntityState(
                    own_id,
                    "saw_child".to_string(),
                    Value::Boolean(seen),
                )]
            }
            TestAction::DeleteEntity(id) => vec![Cmd::DeleteEntity(*id)],
            TestAction::Quiet => vec![],
        }
    }
}

type TestModel = Model<TestAction, TestCondition>;

fn agent(model: &mut TestModel, name: &str) -> u64 {
    model.create_entity(name.to_string(), EntityType::Agent)
}

/// Installs one single-process function on an entity and registers the
/// process in the model's step order.
fn install_process(
    model: &mut TestModel,
    entity_id: u64,
    function_name: &str,
    process_name: &str,
    action: TestAction,
    condition: Option<TestCondition>,
    activate: bool,
) {
    model.add_function_internal(
        entity_id,
        FunctionCreationInfo {
            name: function_name.to_string(),
            initial_parameters: vec![],
            processes: vec![ProcessCreationInfo {
                name: process_name.to_string(),
                action,
                condition,
            }],
        },
    );
    if activate {
        model.activate_function_internal(entity_id, function_name);
    }
}

#[test]
fn variable_set_get_remove() {
    let mut v = Variable::new();
    assert!(v.get("age").is_none());
    v.set("age".to_string(), Value::Integer(30));
    assert!(matches!(v.get("age"), Some(Value::Integer(30))));
    v.set("age".to_string(), Value::Integer(31));
    assert!(matches!(v.get("age"), Some(Value::Integer(31))));
    v.set("name".to_string(), Value::Text("John".to_string()));
    v.remove("age");
    assert!(v.get("age").is_none());
    assert!(v.get("name").is_some());
    v.remove("missing");
    assert_eq!(v.iter().len(), 1);
}

#[test]
fn value_clone_is_deep() {
    let nested = Value::Array(vec![
        Value::Integer(1),
        Value::Array(vec![Value::Boolean(true), Value::Text("x".to_string())]),
    ]);
    let copy = nested.clone();
    match (&nested, &copy) {
        (Value::Array(a), Value::Array(b)) => {
            assert_eq!(a.len(), b.len());
            assert!(matches!(b[0], Value::Integer(1)));
            match &b[1] {
                Value::Array(inner) => {
                    assert!(matches!(inner[0], Value::Boolean(true)));
                    assert!(matches!(&inner[1], Value::Text(s) if s == "x"));
                }
                _ => panic!("inner array lost"),
            }
        }
        _ => panic!("array lost"),
    }
}

#[test]
fn float_bits_round_trip() {
    let v = Value::Float(1.5f32.to_bits());
    match v {
        Value::Float(bits) => assert_eq!(f32::from_bits(bits), 1.5f32),
        _ => panic!("float lost"),
    }
}

#[test]
fn registry_overwrites_by_name() {
    let mut model: TestModel = Model::new();
    model
        .define_relationship(
            "knows".to_string(),
            EntityType::Agent,
            EntityType::Agent,
            RelationType::OneToOne,
        )
        .unwrap();
    model
        .define_relationship(
            "knows".to_string(),
            EntityType::Agent,
            EntityType::Agent,
            RelationType::ManyToMany,
        )
        .unwrap();
    let registry = &model.relationship_registry;
    assert_eq!(registry.iter_definitions().len(), 1);
    let def = registry.get_definition("knows").unwrap();
    assert_eq!(def.relation_type, RelationType::ManyToMany);
    assert!(registry.get_definition("likes").is_none());
}

#[test]
fn registry_remove_definition() {
    let mut registry = simkernel::registry::RelationshipRegistry::new();
    registry.add_definition(RelationshipDefinition {
        name: "knows".to_string(),
        source_type: EntityType::Agent,
        target_type: EntityType::Spot,
        relation_type: RelationType::OneToMany,
    });
    let removed = registry.remove_definition("knows").unwrap();
    assert_eq!(removed.name, "knows");
    assert!(registry.get_definition("knows").is_none());
    assert!(registry.remove_definition("knows").is_none());
}

#[test]
fn entity_queries() {
    let mut model: TestModel = Model::new();
    let a = agent(&mut model, "Alice");
    let b = agent(&mut model, "Bob");
    let s = model.create_entity("Square".to_string(), EntityType::Spot);
    let c = model.create_entity(
        "Alien".to_string(),
        EntityType::Custom("alien".to_string()),
    );

    assert_eq!(model.get_entity(a).unwrap().name, "Alice");
    assert!(model.get_entity(999).is_none());
    assert_eq!(model.get_all_entities().len(), 4);
    assert_eq!(model.get_entities_by_type(&EntityType::Agent), vec![a, b]);
    assert_eq!(model.get_entities_by_name("Bob"), vec![b]);
    assert_eq!(model.get_entities_by_name_prefix("Al"), vec![a, c]);
    assert_eq!(model.get_entities_by_name_prefix(""), vec![a, b, s, c]);
    let types = model.get_all_entity_types();
    assert_eq!(types.len(), 3);
    assert!(types.contains(&EntityType::Agent));
    assert!(types.contains(&EntityType::Spot));
    assert!(types.contains(&EntityType::Custom("alien".to_string())));
}

#[test]
fn entity_functions_owned() {
    let mut model: TestModel = Model::new();
    let a = agent(&mut model, "Alice");
    install_process(
        &mut model,
        a,
        "greet",
        "wave",
        TestAction::Quiet,
        None,
        false,
    );
    {
        let entity = model.get_entity(a).unwrap();
        assert_eq!(entity.get_all_functions().len(), 1);
        let f = entity.get_function("greet").unwrap();
        assert!(!f.is_active());
        assert!(f.get_process("wave").is_some());
        assert!(f.get_process("missing").is_none());
        assert!(entity.get_function("missing").is_none());
    }
    let entity = model.entities.iter_mut().find(|e| e.id == a).unwrap();
    let detached = entity.remove_function("greet").unwrap();
    assert_eq!(detached.name, "greet");
    assert!(model.get_entity(a).unwrap().get_function("greet").is_none());
}

fn knows_model() -> (TestModel, u64, u64, u64) {
    let mut model: TestModel = Model::new();
    model
        .define_relationship(
            "pairs".to_string(),
            EntityType::Agent,
            EntityType::Agent,
            RelationType::OneToOne,
        )
        .unwrap();
    let a = agent(&mut model, "A");
    let b = agent(&mut model, "B");
    let c = agent(&mut model, "C");
    (model, a, b, c)
}

#[test]
fn add_relation_success_links_both_endpoints() {
    let (mut model, a, b, _c) = knows_model();
    let rid = model.add_relation("pairs".to_string(), a, b).unwrap();
    let relation = model.get_relation(rid).unwrap();
    assert_eq!(relation.entity1, a);
    assert_eq!(relation.entity2, b);
    assert_eq!(*relation.get_type(), RelationType::OneToOne);
    assert_eq!(relation.get_other_entity(a), b);
    assert_eq!(relation.get_other_entity(b), a);
    // an unknown id is treated as the entity1 side by convention
    assert_eq!(relation.get_other_entity(999), a);
    assert_eq!(model.get_entity(a).unwrap().get_relations("pairs"), vec![rid]);
    assert_eq!(model.get_entity(b).unwrap().get_relations("pairs"), vec![rid]);
    assert_eq!(model.get_entity(a).unwrap().get_all_relations(), vec![rid]);
}

#[test]
fn add_relation_undefined_name_fails() {
    let (mut model, a, b, _c) = knows_model();
    match model.add_relation("likes".to_string(), a, b) {
        Err(ModelError::UndefinedRelation(name)) => assert_eq!(name, "likes"),
        other => panic!("expected UndefinedRelation, got {:?}", other.is_ok()),
    }
}

#[test]
fn add_relation_missing_entity_fails() {
    let (mut model, a, _b, _c) = knows_model();
    match model.add_relation("pairs".to_string(), a, 999) {
        Err(ModelError::EntityNotFound(id)) => assert_eq!(id, 999),
        other => panic!("expected EntityNotFound, got {:?}", other.is_ok()),
    }
    match model.add_relation("pairs".to_string(), 998, a) {
        Err(ModelError::EntityNotFound(id)) => assert_eq!(id, 998),
        other => panic!("expected EntityNotFound, got {:?}", other.is_ok()),
    }
}

#[test]
fn add_relation_wrong_types_fails() {
    let (mut model, a, _b, _c) = knows_model();
    let spot = model.create_entity("Square".to_string(), EntityType::Spot);
    match model.add_relation("pairs".to_string(), a, spot) {
        Err(ModelError::InvalidRelationEntityTypes) => {}
        other => panic!("expected InvalidRelationEntityTypes, got {:?}", other.is_ok()),
    }
}

#[test]
fn one_to_one_cardinality_enforced() {
    let (mut model, a, b, c) = knows_model();
    model.add_relation("pairs".to_string(), a, b).unwrap();
    match model.add_relation("pairs".to_string(), a, c) {
        Err(ModelError::InvalidRelationType {
            name,
            relation_type,
        }) => {
            assert_eq!(name, "pairs");
            assert_eq!(relation_type, RelationType::OneToOne);
        }
        other => panic!("expected InvalidRelationType, got {:?}", other.is_ok()),
    }
    match model.add_relation("pairs".to_string(), c, b) {
        Err(ModelError::InvalidRelationType { .. }) => {}
        other => panic!("expected InvalidRelationType, got {:?}", other.is_ok()),
    }
    // an unrelated pair is still allowed after the failures
    let d = agent(&mut model, "D");
    assert!(model.add_relation("pairs".to_string(), c, d).is_ok());
}

#[test]
fn one_to_many_limits_the_first_endpoint() {
    let mut model: TestModel = Model::new();
    model
        .define_relationship(
            "parent".to_string(),
            EntityType::Agent,
            EntityType::Agent,
            RelationType::OneToMany,
        )
        .unwrap();
    let p = agent(&mut model, "P");
    let x = agent(&mut model, "X");
    let y = agent(&mut model, "Y");
    model.add_relation("parent".to_string(), p, x).unwrap();
    // the first endpoint already takes part in a same-named relation
    assert!(matches!(
        model.add_relation("parent".to_string(), p, y),
        Err(ModelError::InvalidRelationType { .. })
    ));
    // the second endpoint is unconstrained: a fresh source may point at x
    assert!(model.add_relation("parent".to_string(), y, x).is_ok());
}

#[test]
fn many_to_one_limits_the_second_endpoint() {
    let mut model: TestModel = Model::new();
    model
        .define_relationship(
            "works_at".to_string(),
            EntityType::Agent,
            EntityType::Spot,
            RelationType::ManyToOne,
        )
        .unwrap();
    let w1 = agent(&mut model, "W1");
    let w2 = agent(&mut model, "W2");
    let shop = model.create_entity("Shop".to_string(), EntityType::Spot);
    model.add_relation("works_at".to_string(), w1, shop).unwrap();
    assert!(matches!(
        model.add_relation("works_at".to_string(), w2, shop),
        Err(ModelError::InvalidRelationType { .. })
    ));
}

#[test]
fn many_to_many_unconstrained() {
    let mut model: TestModel = Model::new();
    model
        .define_relationship(
            "knows".to_string(),
            EntityType::Agent,
            EntityType::Agent,
            RelationType::ManyToMany,
        )
        .unwrap();
    let a = agent(&mut model, "A");
    let b = agent(&mut model, "B");
    let c = agent(&mut model, "C");
    assert!(model.add_relation("knows".to_string(), a, b).is_ok());
    assert!(model.add_relation("knows".to_string(), a, c).is_ok());
    assert!(model.add_relation("knows".to_string(), b, c).is_ok());
    assert_eq!(model.get_all_relations().len(), 3);
    assert_eq!(model.get_entity(a).unwrap().get_relations("knows").len(), 2);
}

#[test]
fn remove_relation_unlinks_back_references() {
    let (mut model, a, b, _c) = knows_model();
    let rid = model.add_relation("pairs".to_string(), a, b).unwrap();
    model.remove_relation(rid).unwrap();
    assert!(model.get_relation(rid).is_none());
    assert!(model.get_entity(a).unwrap().get_relations("pairs").is_empty());
    assert!(model.get_entity(b).unwrap().get_relations("pairs").is_empty());
    assert!(matches!(
        model.remove_relation(rid),
        Err(ModelError::RelationNotFound(id)) if id == rid
    ));
}

#[test]
fn relation_metadata_round_trip() {
    let (mut model, a, b, _c) = knows_model();
    let rid = model.add_relation("pairs".to_string(), a, b).unwrap();
    let faults = model.apply_results(vec![
        Cmd::AddRelationMetadata(rid, "since".to_string(), Value::Integer(1999)),
        Cmd::AddRelationMetadata(rid, "close".to_string(), Value::Boolean(true)),
        Cmd::RemoveRelationMetadata(rid, "close".to_string()),
    ]);
    assert!(faults.is_empty());
    let relation = model.get_relation(rid).unwrap();
    assert!(matches!(
        relation.get_meta_value("since"),
        Some(Value::Integer(1999))
    ));
    assert!(relation.get_meta_value("close").is_none());
    assert_eq!(relation.iter_meta().len(), 1);
}
