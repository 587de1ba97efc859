//! Entity type tags and relation cardinality classes.

use vstd::prelude::*;

verus! {

/// The mathematical content of an `EntityType`.
pub enum EntityTypeModel {
    Agent,
    Spot,
    AgentSet,
    SpotSet,
    Custom(Seq<char>),
}

/// The type tag carried by every entity; relationship definitions constrain
/// which tags may stand at each end of a relation.
#[derive(Debug)]
pub enum EntityType {
    Agent,
    Spot,
    AgentSet,
    SpotSet,
    Custom(String),
}

impl View for EntityType {
    type V = EntityTypeModel;

    open spec fn view(&self) -> EntityTypeModel {
        match self {
            EntityType::Agent => EntityTypeModel::Agent,
            EntityType::Spot => EntityTypeModel::Spot,
            EntityType::AgentSet => EntityTypeModel::AgentSet,
            EntityType::SpotSet => EntityTypeModel::SpotSet,
            EntityType::Custom(s) => EntityTypeModel::Custom(s@),
        }
    }
}

impl Clone for EntityType {
    fn clone(&self) -> (r: Self)
        ensures
            r@ == self@,
    {
        match self {
            EntityType::Agent => EntityType::Agent,
            EntityType::Spot => EntityType::Spot,
            EntityType::AgentSet => EntityType::AgentSet,
            EntityType::SpotSet => EntityType::SpotSet,
            EntityType::Custom(s) => EntityType::Custom(s.clone()),
        }
    }
}

impl PartialEq for EntityType {
    fn eq(&self, other: &EntityType) -> (r: bool) {
        match (self, other) {
            (EntityType::Agent, EntityType::Agent) => true,
            (EntityType::Spot, EntityType::Spot) => true,
            (EntityType::AgentSet, EntityType::AgentSet) => true,
            (EntityType::SpotSet, EntityType::SpotSet) => true,
            (EntityType::Custom(a), EntityType::Custom(b)) => crate::value::str_eq(
                a.as_str(),
                b.as_str(),
            ),
            _ => false,
        }
    }
}

impl Eq for EntityType {

}

impl vstd::std_specs::cmp::PartialEqSpecImpl for EntityType {
    open spec fn obeys_eq_spec() -> bool {
        true
    }

    open spec fn eq_spec(&self, other: &EntityType) -> bool {
        self@ == other@
    }
}

/// The cardinality class of a relation name: how many same-named relations
/// each endpoint may take part in.
#[derive(Debug, Clone, Copy, PartialEq, Eq, Structural)]
pub enum RelationType {
    OneToOne,
    OneToMany,
    ManyToOne,
    ManyToMany,
}

} // verus!
