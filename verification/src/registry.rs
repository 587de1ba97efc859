//! The relationship schema store: which relation names may connect which
//! entity types, and with what cardinality.

use vstd::prelude::*;
use crate::types::{EntityType, EntityTypeModel, RelationType};
use crate::value::str_eq;

verus! {

/// The mathematical content of a `RelationshipDefinition`.
pub struct DefinitionModel {
    pub name: Seq<char>,
    pub source_type: EntityTypeModel,
    pub target_type: EntityTypeModel,
    pub relation_type: RelationType,
}

/// One relationship schema entry: a relation name, the entity types required
/// at its two ends, and its cardinality class.
#[derive(Debug)]
pub struct RelationshipDefinition {
    pub name: String,
    pub source_type: EntityType,
    pub target_type: EntityType,
    pub relation_type: RelationType,
}

impl View for RelationshipDefinition {
    type V = DefinitionModel;

    open spec fn view(&self) -> DefinitionModel {
        DefinitionModel {
            name: self.name@,
            source_type: self.source_type@,
            target_type: self.target_type@,
            relation_type: self.relation_type,
        }
    }
}

impl Clone for RelationshipDefinition {
    fn clone(&self) -> (r: Self)
        ensures
            r@ == self@,
    {
        RelationshipDefinition {
            name: self.name.clone(),
            source_type: self.source_type.clone(),
            target_type: self.target_type.clone(),
            relation_type: self.relation_type,
        }
    }
}

/// The definitions a definition list denotes, in order.
pub open spec fn definitions_model(s: Seq<RelationshipDefinition>) -> Seq<DefinitionModel> {
    Seq::new(s.len(), |i: int| s[i]@)
}

/// The index of the first definition carrying `name`, if any.
pub open spec fn find_definition(defs: Seq<DefinitionModel>, name: Seq<char>) -> Option<int>
    decreases defs.len(),
{
    if defs.len() == 0 {
        None
    } else if defs.first().name == name {
        Some(0int)
    } else {
        match find_definition(defs.drop_first(), name) {
            Some(i) => Some(i + 1),
            None => None,
        }
    }
}

/// `find_definition` returns the first index carrying the name, and `None`
/// exactly when no definition carries it.
pub proof fn lemma_find_definition(defs: Seq<DefinitionModel>, name: Seq<char>)
    ensures
        match find_definition(defs, name) {
            Some(i) => 0 <= i < defs.len() && defs[i].name == name && forall|j: int|
                0 <= j < i ==> (#[trigger] defs[j]).name != name,
            None => forall|j: int| 0 <= j < defs.len() ==> (#[trigger] defs[j]).name != name,
        },
    decreases defs.len(),
{
    if defs.len() > 0 {
        let rest = defs.drop_first();
        lemma_find_definition(rest, name);
        if defs.first().name == name {
            assert(defs[0] == defs.first());
        } else {
            match find_definition(rest, name) {
                Some(i) => {
                    assert(defs[i + 1] == rest[i]);
                    assert forall|j: int| 0 <= j < i + 1 implies (#[trigger] defs[j]).name
                        != name by {
                        if j == 0 {
                            assert(defs[0] == defs.first());
                        } else {
                            assert(defs[j] == rest[j - 1]);
                        }
                    }
                },
                None => {
                    assert forall|j: int| 0 <= j < defs.len() implies (#[trigger] defs[j]).name
                        != name by {
                        if j == 0 {
                            assert(defs[0] == defs.first());
                        } else {
                            assert(defs[j] == rest[j - 1]);
                        }
                    }
                },
            }
        }
    }
}

/// The schema store: a name-keyed set of relationship definitions, where
/// registering a name again overwrites the earlier definition.
#[derive(Debug)]
pub struct RelationshipRegistry {
    pub definitions: Vec<RelationshipDefinition>,
}

impl View for RelationshipRegistry {
    type V = Seq<DefinitionModel>;

    open spec fn view(&self) -> Seq<DefinitionModel> {
        definitions_model(self.definitions@)
    }
}

impl RelationshipRegistry {
    /// Each relation name appears at most once.
    pub open spec fn wf(&self) -> bool {
        forall|i: int, j: int|
            0 <= i < j < self@.len() ==> self@[i].name != self@[j].name
    }

    /// An empty registry.
    pub fn new() -> (r: RelationshipRegistry)
        ensures
            r.wf(),
            r@ =~= Seq::<DefinitionModel>::empty(),
    {
        RelationshipRegistry { definitions: Vec::new() }
    }

    /// Registers a definition; a definition already carrying the same name is
    /// silently overwritten.
    pub fn add_definition(&mut self, definition: RelationshipDefinition)
        requires
            old(self).wf(),
        ensures
            final(self).wf(),
            final(self)@ =~= match find_definition(old(self)@, definition@.name) {
                Some(i) => old(self)@.update(i, definition@),
                None => old(self)@.push(definition@),
            },
    {
        let n = self.definitions.len();
        let mut i: usize = 0;
        while i < n
            invariant
                old(self).wf(),
                n == self.definitions@.len(),
                i <= n,
                self == old(self),
                forall|t: int| 0 <= t < i ==> self@[t].name != definition@.name,
            decreases n - i,
        {
            if str_eq(self.definitions[i].name.as_str(), definition.name.as_str()) {
                proof {
                    lemma_find_definition(self@, definition@.name);
                    assert(self@[i as int] == self.definitions@[i as int]@);
                    assert(find_definition(self@, definition@.name) == Some(i as int));
                }
                self.definitions[i] = definition;
                proof {
                    assert(self@ =~= old(self)@.update(i as int, definition@));
                    assert forall|a: int, b: int| 0 <= a < b < self@.len() implies self@[a].name
                        != self@[b].name by {
                        assert(old(self)@[a].name != old(self)@[b].name);
                        assert(self@[a].name == old(self)@[a].name);
                        assert(self@[b].name == old(self)@[b].name);
                    }
                }
                return ;
            }
            proof {
                assert(self@[i as int] == self.definitions@[i as int]@);
            }
            i = i + 1;
        }
        proof {
            lemma_find_definition(self@, definition@.name);
            assert(find_definition(self@, definition@.name) is None);
        }
        self.definitions.push(definition);
        proof {
            assert(self@ =~= old(self)@.push(definition@));
        }
    }

    /// Looks a definition up by relation name.
    pub fn get_definition(&self, name: &str) -> (r: Option<&RelationshipDefinition>)
        ensures
            match r {
                Some(d) => find_definition(self@, name@) matches Some(i) && d@ == self@[i],
                None => find_definition(self@, name@) is None,
            },
    {
        let n = self.definitions.len();
        let mut i: usize = 0;
        while i < n
            invariant
                n == self.definitions@.len(),
                i <= n,
                forall|t: int| 0 <= t < i ==> self@[t].name != name@,
            decreases n - i,
        {
            if str_eq(self.definitions[i].name.as_str(), name) {
                proof {
                    lemma_find_definition(self@, name@);
                    assert(self@[i as int] == self.definitions@[i as int]@);
                    assert(find_definition(self@, name@) == Some(i as int));
                }
                return Some(&self.definitions[i]);
            }
            proof {
                assert(self@[i as int] == self.definitions@[i as int]@);
            }
            i = i + 1;
        }
        proof {
            lemma_find_definition(self@, name@);
        }
        None
    }

    /// Unregisters and returns the definition carrying `name`, if any.
    pub fn remove_definition(&mut self, name: &str) -> (r: Option<RelationshipDefinition>)
        requires
            old(self).wf(),
        ensures
            final(self).wf(),
            match r {
                Some(d) => find_definition(old(self)@, name@) matches Some(i) && d@ == old(
                    self,
                )@[i] && final(self)@ =~= old(self)@.remove(i),
                None => find_definition(old(self)@, name@) is None && final(self)@ == old(
                    self,
                )@,
            },
    {
        let n = self.definitions.len();
        let mut i: usize = 0;
        while i < n
            invariant
                old(self).wf(),
                n == self.definitions@.len(),
                i <= n,
                self == old(self),
                forall|t: int| 0 <= t < i ==> self@[t].name != name@,
            decreases n - i,
        {
            if str_eq(self.definitions[i].name.as_str(), name) {
                proof {
                    lemma_find_definition(self@, name@);
                    assert(self@[i as int] == self.definitions@[i as int]@);
                    assert(find_definition(self@, name@) == Some(i as int));
                }
                let d = self.definitions.remove(i);
                proof {
                    assert(self@ =~= old(self)@.remove(i as int));
                    assert forall|a: int, b: int| 0 <= a < b < self@.len() implies self@[a].name
                        != self@[b].name by {
                        let oa: int = if a < i as int { a } else { a + 1 };
                        let ob: int = if b < i as int { b } else { b + 1 };
                        assert(self@[a] == old(self)@[oa]);
                        assert(self@[b] == old(self)@[ob]);
                        assert(old(self)@[oa].name != old(self)@[ob].name);
                    }
                }
                return Some(d);
            }
            proof {
                assert(self@[i as int] == self.definitions@[i as int]@);
            }
            i = i + 1;
        }
        proof {
            lemma_find_definition(self@, name@);
        }
        None
    }

    /// The registered definitions, in registration order.
    pub fn iter_definitions(&self) -> (r: &Vec<RelationshipDefinition>)
        ensures
            r@ == self.definitions@,
    {
        &self.definitions
    }
}

} // verus!
