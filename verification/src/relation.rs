//! Typed, metadata-carrying edges between two entities.

use vstd::prelude::*;
use crate::types::RelationType;
use crate::value::{Value, ValueModel, Variable};

verus! {

/// The mathematical content of a `Relation`.
pub struct RelationModel {
    pub id: u64,
    pub name: Seq<char>,
    pub relation_type: RelationType,
    pub entity1: u64,
    pub entity2: u64,
    pub meta: Map<Seq<char>, ValueModel>,
}

impl RelationModel {
    /// Whether the relation touches the entity carrying `entity_id`.
    pub open spec fn incident_to(&self, entity_id: u64) -> bool {
        self.entity1 == entity_id || self.entity2 == entity_id
    }
}

/// A typed, named edge between two entities, owned by the model and carrying
/// its own metadata. The endpoints are stored as entity ids resolved through
/// the model's lookup table.
pub struct Relation {
    pub id: u64,
    pub name: String,
    pub relation_type: RelationType,
    pub entity1: u64,
    pub entity2: u64,
    pub meta: Variable,
}

impl View for Relation {
    type V = RelationModel;

    open spec fn view(&self) -> RelationModel {
        RelationModel {
            id: self.id,
            name: self.name@,
            relation_type: self.relation_type,
            entity1: self.entity1,
            entity2: self.entity2,
            meta: self.meta@,
        }
    }
}

impl Relation {
    /// The representation keeps each metadata key at most once.
    pub open spec fn rep_wf(&self) -> bool {
        self.meta.wf()
    }

    /// A fresh relation with empty metadata.
    pub fn new(id: u64, name: String, relation_type: RelationType, entity1: u64, entity2: u64)
        -> (r: Relation)
        ensures
            r.rep_wf(),
            r@.id == id,
            r@.name == name@,
            r@.relation_type == relation_type,
            r@.entity1 == entity1,
            r@.entity2 == entity2,
            r@.meta =~= Map::<Seq<char>, ValueModel>::empty(),
    {
        Relation { id, name, relation_type, entity1, entity2, meta: Variable::new() }
    }

    /// The opposite endpoint of `entity_id`. By convention, an id matching
    /// neither endpoint is treated as the `entity1` side, so the `entity1`
    /// endpoint is returned only for the `entity1` id itself.
    pub fn get_other_entity(&self, entity_id: u64) -> (r: u64)
        ensures
            r == (if self@.entity1 == entity_id {
                self@.entity2
            } else {
                self@.entity1
            }),
    {
        if self.entity1 == entity_id {
            self.entity2
        } else {
            self.entity1
        }
    }

    /// The relation's cardinality class.
    pub fn get_type(&self) -> (r: &RelationType)
        ensures
            *r == self@.relation_type,
    {
        &self.relation_type
    }

    /// The relation's metadata.
    pub fn get_meta(&self) -> (r: &Variable)
        ensures
            r == &self.meta,
    {
        &self.meta
    }

    /// Upserts one metadata entry.
    pub fn add_metadata(&mut self, key: String, value: Value)
        requires
            old(self).rep_wf(),
        ensures
            final(self).rep_wf(),
            final(self)@ == (RelationModel {
                meta: old(self)@.meta.insert(key@, value@),
                ..old(self)@
            }),
    {
        self.meta.set(key, value);
        proof {
            assert(self@.meta =~= old(self)@.meta.insert(key@, value@));
            assert(self@ == (RelationModel {
                meta: old(self)@.meta.insert(key@, value@),
                ..old(self)@
            }));
        }
    }

    /// Deletes one metadata entry, if present.
    pub fn remove_metadata(&mut self, key: &str)
        requires
            old(self).rep_wf(),
        ensures
            final(self).rep_wf(),
            final(self)@ == (RelationModel {
                meta: old(self)@.meta.remove(key@),
                ..old(self)@
            }),
    {
        self.meta.remove(key);
        proof {
            assert(self@.meta =~= old(self)@.meta.remove(key@));
            assert(self@ == (RelationModel {
                meta: old(self)@.meta.remove(key@),
                ..old(self)@
            }));
        }
    }

    /// A copy of one metadata entry, if present.
    pub fn get_meta_value(&self, key: &str) -> (r: Option<Value>)
        requires
            self.rep_wf(),
        ensures
            match r {
                Some(v) => self@.meta.contains_key(key@) && v@ == self@.meta[key@],
                None => !self@.meta.contains_key(key@),
            },
    {
        match self.meta.get(key) {
            Some(v) => Some(v.clone()),
            None => None,
        }
    }

    /// The metadata entries in insertion order, for read-only traversal.
    pub fn iter_meta(&self) -> (r: &Vec<(String, Value)>)
        ensures
            r@ == self.meta.entries@,
    {
        self.meta.iter()
    }
}

/// The index of the first relation carrying `id`, if any.
pub open spec fn find_relation(rels: Seq<RelationModel>, id: u64) -> Option<int>
    decreases rels.len(),
{
    if rels.len() == 0 {
        None
    } else if rels.first().id == id {
        Some(0int)
    } else {
        match find_relation(rels.drop_first(), id) {
            Some(i) => Some(i + 1),
            None => None,
        }
    }
}

/// `find_relation` returns the first index carrying the id, and `None`
/// exactly when no relation carries it.
pub proof fn lemma_find_relation(rels: Seq<RelationModel>, id: u64)
    ensures
        match find_relation(rels, id) {
            Some(i) => 0 <= i < rels.len() && rels[i].id == id && forall|j: int|
                0 <= j < i ==> (#[trigger] rels[j]).id != id,
            None => forall|j: int| 0 <= j < rels.len() ==> (#[trigger] rels[j]).id != id,
        },
    decreases rels.len(),
{
    if rels.len() > 0 {
        let rest = rels.drop_first();
        lemma_find_relation(rest, id);
        if rels.first().id == id {
            assert(rels[0] == rels.first());
        } else {
            match find_relation(rest, id) {
                Some(i) => {
                    assert(rels[i + 1] == rest[i]);
                    assert forall|j: int| 0 <= j < i + 1 implies (#[trigger] rels[j]).id != id by {
                        if j == 0 {
                            assert(rels[0] == rels.first());
                        } else {
                            assert(rels[j] == rest[j - 1]);
                        }
                    }
                },
                None => {
                    assert forall|j: int| 0 <= j < rels.len() implies (#[trigger] rels[j]).id
                        != id by {
                        if j == 0 {
                            assert(rels[0] == rels.first());
                        } else {
                            assert(rels[j] == rest[j - 1]);
                        }
                    }
                },
            }
        }
    }
}

impl Clone for Relation {
    fn clone(&self) -> (r: Self)
        ensures
            r@ == self@,
            self.rep_wf() ==> r.rep_wf(),
    {
        Relation {
            id: self.id,
            name: self.name.clone(),
            relation_type: self.relation_type,
            entity1: self.entity1,
            entity2: self.entity2,
            meta: self.meta.clone(),
        }
    }
}

} // verus!
