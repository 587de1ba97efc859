//! Simulation nodes: identity, state, owned behavior functions, and
//! back-references to incident relations.

use vstd::prelude::*;
use crate::function::{find_process, processes_model, Function, FunctionModel};
use crate::types::{EntityType, EntityTypeModel};
use crate::value::{str_eq, Value, ValueModel, Variable};

verus! {

/// The mathematical content of one relation back-reference.
pub struct RelationRefModel {
    pub name: Seq<char>,
    pub relation_id: u64,
}

/// A back-reference from an entity to one incident relation, held by name
/// and relation id. Only the model maintains these; they never own the
/// relation.
pub struct RelationRef {
    pub name: String,
    pub relation_id: u64,
}

impl View for RelationRef {
    type V = RelationRefModel;

    open spec fn view(&self) -> RelationRefModel {
        RelationRefModel { name: self.name@, relation_id: self.relation_id }
    }
}

/// The mathematical content of an `Entity`.
pub struct EntityModel<A, C> {
    pub id: u64,
    pub name: Seq<char>,
    pub entity_type: EntityTypeModel,
    pub state: Map<Seq<char>, ValueModel>,
    pub functions: Seq<FunctionModel<A, C>>,
    pub relations: Seq<RelationRefModel>,
}

impl<A, C> EntityModel<A, C> {
    /// Function names are unique and each function is well formed.
    pub open spec fn wf(&self) -> bool {
        &&& forall|i: int, j: int|
            0 <= i < j < self.functions.len() ==> self.functions[i].name != self.functions[j].name
        &&& forall|i: int| 0 <= i < self.functions.len() ==> (#[trigger] self.functions[i]).wf()
    }

    /// Whether some back-reference carries `name`.
    pub open spec fn has_relation_named(&self, name: Seq<char>) -> bool {
        exists|i: int| 0 <= i < self.relations.len() && (#[trigger] self.relations[i]).name == name
    }
}

/// The functions a function list denotes, in order.
pub open spec fn functions_model<A, C>(s: Seq<Function<A, C>>) -> Seq<FunctionModel<A, C>> {
    Seq::new(s.len(), |i: int| s[i]@)
}

/// The back-references a reference list denotes, in order.
pub open spec fn backrefs_model(s: Seq<RelationRef>) -> Seq<RelationRefModel> {
    Seq::new(s.len(), |i: int| s[i]@)
}

/// The index of the first function carrying `name`, if any.
pub open spec fn find_function<A, C>(funcs: Seq<FunctionModel<A, C>>, name: Seq<char>) -> Option<
    int,
>
    decreases funcs.len(),
{
    if funcs.len() == 0 {
        None
    } else if funcs.first().name == name {
        Some(0int)
    } else {
        match find_function(funcs.drop_first(), name) {
            Some(i) => Some(i + 1),
            None => None,
        }
    }
}

/// `find_function` returns the first index carrying the name, and `None`
/// exactly when no function carries it.
pub proof fn lemma_find_function<A, C>(funcs: Seq<FunctionModel<A, C>>, name: Seq<char>)
    ensures
        match find_function(funcs, name) {
            Some(i) => 0 <= i < funcs.len() && funcs[i].name == name && forall|j: int|
                0 <= j < i ==> (#[trigger] funcs[j]).name != name,
            None => forall|j: int| 0 <= j < funcs.len() ==> (#[trigger] funcs[j]).name != name,
        },
    decreases funcs.len(),
{
    if funcs.len() > 0 {
        let rest = funcs.drop_first();
        lemma_find_function(rest, name);
        if funcs.first().name == name {
            assert(funcs[0] == funcs.first());
        } else {
            match find_function(rest, name) {
                Some(i) => {
                    assert(funcs[i + 1] == rest[i]);
                    assert forall|j: int| 0 <= j < i + 1 implies (#[trigger] funcs[j]).name
                        != name by {
                        if j == 0 {
                            assert(funcs[0] == funcs.first());
                        } else {
                            assert(funcs[j] == rest[j - 1]);
                        }
                    }
                },
                None => {
                    assert forall|j: int| 0 <= j < funcs.len() implies (#[trigger] funcs[j]).name
                        != name by {
                        if j == 0 {
                            assert(funcs[0] == funcs.first());
                        } else {
                            assert(funcs[j] == rest[j - 1]);
                        }
                    }
                },
            }
        }
    }
}

/// The relation ids of the back-references carrying `name`, in order.
pub open spec fn backref_ids_named(s: Seq<RelationRefModel>, name: Seq<char>) -> Seq<u64>
    decreases s.len(),
{
    if s.len() == 0 {
        Seq::empty()
    } else {
        let rest = backref_ids_named(s.drop_last(), name);
        if s.last().name == name {
            rest.push(s.last().relation_id)
        } else {
            rest
        }
    }
}

/// `backref_ids_named` lists exactly the ids of the back-references carrying
/// the name.
pub proof fn lemma_backref_ids_named(s: Seq<RelationRefModel>, name: Seq<char>)
    ensures
        backref_ids_named(s, name).len() == 0 <==> (forall|j: int|
            0 <= j < s.len() ==> (#[trigger] s[j]).name != name),
        forall|k: int|
            0 <= k < backref_ids_named(s, name).len() ==> exists|j: int|
                0 <= j < s.len() && (#[trigger] s[j]).name == name && s[j].relation_id == (
                #[trigger] backref_ids_named(s, name)[k]),
    decreases s.len(),
{
    if s.len() > 0 {
        let prefix = s.drop_last();
        lemma_backref_ids_named(prefix, name);
        assert(forall|j: int| 0 <= j < prefix.len() ==> #[trigger] prefix[j] == s[j]);
        assert(s[s.len() - 1] == s.last());
        let res = backref_ids_named(s, name);
        let pres = backref_ids_named(prefix, name);
        if s.last().name == name {
            assert(s[s.len() - 1].name == name);
        } else {
            if pres.len() == 0 {
                assert forall|j: int| 0 <= j < s.len() implies (#[trigger] s[j]).name != name by {
                    if j < s.len() - 1 {
                        assert(prefix[j] == s[j]);
                    } else {
                        assert(s[j] == s.last());
                    }
                }
            } else {
                let j = choose|j: int| 0 <= j < prefix.len() && (#[trigger] prefix[j]).name == name;
                assert(s[j].name == name);
            }
        }
        assert forall|k: int| 0 <= k < res.len() implies exists|j: int|
            0 <= j < s.len() && (#[trigger] s[j]).name == name && s[j].relation_id == (
        #[trigger] res[k]) by {
            if k < pres.len() {
                assert(res[k] == pres[k]);
                let j = choose|j: int|
                    0 <= j < prefix.len() && (#[trigger] prefix[j]).name == name
                        && prefix[j].relation_id == pres[k];
                assert(s[j].name == name && s[j].relation_id == res[k]);
            } else {
                assert(s.last().name == name && res[k] == s.last().relation_id);
                assert(s[s.len() - 1].name == name);
            }
        }
    }
}

/// The back-references left after dropping every reference to `relation_id`.
pub open spec fn backrefs_without(s: Seq<RelationRefModel>, relation_id: u64) -> Seq<
    RelationRefModel,
>
    decreases s.len(),
{
    if s.len() == 0 {
        Seq::empty()
    } else {
        let rest = backrefs_without(s.drop_last(), relation_id);
        if s.last().relation_id == relation_id {
            rest
        } else {
            rest.push(s.last())
        }
    }
}

/// `backrefs_without` keeps exactly the back-references to other relations.
pub proof fn lemma_backrefs_without(s: Seq<RelationRefModel>, relation_id: u64)
    ensures
        forall|k: int|
            0 <= k < backrefs_without(s, relation_id).len() ==> (#[trigger] backrefs_without(
                s,
                relation_id,
            )[k]).relation_id != relation_id && exists|j: int|
                0 <= j < s.len() && s[j] == backrefs_without(s, relation_id)[k],
        forall|j: int|
            0 <= j < s.len() && (#[trigger] s[j]).relation_id != relation_id ==> exists|k: int|
                0 <= k < backrefs_without(s, relation_id).len() && backrefs_without(
                    s,
                    relation_id,
                )[k] == s[j],
    decreases s.len(),
{
    if s.len() > 0 {
        let prefix = s.drop_last();
        lemma_backrefs_without(prefix, relation_id);
        assert(forall|j: int| 0 <= j < prefix.len() ==> #[trigger] prefix[j] == s[j]);
        assert(s[s.len() - 1] == s.last());
        let res = backrefs_without(s, relation_id);
        let pres = backrefs_without(prefix, relation_id);
        assert forall|k: int| 0 <= k < res.len() implies (#[trigger] res[k]).relation_id
            != relation_id && exists|j: int| 0 <= j < s.len() && s[j] == res[k] by {
            if k < pres.len() {
                assert(res[k] == pres[k]);
                let j = choose|j: int| 0 <= j < prefix.len() && prefix[j] == pres[k];
                assert(s[j] == res[k]);
            } else {
                assert(s[s.len() - 1] == res[k]);
            }
        }
        assert forall|j: int|
            0 <= j < s.len() && (#[trigger] s[j]).relation_id != relation_id implies exists|k: int|
            0 <= k < res.len() && res[k] == s[j] by {
            if j < prefix.len() {
                let k = choose|k: int| 0 <= k < pres.len() && pres[k] == prefix[j];
                assert(res[k] == s[j]);
            } else {
                assert(res[res.len() - 1] == s[j]);
            }
        }
    }
}

/// A simulation node: a stable id, a display name, a type tag, one state
/// store, a name-keyed set of owned functions, and back-references to the
/// relations it takes part in.
pub struct Entity<A, C> {
    pub id: u64,
    pub name: String,
    pub entity_type: EntityType,
    pub state: Variable,
    pub functions: Vec<Function<A, C>>,
    pub relations: Vec<RelationRef>,
}

impl<A, C> View for Entity<A, C> {
    type V = EntityModel<A, C>;

    open spec fn view(&self) -> EntityModel<A, C> {
        EntityModel {
            id: self.id,
            name: self.name@,
            entity_type: self.entity_type@,
            state: self.state@,
            functions: functions_model(self.functions@),
            relations: backrefs_model(self.relations@),
        }
    }
}

impl<A, C> Entity<A, C> {
    /// The representation keeps state and parameter keys unique.
    pub open spec fn rep_wf(&self) -> bool {
        &&& self.state.wf()
        &&& forall|i: int|
            0 <= i < self.functions@.len() ==> (#[trigger] self.functions@[i]).rep_wf()
    }

    /// A fresh entity with empty state and no functions or relations.
    pub fn new(id: u64, name: String, entity_type: EntityType) -> (r: Entity<A, C>)
        ensures
            r.rep_wf(),
            r@.wf(),
            r@.id == id,
            r@.name == name@,
            r@.entity_type == entity_type@,
            r@.state =~= Map::<Seq<char>, ValueModel>::empty(),
            r@.functions =~= Seq::<FunctionModel<A, C>>::empty(),
            r@.relations =~= Seq::<RelationRefModel>::empty(),
    {
        Entity {
            id,
            name,
            entity_type,
            state: Variable::new(),
            functions: Vec::new(),
            relations: Vec::new(),
        }
    }

    /// The entity's state store.
    pub fn get_state(&self) -> (r: &Variable)
        ensures
            r == &self.state,
    {
        &self.state
    }

    /// Adds a function; a function already carrying the same name is
    /// replaced.
    pub fn add_function(&mut self, function: Function<A, C>)
        requires
            old(self).rep_wf(),
            old(self)@.wf(),
            function.rep_wf(),
            function@.wf(),
        ensures
            final(self).rep_wf(),
            final(self)@.wf(),
            final(self)@ == (EntityModel {
                functions: match find_function(old(self)@.functions, function@.name) {
                    Some(i) => old(self)@.functions.update(i, function@),
                    None => old(self)@.functions.push(function@),
                },
                ..old(self)@
            }),
    {
        let ghost pre = self@.functions;
        let n = self.functions.len();
        let mut i: usize = 0;
        while i < n
            invariant
                old(self).rep_wf(),
                old(self)@.wf(),
                function.rep_wf(),
                function@.wf(),
                pre == old(self)@.functions,
                n == self.functions@.len(),
                i <= n,
                self == old(self),
                forall|t: int| 0 <= t < i ==> pre[t].name != function@.name,
            decreases n - i,
        {
            if str_eq(self.functions[i].name.as_str(), function.name.as_str()) {
                proof {
                    lemma_find_function(pre, function@.name);
                    assert(pre[i as int] == self.functions@[i as int]@);
                    assert(find_function(pre, function@.name) == Some(i as int));
                }
                self.functions[i] = function;
                proof {
                    assert(self@.functions =~= pre.update(i as int, function@));
                    assert forall|a: int, b: int|
                        0 <= a < b < self@.functions.len() implies self@.functions[a].name
                        != self@.functions[b].name by {
                        assert(pre[a].name != pre[b].name);
                        assert(self@.functions[a].name == pre[a].name);
                        assert(self@.functions[b].name == pre[b].name);
                    }
                    assert forall|t: int| 0 <= t < self@.functions.len() implies (
                    #[trigger] self@.functions[t]).wf() by {
                        if t != i as int {
                            assert(self@.functions[t] == pre[t]);
                        }
                    }
                    assert forall|t: int|
                        0 <= t < self.functions@.len() implies (
                    #[trigger] self.functions@[t]).rep_wf() by {
                        if t != i as int {
                            assert(self.functions@[t] == old(self).functions@[t]);
                        }
                    }
                    assert(self@ == (EntityModel {
                        functions: pre.update(i as int, function@),
                        ..old(self)@
                    }));
                }
                return ;
            }
            proof {
                assert(pre[i as int] == self.functions@[i as int]@);
            }
            i = i + 1;
        }
        proof {
            lemma_find_function(pre, function@.name);
            assert(find_function(pre, function@.name) is None);
        }
        self.functions.push(function);
        proof {
            assert(self@.functions =~= pre.push(function@));
            assert forall|t: int|
                0 <= t < self.functions@.len() implies (#[trigger] self.functions@[t]).rep_wf() by {
                if t < old(self).functions@.len() {
                    assert(self.functions@[t] == old(self).functions@[t]);
                }
            }
            assert(self@ == (EntityModel { functions: pre.push(function@), ..old(self)@ }));
        }
    }

    /// Looks a function up by name.
    pub fn get_function(&self, name: &str) -> (r: Option<&Function<A, C>>)
        ensures
            match r {
                Some(f) => find_function(self@.functions, name@) matches Some(i) && f@
                    == self@.functions[i],
                None => find_function(self@.functions, name@) is None,
            },
    {
        let n = self.functions.len();
        let mut i: usize = 0;
        while i < n
            invariant
                n == self.functions@.len(),
                i <= n,
                forall|t: int| 0 <= t < i ==> self@.functions[t].name != name@,
            decreases n - i,
        {
            if str_eq(self.functions[i].name.as_str(), name) {
                proof {
                    lemma_find_function(self@.functions, name@);
                    assert(self@.functions[i as int] == self.functions@[i as int]@);
                    assert(find_function(self@.functions, name@) == Some(i as int));
                }
                return Some(&self.functions[i]);
            }
            proof {
                assert(self@.functions[i as int] == self.functions@[i as int]@);
            }
            i = i + 1;
        }
        proof {
            lemma_find_function(self@.functions, name@);
        }
        None
    }

    /// The owned functions, in insertion order.
    pub fn get_all_functions(&self) -> (r: &Vec<Function<A, C>>)
        ensures
            r == &self.functions,
    {
        &self.functions
    }

    /// Detaches and returns the function carrying `name`, if any. The entity
    /// ceases to own it.
    pub fn remove_function(&mut self, name: &str) -> (r: Option<Function<A, C>>)
        requires
            old(self).rep_wf(),
            old(self)@.wf(),
        ensures
            final(self).rep_wf(),
            final(self)@.wf(),
            match r {
                Some(f) => find_function(old(self)@.functions, name@) matches Some(i) && f@ == old(
                    self,
                )@.functions[i] && final(self)@ == (EntityModel {
                    functions: old(self)@.functions.remove(i),
                    ..old(self)@
                }),
                None => find_function(old(self)@.functions, name@) is None && final(self)@ == old(
                    self,
                )@,
            },
    {
        let ghost pre = self@.functions;
        let n = self.functions.len();
        let mut i: usize = 0;
        while i < n
            invariant
                old(self).rep_wf(),
                old(self)@.wf(),
                pre == old(self)@.functions,
                n == self.functions@.len(),
                i <= n,
                self == old(self),
                forall|t: int| 0 <= t < i ==> pre[t].name != name@,
            decreases n - i,
        {
            if str_eq(self.functions[i].name.as_str(), name) {
                proof {
                    lemma_find_function(pre, name@);
                    assert(pre[i as int] == self.functions@[i as int]@);
                    assert(find_function(pre, name@) == Some(i as int));
                }
                let f = self.functions.remove(i);
                proof {
                    assert(self@.functions =~= pre.remove(i as int));
                    assert forall|a: int, b: int|
                        0 <= a < b < self@.functions.len() implies self@.functions[a].name
                        != self@.functions[b].name by {
                        let oa: int = if a < i as int { a } else { a + 1 };
                        let ob: int = if b < i as int { b } else { b + 1 };
                        assert(self@.functions[a] == pre[oa]);
                        assert(self@.functions[b] == pre[ob]);
                        assert(pre[oa].name != pre[ob].name);
                    }
                    assert forall|t: int| 0 <= t < self@.functions.len() implies (
                    #[trigger] self@.functions[t]).wf() by {
                        let ot: int = if t < i as int { t } else { t + 1 };
                        assert(self@.functions[t] == pre[ot]);
                    }
                    assert forall|t: int|
                        0 <= t < self.functions@.len() implies (
                    #[trigger] self.functions@[t]).rep_wf() by {
                        let ot: int = if t < i as int { t } else { t + 1 };
                        assert(self.functions@[t] == old(self).functions@[ot]);
                    }
                    assert(self@ == (EntityModel {
                        functions: pre.remove(i as int),
                        ..old(self)@
                    }));
                }
                return Some(f);
            }
            proof {
                assert(pre[i as int] == self.functions@[i as int]@);
            }
            i = i + 1;
        }
        proof {
            lemma_find_function(pre, name@);
            assert(self@ == old(self)@);
        }
        None
    }

    /// The ids of the incident relations registered under `name`, in order.
    pub fn get_relations(&self, name: &str) -> (r: Vec<u64>)
        ensures
            r@ == backref_ids_named(self@.relations, name@),
    {
        let n = self.relations.len();
        let mut out: Vec<u64> = Vec::new();
        let mut i: usize = 0;
        while i < n
            invariant
                n == self.relations@.len(),
                i <= n,
                out@ == backref_ids_named(self@.relations.subrange(0, i as int), name@),
            decreases n - i,
        {
            let ghost prefix = self@.relations.subrange(0, i as int);
            let ghost next = self@.relations.subrange(0, i as int + 1);
            proof {
                assert(next.drop_last() =~= prefix);
                assert(next.last() == self@.relations[i as int]);
                assert(self@.relations[i as int] == self.relations@[i as int]@);
            }
            if str_eq(self.relations[i].name.as_str(), name) {
                out.push(self.relations[i].relation_id);
            }
            i = i + 1;
        }
        proof {
            assert(self@.relations.subrange(0, n as int) =~= self@.relations);
        }
        out
    }

    /// The ids of all incident relations, in back-reference order.
    pub fn get_all_relations(&self) -> (r: Vec<u64>)
        ensures
            r@.len() == self@.relations.len(),
            forall|k: int|
                0 <= k < r@.len() ==> r@[k] == (#[trigger] self@.relations[k]).relation_id,
    {
        let n = self.relations.len();
        let mut out: Vec<u64> = Vec::new();
        let mut i: usize = 0;
        while i < n
            invariant
                n == self.relations@.len(),
                i <= n,
                out@.len() == i,
                forall|k: int|
                    0 <= k < i ==> out@[k] == (#[trigger] self@.relations[k]).relation_id,
            decreases n - i,
        {
            proof {
                assert(self@.relations[i as int] == self.relations@[i as int]@);
            }
            out.push(self.relations[i].relation_id);
            i = i + 1;
        }
        out
    }

    /// Registers a back-reference to an incident relation. Maintained by the
    /// model only.
    pub(crate) fn add_relation(&mut self, name: String, relation_id: u64)
        ensures
            final(self).rep_wf() == old(self).rep_wf(),
            final(self)@ == (EntityModel {
                relations: old(self)@.relations.push(
                    RelationRefModel { name: name@, relation_id },
                ),
                ..old(self)@
            }),
    {
        self.relations.push(RelationRef { name, relation_id });
        proof {
            assert(self@.relations =~= old(self)@.relations.push(
                RelationRefModel { name: name@, relation_id },
            ));
            assert(self@ == (EntityModel {
                relations: old(self)@.relations.push(
                    RelationRefModel { name: name@, relation_id },
                ),
                ..old(self)@
            }));
        }
    }

    /// Drops every back-reference to `relation_id`. Maintained by the model
    /// only.
    pub(crate) fn remove_relation(&mut self, relation_id: u64)
        ensures
            final(self).rep_wf() == old(self).rep_wf(),
            final(self)@ == (EntityModel {
                relations: backrefs_without(old(self)@.relations, relation_id),
                ..old(self)@
            }),
    {
        let ghost pre = self@.relations;
        let n = self.relations.len();
        let mut out: Vec<RelationRef> = Vec::new();
        let mut i: usize = 0;
        while i < n
            invariant
                n == self.relations@.len(),
                self == old(self),
                pre == self@.relations,
                i <= n,
                backrefs_model(out@) == backrefs_without(pre.subrange(0, i as int), relation_id),
            decreases n - i,
        {
            let ghost prefix = pre.subrange(0, i as int);
            let ghost next = pre.subrange(0, i as int + 1);
            proof {
                assert(next.drop_last() =~= prefix);
                assert(next.last() == pre[i as int]);
                assert(pre[i as int] == self.relations@[i as int]@);
            }
            if self.relations[i].relation_id != relation_id {
                let name = self.relations[i].name.clone();
                let rid = self.relations[i].relation_id;
                out.push(RelationRef { name, relation_id: rid });
                proof {
                    assert(backrefs_model(out@) =~= backrefs_without(next, relation_id));
                }
            } else {
                proof {
                    assert(backrefs_model(out@) =~= backrefs_without(next, relation_id));
                }
            }
            i = i + 1;
        }
        proof {
            assert(pre.subrange(0, n as int) =~= pre);
        }
        self.relations = out;
        proof {
            assert(self@ == (EntityModel {
                relations: backrefs_without(pre, relation_id),
                ..old(self)@
            }));
        }
    }
}

} // verus!
