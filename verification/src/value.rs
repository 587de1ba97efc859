//! Dynamically typed values and the ordered key-value store (`Variable`)
//! used for entity state, function parameters, and relation metadata.

use vstd::prelude::*;

verus! {

broadcast use vstd::std_specs::vec::group_vec_axioms, vstd::seq::axiom_seq_index_decreases;

/// Relies on `str`'s `==` (its `PartialEq`): character-for-character equality
/// of the two string slices.
#[verifier::external_body]
pub(crate) fn str_eq(a: &str, b: &str) -> (r: bool)
    ensures
        r == (a@ == b@),
{
    a == b
}

/// Relies on `str::starts_with`: whether the characters of `prefix` are the
/// first characters of `s`.
#[verifier::external_body]
pub(crate) fn str_starts_with(s: &str, prefix: &str) -> (r: bool)
    ensures
        r == (prefix@.len() <= s@.len() && s@.subrange(0, prefix@.len() as int) == prefix@),
{
    s.starts_with(prefix)
}

/// The mathematical content of one `Value`: an integer, a float's bit
/// pattern, a character sequence, a boolean, or a nested array.
pub enum ValueModel {
    Integer(i32),
    Float(u32),
    Text(Seq<char>),
    Boolean(bool),
    Array(Seq<ValueModel>),
}

/// One dynamically typed value stored in a `Variable`.
///
/// Float entries carry the IEEE 754 bit pattern of an `f32`; a host program
/// converts with `f32::to_bits` / `f32::from_bits` at the boundary, so the
/// kernel itself never computes on floats.
pub enum Value {
    Integer(i32),
    Float(u32),
    Text(String),
    Boolean(bool),
    Array(Vec<Value>),
}

/// The mathematical content of a `Value`.
pub open spec fn value_model(v: Value) -> ValueModel
    decreases v,
{
    match v {
        Value::Integer(i) => ValueModel::Integer(i),
        Value::Float(bits) => ValueModel::Float(bits),
        Value::Text(s) => ValueModel::Text(s@),
        Value::Boolean(b) => ValueModel::Boolean(b),
        Value::Array(items) => ValueModel::Array(values_model(items@)),
    }
}

/// The mathematical content of each value in a sequence. The range test only
/// keeps the recursion well-founded; every element is in range.
pub open spec fn values_model(s: Seq<Value>) -> Seq<ValueModel>
    decreases s,
{
    Seq::new(
        s.len(),
        |i: int|
            if 0 <= i < s.len() {
                value_model(s[i])
            } else {
                ValueModel::Boolean(false)
            },
    )
}

impl View for Value {
    type V = ValueModel;

    open spec fn view(&self) -> ValueModel {
        value_model(*self)
    }
}

impl Clone for Value {
    fn clone(&self) -> (r: Self)
        ensures
            r@ == self@,
        decreases self,
    {
        match self {
            Value::Integer(i) => Value::Integer(*i),
            Value::Float(bits) => Value::Float(*bits),
            Value::Text(s) => Value::Text(s.clone()),
            Value::Boolean(b) => Value::Boolean(*b),
            Value::Array(items) => {
                let mut out: Vec<Value> = Vec::new();
                let mut j: usize = 0;
                while j < items.len()
                    invariant
                        *self == Value::Array(*items),
                        j <= items@.len(),
                        out@.len() == j,
                        forall|t: int| 0 <= t < j ==> #[trigger] value_model(out@[t]) == value_model(items@[t]),
                    decreases items@.len() - j,
                {
                    proof {
                        assert(self->Array_0 == *items);
                        assert(decreases_to!(*self => self->Array_0));
                        assert(decreases_to!(*items => items@));
                        assert(decreases_to!(items@ => items@[j as int]));
                        assert(decreases_to!(*self => items@[j as int]));
                    }
                    let c = items[j].clone();
                    out.push(c);
                    j = j + 1;
                }
                proof {
                    assert forall|t: int| 0 <= t < out@.len() implies values_model(out@)[t]
                        == values_model(items@)[t] by {
                        assert(values_model(out@)[t] == value_model(out@[t]));
                        assert(values_model(items@)[t] == value_model(items@[t]));
                    }
                    assert(values_model(out@) =~= values_model(items@));
                }
                Value::Array(out)
            },
        }
    }
}

/// The map described by an entry list: later entries win, so an entry list
/// with distinct keys denotes each of its pairs.
pub open spec fn entries_model(entries: Seq<(String, Value)>) -> Map<Seq<char>, ValueModel>
    decreases entries.len(),
{
    if entries.len() == 0 {
        Map::empty()
    } else {
        entries_model(entries.drop_last()).insert(entries.last().0@, entries.last().1@)
    }
}

/// Whether an entry list holds each key at most once.
pub open spec fn keys_unique(entries: Seq<(String, Value)>) -> bool {
    forall|i: int, j: int|
        0 <= i < j < entries.len() ==> entries[i].0@ != entries[j].0@
}

/// A key's presence and value in `entries_model` match a scan of the entries.
pub proof fn lemma_entries_model_get(entries: Seq<(String, Value)>, k: Seq<char>)
    requires
        keys_unique(entries),
    ensures
        entries_model(entries).contains_key(k) <==> exists|i: int|
            0 <= i < entries.len() && entries[i].0@ == k,
        forall|i: int|
            0 <= i < entries.len() && entries[i].0@ == k ==> entries_model(entries)[k]
                == entries[i].1@,
    decreases entries.len(),
{
    if entries.len() > 0 {
        let prefix = entries.drop_last();
        assert(keys_unique(prefix));
        lemma_entries_model_get(prefix, k);
        if entries.last().0@ == k {
            assert(entries[entries.len() - 1].0@ == k);
        } else {
            assert(forall|i: int|
                0 <= i < prefix.len() && prefix[i].0@ == k ==> entries[i].0@ == k);
        }
    }
}

/// Replacing the entry at a key's index updates the denoted map at that key.
pub proof fn lemma_entries_model_update(s: Seq<(String, Value)>, i: int, p: (String, Value))
    requires
        keys_unique(s),
        0 <= i < s.len(),
        s[i].0@ == p.0@,
    ensures
        entries_model(s.update(i, p)) =~= entries_model(s).insert(p.0@, p.1@),
        keys_unique(s.update(i, p)),
    decreases s.len(),
{
    let u = s.update(i, p);
    assert(keys_unique(u)) by {
        assert(forall|a: int, b: int|
            0 <= a < b < u.len() ==> u[a].0@ != u[b].0@) by {
            assert(forall|a: int| 0 <= a < u.len() && a != i ==> u[a] == s[a]);
        }
    }
    if i == s.len() - 1 {
        assert(u.drop_last() =~= s.drop_last());
        assert(entries_model(u) =~= entries_model(s).insert(p.0@, p.1@));
    } else {
        assert(u.drop_last() =~= s.drop_last().update(i, p));
        assert(keys_unique(s.drop_last()));
        lemma_entries_model_update(s.drop_last(), i, p);
        assert(s.last().0@ != p.0@) by {
            assert(s[i].0@ != s[s.len() - 1].0@);
        }
        assert(entries_model(u) =~= entries_model(s).insert(p.0@, p.1@));
    }
}

/// Appending an entry with a fresh key inserts it into the denoted map.
pub proof fn lemma_entries_model_push(s: Seq<(String, Value)>, p: (String, Value))
    requires
        keys_unique(s),
        forall|i: int| 0 <= i < s.len() ==> s[i].0@ != p.0@,
    ensures
        entries_model(s.push(p)) =~= entries_model(s).insert(p.0@, p.1@),
        keys_unique(s.push(p)),
{
    assert(s.push(p).drop_last() =~= s);
    assert(s.push(p).last() == p);
}

/// Removing an entry removes its key from the denoted map.
pub proof fn lemma_entries_model_remove(s: Seq<(String, Value)>, i: int)
    requires
        keys_unique(s),
        0 <= i < s.len(),
    ensures
        entries_model(s.remove(i)) =~= entries_model(s).remove(s[i].0@),
        keys_unique(s.remove(i)),
    decreases s.len(),
{
    let u = s.remove(i);
    assert(keys_unique(u)) by {
        assert(forall|a: int| 0 <= a < i ==> u[a] == s[a]);
        assert(forall|a: int| i <= a < u.len() ==> u[a] == s[a + 1]);
    }
    if i == s.len() - 1 {
        assert(u =~= s.drop_last());
        lemma_entries_model_get(u, s[i].0@);
        assert(forall|a: int| 0 <= a < u.len() ==> u[a].0@ != s[i].0@);
        assert(!entries_model(u).contains_key(s[i].0@));
        assert(entries_model(u) =~= entries_model(s).remove(s[i].0@));
    } else {
        assert(u.drop_last() =~= s.drop_last().remove(i));
        assert(keys_unique(s.drop_last()));
        lemma_entries_model_remove(s.drop_last(), i);
        assert(s.last().0@ != s[i].0@);
        assert(u.last() == s.last());
        assert(entries_model(u) =~= entries_model(s).remove(s[i].0@));
    }
}

/// Entry lists whose keys and value models agree pointwise denote one map.
pub proof fn lemma_entries_model_congruent(a: Seq<(String, Value)>, b: Seq<(String, Value)>)
    requires
        a.len() == b.len(),
        forall|i: int| #![all_triggers]
            0 <= i < a.len() ==> a[i].0@ == b[i].0@ && a[i].1@ == b[i].1@,
    ensures
        entries_model(a) =~= entries_model(b),
    decreases a.len(),
{
    if a.len() > 0 {
        let ap = a.drop_last();
        let bp = b.drop_last();
        assert forall|i: int| #![all_triggers]
            0 <= i < ap.len() implies ap[i].0@ == bp[i].0@ && ap[i].1@ == bp[i].1@ by {
            assert(ap[i] == a[i]);
            assert(bp[i] == b[i]);
            assert(a[i].0@ == b[i].0@ && a[i].1@ == b[i].1@);
        }
        lemma_entries_model_congruent(ap, bp);
        assert(a.last().0@ == b.last().0@ && a.last().1@ == b.last().1@) by {
            assert(a[a.len() - 1].0@ == b[a.len() - 1].0@ && a[a.len() - 1].1@ == b[a.len() - 1].1@);
        }
    }
}

/// An ordered mapping from string keys to typed values. Keys are unique;
/// an absent key simply reads as "not present".
pub struct Variable {
    pub entries: Vec<(String, Value)>,
}

impl View for Variable {
    type V = Map<Seq<char>, ValueModel>;

    open spec fn view(&self) -> Map<Seq<char>, ValueModel> {
        entries_model(self.entries@)
    }
}

impl Variable {
    /// The representation holds each key at most once.
    pub open spec fn wf(&self) -> bool {
        keys_unique(self.entries@)
    }

    /// An empty mapping.
    pub fn new() -> (r: Variable)
        ensures
            r.wf(),
            r@ =~= Map::<Seq<char>, ValueModel>::empty(),
    {
        Variable { entries: Vec::new() }
    }

    /// Looks a key up; `None` when the key is not present.
    pub fn get(&self, key: &str) -> (r: Option<&Value>)
        requires
            self.wf(),
        ensures
            match r {
                Some(v) => self@.contains_key(key@) && v@ == self@[key@],
                None => !self@.contains_key(key@),
            },
    {
        let n = self.entries.len();
        let mut i: usize = 0;
        while i < n
            invariant
                n == self.entries@.len(),
                i <= n,
                self.wf(),
                forall|t: int| 0 <= t < i ==> self.entries@[t].0@ != key@,
            decreases n - i,
        {
            if str_eq(self.entries[i].0.as_str(), key) {
                proof {
                    lemma_entries_model_get(self.entries@, key@);
                }
                return Some(&self.entries[i].1);
            }
            i = i + 1;
        }
        proof {
            lemma_entries_model_get(self.entries@, key@);
        }
        None
    }

    /// Upserts: binds the key to the value, replacing any previous binding.
    pub fn set(&mut self, key: String, value: Value)
        requires
            old(self).wf(),
        ensures
            final(self).wf(),
            final(self)@ =~= old(self)@.insert(key@, value@),
    {
        let n = self.entries.len();
        let mut i: usize = 0;
        while i < n
            invariant
                n == self.entries@.len(),
                i <= n,
                self.wf(),
                self.entries@ == old(self).entries@,
                forall|t: int| 0 <= t < i ==> self.entries@[t].0@ != key@,
            decreases n - i,
        {
            if str_eq(self.entries[i].0.as_str(), key.as_str()) {
                proof {
                    lemma_entries_model_update(self.entries@, i as int, (key, value));
                }
                self.entries[i] = (key, value);
                return ;
            }
            i = i + 1;
        }
        proof {
            lemma_entries_model_push(self.entries@, (key, value));
        }
        self.entries.push((key, value));
    }

    /// Deletes a key's binding if present; no effect when the key is absent.
    pub fn remove(&mut self, key: &str)
        requires
            old(self).wf(),
        ensures
            final(self).wf(),
            final(self)@ =~= old(self)@.remove(key@),
    {
        let n = self.entries.len();
        let mut i: usize = 0;
        while i < n
            invariant
                n == self.entries@.len(),
                i <= n,
                self.wf(),
                self.entries@ == old(self).entries@,
                forall|t: int| 0 <= t < i ==> self.entries@[t].0@ != key@,
            decreases n - i,
        {
            if str_eq(self.entries[i].0.as_str(), key) {
                proof {
                    lemma_entries_model_remove(self.entries@, i as int);
                }
                self.entries.remove(i);
                return ;
            }
            i = i + 1;
        }
        proof {
            lemma_entries_model_get(self.entries@, key@);
            assert(self@ =~= self@.remove(key@));
        }
    }

    /// The entries in insertion order, for read-only traversal.
    pub fn iter(&self) -> (r: &Vec<(String, Value)>)
        ensures
            r@ == self.entries@,
    {
        &self.entries
    }
}

impl Clone for Variable {
    fn clone(&self) -> (r: Self)
        ensures
            r@ == self@,
            self.wf() ==> r.wf(),
    {
        let n = self.entries.len();
        let mut out: Vec<(String, Value)> = Vec::new();
        let mut i: usize = 0;
        while i < n
            invariant
                n == self.entries@.len(),
                i <= n,
                out@.len() == i,
                forall|t: int| #![all_triggers]
                    0 <= t < i ==> out@[t].0@ == self.entries@[t].0@
                        && out@[t].1@ == self.entries@[t].1@,
            decreases n - i,
        {
            let k = self.entries[i].0.clone();
            let v = self.entries[i].1.clone();
            out.push((k, v));
            i = i + 1;
        }
        proof {
            lemma_entries_model_congruent(out@, self.entries@);
        }
        Variable { entries: out }
    }
}

} // verus!
