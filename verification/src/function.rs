//! Behavior functions and their processes.
//!
//! A `Function` is a named, independently activatable behavior unit owned by
//! one entity; it holds parameters and a name-keyed set of processes. A
//! `Process` is one unit of behavior: its action (of type `A`) runs only
//! while the owning function is active and its optional condition (of type
//! `C`) holds.

use vstd::prelude::*;
use crate::value::{str_eq, Value, ValueModel, Variable};

verus! {

/// The mathematical content of a `Process`.
pub struct ProcessModel<A, C> {
    pub name: Seq<char>,
    pub condition: Option<C>,
    pub action: A,
}

/// One named unit of behavior owned by a function: an optional gating
/// condition and an action producing deferred mutation commands.
pub struct Process<A, C> {
    pub name: String,
    pub condition: Option<C>,
    pub action: A,
}

impl<A, C> View for Process<A, C> {
    type V = ProcessModel<A, C>;

    open spec fn view(&self) -> ProcessModel<A, C> {
        ProcessModel { name: self.name@, condition: self.condition, action: self.action }
    }
}

impl<A, C> Process<A, C> {
    /// A process with no condition: it runs whenever its function is active.
    pub fn new(name: String, action: A) -> (r: Process<A, C>)
        ensures
            r@.name == name@,
            r@.condition is None,
            r@.action == action,
    {
        Process { name, condition: None, action }
    }

    /// Attaches (or replaces) the gating condition.
    pub fn set_condition(&mut self, condition: C)
        ensures
            final(self)@ == (ProcessModel { condition: Some(condition), ..old(self)@ }),
    {
        self.condition = Some(condition);
    }

    /// Detaches the gating condition; the process then always runs while its
    /// function is active.
    pub fn remove_condition(&mut self)
        ensures
            final(self)@ == (ProcessModel { condition: None::<C>, ..old(self)@ }),
    {
        self.condition = None;
    }
}

/// The processes a process list denotes, in order.
pub open spec fn processes_model<A, C>(s: Seq<Process<A, C>>) -> Seq<ProcessModel<A, C>> {
    Seq::new(s.len(), |i: int| s[i]@)
}

/// The index of the first process carrying `name`, if any.
pub open spec fn find_process<A, C>(procs: Seq<ProcessModel<A, C>>, name: Seq<char>) -> Option<
    int,
>
    decreases procs.len(),
{
    if procs.len() == 0 {
        None
    } else if procs.first().name == name {
        Some(0int)
    } else {
        match find_process(procs.drop_first(), name) {
            Some(i) => Some(i + 1),
            None => None,
        }
    }
}

/// `find_process` returns the first index carrying the name, and `None`
/// exactly when no process carries it.
pub proof fn lemma_find_process<A, C>(procs: Seq<ProcessModel<A, C>>, name: Seq<char>)
    ensures
        match find_process(procs, name) {
            Some(i) => 0 <= i < procs.len() && procs[i].name == name && forall|j: int|
                0 <= j < i ==> (#[trigger] procs[j]).name != name,
            None => forall|j: int| 0 <= j < procs.len() ==> (#[trigger] procs[j]).name != name,
        },
    decreases procs.len(),
{
    if procs.len() > 0 {
        let rest = procs.drop_first();
        lemma_find_process(rest, name);
        if procs.first().name == name {
            assert(procs[0] == procs.first());
        } else {
            match find_process(rest, name) {
                Some(i) => {
                    assert(procs[i + 1] == rest[i]);
                    assert forall|j: int| 0 <= j < i + 1 implies (#[trigger] procs[j]).name
                        != name by {
                        if j == 0 {
                            assert(procs[0] == procs.first());
                        } else {
                            assert(procs[j] == rest[j - 1]);
                        }
                    }
                },
                None => {
                    assert forall|j: int| 0 <= j < procs.len() implies (#[trigger] procs[j]).name
                        != name by {
                        if j == 0 {
                            assert(procs[0] == procs.first());
                        } else {
                            assert(procs[j] == rest[j - 1]);
                        }
                    }
                },
            }
        }
    }
}

/// The mathematical content of a `Function`.
pub struct FunctionModel<A, C> {
    pub name: Seq<char>,
    pub parameter: Map<Seq<char>, ValueModel>,
    pub processes: Seq<ProcessModel<A, C>>,
    pub active: bool,
}

impl<A, C> FunctionModel<A, C> {
    /// Process names are unique within the function.
    pub open spec fn wf(&self) -> bool {
        forall|i: int, j: int|
            0 <= i < j < self.processes.len() ==> self.processes[i].name != self.processes[j].name
    }
}

/// A named, independently activatable behavior unit: parameters and a
/// name-keyed set of processes. A fresh function starts inactive and must be
/// explicitly activated before any of its processes may run.
pub struct Function<A, C> {
    pub name: String,
    pub parameter: Variable,
    pub processes: Vec<Process<A, C>>,
    pub active_status: bool,
}

impl<A, C> View for Function<A, C> {
    type V = FunctionModel<A, C>;

    open spec fn view(&self) -> FunctionModel<A, C> {
        FunctionModel {
            name: self.name@,
            parameter: self.parameter@,
            processes: processes_model(self.processes@),
            active: self.active_status,
        }
    }
}

impl<A, C> Function<A, C> {
    /// The representation keeps each parameter key at most once.
    pub open spec fn rep_wf(&self) -> bool {
        self.parameter.wf()
    }

    /// A fresh, inactive function with no parameters and no processes.
    pub fn new(name: String) -> (r: Function<A, C>)
        ensures
            r.rep_wf(),
            r@.wf(),
            r@.name == name@,
            r@.parameter =~= Map::<Seq<char>, ValueModel>::empty(),
            r@.processes =~= Seq::<ProcessModel<A, C>>::empty(),
            r@.active == false,
    {
        Function {
            name,
            parameter: Variable::new(),
            processes: Vec::new(),
            active_status: false,
        }
    }

    /// The function's parameters.
    pub fn get_parameter(&self) -> (r: &Variable)
        ensures
            r == &self.parameter,
    {
        &self.parameter
    }

    /// Upserts one parameter entry.
    pub fn set_parameter(&mut self, key: String, value: Value)
        requires
            old(self).rep_wf(),
        ensures
            final(self).rep_wf(),
            final(self)@ == (FunctionModel {
                parameter: old(self)@.parameter.insert(key@, value@),
                ..old(self)@
            }),
    {
        self.parameter.set(key, value);
        proof {
            assert(self@.parameter =~= old(self)@.parameter.insert(key@, value@));
            assert(self@ == (FunctionModel {
                parameter: old(self)@.parameter.insert(key@, value@),
                ..old(self)@
            }));
        }
    }

    /// Deletes one parameter entry, if present.
    pub fn remove_parameter(&mut self, key: &str)
        requires
            old(self).rep_wf(),
        ensures
            final(self).rep_wf(),
            final(self)@ == (FunctionModel {
                parameter: old(self)@.parameter.remove(key@),
                ..old(self)@
            }),
    {
        self.parameter.remove(key);
        proof {
            assert(self@.parameter =~= old(self)@.parameter.remove(key@));
            assert(self@ == (FunctionModel {
                parameter: old(self)@.parameter.remove(key@),
                ..old(self)@
            }));
        }
    }

    /// Adds a process; a process already carrying the same name is replaced.
    pub fn add_process(&mut self, process: Process<A, C>)
        requires
            old(self).rep_wf(),
            old(self)@.wf(),
        ensures
            final(self).rep_wf(),
            final(self)@.wf(),
            final(self)@ == (FunctionModel {
                processes: match find_process(old(self)@.processes, process@.name) {
                    Some(i) => old(self)@.processes.update(i, process@),
                    None => old(self)@.processes.push(process@),
                },
                ..old(self)@
            }),
    {
        let ghost pre = self@.processes;
        let n = self.processes.len();
        let mut i: usize = 0;
        while i < n
            invariant
                old(self).rep_wf(),
                old(self)@.wf(),
                pre == old(self)@.processes,
                n == self.processes@.len(),
                i <= n,
                self == old(self),
                forall|t: int| 0 <= t < i ==> pre[t].name != process@.name,
            decreases n - i,
        {
            if str_eq(self.processes[i].name.as_str(), process.name.as_str()) {
                proof {
                    lemma_find_process(pre, process@.name);
                    assert(pre[i as int] == self.processes@[i as int]@);
                    assert(find_process(pre, process@.name) == Some(i as int));
                }
                self.processes[i] = process;
                proof {
                    assert(self@.processes =~= pre.update(i as int, process@));
                    assert forall|a: int, b: int|
                        0 <= a < b < self@.processes.len() implies self@.processes[a].name
                        != self@.processes[b].name by {
                        assert(pre[a].name != pre[b].name);
                        assert(self@.processes[a].name == pre[a].name);
                        assert(self@.processes[b].name == pre[b].name);
                    }
                    assert(self@ == (FunctionModel {
                        processes: pre.update(i as int, process@),
                        ..old(self)@
                    }));
                }
                return ;
            }
            proof {
                assert(pre[i as int] == self.processes@[i as int]@);
            }
            i = i + 1;
        }
        proof {
            lemma_find_process(pre, process@.name);
            assert(find_process(pre, process@.name) is None);
        }
        self.processes.push(process);
        proof {
            assert(self@.processes =~= pre.push(process@));
            assert(self@ == (FunctionModel { processes: pre.push(process@), ..old(self)@ }));
        }
    }

    /// Looks a process up by name.
    pub fn get_process(&self, name: &str) -> (r: Option<&Process<A, C>>)
        ensures
            match r {
                Some(p) => find_process(self@.processes, name@) matches Some(i) && p@
                    == self@.processes[i],
                None => find_process(self@.processes, name@) is None,
            },
    {
        let n = self.processes.len();
        let mut i: usize = 0;
        while i < n
            invariant
                n == self.processes@.len(),
                i <= n,
                forall|t: int| 0 <= t < i ==> self@.processes[t].name != name@,
            decreases n - i,
        {
            if str_eq(self.processes[i].name.as_str(), name) {
                proof {
                    lemma_find_process(self@.processes, name@);
                    assert(self@.processes[i as int] == self.processes@[i as int]@);
                    assert(find_process(self@.processes, name@) == Some(i as int));
                }
                return Some(&self.processes[i]);
            }
            proof {
                assert(self@.processes[i as int] == self.processes@[i as int]@);
            }
            i = i + 1;
        }
        proof {
            lemma_find_process(self@.processes, name@);
        }
        None
    }

    /// The owned processes, in insertion order.
    pub fn get_all_processes(&self) -> (r: &Vec<Process<A, C>>)
        ensures
            r == &self.processes,
    {
        &self.processes
    }

    /// Detaches and returns the process carrying `name`, if any.
    pub fn remove_process(&mut self, name: &str) -> (r: Option<Process<A, C>>)
        requires
            old(self).rep_wf(),
            old(self)@.wf(),
        ensures
            final(self).rep_wf(),
            final(self)@.wf(),
            match r {
                Some(p) => find_process(old(self)@.processes, name@) matches Some(i) && p@ == old(
                    self,
                )@.processes[i] && final(self)@ == (FunctionModel {
                    processes: old(self)@.processes.remove(i),
                    ..old(self)@
                }),
                None => find_process(old(self)@.processes, name@) is None && final(self)@ == old(
                    self,
                )@,
            },
    {
        let ghost pre = self@.processes;
        let n = self.processes.len();
        let mut i: usize = 0;
        while i < n
            invariant
                old(self).rep_wf(),
                old(self)@.wf(),
                pre == old(self)@.processes,
                n == self.processes@.len(),
                i <= n,
                self == old(self),
                forall|t: int| 0 <= t < i ==> pre[t].name != name@,
            decreases n - i,
        {
            if str_eq(self.processes[i].name.as_str(), name) {
                proof {
                    lemma_find_process(pre, name@);
                    assert(pre[i as int] == self.processes@[i as int]@);
                    assert(find_process(pre, name@) == Some(i as int));
                }
                let p = self.processes.remove(i);
                proof {
                    assert(self@.processes =~= pre.remove(i as int));
                    assert forall|a: int, b: int|
                        0 <= a < b < self@.processes.len() implies self@.processes[a].name
                        != self@.processes[b].name by {
                        let oa: int = if a < i as int { a } else { a + 1 };
                        let ob: int = if b < i as int { b } else { b + 1 };
                        assert(self@.processes[a] == pre[oa]);
                        assert(self@.processes[b] == pre[ob]);
                        assert(pre[oa].name != pre[ob].name);
                    }
                    assert(self@ == (FunctionModel {
                        processes: pre.remove(i as int),
                        ..old(self)@
                    }));
                }
                return Some(p);
            }
            proof {
                assert(pre[i as int] == self.processes@[i as int]@);
            }
            i = i + 1;
        }
        proof {
            lemma_find_process(pre, name@);
            assert(self@ == old(self)@);
        }
        None
    }

    /// Whether the function may currently run its processes.
    pub fn is_active(&self) -> (r: bool)
        ensures
            r == self@.active,
    {
        self.active_status
    }

    /// Makes the function eligible to run its processes.
    pub fn activate(&mut self)
        ensures
            final(self)@ == (FunctionModel { active: true, ..old(self)@ }),
            final(self).rep_wf() == old(self).rep_wf(),
    {
        self.active_status = true;
    }

    /// Stops the function's processes from running.
    pub fn deactivate(&mut self)
        ensures
            final(self)@ == (FunctionModel { active: false, ..old(self)@ }),
            final(self).rep_wf() == old(self).rep_wf(),
    {
        self.active_status = false;
    }
}

} // verus!
