//! The step evaluator: named state variables, one update rule per variable,
//! and an append-only history of snapshots.
//!
//! A step is *simultaneous*: every rule reads the same pre-step snapshot, and
//! no rule ever observes a value that another rule wrote during the same
//! step.  The contracts below state this through `call_ensures`: each new
//! value is one that the variable's own rule admits for the pre-step
//! snapshot, whatever the other rules did.

use crate::keyed::find_key;
use crate::keyed::has_key;
use crate::keyed::key_index;
use crate::keyed::lemma_entry_at;
use crate::keyed::lemma_same_keys;
use crate::keyed::map_of;
use crate::keyed::put_entry;
use crate::keyed::unique_keys;
use crate::keyed::value_of;
use vstd::prelude::*;

verus! {

/// The full system state at one instant: a value for every registered
/// variable name.  Update rules receive a shared reference to the pre-step
/// context and read it through [`VariablesContext::get`].
pub struct VariablesContext<V> {
    entries: Vec<(String, V)>,
}

impl<V> View for VariablesContext<V> {
    type V = Map<Seq<char>, V>;

    closed spec fn view(&self) -> Map<Seq<char>, V> {
        map_of(self.entries@)
    }
}

impl<V: Copy> VariablesContext<V> {
    /// Validity: every variable name occurs at most once.
    pub closed spec fn wf(&self) -> bool {
        unique_keys(self.entries@)
    }

    /// The value of the variable `name`, or `None` when no such variable is
    /// registered.  Total, so that update rules may read any context they
    /// are handed.
    pub fn get(&self, name: &str) -> (r: Option<V>)
        ensures
            match r {
                Some(v) => self@.contains_key(name@) && (self.wf() ==> v == self@[name@]),
                None => !self@.contains_key(name@),
            },
    {
        let key: String = name.to_owned();
        match find_key(&self.entries, &key) {
            Some(i) => {
                proof {
                    assert(self.entries@[i as int].0@ == name@);
                    assert(has_key(self.entries@, name@));
                    if self.wf() {
                        lemma_entry_at(self.entries@, i as int);
                    }
                }
                Some(self.entries[i].1)
            },
            None => None,
        }
    }

    /// Registers `value` under `key`, overwriting any earlier value.
    fn put(&mut self, key: String, value: V)
        requires
            old(self).wf(),
        ensures
            final(self).wf(),
            final(self)@ == old(self)@.insert(key@, value),
    {
        put_entry(&mut self.entries, key, value);
    }
}

impl<V: Copy> Clone for VariablesContext<V> {
    /// An independent copy holding the same variables with the same values.
    fn clone(&self) -> (res: Self)
        ensures
            res@ == self@,
            res.wf() == self.wf(),
    {
        let n: usize = self.entries.len();
        let mut out: Vec<(String, V)> = Vec::new();
        let mut i: usize = 0;
        while i < n
            invariant
                n == self.entries@.len(),
                i <= n,
                out@.len() == i,
                forall|j: int| 0 <= j < i ==> #[trigger] out@[j] == self.entries@[j],
            decreases n - i,
        {
            let name: String = self.entries[i].0.clone();
            let value: V = self.entries[i].1;
            proof {
                assert((name, value) =~= self.entries@[i as int]);
            }
            out.push((name, value));
            i += 1;
        }
        proof {
            assert(out@ =~= self.entries@);
        }
        VariablesContext { entries: out }
    }
}

/// A failed operation, naming the variable it stumbled over.
#[derive(Debug, PartialEq, Eq)]
pub enum EvalError {
    /// An update rule needed a variable that the pre-step snapshot does not
    /// hold.
    UnknownVariable(String),
    /// A history query named a dataset that is not a registered variable
    /// present in every recorded snapshot.
    DatasetNotFound(String),
}

/// The rule `f` can be applied to every context.
pub open spec fn fn_total<V: Copy, F: Fn(&VariablesContext<V>) -> Result<V, String>>(
    f: F,
) -> bool {
    forall|c: &VariablesContext<V>| call_requires(f, (c,))
}

/// The rule `f` never reports a missing variable, whatever context it reads.
pub open spec fn never_fails<V: Copy, F: Fn(&VariablesContext<V>) -> Result<V, String>>(
    f: F,
) -> bool {
    forall|c: &VariablesContext<V>, out: Result<V, String>|
        #[trigger] call_ensures(f, (c,), out) ==> out is Ok
}

/// The rule `f` admits at most one outcome per context.
pub open spec fn deterministic<V: Copy, F: Fn(&VariablesContext<V>) -> Result<V, String>>(
    f: F,
) -> bool {
    forall|c: &VariablesContext<V>, o1: Result<V, String>, o2: Result<V, String>|
        #[trigger] call_ensures(f, (c,), o1) && #[trigger] call_ensures(f, (c,), o2) ==> o1 == o2
}

/// What one step stores under the name `k`: the value its own rule computed
/// from the pre-step snapshot `pre`, or the old value when `k` has no rule.
pub open spec fn updated_value<V: Copy, F: Fn(&VariablesContext<V>) -> Result<V, String>>(
    fns: Seq<(String, F)>,
    pre: VariablesContext<V>,
    k: Seq<char>,
    v: V,
) -> bool {
    if has_key(fns, k) {
        call_ensures(value_of(fns, k), (&pre,), Result::<V, String>::Ok(v))
    } else {
        v == pre@[k]
    }
}

/// A completed simultaneous step from `pre` to `post` under the rules `fns`:
/// the variable names are unchanged, and every value is one its own rule
/// admits for `pre` alone.
pub open spec fn step_ok<V: Copy, F: Fn(&VariablesContext<V>) -> Result<V, String>>(
    fns: Seq<(String, F)>,
    pre: VariablesContext<V>,
    post: VariablesContext<V>,
) -> bool {
    &&& post.wf()
    &&& forall|k: Seq<char>|
        #![trigger post@.contains_key(k)]
        #![trigger pre@.contains_key(k)]
        post@.contains_key(k) == pre@.contains_key(k)
    &&& forall|k: Seq<char>| #[trigger]
        pre@.contains_key(k) ==> updated_value(fns, pre, k, post@[k])
}

/// Some registered rule, applied to the snapshot `pre` of its own variables,
/// reported the missing variable `n`.
pub open spec fn failed_rule<V: Copy, F: Fn(&VariablesContext<V>) -> Result<V, String>>(
    fns: Seq<(String, F)>,
    pre: VariablesContext<V>,
    n: String,
) -> bool {
    exists|i: int|
        0 <= i < fns.len() && pre@.contains_key(fns[i].0@) && #[trigger] call_ensures(
            fns[i].1,
            (&pre,),
            Result::<V, String>::Err(n),
        )
}

/// Consecutive elements of `chain` are related by one simultaneous step.
pub open spec fn steps_chain<V: Copy, F: Fn(&VariablesContext<V>) -> Result<V, String>>(
    fns: Seq<(String, F)>,
    chain: Seq<VariablesContext<V>>,
) -> bool {
    forall|k: int| 0 <= k < chain.len() - 1 ==> step_ok(fns, #[trigger] chain[k], chain[k + 1])
}

/// A run of `recorded.len()` completed steps from `start` to `end` whose
/// post-step states were recorded in order: `chain` lists the actual states,
/// and each recorded snapshot holds the same variables and values as the
/// state it was taken from.
pub open spec fn recorded_run<V: Copy, F: Fn(&VariablesContext<V>) -> Result<V, String>>(
    fns: Seq<(String, F)>,
    start: VariablesContext<V>,
    end: VariablesContext<V>,
    recorded: Seq<VariablesContext<V>>,
    chain: Seq<VariablesContext<V>>,
) -> bool {
    &&& chain.len() == recorded.len() + 1
    &&& chain[0] == start
    &&& chain[chain.len() - 1] == end
    &&& steps_chain(fns, chain)
    &&& forall|k: int| 0 <= k < recorded.len() ==> #[trigger] recorded[k]@ == chain[k + 1]@
}

/// Advances named state variables in fixed steps, one simultaneous update at
/// a time, and records each post-step snapshot.
pub struct Evaluator<V, F> {
    /// The current value of every registered variable.
    pub variables: VariablesContext<V>,
    /// The registered update rules, in registration order, at most one per
    /// name.  A rule whose name has no variable is inert until a value is
    /// registered for it.
    pub functions: Vec<(String, F)>,
    /// One snapshot per completed step of [`Evaluator::evaluate`], in
    /// chronological order.  The initial state is never recorded.
    pub history: Vec<VariablesContext<V>>,
}

impl<V: Copy, F: Fn(&VariablesContext<V>) -> Result<V, String>> Evaluator<V, F> {
    /// Validity: names are unique in both tables, every rule is applicable to
    /// every context, and every recorded snapshot is itself valid.
    pub open spec fn wf(&self) -> bool {
        &&& self.variables.wf()
        &&& unique_keys(self.functions@)
        &&& forall|i: int|
            0 <= i < self.functions@.len() ==> fn_total(#[trigger] self.functions@[i].1)
        &&& forall|i: int| 0 <= i < self.history@.len() ==> (#[trigger] self.history@[i]).wf()
    }

    /// An evaluator with no variables, no rules and an empty history.
    pub fn new() -> (e: Self)
        ensures
            e.wf(),
            e.variables@ == Map::<Seq<char>, V>::empty(),
            e.functions@ == Seq::<(String, F)>::empty(),
            e.history@ == Seq::<VariablesContext<V>>::empty(),
    {
        let e = Evaluator {
            variables: VariablesContext { entries: Vec::new() },
            functions: Vec::new(),
            history: Vec::new(),
        };
        proof {
            assert(e.variables@ =~= Map::<Seq<char>, V>::empty());
        }
        e
    }

    /// Sets the initial (or current) value of the variable `key`, inserting
    /// or overwriting it.
    pub fn add_start_value(&mut self, key: String, value: V)
        requires
            old(self).wf(),
        ensures
            final(self).wf(),
            final(self).variables@ == old(self).variables@.insert(key@, value),
            final(self).functions == old(self).functions,
            final(self).history == old(self).history,
    {
        self.variables.put(key, value);
    }

    /// Registers the update rule for the variable `key`, inserting or
    /// overwriting it.  The rule must be applicable to every context; it
    /// takes effect only while a variable named `key` exists.
    pub fn add_function(&mut self, key: String, value: F)
        requires
            old(self).wf(),
            fn_total(value),
        ensures
            final(self).wf(),
            map_of(final(self).functions@) == map_of(old(self).functions@).insert(key@, value),
            final(self).variables == old(self).variables,
            final(self).history == old(self).history,
    {
        put_entry(&mut self.functions, key, value);
        proof {
            let fns0 = old(self).functions@;
            let fns1 = self.functions@;
            assert forall|i: int| 0 <= i < fns1.len() implies fn_total(#[trigger] fns1[i].1) by {
                lemma_entry_at(fns1, i);
                let k = fns1[i].0@;
                assert(map_of(fns1)[k] == fns1[i].1);
                if k == key@ {
                    assert(fns1[i].1 == value);
                } else {
                    assert(map_of(fns0).contains_key(k));
                    let j = key_index(fns0, k);
                    assert(0 <= j < fns0.len() && fns0[j].0@ == k);
                    lemma_entry_at(fns0, j);
                    assert(fns1[i].1 == fns0[j].1);
                    assert(fn_total(fns0[j].1));
                }
            }
        }
    }

    /// Computes one simultaneous step: every variable that has a rule gets
    /// the value its rule computes from the pre-step snapshot; every other
    /// variable keeps its value.  Nothing is committed when a rule fails, and
    /// the history is never touched.
    pub fn next_step(&mut self) -> (r: Result<(), EvalError>)
        requires
            old(self).wf(),
        ensures
            final(self).wf(),
            final(self).functions == old(self).functions,
            final(self).history == old(self).history,
            match r {
                Ok(()) => step_ok(
                    old(self).functions@,
                    old(self).variables,
                    final(self).variables,
                ),
                Err(e) => {
                    &&& final(self).variables == old(self).variables
                    &&& (e matches EvalError::UnknownVariable(n) && failed_rule(
                        old(self).functions@,
                        old(self).variables,
                        n,
                    ))
                },
            },
            (forall|i: int|
                0 <= i < old(self).functions@.len() ==> never_fails(
                    #[trigger] old(self).functions@[i].1,
                )) ==> r is Ok,
    {
        let ghost fns = self.functions@;
        let ghost pre = self.variables;
        let n: usize = self.variables.entries.len();
        let mut updated: Vec<(String, V)> = Vec::new();
        let mut j: usize = 0;
        while j < n
            invariant
                old(self).wf(),
                self.variables == old(self).variables,
                self.functions == old(self).functions,
                self.history == old(self).history,
                fns == self.functions@,
                pre == self.variables,
                n == self.variables.entries@.len(),
                j <= n,
                updated@.len() == j,
                forall|q: int|
                    0 <= q < j ==> #[trigger] updated@[q].0 == self.variables.entries@[q].0,
                forall|q: int|
                    0 <= q < j ==> updated_value(
                        fns,
                        pre,
                        self.variables.entries@[q].0@,
                        #[trigger] updated@[q].1,
                    ),
            decreases n - j,
        {
            let name: String = self.variables.entries[j].0.clone();
            let current: V = self.variables.entries[j].1;
            proof {
                lemma_entry_at(self.variables.entries@, j as int);
            }
            match find_key(&self.functions, &name) {
                Some(i) => {
                    proof {
                        lemma_entry_at(fns, i as int);
                        assert(fn_total(fns[i as int].1));
                        assert(call_requires(fns[i as int].1, (&self.variables,)));
                    }
                    let out = (self.functions[i].1)(&self.variables);
                    match out {
                        Ok(v) => {
                            proof {
                                assert(value_of(fns, name@) == fns[i as int].1);
                            }
                            updated.push((name, v));
                        },
                        Err(missing) => {
                            proof {
                                assert(pre@.contains_key(fns[i as int].0@));
                                assert(failed_rule(fns, pre, missing));
                            }
                            return Err(EvalError::UnknownVariable(missing));
                        },
                    }
                },
                None => {
                    proof {
                        assert(pre@[name@] == current);
                    }
                    updated.push((name, current));
                },
            }
            j += 1;
        }
        proof {
            let s0 = self.variables.entries@;
            let s1 = updated@;
            assert forall|q: int| 0 <= q < s0.len() implies s0[q].0@ == #[trigger] s1[q].0@ by {
                assert(s1[q].0 == s0[q].0);
            }
            lemma_same_keys(s0, s1);
        }
        self.variables.entries = updated;
        proof {
            let s0 = pre.entries@;
            let s1 = self.variables.entries@;
            assert forall|k: Seq<char>|
                self.variables@.contains_key(k) == pre@.contains_key(k) by {
                assert(has_key(s1, k) == has_key(s0, k));
            }
            assert forall|k: Seq<char>| #[trigger]
                pre@.contains_key(k) implies updated_value(
                fns,
                pre,
                k,
                self.variables@[k],
            ) by {
                assert(has_key(s0, k));
                let p = key_index(s0, k);
                assert(0 <= p < s0.len() && s0[p].0@ == k);
                assert(key_index(s1, k) == p);
                assert(self.variables@[k] == s1[p].1);
                assert(updated_value(fns, pre, s0[p].0@, s1[p].1));
            }
        }
        Ok(())
    }

    /// Runs `num_steps` steps, recording a snapshot of the state after each
    /// completed step.  The history grows by exactly one snapshot per
    /// completed step; a failing rule ends the run, keeps the state the
    /// failed step started from, and leaves all earlier snapshots intact.
    ///
    /// A caller integrating over a real time range chooses `num_steps` as the
    /// number of cursor positions its range and step width admit.
    pub fn evaluate(&mut self, num_steps: usize) -> (r: Result<(), EvalError>)
        requires
            old(self).wf(),
        ensures
            final(self).wf(),
            final(self).functions == old(self).functions,
            final(self).history@.len() >= old(self).history@.len(),
            forall|q: int|
                0 <= q < old(self).history@.len() ==> #[trigger] final(self).history@[q] == old(
                    self,
                ).history@[q],
            match r {
                Ok(()) => {
                    &&& final(self).history@.len() == old(self).history@.len() + num_steps
                    &&& exists|chain: Seq<VariablesContext<V>>|
                        recorded_run(
                            old(self).functions@,
                            old(self).variables,
                            final(self).variables,
                            final(self).history@.skip(old(self).history@.len() as int),
                            chain,
                        )
                },
                Err(e) => {
                    &&& final(self).history@.len() < old(self).history@.len() + num_steps
                    &&& exists|chain: Seq<VariablesContext<V>>|
                        recorded_run(
                            old(self).functions@,
                            old(self).variables,
                            final(self).variables,
                            final(self).history@.skip(old(self).history@.len() as int),
                            chain,
                        )
                    &&& (e matches EvalError::UnknownVariable(n) && failed_rule(
                        old(self).functions@,
                        final(self).variables,
                        n,
                    ))
                },
            },
            (forall|i: int|
                0 <= i < old(self).functions@.len() ==> never_fails(
                    #[trigger] old(self).functions@[i].1,
                )) ==> r is Ok,
    {
        let ghost fns = self.functions@;
        let ghost old_len = self.history@.len() as int;
        let ghost mut chain: Seq<VariablesContext<V>> = seq![old(self).variables];
        let mut k: usize = 0;
        while k < num_steps
            invariant
                self.wf(),
                self.functions == old(self).functions,
                fns == self.functions@,
                k <= num_steps,
                old_len == old(self).history@.len() as int,
                self.history@.len() == old_len + k,
                forall|q: int|
                    0 <= q < old_len ==> #[trigger] self.history@[q] == old(self).history@[q],
                chain.len() == k + 1,
                chain[0] == old(self).variables,
                chain[k as int] == self.variables,
                steps_chain(fns, chain),
                forall|q: int|
                    0 <= q < k ==> #[trigger] self.history@[old_len + q]@ == chain[q + 1]@,
            decreases num_steps - k,
        {
            match self.next_step() {
                Ok(()) => {},
                Err(e) => {
                    proof {
                        let recorded = self.history@.skip(old_len);
                        assert(recorded.len() == k as int);
                        assert forall|q: int| 0 <= q < recorded.len() implies #[trigger] recorded[q]@
                            == chain[q + 1]@ by {
                            assert(recorded[q] == self.history@[old_len + q]);
                        }
                        assert(recorded_run(fns, old(self).variables, self.variables, recorded, chain));
                    }
                    return Err(e);
                },
            }
            let snap = self.variables.clone();
            self.history.push(snap);
            proof {
                chain = chain.push(self.variables);
            }
            k += 1;
        }
        proof {
            let recorded = self.history@.skip(old_len);
            assert(recorded.len() == num_steps as int);
            assert forall|q: int| 0 <= q < recorded.len() implies #[trigger] recorded[q]@ == chain[q
                + 1]@ by {
                assert(recorded[q] == self.history@[old_len + q]);
            }
            assert(recorded_run(fns, old(self).variables, self.variables, recorded, chain));
        }
        Ok(())
    }

    /// The recorded values of the variable `dataset_name`, one per snapshot,
    /// in chronological order; an explicit not-found error when the name is
    /// not a registered variable present in every snapshot.
    pub fn get_data_vec(&self, dataset_name: &str) -> (r: Result<Vec<V>, EvalError>)
        requires
            self.wf(),
        ensures
            match r {
                Ok(vals) => {
                    &&& self.variables@.contains_key(dataset_name@)
                    &&& vals@.len() == self.history@.len()
                    &&& forall|q: int|
                        0 <= q < self.history@.len() ==> (#[trigger] self.history@[q])@.contains_key(
                            dataset_name@,
                        )
                    &&& forall|q: int|
                        0 <= q < self.history@.len() ==> #[trigger] vals@[q] == self.history@[q]@[dataset_name@]
                },
                Err(e) => {
                    &&& (e matches EvalError::DatasetNotFound(m) && m@ == dataset_name@)
                    &&& {
                        ||| !self.variables@.contains_key(dataset_name@)
                        ||| exists|q: int|
                            0 <= q < self.history@.len() && !(#[trigger] self.history@[q])@.contains_key(
                                dataset_name@,
                            )
                    }
                },
            },
    {
        match self.variables.get(dataset_name) {
            Some(_) => {},
            None => {
                return Err(EvalError::DatasetNotFound(dataset_name.to_owned()));
            },
        }
        let n: usize = self.history.len();
        let mut vals: Vec<V> = Vec::new();
        let mut q: usize = 0;
        while q < n
            invariant
                self.wf(),
                self.variables@.contains_key(dataset_name@),
                n == self.history@.len(),
                q <= n,
                vals@.len() == q,
                forall|p: int|
                    0 <= p < q ==> (#[trigger] self.history@[p])@.contains_key(dataset_name@),
                forall|p: int|
                    0 <= p < q ==> #[trigger] vals@[p] == self.history@[p]@[dataset_name@],
            decreases n - q,
        {
            match self.history[q].get(dataset_name) {
                Some(v) => {
                    vals.push(v);
                },
                None => {
                    return Err(EvalError::DatasetNotFound(dataset_name.to_owned()));
                },
            }
            q += 1;
        }
        Ok(vals)
    }
}

/// Law: iteration order over the rules cannot influence a step.  Two rule
/// tables that register the same rules under the same names — in whatever
/// order — admit exactly the same steps, because every value of a step is
/// computed by the variable's own rule from the pre-step snapshot alone.
pub proof fn lemma_step_order_irrelevant<V: Copy, F: Fn(&VariablesContext<V>) -> Result<V, String>>(
    fns1: Seq<(String, F)>,
    fns2: Seq<(String, F)>,
    pre: VariablesContext<V>,
    post: VariablesContext<V>,
)
    requires
        map_of(fns1) == map_of(fns2),
        step_ok(fns1, pre, post),
    ensures
        step_ok(fns2, pre, post),
{
    assert forall|k: Seq<char>| #[trigger]
        pre@.contains_key(k) implies updated_value(fns2, pre, k, post@[k]) by {
        assert(updated_value(fns1, pre, k, post@[k]));
        assert(map_of(fns1).contains_key(k) == has_key(fns1, k));
        assert(map_of(fns2).contains_key(k) == has_key(fns2, k));
        assert(has_key(fns2, k) == has_key(fns1, k));
        if has_key(fns1, k) {
            assert(map_of(fns1)[k] == value_of(fns1, k));
            assert(map_of(fns2)[k] == value_of(fns2, k));
            assert(value_of(fns2, k) == value_of(fns1, k));
        }
    }
}

/// Law: a step is deterministic.  When every registered rule admits at most
/// one outcome per snapshot, two steps taken from the same state under the
/// same rules hold the same variables with the same values afterwards.
pub proof fn lemma_step_deterministic<V: Copy, F: Fn(&VariablesContext<V>) -> Result<V, String>>(
    fns: Seq<(String, F)>,
    pre: VariablesContext<V>,
    post1: VariablesContext<V>,
    post2: VariablesContext<V>,
)
    requires
        forall|i: int| 0 <= i < fns.len() ==> deterministic(#[trigger] fns[i].1),
        step_ok(fns, pre, post1),
        step_ok(fns, pre, post2),
    ensures
        post1@ == post2@,
{
    assert forall|k: Seq<char>| #[trigger]
        post1@.contains_key(k) implies post1@[k] == post2@[k] by {
        assert(pre@.contains_key(k));
        assert(updated_value(fns, pre, k, post1@[k]));
        assert(updated_value(fns, pre, k, post2@[k]));
        if has_key(fns, k) {
            let i = key_index(fns, k);
            assert(0 <= i < fns.len() && fns[i].0@ == k);
            assert(deterministic(fns[i].1));
            assert(value_of(fns, k) == fns[i].1);
            assert(Result::<V, String>::Ok(post1@[k]) == Result::<V, String>::Ok(post2@[k]));
        }
    }
    assert(post1@ =~= post2@);
}

} // verus!
