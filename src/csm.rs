//! The causal state machine: states paired with actions, where a state that
//! evaluates to an active effect fires its action.
use vstd::prelude::*;
use crate::causaloid::Causable;
use crate::collection::{evaluated_as, Outcome};
use crate::effect::{effect_is_active, PropagatingEffect};

verus! {

/// An error raised while firing an action, with its message.
#[derive(Debug, Clone)]
pub struct ActionError(pub String);

/// An error raised while changing the state machine, with its message.
#[derive(Debug, Clone)]
pub struct UpdateError(pub String);

/// A state of the machine: a causal node and the effect it is evaluated on.
pub struct CausalState<C> {
    pub id: usize,
    pub version: usize,
    pub data: PropagatingEffect,
    pub causaloid: C,
}

impl<C: Causable> CausalState<C> {
    pub fn new(id: usize, version: usize, data: PropagatingEffect, causaloid: C) -> (r: Self)
        ensures
            r.id == id,
            r.version == version,
            r.data == data,
            r.causaloid == causaloid,
    {
        CausalState { id, version, data, causaloid }
    }

    /// Evaluates the state's node on the state's own data.
    pub fn eval(&mut self) -> (r: Outcome)
        requires
            old(self).causaloid.causable_inv(),
        ensures
            final(self).id == old(self).id,
            final(self).version == old(self).version,
            final(self).data == old(self).data,
            evaluated_as(old(self).causaloid, final(self).causaloid, old(self).data, r),
    {
        let data = self.data;
        self.causaloid.evaluate(&data)
    }

    /// Evaluates the state's node on `data`.
    pub fn eval_with_data(&mut self, data: &PropagatingEffect) -> (r: Outcome)
        requires
            old(self).causaloid.causable_inv(),
        ensures
            final(self).id == old(self).id,
            final(self).version == old(self).version,
            final(self).data == old(self).data,
            evaluated_as(old(self).causaloid, final(self).causaloid, *data, r),
    {
        self.causaloid.evaluate(data)
    }
}

/// An action run when its state comes out active.
pub struct CausalAction<A> {
    pub action: A,
    pub descr: String,
    pub version: usize,
}

impl<A: Fn() -> Result<(), ActionError>> CausalAction<A> {
    /// An action; `action` must be callable at any time.
    pub fn new(action: A, descr: &str, version: usize) -> (r: Self)
        requires
            action.requires(()),
        ensures
            r.action == action,
            r.descr@ == descr@,
            r.version == version,
    {
        CausalAction { action, descr: descr.to_owned(), version }
    }

    /// Runs the action.
    pub fn fire(&self) -> (r: Result<(), ActionError>)
        requires
            self.action.requires(()),
        ensures
            self.action.ensures((), r),
    {
        (self.action)()
    }
}

/// The key under which each entry is filed.
pub open spec fn entry_keys<C, A>(entries: Seq<(usize, CausalState<C>, CausalAction<A>)>) -> Seq<usize> {
    entries.map_values(|e: (usize, CausalState<C>, CausalAction<A>)| e.0)
}

/// The position of the first entry filed under `key`, if any.
pub open spec fn key_position<C, A>(entries: Seq<(usize, CausalState<C>, CausalAction<A>)>, key: usize) -> Option<int>
    decreases entries.len(),
{
    if entries.len() == 0 {
        None
    } else {
        match key_position(entries.drop_last(), key) {
            Some(p) => Some(p),
            None => if entries.last().0 == key { Some(entries.len() - 1) } else { None },
        }
    }
}

/// What `key_position` finds: the first entry with the key, or none at all.
pub proof fn lemma_key_position<C, A>(e: Seq<(usize, CausalState<C>, CausalAction<A>)>, key: usize)
    ensures
        key_position(e, key) is None ==> forall|j: int| 0 <= j < e.len() ==> (#[trigger] e[j]).0 != key,
        key_position(e, key) matches Some(p) ==> 0 <= p < e.len() && e[p].0 == key
            && forall|j: int| 0 <= j < p ==> (#[trigger] e[j]).0 != key,
    decreases e.len(),
{
    if e.len() > 0 {
        lemma_key_position(e.drop_last(), key);
        assert forall|j: int| 0 <= j < e.len() - 1 implies #[trigger] e[j] == e.drop_last()[j] by {}
    }
}

/// A causal state machine: state–action pairs filed under distinct keys.
pub struct CSM<C, A> {
    entries: Vec<(usize, CausalState<C>, CausalAction<A>)>,
}

impl<C: Causable, A: Fn() -> Result<(), ActionError>> CSM<C, A> {
    /// The entries, in filing order.
    pub closed spec fn entries_seq(&self) -> Seq<(usize, CausalState<C>, CausalAction<A>)> {
        self.entries@
    }

    /// Keys are distinct, every node satisfies its invariant and every action is callable.
    pub open spec fn inv(&self) -> bool {
        &&& entry_keys(self.entries_seq()).no_duplicates()
        &&& forall|i: int| 0 <= i < self.entries_seq().len() ==> (#[trigger] self.entries_seq()[i]).1.causaloid.causable_inv()
            && self.entries_seq()[i].2.action.requires(())
    }

    /// A machine holding `state_actions`, each filed under its state's id; a
    /// later pair replaces an earlier one with the same id.
    pub fn new(state_actions: Vec<(CausalState<C>, CausalAction<A>)>) -> (r: Self)
        requires
            forall|i: int| 0 <= i < state_actions@.len() ==> (#[trigger] state_actions@[i]).0.causaloid.causable_inv()
                && state_actions@[i].1.action.requires(()),
        ensures
            r.inv(),
            filed_from(r.entries_seq(), state_actions@),
    {
        let mut csm = CSM { entries: Vec::new() };
        proof {
            assert(entry_keys(csm.entries_seq()) =~= Seq::<usize>::empty());
        }
        csm.update_all_states(state_actions);
        csm
    }

    /// Number of entries.
    pub fn len(&self) -> (r: usize)
        ensures
            r == self.entries_seq().len(),
    {
        self.entries.len()
    }

    /// True when there are no entries.
    pub fn is_empty(&self) -> (r: bool)
        ensures
            r == (self.entries_seq().len() == 0),
    {
        self.entries.len() == 0
    }

    fn find(&self, key: usize) -> (r: Option<usize>)
        requires
            self.inv(),
        ensures
            r is None ==> key_position(self.entries_seq(), key) is None,
            r matches Some(i) ==> key_position(self.entries_seq(), key) == Some(i as int) && (i as int) < self.entries_seq().len()
                && self.entries_seq()[i as int].0 == key,
    {
        proof {
            lemma_key_position(self.entries@, key);
        }
        let mut i: usize = 0;
        while i < self.entries.len()
            invariant
                self.inv(),
                i <= self.entries@.len(),
                forall|j: int| 0 <= j < i ==> self.entries@[j].0 != key,
            decreases self.entries@.len() - i,
        {
            if self.entries[i].0 == key {
                proof {
                    lemma_key_position_unique(self.entries@, key, i as int);
                }
                return Some(i);
            }
            i = i + 1;
        }
        proof {
            lemma_key_position(self.entries@, key);
            if let Some(p) = key_position(self.entries@, key) {
                assert(self.entries@[p].0 == key);
            }
        }
        None
    }

    /// Files `state_action` under `idx`; fails when `idx` is taken.
    pub fn add_single_state(&mut self, idx: usize, state_action: (CausalState<C>, CausalAction<A>)) -> (r: Result<(), UpdateError>)
        requires
            old(self).inv(),
            state_action.0.causaloid.causable_inv(),
            state_action.1.action.requires(()),
        ensures
            final(self).inv(),
            r is Ok <==> key_position(old(self).entries_seq(), idx) is None,
            r is Ok ==> final(self).entries_seq() == old(self).entries_seq().push((idx, state_action.0, state_action.1)),
            r is Err ==> final(self).entries_seq() == old(self).entries_seq(),
    {
        if self.find(idx).is_some() {
            return Err(UpdateError("state already exists".to_owned()));
        }
        let (state, action) = state_action;
        let ghost e0 = self.entries@;
        self.entries.push((idx, state, action));
        proof {
            assert(entry_keys(self.entries@) =~= entry_keys(e0).push(idx));
            lemma_key_position(e0, idx);
            assert(!entry_keys(e0).contains(idx)) by {
                if entry_keys(e0).contains(idx) {
                    let j = choose|j: int| 0 <= j < entry_keys(e0).len() && entry_keys(e0)[j] == idx;
                    assert(e0[j].0 == idx);
                }
            }
            assert forall|i: int| 0 <= i < self.entries@.len() implies (#[trigger] self.entries_seq()[i]).1.causaloid.causable_inv()
                && self.entries_seq()[i].2.action.requires(()) by {
                if i < e0.len() {
                    assert(self.entries@[i] == e0[i]);
                }
            }
        }
        Ok(())
    }

    /// Removes the entry filed under `id`; fails when there is none.
    pub fn remove_single_state(&mut self, id: usize) -> (r: Result<(), UpdateError>)
        requires
            old(self).inv(),
        ensures
            final(self).inv(),
            r is Ok <==> key_position(old(self).entries_seq(), id) is Some,
            r is Ok ==> final(self).entries_seq() == old(self).entries_seq().remove(key_position(old(self).entries_seq(), id).unwrap()),
            r is Err ==> final(self).entries_seq() == old(self).entries_seq(),
    {
        match self.find(id) {
            None => Err(UpdateError("state does not exist".to_owned())),
            Some(i) => {
                let ghost e0 = self.entries@;
                self.entries.remove(i);
                proof {
                    let e1 = self.entries@;
                    assert(e1 =~= e0.remove(i as int));
                    assert forall|j: int| 0 <= j < e1.len() implies #[trigger] e1[j] == (if j < i { e0[j] } else { e0[j + 1] }) by {
                        assert(e1 =~= e0.subrange(0, i as int) + e0.subrange(i + 1, e0.len() as int));
                        if j < i {
                            assert(e1[j] == e0.subrange(0, i as int)[j]);
                        } else {
                            assert(e1[j] == e0.subrange(i + 1, e0.len() as int)[j - i]);
                        }
                    }
                    assert forall|a: int, b: int| 0 <= a < e1.len() && 0 <= b < e1.len() && a != b
                        implies entry_keys(e1)[a] != entry_keys(e1)[b] by {
                        let oa = if a < i { a } else { a + 1 };
                        let ob = if b < i { b } else { b + 1 };
                        assert(entry_keys(e0)[oa] != entry_keys(e0)[ob]);
                    }
                    assert forall|j: int| 0 <= j < e1.len() implies (#[trigger] self.entries_seq()[j]).1.causaloid.causable_inv()
                        && self.entries_seq()[j].2.action.requires(()) by {
                        let oj = if j < i { j } else { j + 1 };
                        assert(e1[j] == e0[oj]);
                    }
                }
                Ok(())
            },
        }
    }

    /// Replaces the entry filed under `idx`; fails when there is none.
    pub fn update_single_state(&mut self, idx: usize, state_action: (CausalState<C>, CausalAction<A>)) -> (r: Result<(), UpdateError>)
        requires
            old(self).inv(),
            state_action.0.causaloid.causable_inv(),
            state_action.1.action.requires(()),
        ensures
            final(self).inv(),
            r is Ok <==> key_position(old(self).entries_seq(), idx) is Some,
            r is Ok ==> final(self).entries_seq() == old(self).entries_seq().update(
                key_position(old(self).entries_seq(), idx).unwrap(),
                (idx, state_action.0, state_action.1),
            ),
            r is Err ==> final(self).entries_seq() == old(self).entries_seq(),
    {
        match self.find(idx) {
            None => Err(UpdateError("state does not exist".to_owned())),
            Some(i) => {
                let (state, action) = state_action;
                let ghost e0 = self.entries@;
                self.entries.set(i, (idx, state, action));
                proof {
                    assert(entry_keys(self.entries@) =~= entry_keys(e0));
                    assert forall|j: int| 0 <= j < self.entries@.len() implies (#[trigger] self.entries_seq()[j]).1.causaloid.causable_inv()
                        && self.entries_seq()[j].2.action.requires(()) by {
                        if j != i {
                            assert(self.entries@[j] == e0[j]);
                        }
                    }
                }
                Ok(())
            },
        }
    }

    /// Evaluates the state filed under `id` on `data`, and fires its action when
    /// the state comes out active. Fails when there is no such state, when the
    /// evaluation fails, or when the action fails.
    pub fn eval_single_state(&mut self, id: usize, data: &PropagatingEffect) -> (r: Result<(), ActionError>)
        requires
            old(self).inv(),
        ensures
            final(self).inv(),
            entry_keys(final(self).entries_seq()) == entry_keys(old(self).entries_seq()),
            key_position(old(self).entries_seq(), id) is None ==> r is Err && final(self).entries_seq() == old(self).entries_seq(),
            key_position(old(self).entries_seq(), id) is Some ==> evaluated_at(
                old(self).entries_seq(),
                final(self).entries_seq(),
                key_position(old(self).entries_seq(), id).unwrap(),
                *data,
                r,
            ),
            key_position(old(self).entries_seq(), id) is Some ==> entry_frame(
                old(self).entries_seq(),
                final(self).entries_seq(),
                key_position(old(self).entries_seq(), id).unwrap(),
            ),
    {
        match self.find(id) {
            None => Err(ActionError("state does not exist".to_owned())),
            Some(i) => {
                self.eval_entry(i, data)
            },
        }
    }

    /// Evaluates entry `i` on `data`, and fires its action when the state comes
    /// out active.
    fn eval_entry(&mut self, i: usize, data: &PropagatingEffect) -> (r: Result<(), ActionError>)
        requires
            old(self).inv(),
            (i as int) < old(self).entries_seq().len(),
        ensures
            final(self).inv(),
            entry_keys(final(self).entries_seq()) == entry_keys(old(self).entries_seq()),
            final(self).entries_seq().len() == old(self).entries_seq().len(),
            forall|j: int| 0 <= j < old(self).entries_seq().len() && j != i ==> #[trigger] final(self).entries_seq()[j] == old(self).entries_seq()[j],
            entry_frame(old(self).entries_seq(), final(self).entries_seq(), i as int),
            evaluated_at(old(self).entries_seq(), final(self).entries_seq(), i as int, *data, r),
    {
        let ghost e0 = self.entries@;
        proof {
            assert(e0[i as int].1.causaloid.causable_inv());
        }
        let o = self.entries[i].1.eval_with_data(data);
        proof {
            let e1 = self.entries@;
            assert forall|j: int| 0 <= j < e1.len() && j != i implies #[trigger] e1[j] == e0[j] by {}
            assert(entry_keys(e1) =~= entry_keys(e0));
            assert forall|j: int| 0 <= j < e1.len() implies (#[trigger] self.entries_seq()[j]).1.causaloid.causable_inv()
                && self.entries_seq()[j].2.action.requires(()) by {
                if j != i {
                    assert(e1[j] == e0[j]);
                }
            }
        }
        let r = match o {
            Err(_) => Err(ActionError("error evaluating causal state".to_owned())),
            Ok(e) => {
                if e.is_active() {
                    match self.entries[i].2.fire() {
                        Ok(()) => Ok(()),
                        Err(_) => Err(ActionError("failed to fire action".to_owned())),
                    }
                } else {
                    Ok(())
                }
            },
        };
        proof {
            assert(fired(e0[i as int].2.action, o, r));
            assert(evaluated_at(e0, self.entries@, i as int, *data, r));
        }
        r
    }

    /// Evaluates every state on its own data, in filing order, firing the action
    /// of each that comes out active; stops at the first failure.
    pub fn eval_all_states(&mut self) -> (r: Result<(), ActionError>)
        requires
            old(self).inv(),
        ensures
            final(self).inv(),
            entry_keys(final(self).entries_seq()) == entry_keys(old(self).entries_seq()),
            r is Ok ==> forall|j: int| 0 <= j < old(self).entries_seq().len() ==> #[trigger] evaluated_at(
                old(self).entries_seq(),
                final(self).entries_seq(),
                j,
                old(self).entries_seq()[j].1.data,
                Ok(()),
            ),
            r is Err ==> exists|k: int| {
                &&& 0 <= k < old(self).entries_seq().len()
                &&& forall|j: int| 0 <= j < k ==> #[trigger] evaluated_at(
                    old(self).entries_seq(),
                    final(self).entries_seq(),
                    j,
                    old(self).entries_seq()[j].1.data,
                    Ok(()),
                )
                &&& #[trigger] evaluated_at(old(self).entries_seq(), final(self).entries_seq(), k, old(self).entries_seq()[k].1.data, r)
                &&& forall|j: int| k < j < old(self).entries_seq().len() ==> #[trigger] final(self).entries_seq()[j] == old(self).entries_seq()[j]
            },
    {
        let ghost e0 = self.entries@;
        let n = self.entries.len();
        let mut i: usize = 0;
        while i < n
            invariant
                self.inv(),
                n == self.entries_seq().len(),
                e0 == old(self).entries_seq(),
                e0.len() == n,
                entry_keys(self.entries_seq()) == entry_keys(e0),
                i <= n,
                forall|j: int| 0 <= j < i ==> #[trigger] evaluated_at(e0, self.entries_seq(), j, e0[j].1.data, Ok(())),
                forall|j: int| i <= j < n ==> #[trigger] self.entries_seq()[j] == e0[j],
            decreases n - i,
        {
            let ghost before = self.entries_seq();
            let d = self.entries[i].1.data;
            let res = self.eval_entry(i, &d);
            proof {
                let after = self.entries_seq();
                assert(before[i as int] == e0[i as int]);
                assert(d == e0[i as int].1.data);
                lemma_evaluated_at_frame(before, after, e0, after, i as int, d, res);
                assert forall|j: int| 0 <= j < i implies #[trigger] evaluated_at(e0, after, j, e0[j].1.data, Ok(())) by {
                    lemma_evaluated_at_frame(e0, before, e0, after, j, e0[j].1.data, Ok(()));
                }
                assert forall|j: int| i < j < n implies #[trigger] after[j] == e0[j] by {
                    assert(after[j] == before[j]);
                }
            }
            if res.is_err() {
                proof {
                    let k = i as int;
                    assert(evaluated_at(e0, self.entries_seq(), k, e0[k].1.data, res));
                    assert(forall|j: int| 0 <= j < k ==> #[trigger] evaluated_at(e0, self.entries_seq(), j, e0[j].1.data, Ok(())));
                    assert(forall|j: int| k < j < e0.len() ==> #[trigger] self.entries_seq()[j] == e0[j]);
                }
                return res;
            }
            proof {
                lemma_evaluated_at_ok(e0, self.entries_seq(), i as int, e0[i as int].1.data, res);
            }
            i = i + 1;
        }
        Ok(())
    }

    /// Replaces all entries by `state_actions`, each filed under its state's
    /// id; a later pair replaces an earlier one with the same id.
    pub fn update_all_states(&mut self, state_actions: Vec<(CausalState<C>, CausalAction<A>)>)
        requires
            forall|i: int| 0 <= i < state_actions@.len() ==> (#[trigger] state_actions@[i]).0.causaloid.causable_inv()
                && state_actions@[i].1.action.requires(()),
        ensures
            final(self).inv(),
            filed_from(final(self).entries_seq(), state_actions@),
    {
        let ghost sa = state_actions@;
        self.entries = Vec::new();
        let mut rest = state_actions;
        proof {
            assert(entry_keys(self.entries@) =~= Seq::<usize>::empty());
            assert(rest@.len() == sa.len() && rest@ =~= sa.take(sa.len() as int));
            assert forall|k: usize| #[trigger] key_position(self.entries_seq(), k) is Some
                <==> (last_with_id(sa, k) matches Some(m) && m >= rest@.len()) by {
                lemma_last_with_id(sa, k);
            }
        }
        while rest.len() > 0
            invariant
                self.inv(),
                rest@ == sa.take(rest@.len() as int),
                rest@.len() <= sa.len(),
                forall|i: int| 0 <= i < sa.len() ==> (#[trigger] sa[i]).0.causaloid.causable_inv() && sa[i].1.action.requires(()),
                forall|k: usize| #[trigger] key_position(self.entries_seq(), k) is Some
                    <==> (last_with_id(sa, k) matches Some(m) && m >= rest@.len()),
                forall|k: usize| #[trigger] key_position(self.entries_seq(), k) is Some
                    ==> last_with_id(sa, k) is Some && self.entries_seq()[key_position(self.entries_seq(), k).unwrap()]
                        == (k, sa[last_with_id(sa, k).unwrap()].0, sa[last_with_id(sa, k).unwrap()].1),
            decreases rest@.len(),
        {
            let ghost j = rest@.len() - 1;
            let (state, action) = rest.pop().unwrap();
            proof {
                assert(rest@ =~= sa.take(j));
                assert(sa[j] == (state, action));
            }
            let k = state.id;
            proof {
                lemma_last_with_id(sa, k);
            }
            if self.find(k).is_none() {
                let ghost e0 = self.entries@;
                proof {
                    assert(last_with_id(sa, k) == Some(j)) by {
                        if last_with_id(sa, k) != Some(j) {
                            let m = last_with_id(sa, k).unwrap();
                            assert(m >= j);
                        }
                    }
                }
                self.entries.push((k, state, action));
                proof {
                    lemma_key_position_push(e0, (k, state, action));
                    assert(entry_keys(self.entries@) =~= entry_keys(e0).push(k));
                    lemma_key_position(e0, k);
                    assert(!entry_keys(e0).contains(k)) by {
                        if entry_keys(e0).contains(k) {
                            let x = choose|x: int| 0 <= x < entry_keys(e0).len() && entry_keys(e0)[x] == k;
                            assert(e0[x].0 == k);
                        }
                    }
                    assert forall|i: int| 0 <= i < self.entries@.len() implies (#[trigger] self.entries_seq()[i]).1.causaloid.causable_inv()
                        && self.entries_seq()[i].2.action.requires(()) by {
                        if i < e0.len() {
                            assert(self.entries@[i] == e0[i]);
                        }
                    }
                    assert forall|k2: usize| #[trigger] key_position(self.entries_seq(), k2) is Some
                        <==> (last_with_id(sa, k2) matches Some(m) && m >= rest@.len()) by {
                        lemma_last_with_id(sa, k2);
                        if k2 != k {
                            if let Some(m) = last_with_id(sa, k2) {
                                if m == j {
                                    assert(sa[m].0.id == k2);
                                }
                            }
                        }
                    }
                    assert forall|k2: usize| #[trigger] key_position(self.entries_seq(), k2) is Some
                        implies last_with_id(sa, k2) is Some && self.entries_seq()[key_position(self.entries_seq(), k2).unwrap()]
                            == (k2, sa[last_with_id(sa, k2).unwrap()].0, sa[last_with_id(sa, k2).unwrap()].1) by {
                        if k2 != k {
                            lemma_key_position(e0, k2);
                            let p = key_position(e0, k2).unwrap();
                            assert(self.entries@[p] == e0[p]);
                        }
                    }
                }
            } else {
                proof {
                    assert forall|k2: usize| #[trigger] key_position(self.entries_seq(), k2) is Some
                        <==> (last_with_id(sa, k2) matches Some(m) && m >= rest@.len()) by {
                        lemma_last_with_id(sa, k2);
                        if let Some(m) = last_with_id(sa, k2) {
                            if m == j {
                                assert(sa[m].0.id == k2);
                                assert(k2 == k);
                            }
                        }
                    }
                }
            }
        }
        proof {
            assert forall|k: usize| #[trigger] key_position(self.entries_seq(), k) is Some <==> last_with_id(sa, k) is Some by {
                lemma_last_with_id(sa, k);
            }
        }
    }
}

/// The index of the last pair whose state has id `k`, if any.
pub open spec fn last_with_id<C, A>(sa: Seq<(CausalState<C>, CausalAction<A>)>, k: usize) -> Option<int>
    decreases sa.len(),
{
    if sa.len() == 0 {
        None
    } else if sa.last().0.id == k {
        Some(sa.len() - 1)
    } else {
        last_with_id(sa.drop_last(), k)
    }
}

/// The entries are exactly the pairs of `sa` filed under their state's id, the
/// last pair winning for a repeated id.
pub open spec fn filed_from<C, A>(
    entries: Seq<(usize, CausalState<C>, CausalAction<A>)>,
    sa: Seq<(CausalState<C>, CausalAction<A>)>,
) -> bool {
    &&& forall|k: usize| #[trigger] key_position(entries, k) is Some <==> last_with_id(sa, k) is Some
    &&& forall|k: usize| #[trigger] key_position(entries, k) is Some
        ==> last_with_id(sa, k) is Some && entries[key_position(entries, k).unwrap()]
            == (k, sa[last_with_id(sa, k).unwrap()].0, sa[last_with_id(sa, k).unwrap()].1)
}

/// What `last_with_id` finds: a pair with that id and none after it.
pub proof fn lemma_last_with_id<C, A>(sa: Seq<(CausalState<C>, CausalAction<A>)>, k: usize)
    ensures
        last_with_id(sa, k) is None ==> forall|i: int| 0 <= i < sa.len() ==> (#[trigger] sa[i]).0.id != k,
        last_with_id(sa, k) matches Some(m) ==> 0 <= m < sa.len() && sa[m].0.id == k
            && forall|i: int| m < i < sa.len() ==> (#[trigger] sa[i]).0.id != k,
    decreases sa.len(),
{
    if sa.len() > 0 {
        lemma_last_with_id(sa.drop_last(), k);
        if sa.last().0.id != k {
            assert forall|i: int| 0 <= i < sa.len() - 1 implies #[trigger] sa[i] == sa.drop_last()[i] by {}
        }
    }
}

/// Under distinct keys, the entry filed under a key is the one that has it.
pub proof fn lemma_key_position_unique<C, A>(e: Seq<(usize, CausalState<C>, CausalAction<A>)>, key: usize, i: int)
    requires
        entry_keys(e).no_duplicates(),
        0 <= i < e.len(),
        e[i].0 == key,
    ensures
        key_position(e, key) == Some(i),
{
    lemma_key_position(e, key);
    let p = key_position(e, key).unwrap();
    if p != i {
        assert(entry_keys(e)[p] == e[p].0);
        assert(entry_keys(e)[i] == e[i].0);
        assert(entry_keys(e)[p] != entry_keys(e)[i]);
    }
}

/// Appending an entry under a fresh key files it at the end and moves nothing else.
pub proof fn lemma_key_position_push<C, A>(
    e: Seq<(usize, CausalState<C>, CausalAction<A>)>,
    x: (usize, CausalState<C>, CausalAction<A>),
)
    requires
        key_position(e, x.0) is None,
    ensures
        key_position(e.push(x), x.0) == Some(e.len() as int),
        forall|k: usize| k != x.0 ==> #[trigger] key_position(e.push(x), k) == key_position(e, k),
{
    assert(e.push(x).drop_last() =~= e);
}

/// Only the state's node in entry `i` may differ between `olds` and `news`: every
/// other entry, and the key, id, version, data and action of entry `i`, stay.
pub open spec fn entry_frame<C, A>(
    olds: Seq<(usize, CausalState<C>, CausalAction<A>)>,
    news: Seq<(usize, CausalState<C>, CausalAction<A>)>,
    i: int,
) -> bool {
    &&& news.len() == olds.len()
    &&& forall|j: int| 0 <= j < olds.len() && j != i ==> #[trigger] news[j] == olds[j]
    &&& news[i].0 == olds[i].0
    &&& news[i].1.id == olds[i].1.id
    &&& news[i].1.version == olds[i].1.version
    &&& news[i].1.data == olds[i].1.data
    &&& news[i].2 == olds[i].2
}

/// Entry `i` of `olds` was evaluated on `data` into entry `i` of `news`, and
/// `r` is the machine's verdict on the outcome.
pub open spec fn evaluated_at<C: Causable, A: Fn() -> Result<(), ActionError>>(
    olds: Seq<(usize, CausalState<C>, CausalAction<A>)>,
    news: Seq<(usize, CausalState<C>, CausalAction<A>)>,
    i: int,
    data: PropagatingEffect,
    r: Result<(), ActionError>,
) -> bool {
    exists|o: Outcome| evaluated_as(olds[i].1.causaloid, news[i].1.causaloid, data, o) && #[trigger] fired(olds[i].2.action, o, r)
}

/// `evaluated_at` looks at entry `i` alone.
pub proof fn lemma_evaluated_at_frame<C: Causable, A: Fn() -> Result<(), ActionError>>(
    olds: Seq<(usize, CausalState<C>, CausalAction<A>)>,
    news: Seq<(usize, CausalState<C>, CausalAction<A>)>,
    olds2: Seq<(usize, CausalState<C>, CausalAction<A>)>,
    news2: Seq<(usize, CausalState<C>, CausalAction<A>)>,
    i: int,
    data: PropagatingEffect,
    r: Result<(), ActionError>,
)
    requires
        evaluated_at(olds, news, i, data, r),
        olds2[i] == olds[i],
        news2[i] == news[i],
    ensures
        evaluated_at(olds2, news2, i, data, r),
{
    let o = choose|o: Outcome| evaluated_as(olds[i].1.causaloid, news[i].1.causaloid, data, o) && #[trigger] fired(olds[i].2.action, o, r);
    assert(evaluated_as(olds2[i].1.causaloid, news2[i].1.causaloid, data, o) && fired(olds2[i].2.action, o, r));
}

/// Only whether the verdict succeeded matters to `evaluated_at`.
pub proof fn lemma_evaluated_at_ok<C: Causable, A: Fn() -> Result<(), ActionError>>(
    olds: Seq<(usize, CausalState<C>, CausalAction<A>)>,
    news: Seq<(usize, CausalState<C>, CausalAction<A>)>,
    i: int,
    data: PropagatingEffect,
    r: Result<(), ActionError>,
)
    requires
        evaluated_at(olds, news, i, data, r),
        r is Ok,
    ensures
        evaluated_at(olds, news, i, data, Ok(())),
{
    let o = choose|o: Outcome| evaluated_as(olds[i].1.causaloid, news[i].1.causaloid, data, o) && #[trigger] fired(olds[i].2.action, o, r);
    assert(fired(olds[i].2.action, o, Ok(())));
}

/// The machine's verdict on one evaluated state: an evaluation failure is an
/// error; an active effect fires the action, whose failure is an error;
/// otherwise nothing happens.
pub open spec fn fired<A: Fn() -> Result<(), ActionError>>(action: A, o: Outcome, r: Result<(), ActionError>) -> bool {
    match o {
        Err(_) => r is Err,
        Ok(e) => if effect_is_active(Some(e)) {
            exists|f: Result<(), ActionError>| action.ensures((), f) && (r is Ok <==> f is Ok)
        } else {
            r is Ok
        },
    }
}

} // verus!
