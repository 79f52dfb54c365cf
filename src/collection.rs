//! An ordered collection of causal nodes, evaluated as one chain under
//! deterministic, probabilistic or mixed aggregation.
use vstd::prelude::*;
use crate::causaloid::Causable;
use crate::causaloid_graph::{reason_continues, reason_result};
use crate::effect::{AggregateLogic, CausalityError, IdentificationValue, NumericalValue, PropagatingEffect, UNIT};
use crate::text::{push_str, string_from_chars};

verus! {

/// One outcome of evaluating a node.
pub type Outcome = Result<PropagatingEffect, CausalityError>;

/// `new` is `old` after an evaluation on `input` whose outcome was `out`.
pub open spec fn evaluated_as<T: Causable>(old: T, new: T, input: PropagatingEffect, out: Outcome) -> bool {
    &&& old.evaluates_to(input, out)
    &&& new.causable_inv()
    &&& new.ident() == old.ident()
    &&& new.same_node(old)
    &&& old.evaluated_into(input, out, new)
    &&& out matches Ok(e) ==> new.last_effect() == Some(e)
    &&& out is Err ==> new.last_effect() == old.last_effect()
}

/// The first `outs.len()` nodes were evaluated on `input` with outcomes `outs`;
/// the others are untouched.
pub open spec fn chain_evaluated<T: Causable>(olds: Seq<T>, news: Seq<T>, input: PropagatingEffect, outs: Seq<Outcome>) -> bool {
    &&& news.len() == olds.len()
    &&& outs.len() <= olds.len()
    &&& forall|i: int| 0 <= i < outs.len() ==> evaluated_as(olds[i], news[i], input, #[trigger] outs[i])
    &&& forall|i: int| outs.len() <= i < olds.len() ==> #[trigger] news[i] == olds[i]
}

/// The first `outs.len()` nodes were evaluated, node `i` on `inputs[i]`, with
/// outcomes `outs`; the others are untouched.
pub open spec fn chain_evaluated_each<T: Causable>(olds: Seq<T>, news: Seq<T>, inputs: Seq<PropagatingEffect>, outs: Seq<Outcome>) -> bool {
    &&& news.len() == olds.len()
    &&& outs.len() <= olds.len()
    &&& forall|i: int| 0 <= i < outs.len() ==> evaluated_as(olds[i], news[i], inputs[i], #[trigger] outs[i])
    &&& forall|i: int| outs.len() <= i < olds.len() ==> #[trigger] news[i] == olds[i]
}

/// Each observation as the effect its node is evaluated on.
pub open spec fn observations(data: Seq<NumericalValue>) -> Seq<PropagatingEffect> {
    Seq::new(data.len(), |i: int| PropagatingEffect::Numerical(data[i]))
}

/// The chain goes on past a node only when the node evaluated to a definite `true`.
pub open spec fn det_continues(o: Outcome) -> bool {
    o == Ok::<PropagatingEffect, CausalityError>(PropagatingEffect::Deterministic(true))
}

/// A deterministic chain over `n` nodes evaluated exactly the nodes up to and
/// including the first one that did not yield `true`.
pub open spec fn det_chain_shape(outs: Seq<Outcome>, n: int) -> bool {
    &&& forall|i: int| 0 <= i < outs.len() - 1 ==> det_continues(#[trigger] outs[i])
    &&& outs.len() < n ==> outs.len() >= 1 && !det_continues(outs.last())
}

/// The message of the error for an effect that is not a definite outcome.
pub open spec fn not_deterministic_message() -> Seq<char> {
    "effect is not deterministic"@
}

/// The message of the error for an effect that cannot be read as a probability.
pub open spec fn not_probabilistic_message() -> Seq<char> {
    "effect cannot be read as a probability"@
}

/// The result of a deterministic chain, read off its last outcome.
pub open spec fn det_chain_result(outs: Seq<Outcome>, r: Outcome) -> bool {
    if outs.len() == 0 || det_continues(outs.last()) {
        r == Ok::<PropagatingEffect, CausalityError>(PropagatingEffect::Deterministic(true))
    } else {
        match outs.last() {
            Ok(PropagatingEffect::Deterministic(false)) => r == Ok::<PropagatingEffect, CausalityError>(
                PropagatingEffect::Deterministic(false),
            ),
            Ok(_) => r matches Err(e) && e.0@ == not_deterministic_message(),
            Err(e) => r == Err::<PropagatingEffect, CausalityError>(e),
        }
    }
}

/// An effect read as a probability: `true` is certain, `false` impossible.
pub open spec fn probability_of(e: PropagatingEffect) -> Option<int> {
    match e {
        PropagatingEffect::Deterministic(true) => Some(UNIT as int),
        PropagatingEffect::Deterministic(false) => Some(0),
        PropagatingEffect::Probabilistic(p) => if 0 <= p <= UNIT { Some(p as int) } else { None },
        _ => None,
    }
}

/// True when the outcome is an effect that reads as a probability.
pub open spec fn has_probability(o: Outcome) -> bool {
    o matches Ok(e) && probability_of(e) is Some
}

/// The probability of an outcome, zero when it has none.
pub open spec fn outcome_probability(o: Outcome) -> int {
    match o {
        Ok(e) => match probability_of(e) {
            Some(p) => p,
            None => 0,
        },
        Err(_) => 0,
    }
}

/// The cumulative probability after the first `k` outcomes, in fixed point and
/// rounded down at each step.
pub open spec fn cumulative(outs: Seq<Outcome>, k: int) -> int
    decreases k,
{
    if k <= 0 {
        UNIT as int
    } else {
        cumulative(outs, k - 1) * outcome_probability(outs[k - 1]) / (UNIT as int)
    }
}

/// A probabilistic chain over `n` nodes goes on past a node only while the
/// outcome reads as a probability and the cumulative probability stays above
/// `threshold`.
pub open spec fn prob_chain_shape(outs: Seq<Outcome>, n: int, threshold: int) -> bool {
    &&& forall|i: int| 0 <= i < outs.len() - 1 ==> has_probability(#[trigger] outs[i]) && cumulative(outs, i + 1) > threshold
    &&& outs.len() < n ==> outs.len() >= 1 && (!has_probability(outs.last()) || cumulative(outs, outs.len() as int) <= threshold)
}

/// The result of a probabilistic chain, read off its last outcome.
pub open spec fn prob_chain_result(outs: Seq<Outcome>, r: Outcome) -> bool {
    if outs.len() == 0 || has_probability(outs.last()) {
        r == Ok::<PropagatingEffect, CausalityError>(PropagatingEffect::Probabilistic(cumulative(outs, outs.len() as int) as i64))
    } else {
        match outs.last() {
            Ok(_) => r matches Err(e) && e.0@ == not_probabilistic_message(),
            Err(e) => r == Err::<PropagatingEffect, CausalityError>(e),
        }
    }
}

/// An effect read as a definite outcome in mixed mode: a probability holds when
/// it exceeds `threshold`.
pub open spec fn mixed_value(e: PropagatingEffect, threshold: int) -> Option<bool> {
    match e {
        PropagatingEffect::Deterministic(b) => Some(b),
        PropagatingEffect::Probabilistic(p) => Some(p > threshold),
        _ => None,
    }
}

/// The mixed chain goes on past a node only when it reads as `true`.
pub open spec fn mixed_continues(o: Outcome, threshold: int) -> bool {
    o matches Ok(e) && mixed_value(e, threshold) == Some(true)
}

/// A mixed chain evaluated exactly the nodes up to the first that did not read as `true`.
pub open spec fn mixed_chain_shape(outs: Seq<Outcome>, n: int, threshold: int) -> bool {
    &&& forall|i: int| 0 <= i < outs.len() - 1 ==> mixed_continues(#[trigger] outs[i], threshold)
    &&& outs.len() < n ==> outs.len() >= 1 && !mixed_continues(outs.last(), threshold)
}

/// The result of a mixed chain, read off its last outcome.
pub open spec fn mixed_chain_result(outs: Seq<Outcome>, r: Outcome, threshold: int) -> bool {
    if outs.len() == 0 || mixed_continues(outs.last(), threshold) {
        r == Ok::<PropagatingEffect, CausalityError>(PropagatingEffect::Deterministic(true))
    } else {
        match outs.last() {
            Ok(e) => if mixed_value(e, threshold) == Some(false) {
                r == Ok::<PropagatingEffect, CausalityError>(PropagatingEffect::Deterministic(false))
            } else {
                r matches Err(err) && err.0@ == not_deterministic_message()
            },
            Err(e) => r == Err::<PropagatingEffect, CausalityError>(e),
        }
    }
}

/// The explanation of a whole sequence of evaluated nodes: one line per
/// active node, in order.
pub open spec fn chain_explanation<T: Causable>(items: Seq<T>) -> Seq<char>
    decreases items.len(),
{
    if items.len() == 0 {
        Seq::empty()
    } else if items.last().active() {
        chain_explanation(items.drop_last()) + "\n * "@ + items.last().explanation() + "\n"@
    } else {
        chain_explanation(items.drop_last())
    }
}

/// The failure message of the first node from position `i` on that cannot be explained.
pub open spec fn first_failure<T: Causable>(items: Seq<T>, i: int) -> Seq<char>
    decreases items.len() - i,
{
    if i < 0 || i >= items.len() {
        Seq::empty()
    } else if !items[i].explainable() {
        items[i].explain_failure()
    } else {
        first_failure(items, i + 1)
    }
}

/// An ordered collection of causal nodes. Evaluated as a whole it is itself a
/// causal node: its nodes form a deterministic chain.
#[derive(Clone)]
pub struct CausalCollection<T> {
    id: IdentificationValue,
    items: Vec<T>,
    effect: Option<PropagatingEffect>,
    mode: Aggregation,
}

/// How a collection evaluated as one node combines its nodes.
#[derive(Debug, Clone, Copy, PartialEq, Eq, Structural)]
pub enum Aggregation {
    /// A deterministic chain: all nodes must hold.
    Deterministic,
    /// A product of probabilities, stopping at or below the threshold.
    Probabilistic(NumericalValue),
    /// A deterministic chain where a probability holds above the threshold.
    Mixed(NumericalValue),
}

/// The outcome `out` of a chain over `n` nodes with outcomes `outs`, under `mode`.
pub open spec fn aggregated(mode: Aggregation, outs: Seq<Outcome>, n: int, out: Outcome) -> bool {
    match mode {
        Aggregation::Deterministic => det_chain_shape(outs, n) && det_chain_result(outs, out),
        Aggregation::Probabilistic(t) => prob_chain_shape(outs, n, t as int) && prob_chain_result(outs, out),
        Aggregation::Mixed(t) => mixed_chain_shape(outs, n, t as int) && mixed_chain_result(outs, out, t as int),
    }
}

impl<T: Causable> CausalCollection<T> {
    /// The nodes, in order.
    pub closed spec fn items_seq(&self) -> Seq<T> {
        self.items@
    }

    pub open spec fn inv(&self) -> bool {
        forall|i: int| 0 <= i < self.items_seq().len() ==> #[trigger] self.items_seq()[i].causable_inv()
    }

    proof fn lemma_inv(&self)
        ensures
            self.inv() <==> forall|j: int| 0 <= j < self.items@.len() ==> #[trigger] self.items@[j].causable_inv(),
    {
        if self.inv() {
            assert forall|j: int| 0 <= j < self.items@.len() implies #[trigger] self.items@[j].causable_inv() by {
                assert(self.items_seq()[j].causable_inv());
            }
        }
        if forall|j: int| 0 <= j < self.items@.len() ==> #[trigger] self.items@[j].causable_inv() {
            assert forall|j: int| 0 <= j < self.items_seq().len() implies #[trigger] self.items_seq()[j].causable_inv() by {
                assert(self.items@[j].causable_inv());
            }
        }
    }

    /// The identifier, the effect of the last evaluation as a whole, and how
    /// the nodes combine when the collection is evaluated as a whole.
    pub closed spec fn meta(&self) -> (IdentificationValue, Option<PropagatingEffect>, Aggregation) {
        (self.id, self.effect, self.mode)
    }

    /// A collection of the given nodes, in the given order, with identifier 0.
    pub fn from_vec(items: Vec<T>) -> (r: Self)
        ensures
            r.items_seq() == items@,
            r.meta() == (0u64, None::<PropagatingEffect>, Aggregation::Deterministic),
    {
        CausalCollection { id: 0, items, effect: None, mode: Aggregation::Deterministic }
    }

    /// A collection with the given identifier and nodes, in the given order.
    pub fn with_id(id: IdentificationValue, items: Vec<T>) -> (r: Self)
        ensures
            r.items_seq() == items@,
            r.meta() == (id, None::<PropagatingEffect>, Aggregation::Deterministic),
    {
        CausalCollection { id, items, effect: None, mode: Aggregation::Deterministic }
    }

    /// A collection with the given identifier, nodes and way of combining them
    /// when it is evaluated as one node.
    pub fn with_mode(id: IdentificationValue, items: Vec<T>, mode: Aggregation) -> (r: Self)
        ensures
            r.items_seq() == items@,
            r.meta() == (id, None::<PropagatingEffect>, mode),
    {
        CausalCollection { id, items, effect: None, mode }
    }

    /// An empty collection with identifier 0.
    pub fn new() -> (r: Self)
        ensures
            r.items_seq() == Seq::<T>::empty(),
            r.meta() == (0u64, None::<PropagatingEffect>, Aggregation::Deterministic),
    {
        CausalCollection { id: 0, items: Vec::new(), effect: None, mode: Aggregation::Deterministic }
    }

    /// Appends a node.
    pub fn push(&mut self, item: T)
        ensures
            final(self).items_seq() == old(self).items_seq().push(item),
            final(self).meta() == old(self).meta(),
    {
        self.items.push(item);
    }

    /// Number of nodes.
    pub fn len(&self) -> (r: usize)
        ensures
            r == self.items_seq().len(),
    {
        self.items.len()
    }

    /// True when there are no nodes.
    pub fn is_empty(&self) -> (r: bool)
        ensures
            r == (self.items_seq().len() == 0),
    {
        self.items.len() == 0
    }

    /// References to all nodes, in order.
    pub fn get_all_items(&self) -> (r: Vec<&T>)
        ensures
            r@.len() == self.items_seq().len(),
            forall|i: int| 0 <= i < r@.len() ==> *#[trigger] r@[i] == self.items_seq()[i],
    {
        let mut out: Vec<&T> = Vec::new();
        let mut i: usize = 0;
        while i < self.items.len()
            invariant
                i <= self.items@.len(),
                out@.len() == i,
                forall|j: int| 0 <= j < i ==> *#[trigger] out@[j] == self.items@[j],
            decreases self.items@.len() - i,
        {
            out.push(&self.items[i]);
            i = i + 1;
        }
        out
    }

    /// Gives the nodes back, in order.
    pub fn into_vec(self) -> (r: Vec<T>)
        ensures
            r@ == self.items_seq(),
    {
        self.items
    }

    /// Reasons over the nodes in order, node `i` evaluated on observation
    /// `data[i]`, and returns whether all came out active; stops at the first
    /// that did not. Fails, evaluating nothing, when there are fewer
    /// observations than nodes.
    pub fn reason_all_causes(&mut self, data: &[NumericalValue]) -> (r: Result<bool, CausalityError>)
        requires
            old(self).inv(),
        ensures
            final(self).inv(),
            final(self).meta() == old(self).meta(),
            data@.len() < old(self).items_seq().len() ==> r is Err && final(self).items_seq() == old(self).items_seq(),
            data@.len() >= old(self).items_seq().len() ==> exists|outs: Seq<Outcome>|
                chain_evaluated_each(old(self).items_seq(), final(self).items_seq(), observations(data@), outs)
                    && #[trigger] reason_result(outs, old(self).items_seq().len() as int, r),
    {
        let n = self.items.len();
        if data.len() < n {
            return Err(CausalityError("fewer observations than causaloids".to_owned()));
        }
        let ghost olds = self.items@;
        let ghost mut outs: Seq<Outcome> = Seq::empty();
        proof {
            self.lemma_inv();
        }
        let mut i: usize = 0;
        while i < n
            invariant
                self.items@.len() == n,
                olds.len() == n,
                olds == old(self).items_seq(),
                self.meta() == old(self).meta(),
                n <= data@.len(),
                i <= n,
                outs.len() == i,
                chain_evaluated_each(olds, self.items@, observations(data@), outs),
                forall|j: int| 0 <= j < i ==> reason_continues(#[trigger] outs[j]),
                forall|j: int| 0 <= j < n ==> #[trigger] self.items@[j].causable_inv(),
            decreases n - i,
        {
            let ghost before = self.items@;
            let input = PropagatingEffect::Numerical(data[i]);
            let o = self.items[i].evaluate(&input);
            proof {
                outs = outs.push(o);
                assert(observations(data@)[i as int] == input);
                assert(forall|j: int| 0 <= j < n && j != i ==> self.items@[j] == before[j]);
                assert(evaluated_as(olds[i as int], self.items@[i as int], observations(data@)[i as int], outs[i as int]));
            }
            match o {
                Err(e) => {
                    let r = Err(e);
                    proof {
                        self.lemma_inv();
                        assert(reason_result(outs, n as int, r));
                    }
                    return r;
                },
                Ok(e) => {
                    if !e.is_active() {
                        let r = Ok(false);
                        proof {
                            self.lemma_inv();
                            assert(reason_result(outs, n as int, r));
                        }
                        return r;
                    }
                },
            }
            i = i + 1;
        }
        let r = Ok(true);
        proof {
            self.lemma_inv();
            assert(reason_result(outs, n as int, r));
        }
        r
    }

    /// Evaluates the nodes in order on `effect`, each read as a definite
    /// outcome; stops at the first `false` (the result is then `false`), at the
    /// first failure, or at the first effect that is not definite (an error).
    pub fn evaluate_deterministic(&mut self, effect: &PropagatingEffect, logic: &AggregateLogic) -> (r: Outcome)
        requires
            old(self).inv(),
        ensures
            final(self).inv(),
            final(self).meta() == old(self).meta(),
            exists|outs: Seq<Outcome>|
                chain_evaluated(old(self).items_seq(), final(self).items_seq(), *effect, outs)
                    && det_chain_shape(outs, old(self).items_seq().len() as int) && #[trigger] det_chain_result(outs, r),
    {
        let n = self.items.len();
        let ghost olds = self.items@;
        let ghost mut outs: Seq<Outcome> = Seq::empty();
        proof {
            self.lemma_inv();
        }
        let mut i: usize = 0;
        while i < n
            invariant
                self.items@.len() == n,
                olds.len() == n,
                olds == old(self).items_seq(),
                self.meta() == old(self).meta(),
                i <= n,
                outs.len() == i,
                chain_evaluated(olds, self.items@, *effect, outs),
                forall|j: int| 0 <= j < i ==> det_continues(#[trigger] outs[j]),
                forall|j: int| 0 <= j < n ==> #[trigger] self.items@[j].causable_inv(),
            decreases n - i,
        {
            let ghost before = self.items@;
            let o = self.items[i].evaluate(effect);
            proof {
                outs = outs.push(o);
                assert(forall|j: int| 0 <= j < n && j != i ==> self.items@[j] == before[j]);
                assert(evaluated_as(olds[i as int], self.items@[i as int], *effect, outs[i as int]));
            }
            let goes_on = match &o {
                Ok(PropagatingEffect::Deterministic(true)) => true,
                _ => false,
            };
            if !goes_on {
                let r = match o {
                    Ok(PropagatingEffect::Deterministic(false)) => Ok(PropagatingEffect::Deterministic(false)),
                    Ok(_) => Err(CausalityError("effect is not deterministic".to_owned())),
                    Err(e) => Err(e),
                };
                proof {
                    self.lemma_inv();
                    assert(chain_evaluated(olds, self.items@, *effect, outs));
                    assert(det_chain_shape(outs, n as int));
                    assert(det_chain_result(outs, r));
                }
                return r;
            }
            i = i + 1;
        }
        let r = Ok(PropagatingEffect::Deterministic(true));
        proof {
            self.lemma_inv();
            assert(det_chain_result(outs, r));
        }
        r
    }

    /// Evaluates the nodes in order on `effect`, each read as a probability,
    /// and multiplies them up; stops once the cumulative probability is at or
    /// below `threshold`, at the first failure, or at the first effect that is
    /// no probability (an error).
    pub fn evaluate_probabilistic(&mut self, effect: &PropagatingEffect, logic: &AggregateLogic, threshold: NumericalValue) -> (r: Outcome)
        requires
            old(self).inv(),
        ensures
            final(self).inv(),
            final(self).meta() == old(self).meta(),
            exists|outs: Seq<Outcome>|
                chain_evaluated(old(self).items_seq(), final(self).items_seq(), *effect, outs)
                    && prob_chain_shape(outs, old(self).items_seq().len() as int, threshold as int)
                    && #[trigger] prob_chain_result(outs, r),
    {
        let n = self.items.len();
        let ghost olds = self.items@;
        let ghost mut outs: Seq<Outcome> = Seq::empty();
        proof {
            self.lemma_inv();
        }
        let mut acc: i64 = UNIT;
        let mut i: usize = 0;
        while i < n
            invariant
                self.items@.len() == n,
                olds.len() == n,
                olds == old(self).items_seq(),
                self.meta() == old(self).meta(),
                i <= n,
                outs.len() == i,
                chain_evaluated(olds, self.items@, *effect, outs),
                forall|j: int| 0 <= j < i ==> has_probability(#[trigger] outs[j]) && cumulative(outs, j + 1) > threshold,
                acc == cumulative(outs, i as int),
                0 <= acc <= UNIT,
                forall|j: int| 0 <= j < n ==> #[trigger] self.items@[j].causable_inv(),
            decreases n - i,
        {
            let ghost before = self.items@;
            let o = self.items[i].evaluate(effect);
            proof {
                let o0 = outs;
                outs = outs.push(o);
                lemma_cumulative_prefix(o0, o, i as int);
                assert(forall|j: int| 0 <= j < n && j != i ==> self.items@[j] == before[j]);
                assert(evaluated_as(olds[i as int], self.items@[i as int], *effect, outs[i as int]));
                assert forall|j: int| 0 <= j < i implies has_probability(#[trigger] outs[j]) && cumulative(outs, j + 1) > threshold by {
                    assert(outs[j] == o0[j]);
                    lemma_cumulative_prefix(o0, o, j + 1);
                }
            }
            let p: Option<i64> = match &o {
                Ok(PropagatingEffect::Deterministic(b)) => if *b { Some(UNIT) } else { Some(0) },
                Ok(PropagatingEffect::Probabilistic(p)) => if 0 <= *p && *p <= UNIT { Some(*p) } else { None },
                _ => None,
            };
            match p {
                None => {
                    let r = match o {
                        Ok(_) => Err(CausalityError("effect cannot be read as a probability".to_owned())),
                        Err(e) => Err(e),
                    };
                    proof {
                        self.lemma_inv();
                        assert(prob_chain_result(outs, r));
                    }
                    return r;
                },
                Some(p) => {
                    proof {
                        let a = acc as int;
                        let q = p as int;
                        let u = UNIT as int;
                        assert(0 <= a * q <= u * u) by (nonlinear_arith)
                            requires 0 <= a <= u, 0 <= q <= u;
                        assert(0 <= (a * q) / u <= u) by (nonlinear_arith)
                            requires 0 <= a * q <= u * u, u > 0;
                    }
                    acc = acc * p / UNIT;
                    proof {
                        assert(acc == cumulative(outs, i + 1));
                    }
                    if acc <= threshold {
                        let r = Ok(PropagatingEffect::Probabilistic(acc));
                        proof {
                            self.lemma_inv();
                            assert(prob_chain_shape(outs, n as int, threshold as int));
                            assert(prob_chain_result(outs, r));
                        }
                        return r;
                    }
                },
            }
            i = i + 1;
        }
        let r = Ok(PropagatingEffect::Probabilistic(acc));
        proof {
            self.lemma_inv();
            assert(prob_chain_result(outs, r));
        }
        r
    }

    /// Evaluates the nodes in order on `effect`, each read as a definite
    /// outcome where a probability counts as `true` above `threshold`; stops
    /// like the deterministic chain.
    pub fn evaluate_mixed(&mut self, effect: &PropagatingEffect, logic: &AggregateLogic, threshold: NumericalValue) -> (r: Outcome)
        requires
            old(self).inv(),
        ensures
            final(self).inv(),
            final(self).meta() == old(self).meta(),
            exists|outs: Seq<Outcome>|
                chain_evaluated(old(self).items_seq(), final(self).items_seq(), *effect, outs)
                    && mixed_chain_shape(outs, old(self).items_seq().len() as int, threshold as int)
                    && #[trigger] mixed_chain_result(outs, r, threshold as int),
    {
        let n = self.items.len();
        let ghost olds = self.items@;
        let ghost mut outs: Seq<Outcome> = Seq::empty();
        proof {
            self.lemma_inv();
        }
        let mut i: usize = 0;
        while i < n
            invariant
                self.items@.len() == n,
                olds.len() == n,
                olds == old(self).items_seq(),
                self.meta() == old(self).meta(),
                i <= n,
                outs.len() == i,
                chain_evaluated(olds, self.items@, *effect, outs),
                forall|j: int| 0 <= j < i ==> mixed_continues(#[trigger] outs[j], threshold as int),
                forall|j: int| 0 <= j < n ==> #[trigger] self.items@[j].causable_inv(),
            decreases n - i,
        {
            let ghost before = self.items@;
            let o = self.items[i].evaluate(effect);
            proof {
                outs = outs.push(o);
                assert(forall|j: int| 0 <= j < n && j != i ==> self.items@[j] == before[j]);
                assert(evaluated_as(olds[i as int], self.items@[i as int], *effect, outs[i as int]));
            }
            let value: Option<bool> = match &o {
                Ok(PropagatingEffect::Deterministic(b)) => Some(*b),
                Ok(PropagatingEffect::Probabilistic(p)) => Some(*p > threshold),
                _ => None,
            };
            if value != Some(true) {
                let r = match o {
                    Ok(_) => if value == Some(false) {
                        Ok(PropagatingEffect::Deterministic(false))
                    } else {
                        Err(CausalityError("effect is not deterministic".to_owned()))
                    },
                    Err(e) => Err(e),
                };
                proof {
                    self.lemma_inv();
                    assert(mixed_chain_shape(outs, n as int, threshold as int));
                    assert(mixed_chain_result(outs, r, threshold as int));
                }
                return r;
            }
            i = i + 1;
        }
        let r = Ok(PropagatingEffect::Deterministic(true));
        proof {
            self.lemma_inv();
            assert(mixed_chain_result(outs, r, threshold as int));
        }
        r
    }

}

impl<T: Causable> Causable for CausalCollection<T> {
    open spec fn causable_inv(&self) -> bool {
        self.inv()
    }

    open spec fn ident(&self) -> IdentificationValue {
        self.meta().0
    }

    open spec fn last_effect(&self) -> Option<PropagatingEffect> {
        self.meta().1
    }

    open spec fn evaluates_to(&self, input: PropagatingEffect, out: Outcome) -> bool {
        exists|news: Seq<T>, outs: Seq<Outcome>|
            #[trigger] chain_evaluated(self.items_seq(), news, input, outs)
                && aggregated(self.meta().2, outs, self.items_seq().len() as int, out)
    }

    open spec fn explanation(&self) -> Seq<char> {
        chain_explanation(self.items_seq())
    }

    open spec fn explainable(&self) -> bool {
        forall|i: int| 0 <= i < self.items_seq().len() ==> (#[trigger] self.items_seq()[i]).explainable()
    }

    open spec fn active(&self) -> bool {
        exists|i: int| 0 <= i < self.items_seq().len() && (#[trigger] self.items_seq()[i]).active()
    }

    open spec fn explain_failure(&self) -> Seq<char> {
        first_failure(self.items_seq(), 0)
    }

    open spec fn evaluated_into(&self, input: PropagatingEffect, out: Outcome, new: Self) -> bool {
        &&& new.meta() == (self.meta().0, match out {
            Ok(e) => Some(e),
            Err(_) => self.meta().1,
        }, self.meta().2)
        &&& exists|outs: Seq<Outcome>|
            #[trigger] chain_evaluated(self.items_seq(), new.items_seq(), input, outs)
                && aggregated(self.meta().2, outs, self.items_seq().len() as int, out)
    }

    open spec fn singleton(&self) -> bool {
        false
    }

    open spec fn same_node(&self, other: Self) -> bool {
        &&& self.ident() == other.ident()
        &&& self.items_seq().len() == other.items_seq().len()
        &&& forall|i: int| 0 <= i < self.items_seq().len() ==> #[trigger] self.items_seq()[i] == other.items_seq()[i]
            || self.items_seq()[i].same_node(other.items_seq()[i])
    }

    /// Evaluates the nodes as one chain, combined as the collection's mode
    /// says, and records the outcome.
    fn evaluate(&mut self, effect: &PropagatingEffect) -> (r: Outcome) {
        let ghost olds = self.items@;
        let mode = self.mode;
        let r = match mode {
            Aggregation::Deterministic => self.evaluate_deterministic(effect, &AggregateLogic::All),
            Aggregation::Probabilistic(t) => self.evaluate_probabilistic(effect, &AggregateLogic::All, t),
            Aggregation::Mixed(t) => self.evaluate_mixed(effect, &AggregateLogic::All, t),
        };
        proof {
            let outs = choose|outs: Seq<Outcome>|
                chain_evaluated(olds, self.items@, *effect, outs) && aggregated(mode, outs, olds.len() as int, r);
            assert(chain_evaluated(olds, self.items@, *effect, outs) && aggregated(mode, outs, olds.len() as int, r)) by {
                match mode {
                    Aggregation::Deterministic => {
                        let o = choose|o: Seq<Outcome>| chain_evaluated(olds, self.items@, *effect, o)
                            && det_chain_shape(o, olds.len() as int) && #[trigger] det_chain_result(o, r);
                        assert(chain_evaluated(olds, self.items@, *effect, o) && aggregated(mode, o, olds.len() as int, r));
                    },
                    Aggregation::Probabilistic(t) => {
                        let o = choose|o: Seq<Outcome>| chain_evaluated(olds, self.items@, *effect, o)
                            && prob_chain_shape(o, olds.len() as int, t as int) && #[trigger] prob_chain_result(o, r);
                        assert(chain_evaluated(olds, self.items@, *effect, o) && aggregated(mode, o, olds.len() as int, r));
                    },
                    Aggregation::Mixed(t) => {
                        let o = choose|o: Seq<Outcome>| chain_evaluated(olds, self.items@, *effect, o)
                            && mixed_chain_shape(o, olds.len() as int, t as int) && #[trigger] mixed_chain_result(o, r, t as int);
                        assert(chain_evaluated(olds, self.items@, *effect, o) && aggregated(mode, o, olds.len() as int, r));
                    },
                }
            }
            assert forall|i: int| 0 <= i < self.items_seq().len() implies #[trigger] self.items_seq()[i] == old(self).items_seq()[i]
                || self.items_seq()[i].same_node(old(self).items_seq()[i]) by {
                if i < outs.len() {
                    assert(evaluated_as(olds[i], self.items@[i], *effect, outs[i]));
                }
            }
        }
        let ghost outs = choose|outs: Seq<Outcome>|
            chain_evaluated(olds, self.items@, *effect, outs) && aggregated(mode, outs, olds.len() as int, r);
        match &r {
            Ok(e) => {
                self.effect = Some(*e);
            },
            Err(_) => {},
        }
        proof {
            assert(chain_evaluated(old(self).items_seq(), self.items_seq(), *effect, outs)
                && aggregated(old(self).meta().2, outs, old(self).items_seq().len() as int, r));
        }
        r
    }

    fn is_singleton(&self) -> (r: bool) {
        false
    }

    /// True when some node of the collection is active.
    fn is_active(&self) -> (r: bool) {
        let mut i: usize = 0;
        while i < self.items.len()
            invariant
                self.inv(),
                i <= self.items@.len(),
                forall|j: int| 0 <= j < i ==> !(#[trigger] self.items_seq()[j]).active(),
            decreases self.items@.len() - i,
        {
            proof {
                assert(self.items_seq()[i as int].causable_inv());
            }
            if self.items[i].is_active() {
                proof {
                    assert(self.items_seq()[i as int].active());
                }
                return true;
            }
            i = i + 1;
        }
        false
    }

    /// One line per active node, in order; fails at the first node not yet evaluated.
    fn explain(&self) -> (r: Result<String, CausalityError>) {
        let mut out: Vec<char> = Vec::new();
        let mut i: usize = 0;
        while i < self.items.len()
            invariant
                self.inv(),
                i <= self.items@.len(),
                forall|j: int| 0 <= j < i ==> (#[trigger] self.items@[j]).explainable(),
                out@ == chain_explanation(self.items@.take(i as int)),
                first_failure(self.items_seq(), 0) == first_failure(self.items_seq(), i as int),
            decreases self.items@.len() - i,
        {
            proof {
                assert(self.items_seq()[i as int].causable_inv());
            }
            match self.items[i].explain() {
                Err(e) => {
                    proof {
                        assert(!self.items_seq()[i as int].explainable());
                    }
                    return Err(e);
                },
                Ok(line) => {
                    proof {
                        assert(self.items@.take(i + 1).drop_last() =~= self.items@.take(i as int));
                        assert(first_failure(self.items_seq(), i as int) == first_failure(self.items_seq(), i + 1));
                    }
                    if self.items[i].is_active() {
                        push_str(&mut out, "\n * ");
                        push_str(&mut out, line.as_str());
                        push_str(&mut out, "\n");
                    }
                    proof {
                        assert(out@ =~= chain_explanation(self.items@.take(i + 1)));
                    }
                },
            }
            i = i + 1;
        }
        proof {
            assert(self.items@.take(i as int) =~= self.items@);
        }
        Ok(string_from_chars(&out))
    }

    fn id(&self) -> (r: IdentificationValue) {
        self.id
    }
}

/// The cumulative probability of a prefix does not depend on what follows it.
pub proof fn lemma_cumulative_prefix(outs: Seq<Outcome>, o: Outcome, k: int)
    requires
        0 <= k <= outs.len(),
    ensures
        cumulative(outs.push(o), k) == cumulative(outs, k),
    decreases k,
{
    if k > 0 {
        lemma_cumulative_prefix(outs, o, k - 1);
        assert(outs.push(o)[k - 1] == outs[k - 1]);
    }
}

} // verus!
