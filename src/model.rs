//! Bookkeeping around causal models: assumptions, observations, inferences
//! and the model record itself.
use vstd::prelude::*;
use crate::effect::{IdentificationValue, NumericalValue};

verus! {

/// An assumption that a model relies on, checked against data by `assumption_fn`.
pub struct Assumption<F> {
    id: IdentificationValue,
    description: String,
    assumption_fn: F,
    assumption_tested: bool,
    assumption_valid: bool,
}

impl<F: Fn(&[NumericalValue]) -> bool> Assumption<F> {
    /// An assumption not yet tested. `assumption_fn` must accept all data.
    pub fn new(id: IdentificationValue, description: &str, assumption_fn: F) -> (r: Self)
        requires
            forall|d: &[NumericalValue]| assumption_fn.requires((d,)),
        ensures
            r.inv(),
            r.id_spec() == id,
            r.description_spec() == description@,
            !r.tested_spec(),
            !r.valid_spec(),
    {
        Assumption { id, description: description.to_owned(), assumption_fn, assumption_tested: false, assumption_valid: false }
    }

    pub closed spec fn inv(&self) -> bool {
        forall|d: &[NumericalValue]| self.assumption_fn.requires((d,))
    }

    /// The identifier.
    pub closed spec fn id_spec(&self) -> IdentificationValue {
        self.id
    }

    /// True once the assumption has been checked against data.
    pub closed spec fn tested_spec(&self) -> bool {
        self.assumption_tested
    }

    /// True once some check found the assumption to hold.
    pub closed spec fn valid_spec(&self) -> bool {
        self.assumption_valid
    }

    /// True when `out` is a possible verdict of the assumption on `data`.
    pub closed spec fn holds_on(&self, data: Seq<NumericalValue>, out: bool) -> bool {
        exists|d: &[NumericalValue]| d@ == data && self.assumption_fn.ensures((d,), out)
    }

    /// The identifier.
    pub fn id(&self) -> (r: IdentificationValue)
        ensures
            r == self.id_spec(),
    {
        self.id
    }

    /// The description.
    pub closed spec fn description_spec(&self) -> Seq<char> {
        self.description@
    }

    /// The description.
    pub fn description(&self) -> (r: &str)
        ensures
            r@ == self.description_spec(),
    {
        self.description.as_str()
    }

    /// True once the assumption has been checked against data.
    pub fn assumption_tested(&self) -> (r: bool)
        ensures
            r == self.tested_spec(),
    {
        self.assumption_tested
    }

    /// True once some check found the assumption to hold.
    pub fn assumption_valid(&self) -> (r: bool)
        ensures
            r == self.valid_spec(),
    {
        self.assumption_valid
    }

    /// Checks the assumption against `data`: marks it tested, and valid when it holds.
    pub fn verify_assumption(&mut self, data: &[NumericalValue]) -> (r: bool)
        requires
            old(self).inv(),
        ensures
            final(self).inv(),
            final(self).id_spec() == old(self).id_spec(),
            old(self).holds_on(data@, r),
            final(self).tested_spec(),
            final(self).valid_spec() == (old(self).valid_spec() || r),
    {
        let res = (self.assumption_fn)(data);
        self.assumption_tested = true;
        if res {
            self.assumption_valid = true;
        }
        res
    }
}

/// An observed data point and the effect observed with it.
#[derive(Debug, Clone, Copy, PartialEq, Eq, Structural)]
pub struct Observation {
    pub id: IdentificationValue,
    pub observation: NumericalValue,
    pub observed_effect: NumericalValue,
}

impl Observation {
    pub fn new(id: IdentificationValue, observation: NumericalValue, observed_effect: NumericalValue) -> (r: Self)
        ensures
            r == (Observation { id, observation, observed_effect }),
    {
        Observation { id, observation, observed_effect }
    }
}

/// An inference query: a question, the evidence, a decision threshold, the
/// observed effect and the target to infer.
#[derive(Debug, Clone)]
pub struct Inference {
    pub id: IdentificationValue,
    pub question: String,
    pub observation: NumericalValue,
    pub threshold: NumericalValue,
    pub effect: NumericalValue,
    pub target: NumericalValue,
}

impl Inference {
    pub fn new(
        id: IdentificationValue,
        question: String,
        observation: NumericalValue,
        threshold: NumericalValue,
        effect: NumericalValue,
        target: NumericalValue,
    ) -> (r: Self)
        ensures
            r.id == id,
            r.question@ == question@,
            r.observation == observation,
            r.threshold == threshold,
            r.effect == effect,
            r.target == target,
    {
        Inference { id, question, observation, threshold, effect, target }
    }
}

/// A causal model: who made it, what it says, what it assumes, its causal
/// logic and, optionally, its context.
pub struct Model<C, X> {
    pub id: IdentificationValue,
    pub author: String,
    pub description: String,
    pub assumptions: Option<Vec<IdentificationValue>>,
    pub causaloid: C,
    pub context: Option<X>,
}

impl<C, X> Model<C, X> {
    /// A model made of the given parts; `assumptions` names assumptions by identifier.
    pub fn new(
        id: IdentificationValue,
        author: &str,
        description: &str,
        assumptions: Option<Vec<IdentificationValue>>,
        causaloid: C,
        context: Option<X>,
    ) -> (r: Self)
        ensures
            r.id == id,
            r.author@ == author@,
            r.description@ == description@,
            r.assumptions == assumptions,
            r.causaloid == causaloid,
            r.context == context,
    {
        Model { id, author: author.to_owned(), description: description.to_owned(), assumptions, causaloid, context }
    }

    /// The model's identifier.
    pub fn id(&self) -> (r: IdentificationValue)
        ensures
            r == self.id,
    {
        self.id
    }
}

} // verus!
