//! Causal nodes: something that turns an incoming effect into an effect and
//! remembers the last one it produced.
use vstd::prelude::*;
use crate::effect::{effect_is_active, effect_text, CausalityError, IdentificationValue, PropagatingEffect};
use crate::text::{decimal, push_decimal, push_str, string_from_chars};

verus! {

/// A node that can be evaluated, stated over its identifier, the effect it
/// produced last, and how it maps an input effect to an outcome.
pub trait Causable: Sized {
    /// The node's own invariant.
    spec fn causable_inv(&self) -> bool;

    /// The node's identifier.
    spec fn ident(&self) -> IdentificationValue;

    /// The effect the node produced at its last successful evaluation, if any.
    spec fn last_effect(&self) -> Option<PropagatingEffect>;

    /// True when `out` is a possible outcome of evaluating the node on `input`.
    spec fn evaluates_to(&self, input: PropagatingEffect, out: Result<PropagatingEffect, CausalityError>) -> bool;

    /// The explanation of the node once it has been evaluated.
    spec fn explanation(&self) -> Seq<char>;

    /// True when the node can be explained.
    spec fn explainable(&self) -> bool;

    /// The message of the error `explain` fails with.
    spec fn explain_failure(&self) -> Seq<char>;

    /// `new` is this node after an evaluation on `input` with outcome `out`.
    spec fn evaluated_into(&self, input: PropagatingEffect, out: Result<PropagatingEffect, CausalityError>, new: Self) -> bool;

    /// True when the node is a single rule rather than a collection or graph of nodes.
    spec fn singleton(&self) -> bool;

    /// True when the node counts as active.
    spec fn active(&self) -> bool;

    /// `self` is `other` after evaluations: same identity and same rule, only
    /// activation state may differ.
    spec fn same_node(&self, other: Self) -> bool;

    /// Evaluates the node on `effect`; a successful outcome becomes the node's
    /// last effect, a failed one leaves it as it was.
    fn evaluate(&mut self, effect: &PropagatingEffect) -> (r: Result<PropagatingEffect, CausalityError>)
        requires
            old(self).causable_inv(),
        ensures
            final(self).causable_inv(),
            final(self).ident() == old(self).ident(),
            final(self).same_node(*old(self)),
            old(self).evaluates_to(*effect, r),
            old(self).evaluated_into(*effect, r, *final(self)),
            r matches Ok(e) ==> final(self).last_effect() == Some(e),
            r is Err ==> final(self).last_effect() == old(self).last_effect(),
    ;

    /// True when the node counts as active.
    fn is_active(&self) -> (r: bool)
        requires
            self.causable_inv(),
        ensures
            r == self.active(),
    ;

    /// The node's explanation; fails when the node cannot be explained.
    fn explain(&self) -> (r: Result<String, CausalityError>)
        requires
            self.causable_inv(),
        ensures
            r is Ok <==> self.explainable(),
            r matches Ok(s) ==> s@ == self.explanation(),
            r matches Err(e) ==> e.0@ == self.explain_failure(),
    ;

    /// True when the node is a single rule.
    fn is_singleton(&self) -> (r: bool)
        ensures
            r == self.singleton(),
    ;

    /// The node's identifier.
    fn id(&self) -> (r: IdentificationValue)
        ensures
            r == self.ident(),
    ;
}

/// The message for explaining a single node that is not active.
pub open spec fn not_evaluated_message(id: IdentificationValue) -> Seq<char> {
    "Causaloid: "@ + decimal(id as nat) + " has not been evaluated. Call verify() to activate it"@
}

/// Builds the error for explaining a single node that is not active.
fn not_evaluated_error(id: IdentificationValue) -> (r: CausalityError)
    ensures
        r.0@ == not_evaluated_message(id),
{
    let mut out: Vec<char> = Vec::new();
    push_str(&mut out, "Causaloid: ");
    push_decimal(&mut out, id);
    push_str(&mut out, " has not been evaluated. Call verify() to activate it");
    CausalityError(string_from_chars(&out))
}

/// A causal node whose rule is the function `causal_fn`.
#[derive(Clone)]
pub struct Causaloid<F> {
    id: IdentificationValue,
    causal_fn: F,
    description: String,
    effect: Option<PropagatingEffect>,
}

/// The explanation of a node: its identifier, description and last effect.
pub open spec fn causaloid_explanation(id: IdentificationValue, description: Seq<char>, e: PropagatingEffect) -> Seq<char> {
    "Causaloid: "@ + decimal(id as nat) + " '"@ + description + "' evaluated to: "@ + effect_text(e)
}

impl<F: Fn(PropagatingEffect) -> Result<PropagatingEffect, CausalityError>> Causaloid<F> {
    /// A node that has not been evaluated yet. `causal_fn` must accept every effect.
    pub fn new(id: IdentificationValue, causal_fn: F, description: &str) -> (r: Self)
        requires
            forall|e: PropagatingEffect| causal_fn.requires((e,)),
        ensures
            r.causable_inv(),
            r.ident() == id,
            r.last_effect() is None,
            r.description_spec() == description@,
            r.causal_fn_spec() == causal_fn,
    {
        Causaloid { id, causal_fn, description: description.to_owned(), effect: None }
    }

    /// The node's description.
    pub closed spec fn description_spec(&self) -> Seq<char> {
        self.description@
    }

    /// The node's rule.
    pub closed spec fn causal_fn_spec(&self) -> F {
        self.causal_fn
    }

    /// The node's description.
    pub fn description(&self) -> (r: &str)
        ensures
            r@ == self.description_spec(),
    {
        self.description.as_str()
    }

    /// The effect of the node's last successful evaluation, if any.
    pub fn effect(&self) -> (r: Option<PropagatingEffect>)
        ensures
            r == self.last_effect(),
    {
        self.effect
    }
}

impl<F: Fn(PropagatingEffect) -> Result<PropagatingEffect, CausalityError>> Causable for Causaloid<F> {
    open spec fn causable_inv(&self) -> bool {
        forall|e: PropagatingEffect| self.causal_fn_spec().requires((e,))
    }

    closed spec fn ident(&self) -> IdentificationValue {
        self.id
    }

    closed spec fn last_effect(&self) -> Option<PropagatingEffect> {
        self.effect
    }

    open spec fn evaluates_to(&self, input: PropagatingEffect, out: Result<PropagatingEffect, CausalityError>) -> bool {
        self.causal_fn_spec().ensures((input,), out)
    }

    open spec fn explainable(&self) -> bool {
        self.active()
    }

    open spec fn explain_failure(&self) -> Seq<char> {
        not_evaluated_message(self.ident())
    }

    open spec fn evaluated_into(&self, input: PropagatingEffect, out: Result<PropagatingEffect, CausalityError>, new: Self) -> bool {
        &&& self.evaluates_to(input, out)
        &&& new.same_node(*self)
        &&& out matches Ok(e) ==> new.last_effect() == Some(e)
        &&& out is Err ==> new.last_effect() == self.last_effect()
    }

    open spec fn singleton(&self) -> bool {
        true
    }

    open spec fn explanation(&self) -> Seq<char> {
        match self.last_effect() {
            Some(e) => causaloid_explanation(self.ident(), self.description_spec(), e),
            None => Seq::empty(),
        }
    }

    open spec fn active(&self) -> bool {
        effect_is_active(self.last_effect())
    }

    open spec fn same_node(&self, other: Self) -> bool {
        &&& self.ident() == other.ident()
        &&& self.causal_fn_spec() == other.causal_fn_spec()
        &&& self.description_spec() == other.description_spec()
    }

    fn evaluate(&mut self, effect: &PropagatingEffect) -> (r: Result<PropagatingEffect, CausalityError>) {
        proof {
            assert(self.causal_fn_spec().requires((*effect,)));
        }
        let r = (self.causal_fn)(*effect);
        match &r {
            Ok(e) => {
                self.effect = Some(*e);
            },
            Err(_) => {},
        }
        proof {
            assert forall|e: PropagatingEffect| self.causal_fn_spec().requires((e,)) by {
                assert(old(self).causal_fn_spec().requires((e,)));
            }
        }
        r
    }

    fn is_active(&self) -> (r: bool) {
        match &self.effect {
            Some(e) => e.is_active(),
            None => false,
        }
    }

    fn explain(&self) -> (r: Result<String, CausalityError>) {
        if !self.is_active() {
            return Err(not_evaluated_error(self.id));
        }
        match &self.effect {
            None => Err(not_evaluated_error(self.id)),
            Some(e) => {
                let mut out: Vec<char> = Vec::new();
                push_str(&mut out, "Causaloid: ");
                push_decimal(&mut out, self.id);
                push_str(&mut out, " '");
                push_str(&mut out, self.description.as_str());
                push_str(&mut out, "' evaluated to: ");
                e.push_text(&mut out);
                proof {
                    assert(out@ =~= causaloid_explanation(self.id, self.description@, *e));
                }
                Ok(string_from_chars(&out))
            },
        }
    }

    fn id(&self) -> (r: IdentificationValue) {
        self.id
    }

    fn is_singleton(&self) -> (r: bool) {
        true
    }
}

/// A causal node whose rule also reads a context: `context_fn` is applied to
/// the incoming effect and `context`. Evaluation fails when either is missing.
#[derive(Clone)]
pub struct ContextualCausaloid<G, C> {
    id: IdentificationValue,
    context_fn: Option<G>,
    context: Option<C>,
    description: String,
    effect: Option<PropagatingEffect>,
}

/// The message when a contextual node has no rule.
pub open spec fn missing_context_fn_message() -> Seq<char> {
    "contextual causal function is missing"@
}

/// The message when a contextual node has no context.
pub open spec fn missing_context_message() -> Seq<char> {
    "context is missing"@
}

impl<G: Fn(PropagatingEffect, &C) -> Result<PropagatingEffect, CausalityError>, C> ContextualCausaloid<G, C> {
    /// A node not yet evaluated. `context_fn`, when given, must accept every
    /// effect and context.
    pub fn new(id: IdentificationValue, context_fn: Option<G>, context: Option<C>, description: &str) -> (r: Self)
        requires
            context_fn matches Some(f) ==> forall|e: PropagatingEffect, c: &C| f.requires((e, c)),
        ensures
            r.causable_inv(),
            r.ident() == id,
            r.last_effect() is None,
            r.context_fn_spec() == context_fn,
            r.context_spec() == context,
            r.description_spec() == description@,
    {
        ContextualCausaloid { id, context_fn, context, description: description.to_owned(), effect: None }
    }

    /// The node's rule, if any.
    pub closed spec fn context_fn_spec(&self) -> Option<G> {
        self.context_fn
    }

    /// The node's context, if any.
    pub closed spec fn context_spec(&self) -> Option<C> {
        self.context
    }

    /// The node's description.
    pub closed spec fn description_spec(&self) -> Seq<char> {
        self.description@
    }
}

impl<G: Fn(PropagatingEffect, &C) -> Result<PropagatingEffect, CausalityError>, C> Causable for ContextualCausaloid<G, C> {
    open spec fn causable_inv(&self) -> bool {
        self.context_fn_spec() matches Some(f) ==> forall|e: PropagatingEffect, c: &C| f.requires((e, c))
    }

    closed spec fn ident(&self) -> IdentificationValue {
        self.id
    }

    closed spec fn last_effect(&self) -> Option<PropagatingEffect> {
        self.effect
    }

    open spec fn evaluates_to(&self, input: PropagatingEffect, out: Result<PropagatingEffect, CausalityError>) -> bool {
        match (self.context_fn_spec(), self.context_spec()) {
            (None, _) => out matches Err(e) && e.0@ == missing_context_fn_message(),
            (Some(_), None) => out matches Err(e) && e.0@ == missing_context_message(),
            (Some(f), Some(c)) => f.ensures((input, &c), out),
        }
    }

    open spec fn explainable(&self) -> bool {
        self.active()
    }

    open spec fn explain_failure(&self) -> Seq<char> {
        not_evaluated_message(self.ident())
    }

    open spec fn evaluated_into(&self, input: PropagatingEffect, out: Result<PropagatingEffect, CausalityError>, new: Self) -> bool {
        &&& self.evaluates_to(input, out)
        &&& new.same_node(*self)
        &&& out matches Ok(e) ==> new.last_effect() == Some(e)
        &&& out is Err ==> new.last_effect() == self.last_effect()
    }

    open spec fn singleton(&self) -> bool {
        true
    }

    open spec fn explanation(&self) -> Seq<char> {
        match self.last_effect() {
            Some(e) => causaloid_explanation(self.ident(), self.description_spec(), e),
            None => Seq::empty(),
        }
    }

    open spec fn active(&self) -> bool {
        effect_is_active(self.last_effect())
    }

    open spec fn same_node(&self, other: Self) -> bool {
        &&& self.ident() == other.ident()
        &&& self.context_fn_spec() == other.context_fn_spec()
        &&& self.context_spec() == other.context_spec()
        &&& self.description_spec() == other.description_spec()
    }

    fn evaluate(&mut self, effect: &PropagatingEffect) -> (r: Result<PropagatingEffect, CausalityError>) {
        let r = match &self.context_fn {
            None => Err(CausalityError("contextual causal function is missing".to_owned())),
            Some(f) => match &self.context {
                None => Err(CausalityError("context is missing".to_owned())),
                Some(c) => f(*effect, c),
            },
        };
        match &r {
            Ok(e) => {
                self.effect = Some(*e);
            },
            Err(_) => {},
        }
        r
    }

    fn is_active(&self) -> (r: bool) {
        match &self.effect {
            Some(e) => e.is_active(),
            None => false,
        }
    }

    fn explain(&self) -> (r: Result<String, CausalityError>) {
        if !self.is_active() {
            return Err(not_evaluated_error(self.id));
        }
        match &self.effect {
            None => Err(not_evaluated_error(self.id)),
            Some(e) => {
                let mut out: Vec<char> = Vec::new();
                push_str(&mut out, "Causaloid: ");
                push_decimal(&mut out, self.id);
                push_str(&mut out, " '");
                push_str(&mut out, self.description.as_str());
                push_str(&mut out, "' evaluated to: ");
                e.push_text(&mut out);
                proof {
                    assert(out@ =~= causaloid_explanation(self.id, self.description@, *e));
                }
                Ok(string_from_chars(&out))
            },
        }
    }

    fn id(&self) -> (r: IdentificationValue) {
        self.id
    }

    fn is_singleton(&self) -> (r: bool) {
        true
    }
}

} // verus!
