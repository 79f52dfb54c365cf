//! The value a causal node produces when evaluated, and the errors of evaluation.
use vstd::prelude::*;
use crate::text::{
    bool_text, decimal, push_bool, push_decimal, push_signed_decimal, push_str, signed_decimal, string_from_chars,
};

verus! {

/// A number in fixed point: the stored integer counts millionths, so `UNIT`
/// stands for 1.0 and a probability lies in `0 ..= UNIT`.
pub type NumericalValue = i64;

/// Identifier of a causal node.
pub type IdentificationValue = u64;

/// The fixed-point value of 1.0.
pub const UNIT: i64 = 1000000;

/// What evaluating a causal node yields.
#[derive(Debug, Clone, Copy, PartialEq, Eq, Structural)]
pub enum PropagatingEffect {
    /// No effect.
    NoEffect,
    /// A definite outcome.
    Deterministic(bool),
    /// A raw numeric observation.
    Numerical(NumericalValue),
    /// A probability, `0 ..= UNIT`.
    Probabilistic(NumericalValue),
    /// A link into a context: node index and relation.
    ContextualLink(u64, u64),
}

/// A node counts as active when its last effect is a definite `true`.
pub open spec fn effect_is_active(e: Option<PropagatingEffect>) -> bool {
    e == Some(PropagatingEffect::Deterministic(true))
}

/// How the effect reads in an explanation.
pub open spec fn effect_text(e: PropagatingEffect) -> Seq<char> {
    match e {
        PropagatingEffect::NoEffect => "PropagatingEffect::NoEffect"@,
        PropagatingEffect::Deterministic(b) => "PropagatingEffect::Deterministic("@ + bool_text(b) + ")"@,
        PropagatingEffect::Numerical(n) => "PropagatingEffect::Numerical("@ + signed_decimal(n as int) + ")"@,
        PropagatingEffect::Probabilistic(p) => "PropagatingEffect::Probabilistic("@ + signed_decimal(p as int) + ")"@,
        PropagatingEffect::ContextualLink(a, b) => "PropagatingEffect::ContextualLink("@ + decimal(a as nat)
            + ", "@ + decimal(b as nat) + ")"@,
    }
}

impl PropagatingEffect {
    /// True when this is a definite `true`.
    pub fn is_active(&self) -> (r: bool)
        ensures
            r == effect_is_active(Some(*self)),
    {
        match self {
            PropagatingEffect::Deterministic(b) => *b,
            _ => false,
        }
    }

    /// Appends how the effect reads in an explanation.
    pub fn push_text(&self, out: &mut Vec<char>)
        ensures
            final(out)@ == old(out)@ + effect_text(*self),
    {
        let ghost o = out@;
        match self {
            PropagatingEffect::NoEffect => {
                push_str(out, "PropagatingEffect::NoEffect");
            },
            PropagatingEffect::Deterministic(b) => {
                push_str(out, "PropagatingEffect::Deterministic(");
                push_bool(out, *b);
                push_str(out, ")");
                assert(out@ =~= o + effect_text(*self));
            },
            PropagatingEffect::Numerical(n) => {
                push_str(out, "PropagatingEffect::Numerical(");
                push_signed_decimal(out, *n);
                push_str(out, ")");
                assert(out@ =~= o + effect_text(*self));
            },
            PropagatingEffect::Probabilistic(p) => {
                push_str(out, "PropagatingEffect::Probabilistic(");
                push_signed_decimal(out, *p);
                push_str(out, ")");
                assert(out@ =~= o + effect_text(*self));
            },
            PropagatingEffect::ContextualLink(a, b) => {
                push_str(out, "PropagatingEffect::ContextualLink(");
                push_decimal(out, *a);
                push_str(out, ", ");
                push_decimal(out, *b);
                push_str(out, ")");
                assert(out@ =~= o + effect_text(*self));
            },
        }
    }
}

/// An error raised while evaluating or reasoning, with its message.
#[derive(Debug, Clone)]
pub struct CausalityError(pub String);

impl CausalityError {
    /// The error as text: `CausalityError: ` followed by the message.
    pub fn to_string(&self) -> (r: String)
        ensures
            r@ == "CausalityError: "@ + self.0@,
    {
        let mut out: Vec<char> = Vec::new();
        push_str(&mut out, "CausalityError: ");
        push_str(&mut out, self.0.as_str());
        string_from_chars(&out)
    }
}

/// How the outcomes of a sequence of nodes combine.
#[derive(Debug, Clone, Copy, PartialEq, Eq, Structural)]
pub enum AggregateLogic {
    /// Every node must hold.
    All,
}

} // verus!
