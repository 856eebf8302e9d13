//! How the encoder classifies a value of a host language.
//!
//! A host value has no shape of its own: the encoder finds one by asking
//! questions of it, in a fixed order, and the first question that the value
//! answers with yes decides. The order matters. A host may have several
//! objects that stand for null, for true or for false, and the same objects
//! may pass for numbers as well; so these are asked for first, and by
//! identity. The dehydration hooks are asked last, for a value that has no
//! shape of the format.
//!
//! This module holds the order and the decision. The questions themselves
//! are asked by whoever holds the host value.

use vstd::prelude::*;

verus! {

/// A question that the encoder asks of a host value.
#[derive(Clone, Copy, Debug, PartialEq, Eq, Structural)]
pub enum Probe {
    /// Is the value one of the objects that stand for null?
    NoneValue,
    /// Is the value one of the objects that stand for true?
    TrueValue,
    /// Is the value one of the objects that stand for false?
    FalseValue,
    /// Is the value a floating-point number?
    Float,
    /// Is the value an integer?
    Int,
    /// Is the value a text?
    Text,
    /// Is the value a raw byte sequence?
    Bytes,
    /// Is the value an ordered sequence?
    Sequence,
    /// Is the value a mapping from keys to values?
    Mapping,
    /// Is the value a structure?
    Structure,
    /// Has the dehydration table a transform for the value?
    Transformer,
}

/// What the encoder does with a host value.
#[derive(Clone, Copy, Debug, PartialEq, Eq, Structural)]
pub enum Shape {
    Null,
    True,
    False,
    Float,
    Int,
    Str,
    Bytes,
    List,
    Dict,
    Structure,
    /// The value is encoded as what its dehydration hook makes of it.
    Dehydrated,
    /// Values of this kind are not supported.
    Unsupported,
}

/// What comes after a question: the next question, or the decision.
#[derive(Clone, Copy, Debug, PartialEq, Eq, Structural)]
pub enum Step {
    Ask(Probe),
    Encode(Shape),
}

/// The questions in the order in which the encoder asks them.
pub open spec fn probe_order() -> Seq<Probe> {
    seq![
        Probe::NoneValue,
        Probe::TrueValue,
        Probe::FalseValue,
        Probe::Float,
        Probe::Int,
        Probe::Text,
        Probe::Bytes,
        Probe::Sequence,
        Probe::Mapping,
        Probe::Structure,
        Probe::Transformer,
    ]
}

/// The shape of a value that answers a question with yes.
pub open spec fn shape_of(probe: Probe) -> Shape {
    match probe {
        Probe::NoneValue => Shape::Null,
        Probe::TrueValue => Shape::True,
        Probe::FalseValue => Shape::False,
        Probe::Float => Shape::Float,
        Probe::Int => Shape::Int,
        Probe::Text => Shape::Str,
        Probe::Bytes => Shape::Bytes,
        Probe::Sequence => Shape::List,
        Probe::Mapping => Shape::Dict,
        Probe::Structure => Shape::Structure,
        Probe::Transformer => Shape::Dehydrated,
    }
}

/// The shape of a value, given its answer to each question: that of the
/// first question in the order that it answers with yes; a value that
/// answers none with yes is not supported.
pub open spec fn classified(answers: spec_fn(Probe) -> bool, from: int) -> Shape
    decreases probe_order().len() - from,
{
    if from < 0 || from >= probe_order().len() {
        Shape::Unsupported
    } else if answers(probe_order()[from]) {
        shape_of(probe_order()[from])
    } else {
        classified(answers, from + 1)
    }
}

/// The place of a question in the order.
pub open spec fn rank(probe: Probe) -> int {
    match probe {
        Probe::NoneValue => 0,
        Probe::TrueValue => 1,
        Probe::FalseValue => 2,
        Probe::Float => 3,
        Probe::Int => 4,
        Probe::Text => 5,
        Probe::Bytes => 6,
        Probe::Sequence => 7,
        Probe::Mapping => 8,
        Probe::Structure => 9,
        Probe::Transformer => 10,
    }
}

/// What comes after a question and its answer.
pub open spec fn step_after(asked: Probe, matched: bool) -> Step {
    if matched {
        Step::Encode(shape_of(asked))
    } else if rank(asked) + 1 < probe_order().len() {
        Step::Ask(probe_order()[rank(asked) + 1])
    } else {
        Step::Encode(Shape::Unsupported)
    }
}

/// Where the questions lead from one of them on, given the answers.
pub open spec fn outcome_from(asked: Probe, answers: spec_fn(Probe) -> bool) -> Shape
    decreases probe_order().len() - rank(asked),
{
    match step_after(asked, answers(asked)) {
        Step::Encode(shape) => shape,
        Step::Ask(next) => outcome_from(next, answers),
    }
}

/// The first question.
pub fn first_probe() -> (probe: Probe)
    ensures
        probe == probe_order()[0],
{
    Probe::NoneValue
}

/// What comes after a question and its answer: the decision, if the answer
/// was yes or no question is left; the next question otherwise.
pub fn next_step(asked: Probe, matched: bool) -> (step: Step)
    ensures
        step == step_after(asked, matched),
{
    if matched {
        return Step::Encode(
            match asked {
                Probe::NoneValue => Shape::Null,
                Probe::TrueValue => Shape::True,
                Probe::FalseValue => Shape::False,
                Probe::Float => Shape::Float,
                Probe::Int => Shape::Int,
                Probe::Text => Shape::Str,
                Probe::Bytes => Shape::Bytes,
                Probe::Sequence => Shape::List,
                Probe::Mapping => Shape::Dict,
                Probe::Structure => Shape::Structure,
                Probe::Transformer => Shape::Dehydrated,
            },
        );
    }
    match asked {
        Probe::NoneValue => Step::Ask(Probe::TrueValue),
        Probe::TrueValue => Step::Ask(Probe::FalseValue),
        Probe::FalseValue => Step::Ask(Probe::Float),
        Probe::Float => Step::Ask(Probe::Int),
        Probe::Int => Step::Ask(Probe::Text),
        Probe::Text => Step::Ask(Probe::Bytes),
        Probe::Bytes => Step::Ask(Probe::Sequence),
        Probe::Sequence => Step::Ask(Probe::Mapping),
        Probe::Mapping => Step::Ask(Probe::Structure),
        Probe::Structure => Step::Ask(Probe::Transformer),
        Probe::Transformer => Step::Encode(Shape::Unsupported),
    }
}

/// First match wins: whoever starts with the first question and goes on
/// as [`next_step`] says arrives at the shape of the first question in the
/// order that the value answers with yes.
pub proof fn lemma_first_match_wins(answers: spec_fn(Probe) -> bool)
    ensures
        outcome_from(probe_order()[0], answers) == classified(answers, 0),
{
    lemma_outcome_from(probe_order()[0], answers);
}

/// From each question on, the questions lead to the shape of the first
/// of the remaining questions that the value answers with yes.
pub proof fn lemma_outcome_from(asked: Probe, answers: spec_fn(Probe) -> bool)
    ensures
        outcome_from(asked, answers) == classified(answers, rank(asked)),
    decreases probe_order().len() - rank(asked),
{
    lemma_rank(asked);
    if !answers(asked) && rank(asked) + 1 < probe_order().len() {
        let next = probe_order()[rank(asked) + 1];
        lemma_rank(next);
        assert(rank(next) == rank(asked) + 1) by {
            lemma_order();
        }
        lemma_outcome_from(next, answers);
    } else if !answers(asked) {
        assert(classified(answers, rank(asked) + 1) == Shape::Unsupported);
    }
}

/// Each question stands at its rank in the order.
pub proof fn lemma_rank(probe: Probe)
    ensures
        probe_order().len() == 11,
        0 <= rank(probe) < 11,
        probe_order()[rank(probe)] == probe,
{
}

/// The rank of the question at each place of the order is that place.
pub proof fn lemma_order()
    ensures
        forall|i: int| 0 <= i < 11 ==> rank(#[trigger] probe_order()[i]) == i,
{
    assert(rank(probe_order()[0]) == 0);
    assert(rank(probe_order()[1]) == 1);
    assert(rank(probe_order()[2]) == 2);
    assert(rank(probe_order()[3]) == 3);
    assert(rank(probe_order()[4]) == 4);
    assert(rank(probe_order()[5]) == 5);
    assert(rank(probe_order()[6]) == 6);
    assert(rank(probe_order()[7]) == 7);
    assert(rank(probe_order()[8]) == 8);
    assert(rank(probe_order()[9]) == 9);
    assert(rank(probe_order()[10]) == 10);
}

} // verus!
