use packstream::v1::types::{first_probe, next_step, Probe, Shape, Step};

fn classify(answers: &dyn Fn(Probe) -> bool) -> (Shape, Vec<Probe>) {
    let mut asked = Vec::new();
    let mut probe = first_probe();
    loop {
        asked.push(probe);
        match next_step(probe, answers(probe)) {
            Step::Ask(next) => probe = next,
            Step::Encode(shape) => return (shape, asked),
        }
    }
}

const ORDER: [Probe; 11] = [
    Probe::NoneValue,
    Probe::TrueValue,
    Probe::FalseValue,
    Probe::Float,
    Probe::Int,
    Probe::Text,
    Probe::Bytes,
    Probe::Sequence,
    Probe::Mapping,
    Probe::Structure,
    Probe::Transformer,
];

const SHAPES: [Shape; 11] = [
    Shape::Null,
    Shape::True,
    Shape::False,
    Shape::Float,
    Shape::Int,
    Shape::Str,
    Shape::Bytes,
    Shape::List,
    Shape::Dict,
    Shape::Structure,
    Shape::Dehydrated,
];

#[test]
fn the_first_question_is_for_null() {
    assert_eq!(first_probe(), Probe::NoneValue);
}

#[test]
fn a_yes_decides() {
    for (probe, shape) in ORDER.iter().zip(SHAPES.iter()) {
        assert_eq!(next_step(*probe, true), Step::Encode(*shape));
    }
}

#[test]
fn a_no_leads_to_the_next_question() {
    for pair in ORDER.windows(2) {
        assert_eq!(next_step(pair[0], false), Step::Ask(pair[1]));
    }
    assert_eq!(next_step(Probe::Transformer, false), Step::Encode(Shape::Unsupported));
}

#[test]
fn the_questions_are_asked_in_order_up_to_the_first_yes() {
    for (i, probe) in ORDER.iter().enumerate() {
        let (shape, asked) = classify(&|p| p == *probe);
        assert_eq!(shape, SHAPES[i]);
        assert_eq!(asked, ORDER[..=i].to_vec());
    }
}

#[test]
fn a_value_that_matches_nothing_is_unsupported() {
    let (shape, asked) = classify(&|_| false);
    assert_eq!(shape, Shape::Unsupported);
    assert_eq!(asked, ORDER.to_vec());
}

#[test]
fn the_first_match_wins() {
    // a boolean of the host is an integer too, and true stands for true
    let (shape, _) = classify(&|p| p == Probe::TrueValue || p == Probe::Int);
    assert_eq!(shape, Shape::True);
    // a float that also passes for an integer is a float
    let (shape, _) = classify(&|p| p == Probe::Float || p == Probe::Int);
    assert_eq!(shape, Shape::Float);
    // a text that also passes for a sequence is a text
    let (shape, _) = classify(&|p| p == Probe::Text || p == Probe::Sequence);
    assert_eq!(shape, Shape::Str);
    // a structure for which there is a hook too is a structure
    let (shape, _) = classify(&|p| p == Probe::Structure || p == Probe::Transformer);
    assert_eq!(shape, Shape::Structure);
    let (shape, asked) = classify(&|_| true);
    assert_eq!(shape, Shape::Null);
    assert_eq!(asked, vec![Probe::NoneValue]);
}
