use elden_analyzer::text_accum::{
    join_texts, join_with_spaces, Confidence, InnerAccumulator, Recognition,
};

#[test]
fn test_join_texts() {
    assert_eq!(join_texts(&vec![]), "{}");
    assert_eq!(join_texts(&vec!["a".to_owned()]), "a");
    assert_eq!(join_texts(&vec!["a".to_owned(), "b".to_owned()]), "{a|b}");
}

#[test]
fn join_texts_three() {
    let texts = vec!["a".to_owned(), "b".to_owned(), "c".to_owned()];
    assert_eq!(join_texts(&texts), "{a|b|c}");
}

#[test]
fn join_with_spaces_basic() {
    assert_eq!(join_with_spaces(&vec![]), "");
    assert_eq!(join_with_spaces(&vec!["x".to_owned()]), "x");
    assert_eq!(
        join_with_spaces(&vec!["x".to_owned(), "y".to_owned()]),
        "x y"
    );
}

#[test]
fn found_text_wins_over_possible() {
    // one exact observation and two uncertain ones: the exact text wins,
    // whatever the confidences say
    let mut slot = InnerAccumulator::new();
    slot.insert(&Recognition::Found("A".to_owned(), Confidence::new(10)));
    slot.insert(&Recognition::Possible("B".to_owned(), Confidence::new(90)));
    slot.insert(&Recognition::Possible("C".to_owned(), Confidence::new(5)));
    assert_eq!(slot.get_text(), "A");
}

#[test]
fn possible_fallback_sorts_by_weight() {
    // no exact observation: both candidates reach a tenth of the total
    // weight, so both are kept, heaviest first, marked as uncertain
    let mut slot = InnerAccumulator::new();
    slot.insert(&Recognition::Possible("B".to_owned(), Confidence::new(60)));
    slot.insert(&Recognition::Possible("C".to_owned(), Confidence::new(40)));
    assert_eq!(slot.get_text(), "{??B|??C}");
}

#[test]
fn possible_below_threshold_is_dropped() {
    let mut slot = InnerAccumulator::new();
    slot.insert(&Recognition::Possible("B".to_owned(), Confidence::new(99)));
    slot.insert(&Recognition::Possible("C".to_owned(), Confidence::new(1)));
    // 1 is below a tenth of the total weight of 100
    assert_eq!(slot.get_text(), "??B");
}

#[test]
fn possible_weights_accumulate() {
    let mut slot = InnerAccumulator::new();
    slot.insert(&Recognition::Possible("B".to_owned(), Confidence::new(30)));
    slot.insert(&Recognition::Possible("C".to_owned(), Confidence::new(40)));
    slot.insert(&Recognition::Possible("B".to_owned(), Confidence::new(30)));
    // B accumulated 60 against C's 40
    assert_eq!(slot.get_text(), "{??B|??C}");
}

#[test]
fn found_texts_deduplicate() {
    let mut slot = InnerAccumulator::new();
    slot.insert(&Recognition::Found("A".to_owned(), Confidence::new(50)));
    slot.insert(&Recognition::Found("A".to_owned(), Confidence::new(50)));
    slot.insert(&Recognition::Found("B".to_owned(), Confidence::new(50)));
    assert_eq!(slot.get_text(), "{A|B}");
}

#[test]
fn empty_slot_resolves_to_empty_braces() {
    let slot = InnerAccumulator::new();
    assert_eq!(slot.get_text(), "{}");
}
