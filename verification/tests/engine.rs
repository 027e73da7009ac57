use yaqa::choice::Choice;
use yaqa::quiz::Quizzes;

fn three_question_bank() -> Quizzes {
    let mut qz = Quizzes::new();
    qz.add(1, "Cat", "One?", Choice::A, vec!["a1".to_string(), "b1".to_string()]);
    qz.add(2, "Cat", "Two?", Choice::B, vec!["a2".to_string(), "b2".to_string()]);
    qz.add(3, "Cat", "Three?", Choice::C, vec!["a3".to_string(), "b3".to_string()]);
    qz
}

#[test]
fn bank_of_three_with_budget_five_asks_exactly_three() {
    let mut qz = three_question_bank();
    let answers = vec![Choice::A; 5];
    qz.ask(5, &answers);
    assert_eq!(qz.questions_asked, 3);
    assert!(qz.correct <= qz.questions_asked);
    assert!(qz.select_unasked().is_none());
}

#[test]
fn budget_caps_the_number_of_questions() {
    let mut qz = three_question_bank();
    let answers = vec![Choice::D; 2];
    qz.ask(2, &answers);
    assert_eq!(qz.questions_asked, 2);
    assert!(qz.select_unasked().is_some());
}

#[test]
fn no_question_is_presented_twice() {
    let mut qz = three_question_bank();
    let mut seen = Vec::new();
    for _round in 0..5 {
        match qz.select_unasked() {
            Some(i) => {
                assert!(!seen.contains(&i), "question selected twice");
                seen.push(i);
                qz.record_answer(i, Choice::A);
            }
            None => break,
        }
    }
    assert_eq!(seen.len(), 3);
    assert_eq!(qz.questions_asked, 3);
}

#[test]
fn record_answer_scores_only_matches() {
    let mut qz = Quizzes::new();
    qz.add(1, "C", "Q1", Choice::A, vec!["x".to_string()]);
    qz.add(2, "C", "Q2", Choice::B, vec!["x".to_string()]);
    let i = qz.select_unasked().unwrap();
    qz.record_answer(i, Choice::D);
    assert_eq!(qz.correct, 0);
    assert_eq!(qz.questions_asked, 1);
    let j = qz.select_unasked().unwrap();
    assert_ne!(i, j);
    qz.record_answer(j, Choice::A);
    assert_eq!(qz.questions_asked, 2);
}

#[test]
fn empty_bank_scores_zero_without_dividing() {
    let mut qz = Quizzes::new();
    let answers = vec![Choice::A; 5];
    qz.ask(5, &answers);
    assert_eq!(qz.questions_asked, 0);
    assert_eq!(qz.score_centi(), 0);
}

#[test]
fn score_is_exact_in_hundredths_of_a_percent() {
    let mut qz = Quizzes::new();
    qz.add(1, "C", "Q1", Choice::A, vec!["x".to_string()]);
    qz.add(2, "C", "Q2", Choice::A, vec!["x".to_string()]);
    qz.add(3, "C", "Q3", Choice::A, vec!["x".to_string()]);
    for _ in 0..3 {
        let i = qz.select_unasked().unwrap();
        qz.record_answer(i, Choice::A);
    }
    assert_eq!(qz.correct, 3);
    assert_eq!(qz.score_centi(), 10000);

    let mut half = Quizzes::new();
    half.add(1, "C", "Q1", Choice::A, vec!["x".to_string()]);
    half.add(2, "C", "Q2", Choice::B, vec!["x".to_string()]);
    half.add(3, "C", "Q3", Choice::C, vec!["x".to_string()]);
    let answers = vec![Choice::A; 3];
    half.ask(3, &answers);
    assert_eq!(half.questions_asked, 3);
    assert_eq!(half.correct, 1);
    assert_eq!(half.score_centi(), 3333);
}

#[test]
fn adding_a_repeated_id_replaces_the_question() {
    let mut qz = Quizzes::new();
    qz.add(1, "C", "Old", Choice::A, vec!["x".to_string()]);
    qz.add(1, "C", "New", Choice::B, vec!["y".to_string()]);
    assert_eq!(qz.len(), 1);
    let text = qz.render_question(0, 1);
    assert_eq!(text, "C\n1. New\nA. y\n");
}

#[test]
fn render_question_letters_the_choices() {
    let mut qz = Quizzes::new();
    qz.add(
        4,
        "Rust lang",
        "What checks borrows?",
        Choice::B,
        vec!["the linker".to_string(), "the borrow checker".to_string(), "cargo".to_string()],
    );
    let text = qz.render_question(0, 2);
    assert_eq!(
        text,
        "Rust lang\n2. What checks borrows?\nA. the linker\nB. the borrow checker\nC. cargo\n"
    );
}
