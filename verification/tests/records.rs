use yaqa::choice::{to_choice, Choice};
use yaqa::errors::{Field, ParseError};
use yaqa::parse::{
    parse_leaderboard, parse_quiz, parse_topic, serialize_entry, serialize_quiz, serialize_topic,
};

#[test]
fn to_choice_accepts_exactly_the_four_letters() {
    assert_eq!(to_choice("A"), Ok(Choice::A));
    assert_eq!(to_choice("B"), Ok(Choice::B));
    assert_eq!(to_choice("C"), Ok(Choice::C));
    assert_eq!(to_choice("D"), Ok(Choice::D));
    assert_eq!(to_choice("E"), Err(ParseError::InvalidAnswer));
    assert_eq!(to_choice("a"), Err(ParseError::InvalidAnswer));
    assert_eq!(to_choice("Z"), Err(ParseError::InvalidAnswer));
    assert_eq!(to_choice("1"), Err(ParseError::InvalidAnswer));
    assert_eq!(to_choice(""), Err(ParseError::InvalidAnswer));
    assert_eq!(to_choice("AB"), Err(ParseError::InvalidAnswer));
    assert_eq!(to_choice(" A"), Err(ParseError::InvalidAnswer));
}

#[test]
fn parse_topic_reads_a_well_formed_line() {
    let t = parse_topic("7,General,math.csv,Math,All about numbers").unwrap();
    assert_eq!(t.id, 7);
    assert_eq!(t.leaderboard_name, "General");
    assert_eq!(t.file_name, "math.csv");
    assert_eq!(t.name, "Math");
    assert_eq!(t.description, "All about numbers");
}

#[test]
fn parse_topic_trims_fields_and_line_ends() {
    let t = parse_topic(" 7 , General , math.csv , Math , desc \r").unwrap();
    assert_eq!(t.id, 7);
    assert_eq!(t.leaderboard_name, "General");
    assert_eq!(t.description, "desc");
}

#[test]
fn parse_topic_empty_leaderboard_name_is_missing_field() {
    let r = parse_topic("7,,file.csv,Math,desc");
    assert_eq!(r.unwrap_err(), ParseError::MissingField(Field::LeaderboardName));
}

#[test]
fn parse_topic_bad_id_is_invalid_integer() {
    assert_eq!(parse_topic("x,General,f.csv,Math,desc").unwrap_err(), ParseError::InvalidInteger);
    assert_eq!(parse_topic(",General,f.csv,Math,desc").unwrap_err(), ParseError::InvalidInteger);
    assert_eq!(parse_topic("").unwrap_err(), ParseError::InvalidInteger);
    assert_eq!(
        parse_topic("99999999999999999999999,General,f.csv,Math,desc").unwrap_err(),
        ParseError::InvalidInteger
    );
}

#[test]
fn parse_topic_missing_trailing_fields() {
    assert_eq!(parse_topic("7,General").unwrap_err(), ParseError::MissingField(Field::FileName));
    assert_eq!(
        parse_topic("7,General,f.csv").unwrap_err(),
        ParseError::MissingField(Field::TopicName)
    );
    assert_eq!(
        parse_topic("7,General,f.csv,Math").unwrap_err(),
        ParseError::MissingField(Field::TopicDescription)
    );
}

#[test]
fn topic_round_trips_through_its_line() {
    let t = parse_topic("12,Guild,rust.csv,Rust,Borrow checking").unwrap();
    let line = serialize_topic(&t);
    assert_eq!(line, "12,Guild,rust.csv,Rust,Borrow checking");
    let u = parse_topic(&line).unwrap();
    assert_eq!(u.id, t.id);
    assert_eq!(u.leaderboard_name, t.leaderboard_name);
    assert_eq!(u.file_name, t.file_name);
    assert_eq!(u.name, t.name);
    assert_eq!(u.description, t.description);
}

#[test]
fn parse_quiz_reads_a_well_formed_line() {
    let q = parse_quiz("3,Rust lang,What checks borrows?,B,the linker|the borrow checker|cargo|rustfmt").unwrap();
    assert_eq!(q.id, 3);
    assert_eq!(q.name, "Rust lang");
    assert_eq!(q.description, "What checks borrows?");
    assert_eq!(q.answer, Choice::B);
    assert_eq!(q.choices, vec!["the linker", "the borrow checker", "cargo", "rustfmt"]);
    assert!(!q.asked);
}

#[test]
fn parse_quiz_trims_each_choice() {
    let q = parse_quiz("1,N,D,A, x | y ").unwrap();
    assert_eq!(q.choices, vec!["x", "y"]);
}

#[test]
fn parse_quiz_bad_answer_is_invalid_answer() {
    assert_eq!(parse_quiz("1,N,D,E,x|y").unwrap_err(), ParseError::InvalidAnswer);
    assert_eq!(parse_quiz("1,N,D,AB,x|y").unwrap_err(), ParseError::InvalidAnswer);
    assert_eq!(parse_quiz("1,N,D,,x|y").unwrap_err(), ParseError::MissingField(Field::QuizAnswer));
}

#[test]
fn parse_quiz_missing_choices() {
    assert_eq!(parse_quiz("1,N,D,A").unwrap_err(), ParseError::MissingField(Field::QuizChoices));
    assert_eq!(parse_quiz("1,N,D,A,").unwrap_err(), ParseError::MissingField(Field::QuizChoices));
}

#[test]
fn quiz_round_trips_through_its_line() {
    let q = parse_quiz("9,Nature,Largest cat?,C,lynx|puma|tiger|housecat").unwrap();
    let line = serialize_quiz(&q);
    assert_eq!(line, "9,Nature,Largest cat?,C,lynx|puma|tiger|housecat");
    let p = parse_quiz(&line).unwrap();
    assert_eq!(p.id, q.id);
    assert_eq!(p.name, q.name);
    assert_eq!(p.description, q.description);
    assert_eq!(p.answer, q.answer);
    assert_eq!(p.choices, q.choices);
}

#[test]
fn parse_leaderboard_reads_a_well_formed_line() {
    let e = parse_leaderboard("Math,alice,66.67,2024-01-01 10:00:00,2024-01-01 10:05:00,300")
        .unwrap();
    assert_eq!(e.topic_name, "Math");
    assert_eq!(e.player_name, "alice");
    assert_eq!(e.score_centi, 6667);
    assert_eq!(e.start_time, "2024-01-01 10:00:00");
    assert_eq!(e.end_time, "2024-01-01 10:05:00");
    assert_eq!(e.duration, 300);
}

#[test]
fn parse_leaderboard_score_forms() {
    assert_eq!(parse_leaderboard("T,p,80,a,b,1").unwrap().score_centi, 8000);
    assert_eq!(parse_leaderboard("T,p,80.5,a,b,1").unwrap().score_centi, 8050);
    assert_eq!(parse_leaderboard("T,p,0.07,a,b,1").unwrap().score_centi, 7);
    assert_eq!(parse_leaderboard("T,p,100.00,a,b,1").unwrap().score_centi, 10000);
}

#[test]
fn parse_leaderboard_bad_score_is_invalid_float() {
    assert_eq!(parse_leaderboard("T,p,abc,a,b,1").unwrap_err(), ParseError::InvalidFloat);
    assert_eq!(parse_leaderboard("T,p,,a,b,1").unwrap_err(), ParseError::InvalidFloat);
    assert_eq!(parse_leaderboard("T,p,100.01,a,b,1").unwrap_err(), ParseError::InvalidFloat);
    assert_eq!(parse_leaderboard("T,p,1.234,a,b,1").unwrap_err(), ParseError::InvalidFloat);
    assert_eq!(parse_leaderboard("T,p,7.,a,b,1").unwrap_err(), ParseError::InvalidFloat);
}

#[test]
fn parse_leaderboard_other_errors() {
    assert_eq!(parse_leaderboard(",p,1,a,b,1").unwrap_err(), ParseError::MissingField(Field::TopicName));
    assert_eq!(parse_leaderboard("T,,1,a,b,1").unwrap_err(), ParseError::MissingField(Field::PlayerName));
    assert_eq!(parse_leaderboard("T,p,1,,b,1").unwrap_err(), ParseError::MissingField(Field::StartTime));
    assert_eq!(parse_leaderboard("T,p,1,a,,1").unwrap_err(), ParseError::MissingField(Field::EndTime));
    assert_eq!(parse_leaderboard("T,p,1,a,b,x").unwrap_err(), ParseError::InvalidInteger);
    assert_eq!(parse_leaderboard("T,p,1,a,b").unwrap_err(), ParseError::InvalidInteger);
}

#[test]
fn entry_round_trips_through_its_line() {
    let e = parse_leaderboard("Rust,bob,33.33,t1,t2,120").unwrap();
    let line = serialize_entry(&e);
    assert_eq!(line, "Rust,bob,33.33,t1,t2,120");
    let p = parse_leaderboard(&line).unwrap();
    assert_eq!(p.topic_name, e.topic_name);
    assert_eq!(p.player_name, e.player_name);
    assert_eq!(p.score_centi, e.score_centi);
    assert_eq!(p.duration, e.duration);
}

#[test]
fn serialize_entry_pads_the_score_to_two_digits() {
    let e = parse_leaderboard("T,p,7,a,b,1").unwrap();
    assert_eq!(serialize_entry(&e), "T,p,7.00,a,b,1");
    let e2 = parse_leaderboard("T,p,7.5,a,b,1").unwrap();
    assert_eq!(serialize_entry(&e2), "T,p,7.50,a,b,1");
}
