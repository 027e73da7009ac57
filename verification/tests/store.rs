use yaqa::choice::Choice;
use yaqa::errors::{Field, ParseError};
use yaqa::loaders::{parse_leaderboards, parse_quizzes, parse_topics};
use yaqa::leaderboards::Leaderboards;
use yaqa::topics::Topics;

#[test]
fn topic_loader_skips_bad_lines_and_keeps_good_ones() {
    let text = "1,G,one.csv,One,first\n7,,file.csv,Math,desc\n2,G,two.csv,Two,second\n";
    let (topics, errs) = parse_topics(text);
    let all = topics.list_all();
    assert_eq!(all.len(), 2);
    assert_eq!(all[0].name, "One");
    assert_eq!(all[1].name, "Two");
    assert_eq!(errs.len(), 1);
    assert_eq!(errs[0].line_number, 2);
    assert_eq!(errs[0].error, ParseError::MissingField(Field::LeaderboardName));
}

#[test]
fn topic_loader_skips_empty_lines_without_reporting() {
    let text = "\n1,G,one.csv,One,first\n\n";
    let (topics, errs) = parse_topics(text);
    assert_eq!(topics.list_all().len(), 1);
    assert!(errs.is_empty());
}

#[test]
fn quiz_loader_reports_line_numbers_for_bad_lines() {
    let text = "1,N,Q1,A,x|y\nbad line\n2,N,Q2,E,x|y\n3,N,Q3,B,x|y\n";
    let (qz, errs) = parse_quizzes(text);
    assert_eq!(qz.len(), 2);
    assert_eq!(qz.questions_asked, 0);
    assert_eq!(qz.correct, 0);
    assert_eq!(errs.len(), 2);
    assert_eq!(errs[0].line_number, 2);
    assert_eq!(errs[0].error, ParseError::InvalidInteger);
    assert_eq!(errs[1].line_number, 3);
    assert_eq!(errs[1].error, ParseError::InvalidAnswer);
}

#[test]
fn leaderboard_loader_isolates_each_bad_line() {
    let text = "A,p,50,s,e,10\nB,q,oops,s,e,10\nC,r,75.25,s,e,20\n";
    let (ldbs, errs) = parse_leaderboards(text);
    let all = ldbs.leaderboards_as_vec();
    assert_eq!(all.len(), 2);
    assert_eq!(all[0].topic_name, "A");
    assert_eq!(all[1].score_centi, 7525);
    assert_eq!(errs.len(), 1);
    assert_eq!(errs[0].line_number, 2);
    assert_eq!(errs[0].error, ParseError::InvalidFloat);
}

#[test]
fn serialize_writes_header_and_one_line_per_entry() {
    let mut ldbs = Leaderboards::new();
    ldbs.add_new_leaderboards("Math", "alice", 6667, "t1", "t2", 300);
    ldbs.add_new_leaderboards("Rust", "bob", 10000, "t3", "t4", 120);
    let text = ldbs.serialize();
    assert_eq!(
        text,
        "topic_name,player_name,score,start_time,end_time,duration\n\
         Math,alice,66.67,t1,t2,300\nRust,bob,100.00,t3,t4,120\n"
    );
}

#[test]
fn leaderboard_file_round_trips_through_serialize_and_parse() {
    let mut ldbs = Leaderboards::new();
    ldbs.add_new_leaderboards("Math", "alice", 6667, "t1", "t2", 300);
    ldbs.add_new_leaderboards("Math", "carol", 5000, "t5", "t6", 200);
    ldbs.add_new_leaderboards("Rust", "bob", 0, "t3", "t4", 120);
    let text = ldbs.serialize();
    let (reloaded, errs) = parse_leaderboards(&text);
    // The header line is reported as a skipped line, nothing else.
    assert_eq!(errs.len(), 1);
    assert_eq!(errs[0].line_number, 1);
    let old = ldbs.leaderboards_as_vec();
    let new = reloaded.leaderboards_as_vec();
    assert_eq!(new.len(), old.len());
    for (a, b) in old.iter().zip(new.iter()) {
        assert_eq!(a.topic_name, b.topic_name);
        assert_eq!(a.player_name, b.player_name);
        assert_eq!(a.score_centi, b.score_centi);
        assert_eq!(a.start_time, b.start_time);
        assert_eq!(a.end_time, b.end_time);
        assert_eq!(a.duration, b.duration);
    }
}

#[test]
fn entries_for_topic_filters_by_exact_name() {
    let mut ldbs = Leaderboards::new();
    ldbs.add_new_leaderboards("Math", "alice", 6667, "t1", "t2", 300);
    ldbs.add_new_leaderboards("Rust", "bob", 10000, "t3", "t4", 120);
    ldbs.add_new_leaderboards("Math", "carol", 5000, "t5", "t6", 200);
    let math = ldbs.entries_for_topic(&"Math".to_string());
    assert_eq!(math.len(), 2);
    assert_eq!(math[0].player_name, "alice");
    assert_eq!(math[1].player_name, "carol");
    assert!(ldbs.entries_for_topic(&"math".to_string()).is_empty());
}

#[test]
fn catalog_lookup_is_by_exact_name_and_requires_one() {
    let mut topics = Topics::new();
    topics.add_new_topic(1, "G", "one.csv", "One", "first");
    topics.add_new_topic(2, "G", "two.csv", "Two", "second");
    let hit = topics.get_topic(&Some("Two".to_string())).unwrap();
    assert_eq!(hit.id, 2);
    assert!(topics.get_topic(&Some("Three".to_string())).is_none());
    assert!(topics.get_topic(&None).is_none());
}

#[test]
fn session_outcome_becomes_a_leaderboard_entry() {
    let (mut qz, _) = parse_quizzes("1,C,Q1,A,x|y\n2,C,Q2,B,x|y\n");
    let answers = vec![Choice::A, Choice::A];
    qz.ask(5, &answers);
    assert_eq!(qz.questions_asked, 2);
    let score = qz.score_centi();
    assert_eq!(score, 5000);
    let mut ldbs = Leaderboards::new();
    ldbs.add_new_leaderboards("C", "dana", score, "t1", "t2", 30);
    assert_eq!(ldbs.leaderboards_as_vec()[0].score_centi, 5000);
}
