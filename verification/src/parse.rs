//! The record parser and serializer: one comma-delimited line per record,
//! with typed validation errors, and proofs that parsing inverts
//! serialization for well-formed records.
//!
//! Every field is trimmed of leading and trailing whitespace before
//! validation, which also strips a trailing carriage return or newline
//! from the last field of a line.

use vstd::prelude::*;
use vstd::string::*;
use crate::choice::{spec_to_choice, spec_choice_letter, to_choice, choice_letter};
use crate::errors::{Field, ParseError};
use crate::leaderboards::{LeaderboardEntry, EntryV};
use crate::num::{
    spec_parse_u64, spec_render_u64, spec_parse_score, spec_render_score, parse_u64, render_u64,
    parse_score, render_score, lemma_render_u64_digits, lemma_digits_not_special,
    lemma_score_round_trip, is_digit,
};
use crate::quiz::{Quiz, QuizV};
use crate::text::{
    spec_split, spec_join, spec_trim, split_str, trim_str, is_ws, lemma_split_len,
    lemma_split_join, lemma_trim_id, lemma_join_no_char, lemma_join_last,
};
use crate::topics::{Topic, TopicV};

verus! {

/// The trimmed fields of one line: split on commas, each piece trimmed.
pub open spec fn spec_fields(line: Seq<char>) -> Seq<Seq<char>> {
    spec_split(line, ',').map_values(|f: Seq<char>| spec_trim(f))
}

/// Trims every string of a vector.
fn trim_all(v: &Vec<String>) -> (r: Vec<String>)
    ensures
        r@.len() == v@.len(),
        forall|k: int| 0 <= k < v@.len() ==> (#[trigger] r@[k])@ == spec_trim(v@[k]@),
{
    let mut r: Vec<String> = Vec::new();
    let mut i: usize = 0;
    while i < v.len()
        invariant
            i <= v@.len(),
            r@.len() == i,
            forall|k: int| 0 <= k < i ==> (#[trigger] r@[k])@ == spec_trim(v@[k]@),
        decreases v@.len() - i,
    {
        r.push(trim_str(v[i].as_str()));
        i = i + 1;
    }
    r
}

/// Splits a line on commas and trims each field.
fn fields_of(line: &str) -> (r: Vec<String>)
    ensures
        r.deep_view() == spec_fields(line@),
        r@.len() >= 1,
{
    let raw = split_str(line, ',');
    proof {
        lemma_split_len(line@, ',');
    }
    let r = trim_all(&raw);
    proof {
        assert(raw@.len() == raw.deep_view().len());
        assert(forall|k: int|
            0 <= k < raw@.len() ==> (#[trigger] raw@[k])@ == raw.deep_view()[k]);
        assert(r.deep_view() =~~= spec_fields(line@));
    }
    r
}

/// A serializable field: nonempty, free of delimiters and line breaks,
/// and already trimmed at both ends.
pub open spec fn field_ok(f: Seq<char>) -> bool {
    &&& f.len() > 0
    &&& !f.contains(',')
    &&& !f.contains('\n')
    &&& !is_ws(f[0])
    &&& !is_ws(f.last())
}

proof fn lemma_field_trimmed(f: Seq<char>)
    requires
        field_ok(f),
    ensures
        spec_trim(f) == f,
{
    lemma_trim_id(f);
}

/// Parsing inverts joining with commas for trimmed, comma-free pieces.
proof fn lemma_fields_of_join(ps: Seq<Seq<char>>)
    requires
        ps.len() >= 1,
        forall|k: int| 0 <= k < ps.len() ==> !(#[trigger] ps[k]).contains(','),
        forall|k: int| 0 <= k < ps.len() ==> spec_trim(#[trigger] ps[k]) == ps[k],
    ensures
        spec_fields(spec_join(ps, ',')) == ps,
{
    lemma_split_join(ps, ',');
    assert(spec_fields(spec_join(ps, ',')) =~~= ps);
}

// ------------------------------------------------------------------
// Topic lines: id,leaderboard_name,file_name,topic_name,topic_description
// ------------------------------------------------------------------

/// What one topic line denotes: a topic record, or the first error in
/// field order. The id must read as an unsigned integer; every other
/// field must be present and nonempty after trimming.
pub open spec fn spec_parse_topic(line: Seq<char>) -> Result<TopicV, ParseError> {
    let fs = spec_fields(line);
    if spec_parse_u64(fs[0]) is None {
        Err(ParseError::InvalidInteger)
    } else if fs.len() < 2 || fs[1].len() == 0 {
        Err(ParseError::MissingField(Field::LeaderboardName))
    } else if fs.len() < 3 || fs[2].len() == 0 {
        Err(ParseError::MissingField(Field::FileName))
    } else if fs.len() < 4 || fs[3].len() == 0 {
        Err(ParseError::MissingField(Field::TopicName))
    } else if fs.len() < 5 || fs[4].len() == 0 {
        Err(ParseError::MissingField(Field::TopicDescription))
    } else {
        Ok(
            TopicV {
                id: spec_parse_u64(fs[0])->Some_0,
                leaderboard_name: fs[1],
                file_name: fs[2],
                name: fs[3],
                description: fs[4],
            },
        )
    }
}

/// Parses one topic line.
pub fn parse_topic(line: &str) -> (r: Result<Topic, ParseError>)
    ensures
        match r {
            Ok(t) => spec_parse_topic(line@) == Ok::<TopicV, ParseError>(t@),
            Err(e) => spec_parse_topic(line@) == Err::<TopicV, ParseError>(e),
        },
{
    let fields = fields_of(line);
    let id = match parse_u64(fields[0].as_str()) {
        Some(v) => v,
        None => {
            return Err(ParseError::InvalidInteger);
        },
    };
    if fields.len() < 2 || fields[1].as_str().unicode_len() == 0 {
        return Err(ParseError::MissingField(Field::LeaderboardName));
    }
    if fields.len() < 3 || fields[2].as_str().unicode_len() == 0 {
        return Err(ParseError::MissingField(Field::FileName));
    }
    if fields.len() < 4 || fields[3].as_str().unicode_len() == 0 {
        return Err(ParseError::MissingField(Field::TopicName));
    }
    if fields.len() < 5 || fields[4].as_str().unicode_len() == 0 {
        return Err(ParseError::MissingField(Field::TopicDescription));
    }
    let t = Topic {
        id,
        leaderboard_name: fields[1].clone(),
        file_name: fields[2].clone(),
        name: fields[3].clone(),
        description: fields[4].clone(),
    };
    proof {
        assert(spec_parse_topic(line@)->Ok_0 =~~= t@);
    }
    Ok(t)
}

/// The one-line rendering of a topic record: its fields joined with
/// commas, the id in decimal.
pub open spec fn spec_serialize_topic(v: TopicV) -> Seq<char> {
    spec_join(
        seq![
            spec_render_u64(v.id as int),
            v.leaderboard_name,
            v.file_name,
            v.name,
            v.description,
        ],
        ',',
    )
}

/// Writes a topic as one comma-delimited line.
pub fn serialize_topic(t: &Topic) -> (r: String)
    ensures
        r@ == spec_serialize_topic(t@),
{
    let mut ps: Vec<String> = Vec::new();
    ps.push(render_u64(t.id));
    ps.push(t.leaderboard_name.clone());
    ps.push(t.file_name.clone());
    ps.push(t.name.clone());
    ps.push(t.description.clone());
    proof {
        reveal_strlit(",");
        assert(ps.deep_view() =~~= seq![
            spec_render_u64(t@.id as int),
            t@.leaderboard_name,
            t@.file_name,
            t@.name,
            t@.description,
        ]);
    }
    crate::text::join_strs(&ps, ",")
}

/// A topic that serialization can carry: every string field nonempty,
/// delimiter-free and trimmed.
pub open spec fn topic_wf(v: TopicV) -> bool {
    field_ok(v.leaderboard_name) && field_ok(v.file_name) && field_ok(v.name) && field_ok(
        v.description,
    )
}

/// Round trip: parsing a serialized well-formed topic yields it back.
pub proof fn lemma_topic_round_trip(v: TopicV)
    requires
        topic_wf(v),
    ensures
        spec_parse_topic(spec_serialize_topic(v)) == Ok::<TopicV, ParseError>(v),
{
    let idf = spec_render_u64(v.id as int);
    lemma_render_u64_digits(v.id as int);
    lemma_digits_not_special(idf);
    lemma_trim_id(idf);
    let ps = seq![idf, v.leaderboard_name, v.file_name, v.name, v.description];
    assert(spec_serialize_topic(v) == spec_join(ps, ','));
    assert(forall|k: int| 0 <= k < ps.len() ==> spec_trim(#[trigger] ps[k]) == ps[k]) by {
        lemma_field_trimmed(v.leaderboard_name);
        lemma_field_trimmed(v.file_name);
        lemma_field_trimmed(v.name);
        lemma_field_trimmed(v.description);
    }
    lemma_fields_of_join(ps);
    let fs = spec_fields(spec_serialize_topic(v));
    assert(fs == ps);
    assert(spec_parse_u64(fs[0]) == Some(v.id));
    assert(spec_parse_topic(spec_serialize_topic(v))->Ok_0 =~~= v);
}

// ------------------------------------------------------------------
// Quiz lines: id,name,description,answer,choice1|choice2|...
// ------------------------------------------------------------------

/// What one question line denotes. The answer must decode as a choice
/// letter; the choices field is split on pipes into trimmed strings.
pub open spec fn spec_parse_quiz(line: Seq<char>) -> Result<QuizV, ParseError> {
    let fs = spec_fields(line);
    if spec_parse_u64(fs[0]) is None {
        Err(ParseError::InvalidInteger)
    } else if fs.len() < 2 || fs[1].len() == 0 {
        Err(ParseError::MissingField(Field::QuizName))
    } else if fs.len() < 3 || fs[2].len() == 0 {
        Err(ParseError::MissingField(Field::QuizDescription))
    } else if fs.len() < 4 || fs[3].len() == 0 {
        Err(ParseError::MissingField(Field::QuizAnswer))
    } else if spec_to_choice(fs[3]) is None {
        Err(ParseError::InvalidAnswer)
    } else if fs.len() < 5 || fs[4].len() == 0 {
        Err(ParseError::MissingField(Field::QuizChoices))
    } else {
        Ok(
            QuizV {
                id: spec_parse_u64(fs[0])->Some_0,
                name: fs[1],
                description: fs[2],
                answer: spec_to_choice(fs[3])->Some_0,
                choices: spec_split(fs[4], '|').map_values(|c: Seq<char>| spec_trim(c)),
                asked: false,
            },
        )
    }
}

/// Parses one question line; the question starts unasked.
pub fn parse_quiz(line: &str) -> (r: Result<Quiz, ParseError>)
    ensures
        match r {
            Ok(q) => spec_parse_quiz(line@) == Ok::<QuizV, ParseError>(q@),
            Err(e) => spec_parse_quiz(line@) == Err::<QuizV, ParseError>(e),
        },
{
    let fields = fields_of(line);
    let id = match parse_u64(fields[0].as_str()) {
        Some(v) => v,
        None => {
            return Err(ParseError::InvalidInteger);
        },
    };
    if fields.len() < 2 || fields[1].as_str().unicode_len() == 0 {
        return Err(ParseError::MissingField(Field::QuizName));
    }
    if fields.len() < 3 || fields[2].as_str().unicode_len() == 0 {
        return Err(ParseError::MissingField(Field::QuizDescription));
    }
    if fields.len() < 4 || fields[3].as_str().unicode_len() == 0 {
        return Err(ParseError::MissingField(Field::QuizAnswer));
    }
    let answer = match to_choice(fields[3].as_str()) {
        Ok(c) => c,
        Err(e) => {
            return Err(e);
        },
    };
    if fields.len() < 5 || fields[4].as_str().unicode_len() == 0 {
        return Err(ParseError::MissingField(Field::QuizChoices));
    }
    let raw_choices = split_str(fields[4].as_str(), '|');
    let choices = trim_all(&raw_choices);
    let q = Quiz {
        id,
        name: fields[1].clone(),
        description: fields[2].clone(),
        answer,
        choices,
        asked: false,
    };
    proof {
        assert(q@.choices =~~= spec_split(spec_fields(line@)[4], '|').map_values(
            |c: Seq<char>| spec_trim(c),
        ));
        assert(spec_parse_quiz(line@)->Ok_0 =~~= q@);
    }
    Ok(q)
}

/// The one-line rendering of a question record: its fields joined with
/// commas, the choices joined with pipes.
pub open spec fn spec_serialize_quiz(v: QuizV) -> Seq<char> {
    spec_join(
        seq![
            spec_render_u64(v.id as int),
            v.name,
            v.description,
            spec_choice_letter(v.answer),
            spec_join(v.choices, '|'),
        ],
        ',',
    )
}

/// Writes a question as one comma-delimited line, its choices joined
/// with pipes.
pub fn serialize_quiz(q: &Quiz) -> (r: String)
    ensures
        r@ == spec_serialize_quiz(q@),
{
    proof {
        reveal_strlit("|");
        reveal_strlit(",");
    }
    let joined = crate::text::join_strs(&q.choices, "|");
    let mut ps: Vec<String> = Vec::new();
    ps.push(render_u64(q.id));
    ps.push(q.name.clone());
    ps.push(q.description.clone());
    ps.push(choice_letter(q.answer));
    ps.push(joined);
    proof {
        assert(ps.deep_view() =~~= seq![
            spec_render_u64(q@.id as int),
            q@.name,
            q@.description,
            spec_choice_letter(q@.answer),
            spec_join(q@.choices, '|'),
        ]);
    }
    crate::text::join_strs(&ps, ",")
}

/// A choice string that serialization can carry: nonempty, free of both
/// delimiters and line breaks, and trimmed.
pub open spec fn choice_ok(c: Seq<char>) -> bool {
    &&& c.len() > 0
    &&& !c.contains(',')
    &&& !c.contains('|')
    &&& !c.contains('\n')
    &&& !is_ws(c[0])
    &&& !is_ws(c.last())
}

/// A question that serialization can carry.
pub open spec fn quiz_wf(v: QuizV) -> bool {
    &&& field_ok(v.name)
    &&& field_ok(v.description)
    &&& v.choices.len() >= 1
    &&& forall|k: int| 0 <= k < v.choices.len() ==> choice_ok(#[trigger] v.choices[k])
    &&& v.asked == false
}

/// Round trip: parsing a serialized well-formed question yields it back.
pub proof fn lemma_quiz_round_trip(v: QuizV)
    requires
        quiz_wf(v),
    ensures
        spec_parse_quiz(spec_serialize_quiz(v)) == Ok::<QuizV, ParseError>(v),
{
    let idf = spec_render_u64(v.id as int);
    lemma_render_u64_digits(v.id as int);
    lemma_digits_not_special(idf);
    lemma_trim_id(idf);
    let lf = spec_choice_letter(v.answer);
    assert(lf.len() == 1 && !lf.contains(',') && !is_ws(lf[0]));
    lemma_trim_id(lf);
    let jf = spec_join(v.choices, '|');
    lemma_join_no_char(v.choices, '|', ',');
    lemma_join_no_char(v.choices, '|', '\n');
    lemma_join_last(v.choices, '|');
    assert(jf.last() == v.choices.last().last());
    assert(!is_ws(jf.last()));
    assert(jf[0] == v.choices[0][0] && !is_ws(jf[0])) by {
        if v.choices.len() == 1 {
            assert(jf == v.choices[0]);
        } else {
            assert(jf == v.choices[0] + seq!['|'] + spec_join(v.choices.skip(1), '|'));
        }
    }
    lemma_trim_id(jf);
    let ps = seq![idf, v.name, v.description, lf, jf];
    assert(spec_serialize_quiz(v) == spec_join(ps, ','));
    assert(forall|k: int| 0 <= k < ps.len() ==> spec_trim(#[trigger] ps[k]) == ps[k]) by {
        lemma_field_trimmed(v.name);
        lemma_field_trimmed(v.description);
    }
    lemma_fields_of_join(ps);
    let fs = spec_fields(spec_serialize_quiz(v));
    assert(fs == ps);
    assert(spec_parse_u64(fs[0]) == Some(v.id));
    crate::choice::lemma_choice_round_trip(v.answer);
    assert(spec_to_choice(spec_trim(lf)) == Some(v.answer));
    lemma_split_join(v.choices, '|');
    assert(spec_split(fs[4], '|').map_values(|c: Seq<char>| spec_trim(c)) =~~= v.choices) by {
        assert(forall|k: int|
            0 <= k < v.choices.len() ==> spec_trim(#[trigger] v.choices[k]) == v.choices[k]) by {
            assert(forall|k: int|
                0 <= k < v.choices.len() ==> choice_ok(#[trigger] v.choices[k]));
            assert forall|k: int| 0 <= k < v.choices.len() implies spec_trim(
                #[trigger] v.choices[k],
            ) == v.choices[k] by {
                lemma_trim_id(v.choices[k]);
            }
        }
    }
    assert(spec_parse_quiz(spec_serialize_quiz(v))->Ok_0 =~~= v);
}

// ------------------------------------------------------------------
// Leaderboard lines: topic,player,score,start_time,end_time,duration
// ------------------------------------------------------------------

/// What one leaderboard line denotes. The score must read as a decimal
/// percentage, the duration as an unsigned integer.
pub open spec fn spec_parse_leaderboard(line: Seq<char>) -> Result<EntryV, ParseError> {
    let fs = spec_fields(line);
    if fs[0].len() == 0 {
        Err(ParseError::MissingField(Field::TopicName))
    } else if fs.len() < 2 || fs[1].len() == 0 {
        Err(ParseError::MissingField(Field::PlayerName))
    } else if fs.len() < 3 || spec_parse_score(fs[2]) is None {
        Err(ParseError::InvalidFloat)
    } else if fs.len() < 4 || fs[3].len() == 0 {
        Err(ParseError::MissingField(Field::StartTime))
    } else if fs.len() < 5 || fs[4].len() == 0 {
        Err(ParseError::MissingField(Field::EndTime))
    } else if fs.len() < 6 || spec_parse_u64(fs[5]) is None {
        Err(ParseError::InvalidInteger)
    } else {
        Ok(
            EntryV {
                topic_name: fs[0],
                player_name: fs[1],
                score_centi: spec_parse_score(fs[2])->Some_0,
                start_time: fs[3],
                end_time: fs[4],
                duration: spec_parse_u64(fs[5])->Some_0,
            },
        )
    }
}

/// Parses one leaderboard line.
pub fn parse_leaderboard(line: &str) -> (r: Result<LeaderboardEntry, ParseError>)
    ensures
        match r {
            Ok(e) => spec_parse_leaderboard(line@) == Ok::<EntryV, ParseError>(e@)
                && e@.score_centi <= 10000,
            Err(e) => spec_parse_leaderboard(line@) == Err::<EntryV, ParseError>(e),
        },
{
    let fields = fields_of(line);
    if fields[0].as_str().unicode_len() == 0 {
        return Err(ParseError::MissingField(Field::TopicName));
    }
    if fields.len() < 2 || fields[1].as_str().unicode_len() == 0 {
        return Err(ParseError::MissingField(Field::PlayerName));
    }
    if fields.len() < 3 {
        return Err(ParseError::InvalidFloat);
    }
    let score_centi = match parse_score(fields[2].as_str()) {
        Some(v) => v,
        None => {
            return Err(ParseError::InvalidFloat);
        },
    };
    if fields.len() < 4 || fields[3].as_str().unicode_len() == 0 {
        return Err(ParseError::MissingField(Field::StartTime));
    }
    if fields.len() < 5 || fields[4].as_str().unicode_len() == 0 {
        return Err(ParseError::MissingField(Field::EndTime));
    }
    if fields.len() < 6 {
        return Err(ParseError::InvalidInteger);
    }
    let duration = match parse_u64(fields[5].as_str()) {
        Some(v) => v,
        None => {
            return Err(ParseError::InvalidInteger);
        },
    };
    let e = LeaderboardEntry {
        topic_name: fields[0].clone(),
        player_name: fields[1].clone(),
        score_centi,
        start_time: fields[3].clone(),
        end_time: fields[4].clone(),
        duration,
    };
    proof {
        assert(spec_parse_leaderboard(line@)->Ok_0 =~~= e@);
    }
    Ok(e)
}

/// The one-line rendering of a leaderboard entry: its fields joined
/// with commas, the score as a decimal percentage.
pub open spec fn spec_serialize_entry(v: EntryV) -> Seq<char> {
    spec_join(
        seq![
            v.topic_name,
            v.player_name,
            spec_render_score(v.score_centi as int),
            v.start_time,
            v.end_time,
            spec_render_u64(v.duration as int),
        ],
        ',',
    )
}

/// Writes a leaderboard entry as one comma-delimited line.
pub fn serialize_entry(e: &LeaderboardEntry) -> (r: String)
    requires
        e@.score_centi <= 10000,
    ensures
        r@ == spec_serialize_entry(e@),
{
    proof {
        reveal_strlit(",");
    }
    let mut ps: Vec<String> = Vec::new();
    ps.push(e.topic_name.clone());
    ps.push(e.player_name.clone());
    ps.push(render_score(e.score_centi));
    ps.push(e.start_time.clone());
    ps.push(e.end_time.clone());
    ps.push(render_u64(e.duration));
    proof {
        assert(ps.deep_view() =~~= seq![
            e@.topic_name,
            e@.player_name,
            spec_render_score(e@.score_centi as int),
            e@.start_time,
            e@.end_time,
            spec_render_u64(e@.duration as int),
        ]);
    }
    crate::text::join_strs(&ps, ",")
}

/// An entry that serialization can carry: names and timestamps nonempty,
/// delimiter-free and trimmed; the score in range.
pub open spec fn entry_wf(v: EntryV) -> bool {
    &&& field_ok(v.topic_name)
    &&& field_ok(v.player_name)
    &&& field_ok(v.start_time)
    &&& field_ok(v.end_time)
    &&& v.score_centi <= 10000
}

/// A serialized entry line is nonempty and stays on one line.
pub proof fn lemma_entry_line_props(v: EntryV)
    requires
        entry_wf(v),
    ensures
        spec_serialize_entry(v).len() > 0,
        !spec_serialize_entry(v).contains('\n'),
{
    let sf = spec_render_score(v.score_centi as int);
    lemma_score_round_trip(v.score_centi as int);
    assert(!sf.contains('\n')) by {
        assert(forall|i: int|
            0 <= i < sf.len() ==> (is_digit(#[trigger] sf[i]) || sf[i] == '.'));
        assert(forall|i: int| 0 <= i < sf.len() ==> sf[i] != '\n');
    }
    let df = spec_render_u64(v.duration as int);
    lemma_render_u64_digits(v.duration as int);
    lemma_digits_not_special(df);
    let ps = seq![v.topic_name, v.player_name, sf, v.start_time, v.end_time, df];
    assert(forall|k: int| 0 <= k < ps.len() ==> !(#[trigger] ps[k]).contains('\n'));
    lemma_join_no_char(ps, ',', '\n');
    assert(spec_serialize_entry(v) == spec_join(ps, ','));
    assert(spec_join(ps, ',') == ps[0] + seq![','] + spec_join(ps.skip(1), ','));
    assert(spec_serialize_entry(v).len() > 0);
}

/// Round trip: parsing a serialized well-formed entry yields it back.
pub proof fn lemma_entry_round_trip(v: EntryV)
    requires
        entry_wf(v),
    ensures
        spec_parse_leaderboard(spec_serialize_entry(v)) == Ok::<EntryV, ParseError>(v),
{
    let sf = spec_render_score(v.score_centi as int);
    lemma_score_round_trip(v.score_centi as int);
    assert(!sf.contains(',') && !sf.contains('\n')) by {
        assert(forall|i: int|
            0 <= i < sf.len() ==> (is_digit(#[trigger] sf[i]) || sf[i] == '.'));
        assert(forall|i: int| 0 <= i < sf.len() ==> sf[i] != ',' && sf[i] != '\n');
    }
    assert(sf.len() > 0 && !is_ws(sf[0]) && !is_ws(sf.last()));
    lemma_trim_id(sf);
    let df = spec_render_u64(v.duration as int);
    lemma_render_u64_digits(v.duration as int);
    lemma_digits_not_special(df);
    lemma_trim_id(df);
    let ps = seq![v.topic_name, v.player_name, sf, v.start_time, v.end_time, df];
    assert(spec_serialize_entry(v) == spec_join(ps, ','));
    assert(forall|k: int| 0 <= k < ps.len() ==> spec_trim(#[trigger] ps[k]) == ps[k]) by {
        lemma_field_trimmed(v.topic_name);
        lemma_field_trimmed(v.player_name);
        lemma_field_trimmed(v.start_time);
        lemma_field_trimmed(v.end_time);
    }
    lemma_fields_of_join(ps);
    let fs = spec_fields(spec_serialize_entry(v));
    assert(fs == ps);
    assert(spec_parse_score(fs[2]) == Some(v.score_centi));
    assert(spec_parse_u64(fs[5]) == Some(v.duration));
    assert(spec_parse_leaderboard(spec_serialize_entry(v))->Ok_0 =~~= v);
}

} // verus!
