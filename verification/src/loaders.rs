//! Collection loaders: split a whole text into lines, parse each nonempty
//! line, keep every record that parses, and report every line that does
//! not, with its 1-based number. A bad line never aborts the load.

use vstd::prelude::*;
use vstd::string::*;
use crate::errors::ParseError;
use crate::leaderboards::{
    Leaderboards, EntryV, spec_header, spec_serialize_entries, spec_serialize_leaderboards,
};
use crate::parse::{
    parse_topic, parse_quiz, parse_leaderboard, spec_parse_topic, spec_parse_quiz,
    spec_parse_leaderboard, spec_serialize_entry, entry_wf, lemma_entry_round_trip,
    lemma_entry_line_props,
};
use crate::quiz::{Quizzes, QuizV, spec_upsert};
use crate::text::{spec_split, split_str};
use crate::topics::{Topics, TopicV};

verus! {

/// One skipped line: its 1-based number and why it was rejected.
#[derive(Clone, Copy, Debug, PartialEq, Eq, Structural)]
pub struct LineError {
    pub line_number: u64,
    pub error: ParseError,
}

/// The topics denoted by a sequence of lines: empty lines are skipped,
/// lines that parse are kept in order, lines that do not are dropped.
pub open spec fn spec_load_topics(lines: Seq<Seq<char>>) -> Seq<TopicV>
    decreases lines.len(),
{
    if lines.len() == 0 {
        Seq::<TopicV>::empty()
    } else {
        let rest = spec_load_topics(lines.drop_last());
        if lines.last().len() == 0 {
            rest
        } else {
            match spec_parse_topic(lines.last()) {
                Ok(t) => rest.push(t),
                Err(_) => rest,
            }
        }
    }
}

/// The rejected topic lines, each with its 1-based line number.
pub open spec fn spec_topic_errors(lines: Seq<Seq<char>>) -> Seq<LineError>
    decreases lines.len(),
{
    if lines.len() == 0 {
        Seq::<LineError>::empty()
    } else {
        let rest = spec_topic_errors(lines.drop_last());
        if lines.last().len() == 0 {
            rest
        } else {
            match spec_parse_topic(lines.last()) {
                Ok(_) => rest,
                Err(e) => rest.push(LineError { line_number: lines.len() as u64, error: e }),
            }
        }
    }
}

/// Parses a whole topic file: every line that parses is loaded, every
/// line that does not is reported and skipped.
pub fn parse_topics(text: &str) -> (r: (Topics, Vec<LineError>))
    ensures
        r.0@ == spec_load_topics(spec_split(text@, '\n')),
        r.1@ == spec_topic_errors(spec_split(text@, '\n')),
{
    let lines = split_str(text, '\n');
    let mut topics = Topics::new();
    let mut errs: Vec<LineError> = Vec::new();
    let mut i: usize = 0;
    let ghost ls = spec_split(text@, '\n');
    proof {
        assert(ls.take(0) =~= Seq::<Seq<char>>::empty());
    }
    while i < lines.len()
        invariant
            i <= lines@.len(),
            lines.deep_view() == ls,
            lines@.len() == ls.len(),
            topics@ == spec_load_topics(ls.take(i as int)),
            errs@ == spec_topic_errors(ls.take(i as int)),
        decreases lines@.len() - i,
    {
        proof {
            assert(ls.take(i as int + 1).drop_last() =~= ls.take(i as int));
            assert(ls.take(i as int + 1).last() == ls[i as int]);
            assert(lines@[i as int]@ == ls[i as int]);
        }
        if lines[i].as_str().unicode_len() > 0 {
            match parse_topic(lines[i].as_str()) {
                Ok(t) => {
                    topics.add_new_topic(
                        t.id,
                        t.leaderboard_name.as_str(),
                        t.file_name.as_str(),
                        t.name.as_str(),
                        t.description.as_str(),
                    );
                    proof {
                        assert(topics@.last() =~~= t@);
                        assert(topics@ =~~= spec_load_topics(ls.take(i as int + 1)));
                    }
                },
                Err(e) => {
                    errs.push(LineError { line_number: (i + 1) as u64, error: e });
                    proof {
                        assert(errs@ =~= spec_topic_errors(ls.take(i as int + 1)));
                    }
                },
            }
        }
        i = i + 1;
    }
    proof {
        assert(ls.take(lines@.len() as int) =~= ls);
    }
    (topics, errs)
}

/// The questions denoted by a sequence of lines; a line whose id repeats
/// an earlier one replaces it, as the bank is keyed by id.
pub open spec fn spec_load_quizzes(lines: Seq<Seq<char>>) -> Seq<QuizV>
    decreases lines.len(),
{
    if lines.len() == 0 {
        Seq::<QuizV>::empty()
    } else {
        let rest = spec_load_quizzes(lines.drop_last());
        if lines.last().len() == 0 {
            rest
        } else {
            match spec_parse_quiz(lines.last()) {
                Ok(q) => spec_upsert(rest, q),
                Err(_) => rest,
            }
        }
    }
}

/// The rejected question lines, each with its 1-based line number.
pub open spec fn spec_quiz_errors(lines: Seq<Seq<char>>) -> Seq<LineError>
    decreases lines.len(),
{
    if lines.len() == 0 {
        Seq::<LineError>::empty()
    } else {
        let rest = spec_quiz_errors(lines.drop_last());
        if lines.last().len() == 0 {
            rest
        } else {
            match spec_parse_quiz(lines.last()) {
                Ok(_) => rest,
                Err(e) => rest.push(LineError { line_number: lines.len() as u64, error: e }),
            }
        }
    }
}

/// Parses a whole question-bank file into a fresh bank with zeroed
/// session counters.
pub fn parse_quizzes(text: &str) -> (r: (Quizzes, Vec<LineError>))
    ensures
        r.0@.list == spec_load_quizzes(spec_split(text@, '\n')),
        r.0@.correct == 0,
        r.0@.questions_asked == 0,
        r.0.wf(),
        r.1@ == spec_quiz_errors(spec_split(text@, '\n')),
{
    let lines = split_str(text, '\n');
    let mut quizzes = Quizzes::new();
    let mut errs: Vec<LineError> = Vec::new();
    let mut i: usize = 0;
    let ghost ls = spec_split(text@, '\n');
    proof {
        assert(ls.take(0) =~= Seq::<Seq<char>>::empty());
    }
    while i < lines.len()
        invariant
            i <= lines@.len(),
            lines.deep_view() == ls,
            lines@.len() == ls.len(),
            quizzes.wf(),
            quizzes@.correct == 0,
            quizzes@.questions_asked == 0,
            quizzes@.list == spec_load_quizzes(ls.take(i as int)),
            errs@ == spec_quiz_errors(ls.take(i as int)),
        decreases lines@.len() - i,
    {
        proof {
            assert(ls.take(i as int + 1).drop_last() =~= ls.take(i as int));
            assert(ls.take(i as int + 1).last() == ls[i as int]);
            assert(lines@[i as int]@ == ls[i as int]);
        }
        if lines[i].as_str().unicode_len() > 0 {
            match parse_quiz(lines[i].as_str()) {
                Ok(q) => {
                    let ghost qv = q@;
                    quizzes.add(q.id, q.name.as_str(), q.description.as_str(), q.answer, q.choices);
                    proof {
                        assert(quizzes@.list == spec_upsert(
                            spec_load_quizzes(ls.take(i as int)),
                            qv,
                        ));
                    }
                },
                Err(e) => {
                    errs.push(LineError { line_number: (i + 1) as u64, error: e });
                    proof {
                        assert(errs@ =~= spec_quiz_errors(ls.take(i as int + 1)));
                    }
                },
            }
        }
        i = i + 1;
    }
    proof {
        assert(ls.take(lines@.len() as int) =~= ls);
    }
    (quizzes, errs)
}

/// The leaderboard entries denoted by a sequence of lines. The header
/// line of a leaderboard file does not parse (its score field is the
/// word `score`), so reloading a written file skips it here.
pub open spec fn spec_load_entries(lines: Seq<Seq<char>>) -> Seq<EntryV>
    decreases lines.len(),
{
    if lines.len() == 0 {
        Seq::<EntryV>::empty()
    } else {
        let rest = spec_load_entries(lines.drop_last());
        if lines.last().len() == 0 {
            rest
        } else {
            match spec_parse_leaderboard(lines.last()) {
                Ok(e) => rest.push(e),
                Err(_) => rest,
            }
        }
    }
}

/// The rejected leaderboard lines, each with its 1-based line number.
pub open spec fn spec_entry_errors(lines: Seq<Seq<char>>) -> Seq<LineError>
    decreases lines.len(),
{
    if lines.len() == 0 {
        Seq::<LineError>::empty()
    } else {
        let rest = spec_entry_errors(lines.drop_last());
        if lines.last().len() == 0 {
            rest
        } else {
            match spec_parse_leaderboard(lines.last()) {
                Ok(_) => rest,
                Err(e) => rest.push(LineError { line_number: lines.len() as u64, error: e }),
            }
        }
    }
}

/// Parses a whole leaderboard file.
pub fn parse_leaderboards(text: &str) -> (r: (Leaderboards, Vec<LineError>))
    ensures
        r.0@ == spec_load_entries(spec_split(text@, '\n')),
        r.0.wf(),
        r.1@ == spec_entry_errors(spec_split(text@, '\n')),
{
    let lines = split_str(text, '\n');
    let mut ldbs = Leaderboards::new();
    let mut errs: Vec<LineError> = Vec::new();
    let mut i: usize = 0;
    let ghost ls = spec_split(text@, '\n');
    proof {
        assert(ls.take(0) =~= Seq::<Seq<char>>::empty());
    }
    while i < lines.len()
        invariant
            i <= lines@.len(),
            lines.deep_view() == ls,
            lines@.len() == ls.len(),
            ldbs.wf(),
            ldbs@ == spec_load_entries(ls.take(i as int)),
            errs@ == spec_entry_errors(ls.take(i as int)),
        decreases lines@.len() - i,
    {
        proof {
            assert(ls.take(i as int + 1).drop_last() =~= ls.take(i as int));
            assert(ls.take(i as int + 1).last() == ls[i as int]);
            assert(lines@[i as int]@ == ls[i as int]);
        }
        if lines[i].as_str().unicode_len() > 0 {
            match parse_leaderboard(lines[i].as_str()) {
                Ok(e) => {
                    ldbs.add_new_leaderboards(
                        e.topic_name.as_str(),
                        e.player_name.as_str(),
                        e.score_centi,
                        e.start_time.as_str(),
                        e.end_time.as_str(),
                        e.duration,
                    );
                    proof {
                        assert(ldbs@.last() =~~= e@);
                        assert(ldbs@ =~~= spec_load_entries(ls.take(i as int + 1)));
                    }
                },
                Err(e) => {
                    errs.push(LineError { line_number: (i + 1) as u64, error: e });
                    proof {
                        assert(errs@ =~= spec_entry_errors(ls.take(i as int + 1)));
                    }
                },
            }
        }
        i = i + 1;
    }
    proof {
        assert(ls.take(lines@.len() as int) =~= ls);
    }
    (ldbs, errs)
}

/// A serialized block of entry lines splits into one line per entry,
/// plus the empty piece after the final newline.
proof fn lemma_split_entry_lines(s: Seq<EntryV>)
    requires
        forall|k: int| 0 <= k < s.len() ==> entry_wf(#[trigger] s[k]),
    ensures
        spec_split(spec_serialize_entries(s), '\n') == s.map_values(
            |e: EntryV| spec_serialize_entry(e),
        ).push(Seq::<char>::empty()),
    decreases s.len(),
{
    let m = s.map_values(|e: EntryV| spec_serialize_entry(e));
    if s.len() == 0 {
        assert(spec_split(spec_serialize_entries(s), '\n') =~~= m.push(Seq::<char>::empty()));
    } else {
        let line0 = spec_serialize_entry(s[0]);
        lemma_entry_line_props(s[0]);
        crate::text::lemma_split_delim_prefix(line0, spec_serialize_entries(s.skip(1)), '\n');
        assert(forall|k: int| 0 <= k < s.skip(1).len() ==> entry_wf(#[trigger] s.skip(1)[k])) by {
            assert(forall|k: int| 0 <= k < s.len() - 1 ==> s.skip(1)[k] == s[k + 1]);
        }
        lemma_split_entry_lines(s.skip(1));
        assert(spec_split(spec_serialize_entries(s), '\n') == seq![line0] + s.skip(1).map_values(
            |e: EntryV| spec_serialize_entry(e),
        ).push(Seq::<char>::empty()));
        assert(spec_split(spec_serialize_entries(s), '\n') =~~= m.push(Seq::<char>::empty()));
    }
}

/// The header line is nonempty, stays on one line, and does not parse as
/// an entry: its score field is the word `score`.
proof fn lemma_header_line()
    ensures
        spec_header().len() > 0,
        !spec_header().contains('\n'),
        spec_parse_leaderboard(spec_header()) is Err,
{
    reveal_strlit("topic_name,player_name,score,start_time,end_time,duration");
    reveal_strlit("topic_name");
    reveal_strlit("player_name");
    reveal_strlit("score");
    reveal_strlit("start_time");
    reveal_strlit("end_time");
    reveal_strlit("duration");
    let h = spec_header();
    let a = "topic_name"@;
    let b = "player_name"@;
    let c = "score"@;
    let d = "start_time"@;
    let e = "end_time"@;
    let f = "duration"@;
    let r4 = e + seq![','] + f;
    let r3 = d + seq![','] + r4;
    let r2 = c + seq![','] + r3;
    let r1 = b + seq![','] + r2;
    assert(h =~= a + seq![','] + r1);
    crate::text::lemma_split_no_delim(f, ',');
    crate::text::lemma_split_delim_prefix(e, f, ',');
    crate::text::lemma_split_delim_prefix(d, r4, ',');
    crate::text::lemma_split_delim_prefix(c, r3, ',');
    crate::text::lemma_split_delim_prefix(b, r2, ',');
    crate::text::lemma_split_delim_prefix(a, r1, ',');
    assert(spec_split(h, ',') =~~= seq![a, b, c, d, e, f]);
    crate::text::lemma_trim_id(a);
    crate::text::lemma_trim_id(b);
    crate::text::lemma_trim_id(c);
    crate::text::lemma_trim_id(d);
    crate::text::lemma_trim_id(e);
    crate::text::lemma_trim_id(f);
    assert(crate::parse::spec_fields(h) =~~= seq![a, b, c, d, e, f]);
    crate::text::lemma_split_no_delim(c, '.');
    assert(spec_split(c, '.') == seq![c]);
    assert(!crate::num::is_digit(c[0]));
    assert(crate::num::spec_parse_u64(c) is None);
    assert(crate::num::spec_parse_score(c) is None);
}

/// Loading lines that are a prefix followed by serialized well-formed
/// entries yields the prefix's records followed by those entries.
proof fn lemma_load_prefix_append(pre: Seq<Seq<char>>, s: Seq<EntryV>)
    requires
        forall|k: int| 0 <= k < s.len() ==> entry_wf(#[trigger] s[k]),
    ensures
        spec_load_entries(pre + s.map_values(|e: EntryV| spec_serialize_entry(e)))
            == spec_load_entries(pre) + s,
    decreases s.len(),
{
    let m = s.map_values(|e: EntryV| spec_serialize_entry(e));
    if s.len() == 0 {
        assert(pre + m =~~= pre);
        assert(spec_load_entries(pre) + s =~~= spec_load_entries(pre));
    } else {
        let whole = pre + m;
        assert(whole.drop_last() =~~= pre + s.drop_last().map_values(
            |e: EntryV| spec_serialize_entry(e),
        ));
        assert(whole.last() == spec_serialize_entry(s.last()));
        lemma_entry_line_props(s.last());
        lemma_entry_round_trip(s.last());
        assert(forall|k: int|
            0 <= k < s.drop_last().len() ==> entry_wf(#[trigger] s.drop_last()[k])) by {
            assert(forall|k: int| 0 <= k < s.len() - 1 ==> s.drop_last()[k] == s[k]);
        }
        lemma_load_prefix_append(pre, s.drop_last());
        assert(spec_load_entries(whole) == (spec_load_entries(pre) + s.drop_last()).push(
            s.last(),
        ));
        assert((spec_load_entries(pre) + s.drop_last()).push(s.last()) =~~= spec_load_entries(pre)
            + s);
    }
}

/// Serialize-then-parse round trip for a whole leaderboard file: parsing
/// a written file yields exactly the entries that were written, in
/// order; the header line and the trailing newline are skipped.
pub proof fn lemma_leaderboards_round_trip(s: Seq<EntryV>)
    requires
        forall|k: int| 0 <= k < s.len() ==> entry_wf(#[trigger] s[k]),
    ensures
        spec_load_entries(spec_split(spec_serialize_leaderboards(s), '\n')) == s,
{
    lemma_header_line();
    let body = spec_serialize_entries(s);
    crate::text::lemma_split_delim_prefix(spec_header(), body, '\n');
    lemma_split_entry_lines(s);
    let lines = spec_split(spec_serialize_leaderboards(s), '\n');
    let m = s.map_values(|e: EntryV| spec_serialize_entry(e));
    assert(lines =~~= (seq![spec_header()] + m).push(Seq::<char>::empty()));
    assert(lines.drop_last() =~~= seq![spec_header()] + m);
    assert(lines.last().len() == 0);
    assert(spec_load_entries(lines) == spec_load_entries(seq![spec_header()] + m));
    lemma_load_prefix_append(seq![spec_header()], s);
    let hl = seq![spec_header()];
    assert(hl.last() == spec_header());
    assert(hl.drop_last() =~~= Seq::<Seq<char>>::empty());
    assert(spec_load_entries(Seq::<Seq<char>>::empty()) =~~= Seq::<EntryV>::empty());
    assert(spec_load_entries(hl.drop_last()) == Seq::<EntryV>::empty());
    assert(spec_parse_leaderboard(hl.last()) is Err);
    assert(spec_load_entries(hl) =~~= Seq::<EntryV>::empty());
    assert(spec_load_entries(lines) =~~= s);
}

} // verus!
