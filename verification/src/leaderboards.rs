//! Leaderboard records and the in-memory store: append, listing in
//! insertion order, and filtering by topic. The full set is rewritten on
//! save; nothing is ever appended to the file in place.

use vstd::prelude::*;
use vstd::string::*;

verus! {

/// One recorded session outcome. The score is carried in hundredths of a
/// percent (0 ..= 10000); timestamps are opaque strings.
#[derive(Debug)]
pub struct LeaderboardEntry {
    pub topic_name: String,
    pub player_name: String,
    pub score_centi: u64,
    pub start_time: String,
    pub end_time: String,
    pub duration: u64,
}

/// The mathematical value of a `LeaderboardEntry`.
#[verifier::ext_equal]
pub struct EntryV {
    pub topic_name: Seq<char>,
    pub player_name: Seq<char>,
    pub score_centi: u64,
    pub start_time: Seq<char>,
    pub end_time: Seq<char>,
    pub duration: u64,
}

impl View for LeaderboardEntry {
    type V = EntryV;

    open spec fn view(&self) -> EntryV {
        EntryV {
            topic_name: self.topic_name@,
            player_name: self.player_name@,
            score_centi: self.score_centi,
            start_time: self.start_time@,
            end_time: self.end_time@,
            duration: self.duration,
        }
    }
}

impl DeepView for LeaderboardEntry {
    type V = EntryV;

    open spec fn deep_view(&self) -> EntryV {
        self@
    }
}

impl Clone for LeaderboardEntry {
    fn clone(&self) -> (r: Self)
        ensures
            r@ == self@,
    {
        LeaderboardEntry {
            topic_name: self.topic_name.clone(),
            player_name: self.player_name.clone(),
            score_centi: self.score_centi,
            start_time: self.start_time.clone(),
            end_time: self.end_time.clone(),
            duration: self.duration,
        }
    }
}

/// The entries whose topic name matches exactly, in insertion order.
pub open spec fn spec_filter_topic(s: Seq<EntryV>, t: Seq<char>) -> Seq<EntryV>
    decreases s.len(),
{
    if s.len() == 0 {
        Seq::<EntryV>::empty()
    } else {
        let rest = spec_filter_topic(s.drop_last(), t);
        if s.last().topic_name == t {
            rest.push(s.last())
        } else {
            rest
        }
    }
}

/// The fixed first line of a leaderboard file.
pub open spec fn spec_header() -> Seq<char> {
    "topic_name,player_name,score,start_time,end_time,duration"@
}

/// One line per entry, in order, each ended by a newline.
pub open spec fn spec_serialize_entries(s: Seq<EntryV>) -> Seq<char>
    decreases s.len(),
{
    if s.len() == 0 {
        Seq::<char>::empty()
    } else {
        crate::parse::spec_serialize_entry(s[0]) + seq!['\n'] + spec_serialize_entries(s.skip(1))
    }
}

/// The whole file text: the header line, then the entry lines.
pub open spec fn spec_serialize_leaderboards(s: Seq<EntryV>) -> Seq<char> {
    spec_header() + seq!['\n'] + spec_serialize_entries(s)
}

/// All leaderboard entries, in insertion order.
pub struct Leaderboards {
    list: Vec<LeaderboardEntry>,
}

impl View for Leaderboards {
    type V = Seq<EntryV>;

    closed spec fn view(&self) -> Seq<EntryV> {
        Seq::new(self.list@.len(), |i: int| self.list@[i]@)
    }
}

impl Leaderboards {
    /// Every stored score is a percentage: at most one hundred percent.
    pub open spec fn wf(self) -> bool {
        forall|i: int| 0 <= i < self@.len() ==> (#[trigger] self@[i]).score_centi <= 10000
    }

    pub fn new() -> (r: Self)
        ensures
            r@ == Seq::<EntryV>::empty(),
            r.wf(),
    {
        let r = Leaderboards { list: Vec::new() };
        proof {
            assert(r@ =~= Seq::<EntryV>::empty());
        }
        r
    }

    pub fn len(&self) -> (r: usize)
        ensures
            r == self@.len(),
    {
        self.list.len()
    }

    /// Appends one session outcome in memory.
    pub fn add_new_leaderboards(
        &mut self,
        topic_name: &str,
        player_name: &str,
        score_centi: u64,
        start_time: &str,
        end_time: &str,
        duration: u64,
    )
        requires
            old(self).wf(),
            score_centi <= 10000,
        ensures
            final(self).wf(),
            final(self)@ == old(self)@.push(
                EntryV {
                    topic_name: topic_name@,
                    player_name: player_name@,
                    score_centi,
                    start_time: start_time@,
                    end_time: end_time@,
                    duration,
                },
            ),
    {
        let e = LeaderboardEntry {
            topic_name: String::from_str(topic_name),
            player_name: String::from_str(player_name),
            score_centi,
            start_time: String::from_str(start_time),
            end_time: String::from_str(end_time),
            duration,
        };
        self.list.push(e);
        proof {
            assert(self@ =~= old(self)@.push(
                EntryV {
                    topic_name: topic_name@,
                    player_name: player_name@,
                    score_centi,
                    start_time: start_time@,
                    end_time: end_time@,
                    duration,
                },
            ));
        }
    }

    /// The stored entries in insertion order.
    pub fn leaderboards_as_vec(&self) -> (r: &Vec<LeaderboardEntry>)
        ensures
            r@.len() == self@.len(),
            forall|i: int| 0 <= i < r@.len() ==> (#[trigger] r@[i]@) == self@[i],
    {
        &self.list
    }

    /// Renders the whole store as its file text: the fixed header line,
    /// then one line per entry in insertion order, each line ended by a
    /// newline. Saving is always this full rewrite, never an append.
    pub fn serialize(&self) -> (r: String)
        requires
            self.wf(),
        ensures
            r@ == spec_serialize_leaderboards(self@),
    {
        let mut r = String::from_str("topic_name,player_name,score,start_time,end_time,duration");
        r.append("\n");
        proof {
            reveal_strlit("\n");
            assert(self@.skip(0) =~= self@);
            assert(spec_serialize_leaderboards(self@) =~= r@ + spec_serialize_entries(
                self@.skip(0),
            ));
        }
        let mut i: usize = 0;
        while i < self.list.len()
            invariant
                i <= self@.len(),
                self@.len() == self.list@.len(),
                self.wf(),
                spec_serialize_leaderboards(self@) == r@ + spec_serialize_entries(
                    self@.skip(i as int),
                ),
            decreases self@.len() - i,
        {
            let line = crate::parse::serialize_entry(&self.list[i]);
            r.append(line.as_str());
            r.append("\n");
            proof {
                reveal_strlit("\n");
                assert(self@.skip(i as int).skip(1) =~= self@.skip(i as int + 1));
                assert(self@.skip(i as int)[0] == self@[i as int]);
                assert(spec_serialize_leaderboards(self@) =~= r@ + spec_serialize_entries(
                    self@.skip(i as int + 1),
                ));
            }
            i = i + 1;
        }
        proof {
            assert(self@.skip(self@.len() as int) =~= Seq::<EntryV>::empty());
            assert(r@ =~= spec_serialize_leaderboards(self@));
        }
        r
    }

    /// The entries for one topic, by exact name, in insertion order.
    pub fn entries_for_topic(&self, topic: &String) -> (r: Vec<LeaderboardEntry>)
        ensures
            r.deep_view() == spec_filter_topic(self@, topic@),
    {
        let mut r: Vec<LeaderboardEntry> = Vec::new();
        let mut i: usize = 0;
        proof {
            assert(self@.take(0) =~= Seq::<EntryV>::empty());
            assert(r.deep_view() =~~= Seq::<EntryV>::empty());
        }
        while i < self.list.len()
            invariant
                i <= self@.len(),
                self@.len() == self.list@.len(),
                r.deep_view() == spec_filter_topic(self@.take(i as int), topic@),
            decreases self@.len() - i,
        {
            proof {
                assert(self@.take(i as int + 1).drop_last() =~= self@.take(i as int));
                assert(self@.take(i as int + 1).last() == self@[i as int]);
            }
            if self.list[i].topic_name == *topic {
                let ghost prev = r.deep_view();
                r.push(self.list[i].clone());
                proof {
                    assert(r.deep_view() =~~= prev.push(self@[i as int]));
                }
            }
            i = i + 1;
        }
        proof {
            assert(self@.take(self@.len() as int) =~= self@);
        }
        r
    }
}

} // verus!
