//! Topic records and the in-memory topic catalog, keyed by load order.

use vstd::prelude::*;
use vstd::string::*;

verus! {

/// A named subject area with an associated question-bank file and
/// leaderboard name. Immutable after load.
#[derive(Debug)]
pub struct Topic {
    pub id: u64,
    pub leaderboard_name: String,
    pub file_name: String,
    pub name: String,
    pub description: String,
}

/// The mathematical value of a `Topic`.
#[verifier::ext_equal]
pub struct TopicV {
    pub id: u64,
    pub leaderboard_name: Seq<char>,
    pub file_name: Seq<char>,
    pub name: Seq<char>,
    pub description: Seq<char>,
}

impl View for Topic {
    type V = TopicV;

    open spec fn view(&self) -> TopicV {
        TopicV {
            id: self.id,
            leaderboard_name: self.leaderboard_name@,
            file_name: self.file_name@,
            name: self.name@,
            description: self.description@,
        }
    }
}

impl Clone for Topic {
    fn clone(&self) -> (r: Self)
        ensures
            r@ == self@,
    {
        Topic {
            id: self.id,
            leaderboard_name: self.leaderboard_name.clone(),
            file_name: self.file_name.clone(),
            name: self.name.clone(),
            description: self.description.clone(),
        }
    }
}

/// All loaded topics, in load order.
pub struct Topics {
    list: Vec<Topic>,
}

impl View for Topics {
    type V = Seq<TopicV>;

    closed spec fn view(&self) -> Seq<TopicV> {
        Seq::new(self.list@.len(), |i: int| self.list@[i]@)
    }
}

impl Topics {
    pub fn new() -> (r: Self)
        ensures
            r@ == Seq::<TopicV>::empty(),
    {
        let r = Topics { list: Vec::new() };
        proof {
            assert(r@ =~= Seq::<TopicV>::empty());
        }
        r
    }

    pub fn len(&self) -> (r: usize)
        ensures
            r == self@.len(),
    {
        self.list.len()
    }

    /// Appends a topic built from its fields.
    pub fn add_new_topic(
        &mut self,
        id: u64,
        leaderboard_name: &str,
        file_name: &str,
        name: &str,
        description: &str,
    )
        ensures
            final(self)@ == old(self)@.push(
                TopicV {
                    id,
                    leaderboard_name: leaderboard_name@,
                    file_name: file_name@,
                    name: name@,
                    description: description@,
                },
            ),
    {
        let t = Topic {
            id,
            leaderboard_name: String::from_str(leaderboard_name),
            file_name: String::from_str(file_name),
            name: String::from_str(name),
            description: String::from_str(description),
        };
        self.list.push(t);
        proof {
            assert(self@ =~= old(self)@.push(
                TopicV {
                    id,
                    leaderboard_name: leaderboard_name@,
                    file_name: file_name@,
                    name: name@,
                    description: description@,
                },
            ));
        }
    }

    /// Looks a topic up by exact name. When no name is given the catalog
    /// asks for an explicit one by returning `None`: choosing a topic at
    /// random is deliberately not offered here.
    pub fn get_topic(&self, name: &Option<String>) -> (r: Option<Topic>)
        ensures
            r matches Some(t) ==> name is Some && t@.name == name->Some_0@ && self@.contains(
                t@,
            ),
            r is None <==> (name is None || forall|i: int|
                0 <= i < self@.len() ==> (#[trigger] self@[i].name) != name->Some_0@),
    {
        let n = match name {
            Some(n) => n,
            None => {
                return None;
            },
        };
        let mut i: usize = 0;
        while i < self.list.len()
            invariant
                i <= self.list@.len(),
                name is Some,
                n@ == name->Some_0@,
                forall|k: int| 0 <= k < i ==> (#[trigger] self@[k].name) != n@,
            decreases self.list@.len() - i,
        {
            if self.list[i].name == *n {
                let t = self.list[i].clone();
                proof {
                    assert(self@[i as int] =~= t@);
                    assert(self@.contains(t@)) by {
                        assert(self@[i as int] == t@);
                    }
                    assert(self@[i as int].name == name->Some_0@);
                }
                return Some(t);
            }
            i = i + 1;
        }
        None
    }

    /// The loaded topics in load order.
    pub fn list_all(&self) -> (r: &Vec<Topic>)
        ensures
            r@.len() == self@.len(),
            forall|i: int| 0 <= i < r@.len() ==> (#[trigger] r@[i]@) == self@[i],
    {
        &self.list
    }
}

} // verus!
