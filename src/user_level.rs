use crate::word_db::{find_word, WordDb};
use vstd::prelude::*;

verus! {

/// How a reader has met one word: how often they saw it, how often they
/// looked it up, and a streak that grows with each sighting without a
/// look-up and falls with each look-up.
#[derive(Clone, Copy, PartialEq, Eq, Debug, Structural)]
pub struct Learning {
    pub seen: usize,
    pub searched: usize,
    pub acc: i64,
}

/// Whether the reader looked a word up when they met it.
#[derive(Clone, Copy, PartialEq, Eq, Debug, Structural)]
pub enum LearningStatus {
    NoSearch,
    Search,
}

/// `x + 1`, held at `usize::MAX`.
pub open spec fn bump(x: usize) -> usize {
    if x == usize::MAX { x } else { (x + 1) as usize }
}

/// The record after one more meeting with the word.
///
/// A look-up ends a positive streak at -1 and otherwise lowers it by one;
/// a sighting without look-up raises it by one. Counters stop at the bounds
/// of their types.
pub open spec fn next_learning(l: Learning, status: LearningStatus) -> Learning {
    match status {
        LearningStatus::Search => Learning {
            seen: bump(l.seen),
            searched: bump(l.searched),
            acc: if l.acc > 0 { -1i64 } else if l.acc == i64::MIN { l.acc } else { (l.acc - 1) as i64 },
        },
        LearningStatus::NoSearch => Learning {
            seen: bump(l.seen),
            searched: l.searched,
            acc: if l.acc == i64::MAX { l.acc } else { (l.acc + 1) as i64 },
        },
    }
}

impl Learning {
    /// A word not met yet.
    pub fn new() -> (r: Learning)
        ensures
            r == (Learning { seen: 0, searched: 0, acc: 0 }),
    {
        Learning { seen: 0, searched: 0, acc: 0 }
    }

    /// Records one more meeting with the word.
    pub fn record(&mut self, status: LearningStatus)
        ensures
            *final(self) == next_learning(*old(self), status),
    {
        self.seen = self.seen.saturating_add(1);
        match status {
            LearningStatus::Search => {
                self.searched = self.searched.saturating_add(1);
                if self.acc > 0 {
                    self.acc = -1;
                } else {
                    if self.acc > i64::MIN {
                        self.acc = self.acc - 1;
                    }
                }
            },
            LearningStatus::NoSearch => {
                if self.acc < i64::MAX {
                    self.acc = self.acc + 1;
                }
            },
        }
    }
}

impl Default for Learning {
    /// A word not met yet.
    fn default() -> (r: Learning)
        ensures
            r == (Learning { seen: 0, searched: 0, acc: 0 }),
    {
        Learning::new()
    }
}

/// A reader's record for each word of a dictionary.
pub struct UserLearning {
    words: Vec<String>,
    learnings: Vec<Learning>,
}

impl UserLearning {
    /// The words, in dictionary order.
    pub closed spec fn words_spec(&self) -> Seq<Seq<char>> {
        self.words@.map_values(|w: String| w@)
    }

    /// The record of each word.
    pub closed spec fn learnings_spec(&self) -> Seq<Learning> {
        self.learnings@
    }

    /// Each word has one record.
    pub closed spec fn wf(&self) -> bool {
        self.words@.len() == self.learnings@.len()
    }

    /// The first position of `w` among the words, if it is there.
    pub open spec fn first_index(words: Seq<Seq<char>>, w: Seq<char>) -> Option<int> {
        if exists|i: int| 0 <= i < words.len() && words[i] == w {
            Some(choose|i: int| 0 <= i < words.len() && words[i] == w && forall|k: int| 0 <= k < i ==> words[k] != w)
        } else {
            None
        }
    }

    /// The records after meeting `w` with `status`: the first record of `w`
    /// changes, if there is one; the others stay.
    pub open spec fn after(words: Seq<Seq<char>>, ls: Seq<Learning>, w: Seq<char>, status: LearningStatus) -> Seq<Learning> {
        match Self::first_index(words, w) {
            Some(i) => ls.update(i, next_learning(ls[i], status)),
            None => ls,
        }
    }

    /// The records after meeting the words of `events` in order.
    pub open spec fn after_all(words: Seq<Seq<char>>, ls: Seq<Learning>, events: Seq<(Seq<char>, LearningStatus)>) -> Seq<Learning>
        decreases events.len(),
    {
        if events.len() == 0 {
            ls
        } else {
            let prev = Self::after_all(words, ls, events.drop_last());
            Self::after(words, prev, events.last().0, events.last().1)
        }
    }

    /// A fresh record for every word of `db`.
    pub fn new(db: &WordDb) -> (r: UserLearning)
        requires
            db.wf(),
        ensures
            r.wf(),
            r.words_spec().len() == db.vocabulary(),
            forall|i: int| 0 <= i < db.vocabulary() ==> #[trigger] r.words_spec()[i] == db.word(i),
            forall|i: int|
                0 <= i < db.vocabulary() ==> #[trigger] r.learnings_spec()[i] == (Learning {
                    seen: 0,
                    searched: 0,
                    acc: 0,
                }),
    {
        let n = db.vocabulary_size();
        let mut words: Vec<String> = Vec::new();
        let mut learnings: Vec<Learning> = Vec::new();
        let mut i: usize = 0;
        while i < n
            invariant
                n == db.vocabulary(),
                db.wf(),
                i <= n,
                words@.len() == i,
                learnings@.len() == i,
                forall|k: int| 0 <= k < i ==> (#[trigger] words@[k])@ == db.word(k),
                forall|k: int| 0 <= k < i ==> #[trigger] learnings@[k] == (Learning { seen: 0, searched: 0, acc: 0 }),
            decreases n - i,
        {
            words.push(db.word_at(i));
            learnings.push(Learning::new());
            i = i + 1;
        }
        let r = UserLearning { words, learnings };
        proof {
            assert forall|k: int| 0 <= k < n implies #[trigger] r.words_spec()[k] == db.word(k) by {
                assert(r.words_spec()[k] == words@[k]@);
            }
        }
        r
    }

    /// Records that the reader met each word of `words`, with or without a
    /// look-up. Words that have no record are passed over.
    pub fn update(&mut self, words: Vec<(&String, LearningStatus)>)
        requires
            old(self).wf(),
        ensures
            final(self).wf(),
            final(self).words_spec() == old(self).words_spec(),
            final(self).learnings_spec() == Self::after_all(
                old(self).words_spec(),
                old(self).learnings_spec(),
                words@.map_values(|e: (&String, LearningStatus)| (e.0@, e.1)),
            ),
    {
        let ghost ev = words@.map_values(|e: (&String, LearningStatus)| (e.0@, e.1));
        let ghost ws = self.words_spec();
        let ghost ls0 = self.learnings_spec();
        let n = words.len();
        let mut j: usize = 0;
        while j < n
            invariant
                n == words@.len() == ev.len(),
                ev == words@.map_values(|e: (&String, LearningStatus)| (e.0@, e.1)),
                self.wf(),
                self.words_spec() == ws,
                j <= n,
                self.learnings_spec() == Self::after_all(ws, ls0, ev.take(j as int)),
            decreases n - j,
        {
            let (word, status) = words[j];
            let found = find_word(&self.words, word.as_str());
            proof {
                assert(ev.take(j + 1).drop_last() =~= ev.take(j as int));
                assert(ev.take(j + 1).last() == (word@, status));
            }
            match found {
                Some(i) => {
                    proof {
                        assert(ws[i as int] == word@);
                        assert forall|k: int| 0 <= k < i implies ws[k] != word@ by {
                            assert(ws[k] == self.words@[k]@);
                        }
                        let c = choose|x: int|
                            0 <= x < ws.len() && ws[x] == word@ && forall|k: int| 0 <= k < x ==> ws[k] != word@;
                        assert(c == i);
                        assert(Self::first_index(ws, word@) == Some(i as int));
                    }
                    let mut l = self.learnings[i];
                    l.record(status);
                    self.learnings.set(i, l);
                },
                None => {
                    proof {
                        assert forall|x: int| 0 <= x < ws.len() implies ws[x] != word@ by {
                            assert(ws[x] == self.words@[x]@);
                        }
                    }
                },
            }
            j = j + 1;
        }
        proof {
            assert(ev.take(n as int) =~= ev);
        }
    }

    /// The record of `word`, if it has one.
    pub fn learning_of(&self, word: &str) -> (r: Option<Learning>)
        requires
            self.wf(),
        ensures
            r is Some <==> Self::first_index(self.words_spec(), word@) is Some,
            r matches Some(l) ==> l == self.learnings_spec()[Self::first_index(self.words_spec(), word@)->0],
    {
        let ghost ws = self.words_spec();
        match find_word(&self.words, word) {
            Some(i) => {
                proof {
                    assert(ws[i as int] == word@);
                    assert forall|k: int| 0 <= k < i implies ws[k] != word@ by {
                        assert(ws[k] == self.words@[k]@);
                    }
                    let c = choose|x: int|
                        0 <= x < ws.len() && ws[x] == word@ && forall|k: int| 0 <= k < x ==> ws[k] != word@;
                    assert(c == i);
                }
                Some(self.learnings[i])
            },
            None => {
                proof {
                    assert forall|x: int| 0 <= x < ws.len() implies ws[x] != word@ by {
                        assert(ws[x] == self.words@[x]@);
                    }
                }
                None
            },
        }
    }
}

} // verus!
