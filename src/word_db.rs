use crate::ratio::Ratio;
use vstd::relations::injective_on;
use vstd::set_lib::*;
use vstd::prelude::*;
use vstd::string::StringSliceAdditionalSpecFns;
use vstd::utf8::*;

verus! {

broadcast use vstd::seq_lib::group_to_multiset_ensures;

/// The whitespace-separated words of a text, in order.
pub uninterp spec fn words_of(s: Seq<char>) -> Seq<Seq<char>>;

/// The lower-case form of a text.
pub uninterp spec fn lower_of(s: Seq<char>) -> Seq<char>;

/// Relies on `str::split_whitespace`: the words of `s`, in order.
#[verifier::external_body]
pub(crate) fn split_words(s: &str) -> (r: Vec<&str>)
    ensures
        r@.len() == words_of(s@).len(),
        forall|i: int| 0 <= i < r@.len() ==> (#[trigger] r@[i])@ == words_of(s@)[i],
{
    s.split_whitespace().collect()
}

/// Relies on `str::to_lowercase`: the lower-case form of `s`.
#[verifier::external_body]
pub(crate) fn lowercase(s: &str) -> (r: String)
    ensures
        r@ == lower_of(s@),
{
    s.to_lowercase()
}

/// Relies on `Itertools::sorted`: the same items, in ascending order.
#[verifier::external_body]
pub(crate) fn sorted_keys(v: Vec<(u128, usize)>) -> (r: Vec<(u128, usize)>)
    ensures
        r@.to_multiset() == v@.to_multiset(),
        forall|a: int, b: int| 0 <= a < b < r@.len() ==> key_le(r@[a], r@[b]),
{
    iter_tools::Itertools::sorted(v.into_iter()).collect()
}

/// The order of `(u128, usize)` pairs: by the first item, then by the second.
pub open spec fn key_le(x: (u128, usize), y: (u128, usize)) -> bool {
    x.0 < y.0 || (x.0 == y.0 && x.1 <= y.1)
}

/// How often `w` occurs in `words`.
pub open spec fn count_word(words: Seq<Seq<char>>, w: Seq<char>) -> nat
    decreases words.len(),
{
    if words.len() == 0 {
        0
    } else {
        count_word(words.drop_last(), w) + if words.last() == w { 1nat } else { 0nat }
    }
}

/// How often `w` occurs as a word in all the texts of `corpus`.
pub open spec fn corpus_count(corpus: Seq<Seq<char>>, w: Seq<char>) -> nat
    decreases corpus.len(),
{
    if corpus.len() == 0 {
        0
    } else {
        corpus_count(corpus.drop_last(), w) + count_word(words_of(corpus.last()), w)
    }
}

/// The texts of a corpus as character sequences.
pub open spec fn texts_view(corpus: Seq<String>) -> Seq<Seq<char>> {
    corpus.map_values(|s: String| s@)
}

/// No two entries of a dictionary have the same word.
pub open spec fn distinct_words(defs: Seq<(String, String)>) -> bool {
    forall|i: int, j: int| 0 <= i < j < defs.len() ==> defs[i].0@ != defs[j].0@
}

/// What the database knows of a word.
#[derive(Clone, Debug)]
pub struct WordInfo {
    pub definition: String,
    pub occurrences: u128,
    pub rank: usize,
    pub vocabulary: usize,
}

/// The difficulty policy: how a frequency rank out of a vocabulary size
/// becomes a difficulty. Here it is the rank ratio itself.
pub open spec fn difficulty_policy(rank: int, vocabulary: int) -> Ratio {
    Ratio { num: rank as u128, den: vocabulary as u128 }
}

/// Applies the difficulty policy.
pub fn rank_difficulty(rank: usize, vocabulary: usize) -> (r: Ratio)
    ensures
        r == difficulty_policy(rank as int, vocabulary as int),
{
    Ratio { num: rank as u128, den: vocabulary as u128 }
}

impl WordInfo {
    /// The difficulty of the word: its frequency rank over the vocabulary size.
    pub open spec fn difficulty_spec(&self) -> Ratio {
        difficulty_policy(self.rank as int, self.vocabulary as int)
    }

    /// The difficulty of the word: its frequency rank over the vocabulary size.
    pub fn difficulty(&self) -> (r: Ratio)
        ensures
            r == self.difficulty_spec(),
    {
        rank_difficulty(self.rank, self.vocabulary)
    }
}

/// A dictionary whose words are ranked by how often a corpus uses them.
///
/// Rank 0 goes to the most frequent word. Words that occur equally often are
/// ranked in dictionary order, so the ranking is a function of the inputs.
pub struct WordDb {
    words: Vec<String>,
    infos: Vec<WordInfo>,
}

impl WordDb {
    /// The number of words of the dictionary.
    pub closed spec fn vocabulary(&self) -> nat {
        self.words@.len()
    }

    /// The `i`-th word of the dictionary.
    pub closed spec fn word(&self, i: int) -> Seq<char> {
        self.words@[i]@
    }

    /// The definition of the `i`-th word.
    pub closed spec fn definition(&self, i: int) -> Seq<char> {
        self.infos@[i].definition@
    }

    /// How often the corpus used the `i`-th word.
    pub closed spec fn occurrences(&self, i: int) -> int {
        self.infos@[i].occurrences as int
    }

    /// The frequency rank of the `i`-th word.
    pub closed spec fn rank(&self, i: int) -> int {
        self.infos@[i].rank as int
    }

    /// Word `i` is ranked before word `j`: it is more frequent, or as
    /// frequent and earlier in the dictionary.
    pub open spec fn ranked_before(&self, i: int, j: int) -> bool {
        self.occurrences(i) > self.occurrences(j) || (self.occurrences(i) == self.occurrences(j) && i < j)
    }

    /// The index of `w` in the dictionary, if it is there.
    pub open spec fn index_of(&self, w: Seq<char>) -> Option<int> {
        if exists|i: int| 0 <= i < self.vocabulary() && self.word(i) == w {
            Some(choose|i: int| 0 <= i < self.vocabulary() && self.word(i) == w)
        } else {
            None
        }
    }

    /// The difficulty of `w`, if it is in the dictionary.
    pub open spec fn difficulty_of(&self, w: Seq<char>) -> Option<Ratio> {
        match self.index_of(w) {
            Some(i) => Some(difficulty_policy(self.rank(i), self.vocabulary() as int)),
            None => None,
        }
    }

    /// Words are distinct, and ranks number the words from 0 in the order
    /// of `ranked_before`.
    pub closed spec fn wf(&self) -> bool {
        &&& self.words@.len() == self.infos@.len()
        &&& forall|i: int, j: int| 0 <= i < j < self.vocabulary() ==> self.word(i) != self.word(j)
        &&& forall|i: int| 0 <= i < self.vocabulary() ==> self.infos@[i].vocabulary == self.vocabulary()
        &&& forall|i: int| 0 <= i < self.vocabulary() ==> 0 <= #[trigger] self.rank(i) < self.vocabulary()
        &&& forall|i: int, j: int|
            0 <= i < self.vocabulary() && 0 <= j < self.vocabulary() && i != j ==> (self.rank(i) < self.rank(j)
                <==> self.ranked_before(i, j))
    }

    /// Builds the database from a dictionary and a training corpus.
    ///
    /// Each word of the dictionary is counted as a whitespace-separated word
    /// of the corpus texts, as written; other words of the corpus are not
    /// counted. Words are then ranked by descending count, equal counts in
    /// dictionary order, and a word's difficulty is its rank over the
    /// vocabulary size.
    pub fn load(definitions: &Vec<(String, String)>, corpus: &Vec<String>) -> (r: WordDb)
        requires
            distinct_words(definitions@),
        ensures
            r.built_from(definitions@, corpus@),
    {
        let n = definitions.len();
        let ghost texts = texts_view(corpus@);
        let mut words: Vec<String> = Vec::new();
        let mut occ: Vec<u128> = Vec::new();
        let mut i: usize = 0;
        while i < n
            invariant
                n == definitions@.len(),
                i <= n,
                words@.len() == i,
                occ@.len() == i,
                forall|k: int| 0 <= k < i ==> (#[trigger] words@[k])@ == definitions@[k].0@,
                forall|k: int| 0 <= k < i ==> #[trigger] occ@[k] == 0,
            decreases n - i,
        {
            words.push(definitions[i].0.clone());
            occ.push(0);
            i = i + 1;
        }
        let m = corpus.len();
        let mut t: usize = 0;
        while t < m
            invariant
                n == definitions@.len() == words@.len() == occ@.len(),
                m == corpus@.len(),
                texts == texts_view(corpus@),
                distinct_words(definitions@),
                t <= m,
                forall|k: int| 0 <= k < n ==> (#[trigger] words@[k])@ == definitions@[k].0@,
                forall|k: int|
                    0 <= k < n ==> #[trigger] occ@[k] == corpus_count(texts.take(t as int), words@[k]@),
                forall|k: int| 0 <= k < n ==> #[trigger] occ@[k] <= t * word_bound(),
            decreases m - t,
        {
            let tokens = split_words(corpus[t].as_str());
            let ghost ws = words_of(corpus@[t as int]@);
            let mut j: usize = 0;
            while j < tokens.len()
                invariant
                    n == definitions@.len() == words@.len() == occ@.len(),
                    m == corpus@.len(),
                    t < m,
                    distinct_words(definitions@),
                    tokens@.len() == ws.len(),
                    forall|q: int| 0 <= q < tokens@.len() ==> (#[trigger] tokens@[q])@ == ws[q],
                    j <= tokens@.len(),
                    forall|k: int| 0 <= k < n ==> (#[trigger] words@[k])@ == definitions@[k].0@,
                    forall|k: int|
                        0 <= k < n ==> #[trigger] occ@[k] == corpus_count(texts.take(t as int), words@[k]@)
                            + count_word(ws.take(j as int), words@[k]@),
                    forall|k: int| 0 <= k < n ==> #[trigger] occ@[k] <= t * word_bound() + j,
                decreases tokens@.len() - j,
            {
                let found = find_word(&words, tokens[j]);
                proof {
                    assert(ws.take(j + 1).drop_last() =~= ws.take(j as int));
                    assert(t * word_bound() + j + 1 < word_bound() * word_bound() - 1) by (nonlinear_arith)
                        requires
                            t + 2 <= word_bound(),
                            j + 1 <= word_bound(),
                    ;
                }
                if let Some(k) = found {
                    let c = occ[k] + 1;
                    occ.set(k, c);
                    proof {
                        assert forall|x: int| 0 <= x < n && x != k implies words@[x]@ != ws[j as int] by {
                            if x < k {
                                assert(definitions@[x].0@ != definitions@[k as int].0@);
                            } else {
                                assert(definitions@[k as int].0@ != definitions@[x].0@);
                            }
                        }
                    }
                }
                j = j + 1;
            }
            proof {
                assert(ws.take(tokens@.len() as int) =~= ws);
                assert(texts.take(t + 1).drop_last() =~= texts.take(t as int));
                assert(texts.take(t + 1).last() == corpus@[t as int]@);
                assert(t * word_bound() + tokens@.len() <= (t + 1) * word_bound()) by (nonlinear_arith)
                    requires
                        tokens@.len() <= word_bound(),
                ;
            }
            t = t + 1;
        }
        proof {
            assert(texts.take(m as int) =~= texts);
        }
        let ranks = rank_by_count(&occ);
        let mut infos: Vec<WordInfo> = Vec::new();
        let mut i: usize = 0;
        while i < n
            invariant
                n == definitions@.len() == words@.len() == occ@.len() == ranks@.len(),
                i <= n,
                infos@.len() == i,
                forall|k: int|
                    0 <= k < i ==> {
                        &&& (#[trigger] infos@[k]).definition@ == definitions@[k].1@
                        &&& infos@[k].occurrences == occ@[k]
                        &&& infos@[k].rank == ranks@[k]
                        &&& infos@[k].vocabulary == n
                    },
            decreases n - i,
        {
            infos.push(
                WordInfo {
                    definition: definitions[i].1.clone(),
                    occurrences: occ[i],
                    rank: ranks[i],
                    vocabulary: n,
                },
            );
            i = i + 1;
        }
        let r = WordDb { words, infos };
        proof {
            assert forall|a: int, b: int| 0 <= a < b < r.vocabulary() implies r.word(a) != r.word(b) by {
                assert(definitions@[a].0@ != definitions@[b].0@);
            }
            assert forall|a: int| 0 <= a < r.vocabulary() implies 0 <= #[trigger] r.rank(a) < r.vocabulary() by {
                assert(infos@[a].rank == ranks@[a]);
            }
        }
        r
    }

    /// The database holds the words and definitions of `definitions` in
    /// order, with each word counted in `corpus`, and is well formed.
    pub open spec fn built_from(&self, definitions: Seq<(String, String)>, corpus: Seq<String>) -> bool {
        &&& self.wf()
        &&& self.vocabulary() == definitions.len()
        &&& forall|i: int|
            0 <= i < definitions.len() ==> {
                &&& #[trigger] self.word(i) == definitions[i].0@
                &&& self.definition(i) == definitions[i].1@
                &&& self.occurrences(i) == corpus_count(texts_view(corpus), definitions[i].0@)
            }
    }

    /// The frequency rank of `w`, if it is in the dictionary.
    pub open spec fn rank_of(&self, w: Seq<char>) -> Option<int> {
        match self.index_of(w) {
            Some(i) => Some(self.rank(i)),
            None => None,
        }
    }

    /// The number of words of the dictionary.
    pub fn vocabulary_size(&self) -> (r: usize)
        ensures
            r == self.vocabulary(),
    {
        self.words.len()
    }

    /// The `i`-th word of the dictionary.
    pub fn word_at(&self, i: usize) -> (r: String)
        requires
            i < self.vocabulary(),
        ensures
            r@ == self.word(i as int),
    {
        self.words[i].clone()
    }

    /// How often the corpus used the `i`-th word.
    pub fn occurrences_at(&self, i: usize) -> (r: u128)
        requires
            self.wf(),
            i < self.vocabulary(),
        ensures
            r == self.occurrences(i as int),
    {
        self.infos[i].occurrences
    }

    /// The frequency rank of the `i`-th word.
    pub fn rank_at(&self, i: usize) -> (r: usize)
        requires
            self.wf(),
            i < self.vocabulary(),
        ensures
            r == self.rank(i as int),
    {
        self.infos[i].rank
    }

    /// Ranks are below the vocabulary size, and each word has its own.
    pub proof fn lemma_ranks(&self)
        requires
            self.wf(),
        ensures
            forall|i: int| 0 <= i < self.vocabulary() ==> 0 <= #[trigger] self.rank(i) < self.vocabulary(),
            forall|i: int, j: int|
                0 <= i < self.vocabulary() && 0 <= j < self.vocabulary() && i != j ==> (self.rank(i) < self.rank(j)
                    <==> self.ranked_before(i, j)),
    {
    }

    /// The index of `w` in the dictionary, if it is there.
    pub fn lookup(&self, w: &str) -> (r: Option<usize>)
        requires
            self.wf(),
        ensures
            r matches Some(i) ==> self.index_of(w@) == Some(i as int) && i < self.vocabulary(),
            r is None ==> self.index_of(w@) is None,
    {
        let r = find_word(&self.words, w);
        proof {
            if let Some(i) = r {
                let c = choose|k: int| 0 <= k < self.vocabulary() && self.word(k) == w@;
                assert(self.word(i as int) == w@);
                assert(c == i);
            }
        }
        r
    }

    /// The definition of `word`, if it is in the dictionary.
    pub fn define(&self, word: &str) -> (r: Option<&str>)
        requires
            self.wf(),
        ensures
            r is Some <==> self.index_of(word@) is Some,
            r matches Some(d) ==> d@ == self.definition(self.index_of(word@)->0),
    {
        match self.lookup(word) {
            Some(i) => Some(self.infos[i].definition.as_str()),
            None => None,
        }
    }

    /// The difficulty of `word` in its lower-case form, if that is in the
    /// dictionary: its rank over the vocabulary size.
    pub fn difficulty(&self, word: &str) -> (r: Option<Ratio>)
        requires
            self.wf(),
        ensures
            r == self.difficulty_of(lower_of(word@)),
    {
        let lower = lowercase(word);
        self.difficulty_exact(lower.as_str())
    }

    /// The lower-case words of `s`, each with its difficulty if it is in
    /// the dictionary, in order.
    pub fn annotate(&self, s: &str) -> (r: Vec<(String, Option<Ratio>)>)
        requires
            self.wf(),
        ensures
            r@.len() == words_of(lower_of(s@)).len(),
            forall|i: int|
                0 <= i < r@.len() ==> (#[trigger] r@[i]).0@ == words_of(lower_of(s@))[i] && r@[i].1
                    == self.difficulty_of(words_of(lower_of(s@))[i]),
    {
        let lower = lowercase(s);
        let words = split_words(lower.as_str());
        let ghost ws = words_of(lower_of(s@));
        let mut out: Vec<(String, Option<Ratio>)> = Vec::new();
        let mut i: usize = 0;
        while i < words.len()
            invariant
                self.wf(),
                words@.len() == ws.len(),
                forall|q: int| 0 <= q < words@.len() ==> (#[trigger] words@[q])@ == ws[q],
                i <= words@.len(),
                out@.len() == i,
                forall|q: int|
                    0 <= q < i ==> (#[trigger] out@[q]).0@ == ws[q] && out@[q].1 == self.difficulty_of(ws[q]),
            decreases words@.len() - i,
        {
            let d = self.difficulty_exact(words[i]);
            out.push((words[i].to_owned(), d));
            i = i + 1;
        }
        out
    }

    /// The difficulty of `word` as it is written, if it is in the dictionary.
    pub fn difficulty_exact(&self, word: &str) -> (r: Option<Ratio>)
        requires
            self.wf(),
        ensures
            r == self.difficulty_of(word@),
    {
        match self.lookup(word) {
            Some(i) => Some(rank_difficulty(self.rank_at(i), self.vocabulary_size())),
            None => None,
        }
    }
}

/// The words ranked before word `i`.
pub open spec fn ranked_before_set(db: &WordDb, i: int) -> Set<int> {
    set_int_range(0, db.vocabulary() as int).filter(|j: int| db.ranked_before(j, i))
}

/// The rank of a word is the number of words ranked before it.
pub proof fn lemma_rank_counts(db: &WordDb, i: int)
    requires
        db.wf(),
        0 <= i < db.vocabulary(),
    ensures
        db.rank(i) == ranked_before_set(db, i).len(),
{
    db.lemma_ranks();
    let n = db.vocabulary() as int;
    let r = db.rank(i);
    let all = set_int_range(0, n);
    let rk = |j: int| db.rank(j);
    let below = all.filter(|j: int| db.rank(j) < r);
    let above = all.filter(|j: int| db.rank(j) > r);
    lemma_int_range(0, n);
    lemma_int_range(0, r);
    lemma_int_range(r + 1, n);
    assert(injective_on(rk, all)) by {
        assert forall|x: int, y: int| all.contains(x) && all.contains(y) && #[trigger] rk(x) == #[trigger] rk(y) implies x == y by {
            if x != y {
                assert(db.rank(x) < db.rank(y) <==> db.ranked_before(x, y));
                assert(db.rank(y) < db.rank(x) <==> db.ranked_before(y, x));
            }
        }
    }
    assert(below.subset_of(all));
    assert(above.subset_of(all));
    lemma_len_subset(below, all);
    lemma_len_subset(above, all);
    lemma_map_size(below, below.map(rk), rk);
    lemma_map_size(above, above.map(rk), rk);
    assert(below.map(rk).subset_of(set_int_range(0, r)));
    assert(above.map(rk).subset_of(set_int_range(r + 1, n)));
    lemma_len_subset(below.map(rk), set_int_range(0, r));
    lemma_len_subset(above.map(rk), set_int_range(r + 1, n));
    let me = Set::<int>::empty().insert(i);
    assert(below + above + me =~= all) by {
        assert forall|j: int| all.contains(j) && j != i implies db.rank(j) != r by {
            assert(rk(j) == rk(i) ==> j == i);
        }
    }
    lemma_set_disjoint_lens(below, above);
    lemma_set_disjoint_lens(below + above, me);
    assert(below =~= ranked_before_set(db, i)) by {
        assert forall|j: int| all.contains(j) implies (db.rank(j) < r <==> db.ranked_before(j, i)) by {
            if j == i {
            } else {
                assert(db.rank(j) < db.rank(i) <==> db.ranked_before(j, i));
            }
        }
    }
}

/// Ranks are a function of the counts: two databases with the same counts
/// for the same number of words rank every word alike, equal counts
/// included.
pub proof fn lemma_ranks_deterministic(a: &WordDb, b: &WordDb)
    requires
        a.wf(),
        b.wf(),
        a.vocabulary() == b.vocabulary(),
        forall|i: int| 0 <= i < a.vocabulary() ==> #[trigger] a.occurrences(i) == b.occurrences(i),
    ensures
        forall|i: int| 0 <= i < a.vocabulary() ==> #[trigger] a.rank(i) == b.rank(i),
{
    assert forall|i: int| 0 <= i < a.vocabulary() implies #[trigger] a.rank(i) == b.rank(i) by {
        lemma_rank_counts(a, i);
        lemma_rank_counts(b, i);
        assert(ranked_before_set(a, i) =~= ranked_before_set(b, i)) by {
            assert forall|j: int| 0 <= j < a.vocabulary() implies (a.ranked_before(j, i) <==> b.ranked_before(j, i)) by {
                assert(a.occurrences(j) == b.occurrences(j));
                assert(a.occurrences(i) == b.occurrences(i));
            }
        }
    }
}

/// Two databases built from the same dictionary and corpus give every word
/// the same rank and the same difficulty.
pub proof fn lemma_load_deterministic(
    a: &WordDb,
    b: &WordDb,
    definitions: Seq<(String, String)>,
    corpus: Seq<String>,
)
    requires
        a.built_from(definitions, corpus),
        b.built_from(definitions, corpus),
    ensures
        forall|i: int| 0 <= i < a.vocabulary() ==> #[trigger] a.rank(i) == b.rank(i),
        forall|w: Seq<char>| #[trigger] a.difficulty_of(w) == b.difficulty_of(w),
{
    assert forall|i: int| 0 <= i < a.vocabulary() implies #[trigger] a.occurrences(i) == b.occurrences(i) by {
        assert(a.word(i) == definitions[i].0@);
        assert(b.word(i) == definitions[i].0@);
    }
    lemma_ranks_deterministic(a, b);
    assert forall|w: Seq<char>| #[trigger] a.difficulty_of(w) == b.difficulty_of(w) by {
        assert forall|i: int| 0 <= i < a.vocabulary() implies a.word(i) == b.word(i) by {
            assert(a.word(i) == definitions[i].0@);
            assert(b.word(i) == definitions[i].0@);
        }
        if a.index_of(w) is Some {
            let i = a.index_of(w)->0;
            assert(b.word(i) == w);
            let j = b.index_of(w)->0;
            assert(a.word(j) == w);
        } else if b.index_of(w) is Some {
            let j = b.index_of(w)->0;
            assert(a.word(j) == w);
        }
    }
}

/// More than the number of words in any one text.
pub open spec fn word_bound() -> int {
    0x1_0000_0000_0000_0000
}

/// Numbers the positions of `counts` from 0: by descending count, and equal
/// counts by position.
pub fn rank_by_count(counts: &Vec<u128>) -> (r: Vec<usize>)
    ensures
        r@.len() == counts@.len(),
        forall|i: int| 0 <= i < r@.len() ==> #[trigger] r@[i] < r@.len(),
        forall|i: int, j: int|
            0 <= i < r@.len() && 0 <= j < r@.len() && i != j ==> (r@[i] < r@[j] <==> (counts@[i] > counts@[j]
                || (counts@[i] == counts@[j] && i < j))),
{
    let n = counts.len();
    let mut keys: Vec<(u128, usize)> = Vec::new();
    let mut i: usize = 0;
    while i < n
        invariant
            n == counts@.len(),
            i <= n,
            keys@.len() == i,
            forall|k: int| 0 <= k < i ==> #[trigger] keys@[k] == ((u128::MAX - counts@[k]) as u128, k as usize),
        decreases n - i,
    {
        keys.push((u128::MAX - counts[i], i));
        i = i + 1;
    }
    let ghost kv = keys@;
    proof {
        assert(kv.no_duplicates()) by {
            assert forall|a: int, b: int| 0 <= a < kv.len() && 0 <= b < kv.len() && a != b implies kv[a] != kv[b] by {
                assert(kv[a].1 == a && kv[b].1 == b);
            }
        }
        kv.lemma_multiset_has_no_duplicates();
    }
    let sorted = sorted_keys(keys);
    let ghost sv = sorted@;
    proof {
        sv.lemma_multiset_has_no_duplicates_conv();
        assert(sv.len() == kv.len()) by {
            assert(sv.to_multiset().len() == kv.to_multiset().len());
        }
        assert forall|p: int| 0 <= p < sv.len() implies #[trigger] sv[p].1 < n && sv[p] == kv[sv[p].1 as int] by {
            assert(sv.contains(sv[p]));
            assert(sv.to_multiset().count(sv[p]) > 0);
            assert(kv.contains(sv[p]));
        }
    }
    let mut ranks: Vec<usize> = Vec::new();
    let mut i: usize = 0;
    while i < n
        invariant
            n == counts@.len(),
            i <= n,
            ranks@.len() == i,
            forall|k: int| 0 <= k < i ==> #[trigger] ranks@[k] == 0,
        decreases n - i,
    {
        ranks.push(0);
        i = i + 1;
    }
    let mut p: usize = 0;
    while p < n
        invariant
            n == counts@.len() == sv.len() == ranks@.len(),
            sorted@ == sv,
            sv.no_duplicates(),
            forall|q: int| 0 <= q < sv.len() ==> #[trigger] sv[q].1 < n && sv[q] == kv[sv[q].1 as int],
            forall|k: int| 0 <= k < n ==> #[trigger] kv[k] == ((u128::MAX - counts@[k]) as u128, k as usize),
            p <= n,
            forall|q: int| 0 <= q < p ==> ranks@[#[trigger] sv[q].1 as int] == q,
        decreases n - p,
    {
        let idx = sorted[p].1;
        proof {
            assert forall|q: int| 0 <= q < p implies #[trigger] sv[q].1 != idx by {
                assert(sv[q] != sv[p as int]);
            }
        }
        ranks.set(idx, p);
        p = p + 1;
    }
    proof {
        assert forall|i: int| 0 <= i < n implies exists|q: int| 0 <= q < n && #[trigger] sv[q] == #[trigger] kv[i] by {
            assert(kv.contains(kv[i]));
            assert(kv.to_multiset().count(kv[i]) > 0);
            assert(sv.contains(kv[i]));
        }
        assert forall|i: int| 0 <= i < n implies sv[ranks@[i] as int] == kv[i] && #[trigger] ranks@[i] < n by {
            let q = choose|q: int| 0 <= q < n && #[trigger] sv[q] == kv[i];
            assert(sv[q].1 == i);
            assert(ranks@[sv[q].1 as int] == q);
        }
        assert forall|i: int, j: int| 0 <= i < n && 0 <= j < n && i != j implies (ranks@[i] < ranks@[j] <==> (
        counts@[i] > counts@[j] || (counts@[i] == counts@[j] && i < j))) by {
            let a = ranks@[i] as int;
            let b = ranks@[j] as int;
            assert(sv[a] == kv[i]);
            assert(sv[b] == kv[j]);
            if a < b {
                assert(key_le(sv[a], sv[b]));
            } else if b < a {
                assert(key_le(sv[b], sv[a]));
            }
        }
    }
    ranks
}

/// The position of `w` in `words`, if it is there; the first one if it is
/// there more than once.
pub fn find_word(words: &Vec<String>, w: &str) -> (r: Option<usize>)
    ensures
        r matches Some(i) ==> i < words@.len() && words@[i as int]@ == w@ && forall|k: int|
            0 <= k < i ==> words@[k]@ != w@,
        r is None ==> forall|k: int| 0 <= k < words@.len() ==> words@[k]@ != w@,
{
    let n = words.len();
    let mut i: usize = 0;
    while i < n
        invariant
            n == words@.len(),
            i <= n,
            forall|k: int| 0 <= k < i ==> words@[k]@ != w@,
        decreases n - i,
    {
        if same_text(words[i].as_str(), w) {
            return Some(i);
        }
        i = i + 1;
    }
    None
}

/// Whether two texts are the same.
pub fn same_text(a: &str, b: &str) -> (r: bool)
    ensures
        r == (a@ == b@),
{
    let x = a.as_bytes();
    let y = b.as_bytes();
    proof {
        encode_utf8_decode_utf8(a@);
        encode_utf8_decode_utf8(b@);
    }
    if x.len() != y.len() {
        return false;
    }
    let mut i: usize = 0;
    while i < x.len()
        invariant
            x@.len() == y@.len(),
            x@ == a.spec_bytes(),
            y@ == b.spec_bytes(),
            i <= x@.len(),
            forall|k: int| 0 <= k < i ==> x@[k] == y@[k],
        decreases x@.len() - i,
    {
        if x[i] != y[i] {
            return false;
        }
        i = i + 1;
    }
    assert(x@ =~= y@);
    true
}

} // verus!
