use crate::ratio::Ratio;
use crate::text_view::TextView;
use crate::word_db::{lower_of, lowercase, split_words, word_bound, words_of, WordDb};
use vstd::prelude::*;

verus! {

/// How many of `ws` have a rank in `db`.
pub open spec fn ranked_count(db: &WordDb, ws: Seq<Seq<char>>) -> nat
    decreases ws.len(),
{
    if ws.len() == 0 {
        0
    } else {
        ranked_count(db, ws.drop_last()) + if db.rank_of(ws.last()) is Some { 1nat } else { 0nat }
    }
}

/// The sum of the ranks in `db` of the words of `ws` that have one.
pub open spec fn rank_sum(db: &WordDb, ws: Seq<Seq<char>>) -> int
    decreases ws.len(),
{
    if ws.len() == 0 {
        0
    } else {
        rank_sum(db, ws.drop_last()) + match db.rank_of(ws.last()) {
            Some(r) => r,
            None => 0,
        }
    }
}

/// The largest rank in `db` of the words of `ws` that have one; 0 if none has.
pub open spec fn rank_max(db: &WordDb, ws: Seq<Seq<char>>) -> int
    decreases ws.len(),
{
    if ws.len() == 0 {
        0
    } else {
        let m = rank_max(db, ws.drop_last());
        match db.rank_of(ws.last()) {
            Some(r) => if r > m { r } else { m },
            None => m,
        }
    }
}

/// The sum of the word counts of `bs`.
pub open spec fn sum_word_counts(bs: Seq<TextBlock>) -> int
    decreases bs.len(),
{
    if bs.len() == 0 {
        0
    } else {
        sum_word_counts(bs.drop_last()) + bs.last().word_count_spec()
    }
}

/// The sum of the whitespace-separated word counts of `bs`.
pub open spec fn sum_split_counts(bs: Seq<TextBlock>) -> int
    decreases bs.len(),
{
    if bs.len() == 0 {
        0
    } else {
        sum_split_counts(bs.drop_last()) + bs.last().split_count_spec()
    }
}

/// The sum of the total difficulties of `bs`.
pub open spec fn sum_totals(bs: Seq<TextBlock>) -> int
    decreases bs.len(),
{
    if bs.len() == 0 {
        0
    } else {
        sum_totals(bs.drop_last()) + bs.last().total_spec()
    }
}

/// The largest maximum difficulty of `bs`; 0 if there is none.
pub open spec fn max_of_maxima(bs: Seq<TextBlock>) -> int
    decreases bs.len(),
{
    if bs.len() == 0 {
        0
    } else {
        let m = max_of_maxima(bs.drop_last());
        if bs.last().max_spec() > m {
            bs.last().max_spec()
        } else {
            m
        }
    }
}

/// The sums over `bs` fit the integer types of a block.
pub open spec fn fits(bs: Seq<TextBlock>) -> bool {
    &&& sum_word_counts(bs) <= usize::MAX
    &&& sum_split_counts(bs) <= usize::MAX
    &&& sum_totals(bs) <= u128::MAX
}

/// The blocks that `bs` refers to.
pub open spec fn deref_blocks(bs: Seq<&TextBlock>) -> Seq<TextBlock> {
    bs.map_values(|b: &TextBlock| *b)
}

/// The blocks of `bs` that hold ranked words all count ranks out of `scale`.
pub open spec fn scale_agrees(bs: Seq<TextBlock>, scale: int) -> bool {
    forall|i: int| 0 <= i < bs.len() && (#[trigger] bs[i]).word_count_spec() > 0 ==> bs[i].scale_spec() == scale
}

/// Blocks that hold ranked words all count ranks out of the same number.
pub open spec fn scales_agree(bs: Seq<TextBlock>) -> bool {
    forall|i: int, j: int|
        0 <= i < bs.len() && 0 <= j < bs.len() && (#[trigger] bs[i]).word_count_spec() > 0
            && (#[trigger] bs[j]).word_count_spec() > 0 ==> bs[i].scale_spec() == bs[j].scale_spec()
}

/// A span of text with difficulty statistics.
///
/// Difficulties are frequency ranks counted out of `scale`, the vocabulary
/// size of the database they come from: a block records the sum and the
/// largest of the ranks of its words that the database knows, how many such
/// words it has, and how many whitespace-separated words it has in all.
pub struct TextBlock {
    text: TextView,
    total_difficulty: u128,
    max_difficulty: u128,
    word_count: usize,
    whitespace_split_count: usize,
    scale: u128,
}

impl TextBlock {
    /// The view that the block covers.
    pub closed spec fn view_spec(&self) -> TextView {
        self.text
    }

    /// The sum of the ranks of the ranked words.
    pub closed spec fn total_spec(&self) -> int {
        self.total_difficulty as int
    }

    /// The largest rank of a ranked word; 0 if there is none.
    pub closed spec fn max_spec(&self) -> int {
        self.max_difficulty as int
    }

    /// The number of ranked words.
    pub closed spec fn word_count_spec(&self) -> int {
        self.word_count as int
    }

    /// The number of whitespace-separated words.
    pub closed spec fn split_count_spec(&self) -> int {
        self.whitespace_split_count as int
    }

    /// The number out of which ranks are counted.
    pub closed spec fn scale_spec(&self) -> int {
        self.scale as int
    }

    /// A block with ranked words has a scale, and its ranks lie below it.
    pub closed spec fn wf(&self) -> bool {
        &&& self.text.wf()
        &&& self.word_count <= self.whitespace_split_count
        &&& self.word_count > 0 ==> self.scale > 0
        &&& self.scale < word_bound()
        &&& self.word_count > 0 ==> self.max_difficulty < self.scale
        &&& self.total_difficulty <= self.word_count * self.max_difficulty
        &&& self.word_count == 0 ==> self.total_difficulty == 0 && self.max_difficulty == 0
    }

    /// The statistics of `text` with the words `ws` ranked by `db`.
    pub open spec fn has_word_stats(&self, text: TextView, ws: Seq<Seq<char>>, db: &WordDb) -> bool {
        &&& self.view_spec().same_view(&text)
        &&& self.split_count_spec() == ws.len()
        &&& self.word_count_spec() == ranked_count(db, ws)
        &&& self.total_spec() == rank_sum(db, ws)
        &&& self.max_spec() == rank_max(db, ws)
        &&& self.scale_spec() == db.vocabulary()
    }

    /// The statistics of the lower-case words of `text`, ranked by `db`.
    pub open spec fn is_leaf_of(&self, text: TextView, db: &WordDb) -> bool {
        self.has_word_stats(text, words_of(lower_of(text.chars())), db)
    }

    /// The statistics folded from `bs`, over `text`.
    pub open spec fn is_fold_of(&self, text: TextView, bs: Seq<TextBlock>) -> bool {
        &&& self.view_spec().same_view(&text)
        &&& self.word_count_spec() == sum_word_counts(bs)
        &&& self.split_count_spec() == sum_split_counts(bs)
        &&& self.total_spec() == sum_totals(bs)
        &&& self.max_spec() == max_of_maxima(bs)
        &&& (exists|i: int| 0 <= i < bs.len() && (#[trigger] bs[i]).word_count_spec() > 0) ==> scale_agrees(
            bs,
            self.scale_spec(),
        )
    }

    /// Builds a block from the text of `text`: its lower-case form is split
    /// at whitespace, and each word is looked up in `db`.
    pub fn new(text: TextView, db: &WordDb) -> (r: TextBlock)
        requires
            text.wf(),
            db.wf(),
        ensures
            r.wf(),
            r.is_leaf_of(text, db),
    {
        let lower = lowercase(text.text());
        let words = split_words(lower.as_str());
        proof {
            assert(words@.map_values(|w: &str| w@) =~= words_of(lower_of(text.chars())));
        }
        TextBlock::from_words(text, &words, db)
    }

    /// Builds a block over `text` from its words `words`, each looked up in
    /// `db` as written.
    pub fn from_words(text: TextView, words: &Vec<&str>, db: &WordDb) -> (r: TextBlock)
        requires
            text.wf(),
            db.wf(),
        ensures
            r.wf(),
            r.has_word_stats(text, words@.map_values(|w: &str| w@), db),
    {
        let ghost ws = words@.map_values(|w: &str| w@);
        let n = words.len();
        let mut total: u128 = 0;
        let mut max: u128 = 0;
        let mut count: usize = 0;
        let mut j: usize = 0;
        let vocabulary = db.vocabulary_size();
        proof {
            db.lemma_ranks();
        }
        while j < n
            invariant
                n == words@.len() == ws.len(),
                ws == words@.map_values(|w: &str| w@),
                db.wf(),
                forall|i: int| 0 <= i < db.vocabulary() ==> 0 <= #[trigger] db.rank(i) < db.vocabulary(),
                j <= n,
                count == ranked_count(db, ws.take(j as int)),
                total == rank_sum(db, ws.take(j as int)),
                max == rank_max(db, ws.take(j as int)),
                count <= j,
                total <= j * word_bound(),
                count == 0 ==> total == 0 && max == 0,
                count > 0 ==> db.vocabulary() > 0,
                count > 0 ==> max < db.vocabulary(),
                total <= count * max,
                db.vocabulary() < word_bound(),
            decreases n - j,
        {
            let found = db.lookup(words[j]);
            proof {
                assert(ws.take(j + 1).drop_last() =~= ws.take(j as int));
                assert(ws.take(j + 1).last() == words@[j as int]@);
            }
            if let Some(i) = found {
                let rank = db.rank_at(i) as u128;
                proof {
                    assert(j * word_bound() + word_bound() < word_bound() * word_bound()) by (nonlinear_arith)
                        requires
                            j + 2 <= word_bound(),
                    ;
                    assert((j + 1) * word_bound() == j * word_bound() + word_bound()) by (nonlinear_arith);
                }
                proof {
                    let nm: int = if rank > max { rank as int } else { max as int };
                    assert(total + rank <= (count + 1) * nm) by (nonlinear_arith)
                        requires
                            total <= count * max,
                            max <= nm,
                            rank <= nm,
                            count >= 0,
                    ;
                }
                total = total + rank;
                if rank > max {
                    max = rank;
                }
                count = count + 1;
            } else {
                proof {
                    assert(j * word_bound() <= (j + 1) * word_bound()) by (nonlinear_arith);
                }
            }
            j = j + 1;
        }
        proof {
            assert(ws.take(n as int) =~= ws);
        }
        TextBlock {
            text,
            total_difficulty: total,
            max_difficulty: max,
            word_count: count,
            whitespace_split_count: n,
            scale: vocabulary as u128,
        }
    }

    /// Builds a block over `text` whose statistics are folded from
    /// `sub_blocks`: word counts and total difficulties are summed, maximum
    /// difficulties take their maximum. `text` is kept for its words only;
    /// it is not read again.
    pub fn new_with_sub_blocks(text: TextView, sub_blocks: Vec<&TextBlock>) -> (r: TextBlock)
        requires
            text.wf(),
            forall|i: int| 0 <= i < deref_blocks(sub_blocks@).len() ==> (#[trigger] deref_blocks(sub_blocks@)[i]).wf(),
            scales_agree(deref_blocks(sub_blocks@)),
            sum_word_counts(deref_blocks(sub_blocks@)) <= usize::MAX,
            sum_split_counts(deref_blocks(sub_blocks@)) <= usize::MAX,
            sum_totals(deref_blocks(sub_blocks@)) <= u128::MAX,
        ensures
            r.wf(),
            r.is_fold_of(text, deref_blocks(sub_blocks@)),
    {
        let ghost bs = deref_blocks(sub_blocks@);
        let n = sub_blocks.len();
        let mut total: u128 = 0;
        let mut max: u128 = 0;
        let mut count: usize = 0;
        let mut splits: usize = 0;
        let mut scale: u128 = 0;
        let mut j: usize = 0;
        proof {
            lemma_prefix_sums(bs, bs.len() as int);
        }
        while j < n
            invariant
                n == bs.len(),
                bs == deref_blocks(sub_blocks@),
                forall|i: int| 0 <= i < bs.len() ==> (#[trigger] bs[i]).wf(),
                scales_agree(bs),
                sum_word_counts(bs) <= usize::MAX,
                sum_split_counts(bs) <= usize::MAX,
                sum_totals(bs) <= u128::MAX,
                j <= n,
                count == sum_word_counts(bs.take(j as int)),
                splits == sum_split_counts(bs.take(j as int)),
                total == sum_totals(bs.take(j as int)),
                max == max_of_maxima(bs.take(j as int)),
                count <= splits,
                scale < word_bound(),
                count > 0 ==> scale > 0,
                count == 0 ==> total == 0 && max == 0,
                count > 0 ==> max < scale,
                total <= count * max,
                forall|i: int| 0 <= i < j && (#[trigger] bs[i]).word_count_spec() > 0 ==> bs[i].scale_spec() == scale,
            decreases n - j,
        {
            let b = sub_blocks[j];
            proof {
                assert(bs.take(j + 1).drop_last() =~= bs.take(j as int));
                assert(bs.take(j + 1).last() == *b);
                lemma_prefix_sums(bs, j + 1);
            }
            proof {
                assert(b.wf());
                let nm: int = if b.max_difficulty > max { b.max_difficulty as int } else { max as int };
                assert(total + b.total_difficulty <= (count + b.word_count) * nm) by (nonlinear_arith)
                    requires
                        total <= count * max,
                        b.total_difficulty <= b.word_count * b.max_difficulty,
                        max <= nm,
                        b.max_difficulty <= nm,
                        count >= 0,
                        b.word_count >= 0,
                ;
                if count > 0 && b.word_count > 0 {
                    lemma_some_words(bs.take(j as int));
                    let w = choose|i: int| 0 <= i < j && (#[trigger] bs.take(j as int)[i]).word_count_spec() > 0;
                    assert(bs.take(j as int)[w] == bs[w]);
                    assert(bs[j as int] == *b);
                    assert(bs[w].scale_spec() == scale);
                }
            }
            count = count + b.word_count;
            splits = splits + b.whitespace_split_count;
            total = total + b.total_difficulty;
            if b.max_difficulty > max {
                max = b.max_difficulty;
            }
            if b.word_count > 0 {
                scale = b.scale;
            }
            j = j + 1;
        }
        proof {
            assert(bs.take(n as int) =~= bs);
        }
        TextBlock {
            text,
            total_difficulty: total,
            max_difficulty: max,
            word_count: count,
            whitespace_split_count: splits,
            scale,
        }
    }

    /// Folds `sub_blocks` as `new_with_sub_blocks` does, or returns `None`
    /// where the folded counts would not fit their integer types.
    pub fn checked_fold(text: TextView, sub_blocks: Vec<&TextBlock>) -> (r: Option<TextBlock>)
        requires
            text.wf(),
            forall|i: int| 0 <= i < sub_blocks@.len() ==> (#[trigger] sub_blocks@[i]).wf(),
            scales_agree(deref_blocks(sub_blocks@)),
        ensures
            r is Some <==> fits(deref_blocks(sub_blocks@)),
            r matches Some(b) ==> b.wf() && b.is_fold_of(text, deref_blocks(sub_blocks@)),
    {
        let ghost bs = deref_blocks(sub_blocks@);
        let n = sub_blocks.len();
        let mut total: u128 = 0;
        let mut count: usize = 0;
        let mut splits: usize = 0;
        let mut j: usize = 0;
        while j < n
            invariant
                n == bs.len(),
                bs == deref_blocks(sub_blocks@),
                forall|i: int| 0 <= i < bs.len() ==> (#[trigger] bs[i]).wf(),
                j <= n,
                count == sum_word_counts(bs.take(j as int)),
                splits == sum_split_counts(bs.take(j as int)),
                total == sum_totals(bs.take(j as int)),
            decreases n - j,
        {
            let b = sub_blocks[j];
            proof {
                assert(bs.take(j + 1).drop_last() =~= bs.take(j as int));
                assert(bs.take(j + 1).last() == *b);
                lemma_prefix_sums(bs, j + 1);
            }
            if b.word_count > usize::MAX - count || b.whitespace_split_count > usize::MAX - splits
                || b.total_difficulty > u128::MAX - total {
                return None;
            }
            count = count + b.word_count;
            splits = splits + b.whitespace_split_count;
            total = total + b.total_difficulty;
            j = j + 1;
        }
        proof {
            assert(bs.take(n as int) =~= bs);
        }
        Some(TextBlock::new_with_sub_blocks(text, sub_blocks))
    }

    /// The number of words that the database knows.
    pub fn word_count(&self) -> (r: usize)
        ensures
            r == self.word_count_spec(),
    {
        self.word_count
    }

    /// The number of whitespace-separated words.
    pub fn whitespace_split_count(&self) -> (r: usize)
        ensures
            r == self.split_count_spec(),
    {
        self.whitespace_split_count
    }

    /// The sum of the difficulties of the words that the database knows.
    pub fn total_difficulty(&self) -> (r: Ratio)
        requires
            self.wf(),
        ensures
            self.word_count_spec() == 0 ==> r == (Ratio { num: 0, den: 1 }),
            self.word_count_spec() > 0 ==> r == (Ratio { num: self.total_spec() as u128, den: self.scale_spec() as u128 }),
    {
        if self.word_count == 0 {
            Ratio { num: 0, den: 1 }
        } else {
            Ratio { num: self.total_difficulty, den: self.scale }
        }
    }

    /// The largest difficulty of a word that the database knows; zero if
    /// there is none.
    pub fn max_difficulty(&self) -> (r: Ratio)
        requires
            self.wf(),
        ensures
            self.word_count_spec() == 0 ==> r == (Ratio { num: 0, den: 1 }),
            self.word_count_spec() > 0 ==> r == (Ratio { num: self.max_spec() as u128, den: self.scale_spec() as u128 }),
    {
        if self.word_count == 0 {
            Ratio { num: 0, den: 1 }
        } else {
            Ratio { num: self.max_difficulty, den: self.scale }
        }
    }

    /// The mean difficulty of the words that the database knows; undefined,
    /// and `None`, when there is none.
    pub fn average_difficulty(&self) -> (r: Option<Ratio>)
        requires
            self.wf(),
        ensures
            self.word_count_spec() == 0 ==> r is None,
            self.word_count_spec() > 0 ==> r == Some(
                (Ratio {
                    num: self.total_spec() as u128,
                    den: (self.word_count_spec() * self.scale_spec()) as u128,
                }),
            ),
    {
        if self.word_count == 0 {
            None
        } else {
            proof {
                assert(self.word_count * self.scale < word_bound() * word_bound()) by (nonlinear_arith)
                    requires
                        self.word_count < word_bound(),
                        self.scale < word_bound(),
                ;
            }
            Some(Ratio { num: self.total_difficulty, den: self.word_count as u128 * self.scale })
        }
    }

    /// The share of whitespace-separated words that the database knows;
    /// undefined, and `None`, when there are no words.
    pub fn valid_word_ratio(&self) -> (r: Option<Ratio>)
        ensures
            self.split_count_spec() == 0 ==> r is None,
            self.split_count_spec() > 0 ==> r == Some(
                (Ratio { num: self.word_count_spec() as u128, den: self.split_count_spec() as u128 }),
            ),
    {
        if self.whitespace_split_count == 0 {
            None
        } else {
            Some(Ratio { num: self.word_count as u128, den: self.whitespace_split_count as u128 })
        }
    }

    /// The text that the block covers.
    pub fn text(&self) -> (r: &str)
        requires
            self.wf(),
        ensures
            r@ == self.view_spec().chars(),
    {
        self.text.text()
    }

    /// The sum of the ranks of the ranked words.
    pub fn rank_total(&self) -> (r: u128)
        ensures
            r == self.total_spec(),
    {
        self.total_difficulty
    }

    /// The largest rank of a ranked word; 0 if there is none.
    pub fn rank_max(&self) -> (r: u128)
        ensures
            r == self.max_spec(),
    {
        self.max_difficulty
    }

    /// The number out of which ranks are counted.
    pub fn scale(&self) -> (r: u128)
        ensures
            r == self.scale_spec(),
    {
        self.scale
    }

    /// Bounds that every block keeps.
    pub proof fn lemma_bounds(&self)
        requires
            self.wf(),
        ensures
            self.view_spec().wf(),
            0 <= self.word_count_spec() <= self.split_count_spec(),
            0 <= self.scale_spec() < word_bound(),
            self.word_count_spec() > 0 ==> 0 <= self.max_spec() < self.scale_spec(),
            0 <= self.total_spec() <= self.word_count_spec() * self.max_spec(),
    {
    }

    /// The view that the block covers.
    pub fn view(&self) -> (r: &TextView)
        ensures
            *r == self.view_spec(),
    {
        &self.text
    }
}

/// Two leaf blocks of the same view and database hold the same statistics:
/// building a leaf is a function of its inputs.
pub proof fn lemma_leaf_deterministic(a: TextBlock, b: TextBlock, text: TextView, db: &WordDb)
    requires
        a.is_leaf_of(text, db),
        b.is_leaf_of(text, db),
    ensures
        a.word_count_spec() == b.word_count_spec(),
        a.split_count_spec() == b.split_count_spec(),
        a.total_spec() == b.total_spec(),
        a.max_spec() == b.max_spec(),
        a.scale_spec() == b.scale_spec(),
        a.view_spec().same_view(&b.view_spec()),
{
}

/// Blocks whose word counts add up to more than zero include one that has
/// words.
pub proof fn lemma_some_words(bs: Seq<TextBlock>)
    requires
        sum_word_counts(bs) > 0,
    ensures
        exists|i: int| 0 <= i < bs.len() && (#[trigger] bs[i]).word_count_spec() > 0,
    decreases bs.len(),
{
    if bs.last().word_count_spec() > 0 {
        assert(bs[bs.len() - 1].word_count_spec() > 0);
    } else {
        lemma_some_words(bs.drop_last());
        let i = choose|i: int| 0 <= i < bs.drop_last().len() && (#[trigger] bs.drop_last()[i]).word_count_spec() > 0;
        assert(bs[i] == bs.drop_last()[i]);
    }
}

/// The sums over a prefix of `bs` are at most the sums over `bs`.
pub proof fn lemma_prefix_sums(bs: Seq<TextBlock>, j: int)
    requires
        0 <= j <= bs.len(),
        forall|i: int| 0 <= i < bs.len() ==> (#[trigger] bs[i]).wf(),
    ensures
        sum_word_counts(bs.take(j)) <= sum_word_counts(bs),
        sum_split_counts(bs.take(j)) <= sum_split_counts(bs),
        sum_totals(bs.take(j)) <= sum_totals(bs),
        0 <= sum_word_counts(bs.take(j)),
        0 <= sum_split_counts(bs.take(j)),
        0 <= sum_totals(bs.take(j)),
    decreases bs.len(),
{
    if j == bs.len() {
        assert(bs.take(j) =~= bs);
        if bs.len() > 0 {
            lemma_prefix_sums(bs.drop_last(), j - 1);
            assert(bs.drop_last().take(j - 1) =~= bs.drop_last());
            assert(bs.last().wf());
            assert(bs[bs.len() - 1] == bs.last());
        }
    } else {
        lemma_prefix_sums(bs.drop_last(), j);
        assert(bs.drop_last().take(j) =~= bs.take(j));
        assert(bs[bs.len() - 1] == bs.last());
        assert(bs.last().wf());
    }
}
} // verus!
