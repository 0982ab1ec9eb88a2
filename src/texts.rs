use crate::text_block::{deref_blocks, fits, lemma_some_words, TextBlock};
use crate::text_view::{split_spans, split_text_ref, TextView};
use crate::ratio::Ratio;
use crate::word_db::{word_bound, WordDb};
use vstd::prelude::*;
use vstd::string::StringSliceAdditionalSpecFns;

verus! {

broadcast use vstd::seq_lib::group_to_multiset_ensures;

/// The delimiter bytes between sentences: a full stop.
pub open spec fn sentence_delimiter() -> Seq<u8> {
    seq![46u8]
}

/// The delimiter bytes between paragraphs: a line feed.
pub open spec fn paragraph_delimiter() -> Seq<u8> {
    seq![10u8]
}

/// The line-feed bytes that must have passed before a paragraph is cut.
pub const PARAGRAPH_MIN_BYTES: usize = 100;

/// The `k`-th view of `views` is the `k`-th span of `spans` within `text`.
pub open spec fn views_at_spans(views: Seq<TextView>, text: TextView, spans: Seq<(int, int)>) -> bool {
    &&& views.len() == spans.len()
    &&& forall|k: int|
        0 <= k < views.len() ==> {
            &&& (#[trigger] views[k]).wf()
            &&& views[k].shares_buffer(&text)
            &&& views[k].lo() == text.lo() + spans[k].0
            &&& views[k].hi() == text.lo() + spans[k].1
        }
}

/// The views of the blocks of `bs`.
pub open spec fn views_of(bs: Seq<TextBlock>) -> Seq<TextView> {
    bs.map_values(|b: TextBlock| b.view_spec())
}

/// Each block of `bs` is the leaf block of its own view.
pub open spec fn all_leaves(bs: Seq<TextBlock>, db: &WordDb) -> bool {
    forall|k: int| 0 <= k < bs.len() ==> (#[trigger] bs[k]).wf() && bs[k].is_leaf_of(bs[k].view_spec(), db)
}

/// The sentence blocks of `text`: one leaf block for each span that cutting
/// at every full stop yields.
pub open spec fn are_sentences_of(bs: Seq<TextBlock>, text: TextView, db: &WordDb) -> bool {
    &&& views_at_spans(views_of(bs), text, split_spans(text.bytes(), sentence_delimiter(), 0))
    &&& all_leaves(bs, db)
}

/// A paragraph: a block over its text, folded from one block per sentence.
pub struct Paragraph {
    text_block: TextBlock,
    sentences: Vec<TextBlock>,
}

impl Paragraph {
    /// The block of the whole paragraph.
    pub closed spec fn block(&self) -> TextBlock {
        self.text_block
    }

    /// The blocks of the sentences, in order.
    pub closed spec fn sentences_spec(&self) -> Seq<TextBlock> {
        self.sentences@
    }

    /// The paragraph of `text`: its sentences, and its block folded from them.
    pub open spec fn is_paragraph_of(&self, text: TextView, db: &WordDb) -> bool {
        &&& are_sentences_of(self.sentences_spec(), text, db)
        &&& self.block().wf()
        &&& self.block().is_fold_of(text, self.sentences_spec())
    }

    /// Splits `text` into sentences, builds a leaf block for each, and folds
    /// them into a block for the paragraph; `None` where the folded counts
    /// would not fit their integer types.
    pub fn new(text: TextView, db: &WordDb) -> (r: Option<Paragraph>)
        requires
            text.wf(),
            db.wf(),
        ensures
            r matches Some(p) ==> p.is_paragraph_of(text, db),
            r is None ==> exists|bs: Seq<TextBlock>| are_sentences_of(bs, text, db) && !fits(bs),
    {
        let pieces = split_text_ref(&text, ".", 0);
        proof {
            reveal_strlit(".");
            vstd::utf8::is_ascii_chars_encode_utf8(".".view());
            assert(".".spec_bytes() =~= sentence_delimiter());
            assert forall|q: int| 0 <= q < pieces@.len() implies {
                &&& (#[trigger] pieces@[q]).wf()
                &&& pieces@[q].shares_buffer(&text)
                &&& pieces@[q].lo() == text.lo() + split_spans(text.bytes(), sentence_delimiter(), 0)[q].0
                &&& pieces@[q].hi() == text.lo() + split_spans(text.bytes(), sentence_delimiter(), 0)[q].1
            } by {
            }
        }
        let ghost spans = split_spans(text.bytes(), sentence_delimiter(), 0);
        let n = pieces.len();
        let mut sentences: Vec<TextBlock> = Vec::new();
        let mut k: usize = 0;
        while k < n
            invariant
                n == pieces@.len(),
                db.wf(),
                views_at_spans(pieces@, text, spans),
                k <= n,
                sentences@.len() == k,
                forall|q: int| 0 <= q < n ==> (#[trigger] pieces@[q]).wf(),
                forall|q: int|
                    0 <= q < k ==> (#[trigger] sentences@[q]).wf() && sentences@[q].is_leaf_of(sentences@[q].view_spec(), db)
                        && sentences@[q].view_spec().same_view(&pieces@[q]) && sentences@[q].view_spec().wf(),
            decreases n - k,
        {
            let piece = pieces[k].share();
            let b = TextBlock::new(piece, db);
            proof {
                b.view_spec().lemma_same_view(&pieces@[k as int]);
            }
            sentences.push(b);
            k = k + 1;
        }
        let mut refs: Vec<&TextBlock> = Vec::new();
        let mut k: usize = 0;
        while k < n
            invariant
                n == sentences@.len() == pieces@.len(),
                views_at_spans(pieces@, text, spans),
                forall|q: int|
                    0 <= q < n ==> (#[trigger] sentences@[q]).wf() && sentences@[q].is_leaf_of(sentences@[q].view_spec(), db)
                        && sentences@[q].view_spec().same_view(&pieces@[q]) && sentences@[q].view_spec().wf(),
                k <= n,
                refs@.len() == k,
                forall|q: int| 0 <= q < k ==> *(#[trigger] refs@[q]) == sentences@[q],
            decreases n - k,
        {
            refs.push(&sentences[k]);
            k = k + 1;
        }
        proof {
            assert(deref_blocks(refs@) =~= sentences@);
            assert(are_sentences_of(sentences@, text, db)) by {
                assert forall|q: int| 0 <= q < n implies {
                    &&& (#[trigger] views_of(sentences@)[q]).wf()
                    &&& views_of(sentences@)[q].shares_buffer(&text)
                    &&& views_of(sentences@)[q].lo() == text.lo() + spans[q].0
                    &&& views_of(sentences@)[q].hi() == text.lo() + spans[q].1
                } by {
                    assert(views_of(sentences@)[q] == sentences@[q].view_spec());
                    assert(sentences@[q].view_spec().same_view(&pieces@[q]));
                }
            }
        }
        match TextBlock::checked_fold(text, refs) {
            Some(text_block) => Some(Paragraph { text_block, sentences }),
            None => None,
        }
    }

    /// The block of the whole paragraph.
    pub fn text_block(&self) -> (r: &TextBlock)
        ensures
            *r == self.block(),
    {
        &self.text_block
    }

    /// The blocks of the sentences, in order.
    pub fn sentences(&self) -> (r: &Vec<TextBlock>)
        ensures
            r@ == self.sentences_spec(),
    {
        &self.sentences
    }
}

/// The blocks of the paragraphs of `ps`.
pub open spec fn blocks_of(ps: Seq<Paragraph>) -> Seq<TextBlock> {
    ps.map_values(|p: Paragraph| p.block())
}

/// The paragraphs of `text`: one for each span that cutting at line feeds,
/// once more than `PARAGRAPH_MIN_BYTES` of them have passed, yields.
pub open spec fn are_paragraphs_of(ps: Seq<Paragraph>, text: TextView, db: &WordDb) -> bool {
    &&& views_at_spans(
        views_of(blocks_of(ps)),
        text,
        split_spans(text.bytes(), paragraph_delimiter(), PARAGRAPH_MIN_BYTES as int),
    )
    &&& forall|k: int| 0 <= k < ps.len() ==> (#[trigger] ps[k]).is_paragraph_of(ps[k].block().view_spec(), db)
}

/// Building the paragraphs of `text` or their fold would overflow a count.
pub open spec fn overflows(text: TextView, db: &WordDb) -> bool {
    let spans = split_spans(text.bytes(), paragraph_delimiter(), PARAGRAPH_MIN_BYTES as int);
    ||| exists|k: int, v: TextView, bs: Seq<TextBlock>|
        0 <= k < spans.len() && v.wf() && v.shares_buffer(&text) && v.lo() == text.lo() + spans[k].0 && v.hi()
            == text.lo() + spans[k].1 && are_sentences_of(bs, v, db) && !fits(bs)
    ||| exists|ps: Seq<Paragraph>| are_paragraphs_of(ps, text, db) && !fits(blocks_of(ps))
}

/// A paragraph block that holds ranked words counts ranks out of the
/// vocabulary size of the database.
pub proof fn lemma_paragraph_scale(p: Paragraph, v: TextView, db: &WordDb)
    requires
        p.is_paragraph_of(v, db),
        p.block().word_count_spec() > 0,
    ensures
        p.block().scale_spec() == db.vocabulary(),
{
    let bs = p.sentences_spec();
    lemma_some_words(bs);
    let i = choose|i: int| 0 <= i < bs.len() && (#[trigger] bs[i]).word_count_spec() > 0;
    assert(bs[i].is_leaf_of(bs[i].view_spec(), db));
}

/// A named document: a block over its whole text, folded from its paragraphs.
pub struct Text {
    name: String,
    text_block: TextBlock,
    paragraphs: Vec<Paragraph>,
}

impl Text {
    /// The name of the document.
    pub closed spec fn name_spec(&self) -> Seq<char> {
        self.name@
    }

    /// The block of the whole document.
    pub closed spec fn block(&self) -> TextBlock {
        self.text_block
    }

    /// The paragraphs, in order.
    pub closed spec fn paragraphs_spec(&self) -> Seq<Paragraph> {
        self.paragraphs@
    }

    /// The document named `name` over `content`: paragraphs and their
    /// block folded from them, over a view of all of `content`.
    pub open spec fn is_text_of(&self, name: Seq<char>, content: Seq<char>, db: &WordDb) -> bool {
        &&& self.name_spec() == name
        &&& self.block().wf()
        &&& self.block().view_spec().chars() == content
        &&& self.block().view_spec().lo() == 0
        &&& self.block().view_spec().hi() == self.block().view_spec().buffer_bytes().len()
        &&& are_paragraphs_of(self.paragraphs_spec(), self.block().view_spec(), db)
        &&& self.block().is_fold_of(self.block().view_spec(), blocks_of(self.paragraphs_spec()))
    }

    /// Builds the tree of a document: paragraphs cut at line feeds, sentences
    /// cut at full stops, a leaf block for each sentence, and blocks folded
    /// from them for each paragraph and for the document. `None` where a
    /// folded count would not fit its integer type.
    pub fn new(name: String, content: String, db: &WordDb) -> (r: Option<Text>)
        requires
            db.wf(),
        ensures
            r matches Some(t) ==> t.is_text_of(name@, content@, db),
            r is None ==> exists|v: TextView| v.wf() && v.chars() == content@ && overflows(v, db),
    {
        let ghost c = content@;
        let text = TextView::new(content);
        let pieces = split_text_ref(&text, "\n", PARAGRAPH_MIN_BYTES);
        let ghost spans = split_spans(text.bytes(), paragraph_delimiter(), PARAGRAPH_MIN_BYTES as int);
        proof {
            reveal_strlit("\n");
            vstd::utf8::is_ascii_chars_encode_utf8("\n".view());
            assert("\n".spec_bytes() =~= paragraph_delimiter());
            assert forall|q: int| 0 <= q < pieces@.len() implies {
                &&& (#[trigger] pieces@[q]).wf()
                &&& pieces@[q].shares_buffer(&text)
                &&& pieces@[q].lo() == text.lo() + spans[q].0
                &&& pieces@[q].hi() == text.lo() + spans[q].1
            } by {
            }
        }
        let n = pieces.len();
        let mut paragraphs: Vec<Paragraph> = Vec::new();
        let mut k: usize = 0;
        while k < n
            invariant
                n == pieces@.len(),
                db.wf(),
                text.wf(),
                views_at_spans(pieces@, text, spans),
                spans == split_spans(text.bytes(), paragraph_delimiter(), PARAGRAPH_MIN_BYTES as int),
                text.chars() == c,
                c == content@,
                k <= n,
                paragraphs@.len() == k,
                forall|q: int|
                    0 <= q < k ==> (#[trigger] paragraphs@[q]).is_paragraph_of(paragraphs@[q].block().view_spec(), db)
                        && paragraphs@[q].block().view_spec().same_view(&pieces@[q]),
            decreases n - k,
        {
            let piece = pieces[k].share();
            match Paragraph::new(piece, db) {
                Some(p) => {
                    proof {
                        p.block().view_spec().lemma_same_view(&pieces@[k as int]);
                        p.block().view_spec().lemma_same_view(&piece);
                    }
                    paragraphs.push(p);
                },
                None => {
                    proof {
                        let bs = choose|bs: Seq<TextBlock>| are_sentences_of(bs, piece, db) && !fits(bs);
                        assert(pieces@[k as int].wf());
                        piece.lemma_same_view(&pieces@[k as int]);
                        assert(piece.wf());
                        assert(piece.shares_buffer(&text));
                        assert(piece.lo() == text.lo() + spans[k as int].0);
                        assert(overflows(text, db)) by {
                            assert(0 <= k < spans.len() && piece.wf() && piece.shares_buffer(&text) && piece.lo()
                                == text.lo() + spans[k as int].0 && piece.hi() == text.lo() + spans[k as int].1
                                && are_sentences_of(bs, piece, db) && !fits(bs));
                        }
                    }
                    return None;
                },
            }
            k = k + 1;
        }
        let mut refs: Vec<&TextBlock> = Vec::new();
        let mut k: usize = 0;
        while k < n
            invariant
                n == paragraphs@.len(),
                k <= n,
                refs@.len() == k,
                forall|q: int| 0 <= q < k ==> *(#[trigger] refs@[q]) == paragraphs@[q].block(),
            decreases n - k,
        {
            refs.push(paragraphs[k].text_block());
            k = k + 1;
        }
        let ghost ps = paragraphs@;
        proof {
            assert(deref_blocks(refs@) =~= blocks_of(ps));
            assert(are_paragraphs_of(ps, text, db)) by {
                assert forall|q: int| 0 <= q < n implies {
                    &&& (#[trigger] views_of(blocks_of(ps))[q]).wf()
                    &&& views_of(blocks_of(ps))[q].shares_buffer(&text)
                    &&& views_of(blocks_of(ps))[q].lo() == text.lo() + spans[q].0
                    &&& views_of(blocks_of(ps))[q].hi() == text.lo() + spans[q].1
                } by {
                    assert(views_of(blocks_of(ps))[q] == ps[q].block().view_spec());
                    ps[q].block().view_spec().lemma_same_view(&pieces@[q]);
                }
            }
            assert forall|q: int| 0 <= q < n implies (#[trigger] deref_blocks(refs@)[q]).wf() by {
                assert(deref_blocks(refs@)[q] == ps[q].block());
            }
            assert forall|q: int| 0 <= q < n && (#[trigger] deref_blocks(refs@)[q]).word_count_spec() > 0 implies
                deref_blocks(refs@)[q].scale_spec() == db.vocabulary() by {
                assert(deref_blocks(refs@)[q] == ps[q].block());
                lemma_paragraph_scale(ps[q], ps[q].block().view_spec(), db);
            }
        }
        match TextBlock::checked_fold(text.share(), refs) {
            Some(text_block) => Some(Text { name, text_block, paragraphs }),
            None => {
                proof {
                    assert(are_paragraphs_of(ps, text, db) && !fits(blocks_of(ps)));
                    assert(overflows(text, db));
                }
                None
            },
        }
    }

    /// The name of the document.
    pub fn name(&self) -> (r: &str)
        ensures
            r@ == self.name_spec(),
    {
        self.name.as_str()
    }

    /// The block of the whole document.
    pub fn text_block(&self) -> (r: &TextBlock)
        ensures
            *r == self.block(),
    {
        &self.text_block
    }

    /// The paragraphs, in order.
    pub fn paragraphs(&self) -> (r: &Vec<Paragraph>)
        ensures
            r@ == self.paragraphs_spec(),
    {
        &self.paragraphs
    }
}

/// The position of a sentence: document, paragraph, sentence.
pub type Address = (usize, usize, usize);

/// `a` is the position of a sentence of `ts`.
pub open spec fn valid_address(ts: Seq<Text>, a: Address) -> bool {
    &&& a.0 < ts.len()
    &&& a.1 < ts[a.0 as int].paragraphs_spec().len()
    &&& a.2 < ts[a.0 as int].paragraphs_spec()[a.1 as int].sentences_spec().len()
}

/// The sentence of `ts` at `a`.
pub open spec fn sentence_at(ts: Seq<Text>, a: Address) -> TextBlock {
    ts[a.0 as int].paragraphs_spec()[a.1 as int].sentences_spec()[a.2 as int]
}

/// Every sentence block of `ts` is well formed.
pub open spec fn sentences_wf(ts: Seq<Text>) -> bool {
    forall|a: Address| valid_address(ts, a) ==> (#[trigger] sentence_at(ts, a)).wf()
}

/// `a` comes before `b` in reading order.
pub open spec fn address_lt(a: Address, b: Address) -> bool {
    a.0 < b.0 || (a.0 == b.0 && (a.1 < b.1 || (a.1 == b.1 && a.2 < b.2)))
}

/// `a / b < c / d` for fractions with positive denominators.
pub open spec fn ratio_lt(x: Ratio, y: Ratio) -> bool {
    x.num * y.den < y.num * x.den
}

/// Which sentences a ranking query keeps: more than `min_words_exclusive`
/// and fewer than `max_words_exclusive` known words, a largest difficulty
/// below `max_difficulty_below`, and a share of known words above
/// `valid_ratio_above`.
#[derive(Clone, Copy, Debug)]
pub struct SentenceFilter {
    pub min_words_exclusive: usize,
    pub max_words_exclusive: usize,
    pub max_difficulty_below: Ratio,
    pub valid_ratio_above: Ratio,
}

/// The bounds of the filter's fractions and word limit.
pub open spec fn filter_bounded(f: SentenceFilter) -> bool {
    &&& f.max_words_exclusive <= u32::MAX
    &&& f.max_difficulty_below.num <= u64::MAX
    &&& f.max_difficulty_below.den <= u64::MAX
    &&& f.valid_ratio_above.num <= u64::MAX
    &&& f.valid_ratio_above.den <= u64::MAX
}

/// The filter keeps the block `b`.
pub open spec fn accepts(f: SentenceFilter, b: TextBlock) -> bool {
    &&& f.min_words_exclusive < b.word_count_spec() < f.max_words_exclusive
    &&& ratio_lt(Ratio { num: b.max_spec() as u128, den: b.scale_spec() as u128 }, f.max_difficulty_below)
    &&& ratio_lt(f.valid_ratio_above, Ratio { num: b.word_count_spec() as u128, den: b.split_count_spec() as u128 })
}

/// The average difficulty of `a` is below that of `b`: the rank sums over
/// the products of word count and scale, compared as fractions.
pub open spec fn average_lt(a: TextBlock, b: TextBlock) -> bool {
    a.total_spec() * (b.word_count_spec() * b.scale_spec()) < b.total_spec() * (a.word_count_spec() * a.scale_spec())
}

/// The average difficulties of `a` and `b` are equal as fractions.
pub open spec fn average_eq(a: TextBlock, b: TextBlock) -> bool {
    a.total_spec() * (b.word_count_spec() * b.scale_spec()) == b.total_spec() * (a.word_count_spec() * a.scale_spec())
}

/// All sentence blocks of `ts` count ranks out of the same number.
pub open spec fn same_scale(ts: Seq<Text>) -> bool {
    forall|a: Address, b: Address|
        valid_address(ts, a) && valid_address(ts, b) ==> (#[trigger] sentence_at(ts, a)).scale_spec()
            == (#[trigger] sentence_at(ts, b)).scale_spec()
}

/// An entry of a ranking: a rank sum, a word count and a position.
pub type RankItem = (u128, u32, usize);

/// `a` goes before `b` in a ranking: its rank sum over its word count is
/// smaller, or equal with a position no later.
pub open spec fn item_before(a: RankItem, b: RankItem) -> bool {
    a.0 * b.1 < b.0 * a.1 || (a.0 * b.1 == b.0 * a.1 && a.2 <= b.2)
}

/// `x * d` as a high and a low part: `x * d == high * 2^64 + low`.
fn wide_mul(x: u128, d: u32) -> (r: (u128, u128))
    ensures
        r.1 < word_bound(),
        r.0 * word_bound() + r.1 == x * d,
{
    let xl = x % 0x1_0000_0000_0000_0000;
    let xh = x / 0x1_0000_0000_0000_0000;
    let dd = d as u128;
    proof {
        assert(xh < word_bound());
        assert(xl * dd < word_bound() * 0x1_0000_0000) by (nonlinear_arith)
            requires xl < word_bound(), dd <= u32::MAX;
        assert(xh * dd < word_bound() * 0x1_0000_0000) by (nonlinear_arith)
            requires xh < word_bound(), dd <= u32::MAX;
    }
    let low = xl * dd;
    let high = xh * dd + low / 0x1_0000_0000_0000_0000;
    let rest = low % 0x1_0000_0000_0000_0000;
    proof {
        assert(x * dd == (xh * word_bound() + xl) * dd);
        assert((xh * word_bound() + xl) * dd == (xh * dd) * word_bound() + xl * dd) by (nonlinear_arith);
        let lq = (low / 0x1_0000_0000_0000_0000) as int;
        assert(low == lq * word_bound() + rest);
        assert((xh * dd + lq) * word_bound() == (xh * dd) * word_bound() + lq * word_bound()) by (nonlinear_arith);
    }
    (high, rest)
}

/// Compares two entries of a ranking by `item_before`, exactly.
fn compare_items(a: &RankItem, b: &RankItem) -> (r: std::cmp::Ordering)
    ensures
        (r == std::cmp::Ordering::Less) == (item_before(*a, *b) && !item_before(*b, *a)),
        (r == std::cmp::Ordering::Greater) == (item_before(*b, *a) && !item_before(*a, *b)),
        (r == std::cmp::Ordering::Equal) == (item_before(*a, *b) && item_before(*b, *a)),
{
    let (ah, al) = wide_mul(a.0, b.1);
    let (bh, bl) = wide_mul(b.0, a.1);
    proof {
        let x = a.0 * b.1;
        let y = b.0 * a.1;
        assert((ah < bh || (ah == bh && al < bl)) == (x < y)) by (nonlinear_arith)
            requires
                ah * word_bound() + al == x,
                bh * word_bound() + bl == y,
                0 <= al < word_bound(),
                0 <= bl < word_bound(),
                ah >= 0,
                bh >= 0,
        ;
        assert((ah == bh && al == bl) == (x == y)) by (nonlinear_arith)
            requires
                ah * word_bound() + al == x,
                bh * word_bound() + bl == y,
                0 <= al < word_bound(),
                0 <= bl < word_bound(),
                ah >= 0,
                bh >= 0,
        ;
    }
    if ah < bh || (ah == bh && al < bl) {
        std::cmp::Ordering::Less
    } else if ah == bh && al == bl {
        if a.2 < b.2 {
            std::cmp::Ordering::Less
        } else if a.2 == b.2 {
            std::cmp::Ordering::Equal
        } else {
            std::cmp::Ordering::Greater
        }
    } else {
        std::cmp::Ordering::Greater
    }
}

/// Relies on `Itertools::sorted_by`: the same items, ordered so that the
/// comparison never finds a later item less than an earlier one. With
/// positive word counts `item_before` is a total order, so that is
/// ascending `item_before` order.
#[verifier::external_body]
fn sorted_by_average(v: Vec<RankItem>) -> (r: Vec<RankItem>)
    requires
        forall|i: int| 0 <= i < v@.len() ==> (#[trigger] v@[i]).1 > 0,
    ensures
        r@.to_multiset() == v@.to_multiset(),
        forall|p: int, q: int| 0 <= p < q < r@.len() ==> item_before(r@[p], r@[q]),
{
    iter_tools::Itertools::sorted_by(v.into_iter(), |a, b| compare_items(a, b)).collect()
}

/// The documents of a corpus, each built into its tree.
pub struct Texts {
    vec: Vec<Text>,
}

impl Texts {
    /// The documents, in the order they were given.
    pub closed spec fn texts_spec(&self) -> Seq<Text> {
        self.vec@
    }

    /// Every sentence block is well formed.
    pub closed spec fn wf(&self) -> bool {
        sentences_wf(self.vec@) && same_scale(self.vec@)
    }

    /// Builds the tree of each `(name, content)` document, in order; `None`
    /// where a document's tree cannot be built.
    pub fn load(db: &WordDb, documents: Vec<(String, String)>) -> (r: Option<Texts>)
        requires
            db.wf(),
        ensures
            r matches Some(ts) ==> ts.wf(),
            r matches Some(ts) ==> ts.texts_spec().len() == documents@.len() && forall|k: int|
                0 <= k < documents@.len() ==> (#[trigger] ts.texts_spec()[k]).is_text_of(
                    documents@[k].0@,
                    documents@[k].1@,
                    db,
                ),
            r is None ==> exists|k: int, v: TextView|
                0 <= k < documents@.len() && v.wf() && v.chars() == documents@[k].1@ && overflows(v, db),
    {
        let docs = documents;
        let ghost d0 = docs@;
        let n = docs.len();
        let mut out: Vec<Text> = Vec::new();
        let mut k: usize = 0;
        while k < n
            invariant
                n == d0.len() == docs@.len(),
                d0 == documents@,
                docs == documents,
                db.wf(),
                k <= n,
                out@.len() == k,
                forall|q: int| k <= q < n ==> docs@[q] == d0[q],
                forall|q: int| 0 <= q < k ==> (#[trigger] out@[q]).is_text_of(d0[q].0@, d0[q].1@, db),
                sentences_wf(out@),
                forall|a: Address| valid_address(out@, a) ==> (#[trigger] sentence_at(out@, a)).scale_spec() == db.vocabulary(),
            decreases n - k,
        {
            let name = docs[k].0.clone();
            let content = docs[k].1.clone();
            match Text::new(name, content, db) {
                Some(t) => {
                    let ghost before = out@;
                    out.push(t);
                    proof {
                        assert forall|a: Address| valid_address(out@, a) implies (#[trigger] sentence_at(out@, a)).wf()
                            && sentence_at(out@, a).scale_spec() == db.vocabulary() by {
                            if a.0 < k {
                                assert(out@[a.0 as int] == before[a.0 as int]);
                                assert(valid_address(before, a));
                                assert(sentence_at(before, a).wf());
                                assert(sentence_at(before, a).scale_spec() == db.vocabulary());
                            } else {
                                let p = t.paragraphs_spec()[a.1 as int];
                                assert(p.is_paragraph_of(p.block().view_spec(), db));
                                assert(all_leaves(p.sentences_spec(), db));
                            }
                        }
                    }
                },
                None => {
                    proof {
                        let v = choose|v: TextView| v.wf() && v.chars() == content@ && overflows(v, db);
                        assert(0 <= k < d0.len() && v.wf() && v.chars() == d0[k as int].1@ && overflows(v, db));
                    }
                    return None;
                },
            }
            k = k + 1;
        }
        proof {
            assert(same_scale(out@)) by {
                assert forall|a: Address, b: Address| valid_address(out@, a) && valid_address(out@, b) implies
                    (#[trigger] sentence_at(out@, a)).scale_spec() == (#[trigger] sentence_at(out@, b)).scale_spec() by {
                    assert(sentence_at(out@, a).scale_spec() == db.vocabulary());
                    assert(sentence_at(out@, b).scale_spec() == db.vocabulary());
                }
            }
        }
        Some(Texts { vec: out })
    }

    /// The positions of the sentences that `f` keeps, easiest first: by
    /// average difficulty in ten-millionths, rounded down, and equal ones in
    /// reading order.
    pub fn ranked_sentences(&self, f: &SentenceFilter) -> (r: Vec<Address>)
        requires
            self.wf(),
            filter_bounded(*f),
        ensures
            forall|p: int|
                0 <= p < r@.len() ==> valid_address(self.texts_spec(), #[trigger] r@[p]) && accepts(
                    *f,
                    sentence_at(self.texts_spec(), r@[p]),
                ),
            forall|a: Address|
                valid_address(self.texts_spec(), a) && accepts(*f, #[trigger] sentence_at(self.texts_spec(), a))
                    ==> r@.contains(a),
            r@.no_duplicates(),
            forall|p: int, q: int|
                0 <= p < q < r@.len() ==> {
                    let a = sentence_at(self.texts_spec(), #[trigger] r@[p]);
                    let b = sentence_at(self.texts_spec(), #[trigger] r@[q]);
                    average_lt(a, b) || (average_eq(a, b) && address_lt(r@[p], r@[q]))
                },
    {
        let ghost ts = self.texts_spec();
        let mut found: Vec<Address> = Vec::new();
        let mut keys: Vec<RankItem> = Vec::new();
        let nt = self.vec.len();
        let mut t: usize = 0;
        while t < nt
            invariant
                ts == self.texts_spec(),
                filter_bounded(*f),
                self.wf(),
                nt == ts.len(),
                t <= nt,
                keys@.len() == found@.len(),
                forall|i: int| 0 <= i < found@.len() ==> valid_address(ts, #[trigger] found@[i]) && accepts(*f, sentence_at(ts, found@[i])),
                forall|i: int| 0 <= i < found@.len() ==> (#[trigger] found@[i]).0 < t,
                forall|i: int, j: int| 0 <= i < j < found@.len() ==> address_lt(found@[i], found@[j]),
                forall|i: int| 0 <= i < keys@.len() ==> (#[trigger] keys@[i]).0 == sentence_at(ts, found@[i]).total_spec() && keys@[i].1 == sentence_at(ts, found@[i]).word_count_spec() && keys@[i].1 > 0 && keys@[i].2 == i,
                forall|a: Address| valid_address(ts, a) && accepts(*f, #[trigger] sentence_at(ts, a)) && a.0 < t ==> found@.contains(a),
            decreases nt - t,
        {
            let paragraphs = self.vec[t].paragraphs();
            let np = paragraphs.len();
            let mut p: usize = 0;
            while p < np
                invariant
                    ts == self.texts_spec(),
                    filter_bounded(*f),
                    self.wf(),
                    nt == ts.len(),
                    t < nt,
                    paragraphs@ == ts[t as int].paragraphs_spec(),
                    np == paragraphs@.len(),
                    p <= np,
                    keys@.len() == found@.len(),
                    forall|i: int| 0 <= i < found@.len() ==> valid_address(ts, #[trigger] found@[i]) && accepts(*f, sentence_at(ts, found@[i])),
                    forall|i: int| 0 <= i < found@.len() ==> (#[trigger] found@[i]).0 < t || (found@[i].0 == t && found@[i].1 < p),
                    forall|i: int, j: int| 0 <= i < j < found@.len() ==> address_lt(found@[i], found@[j]),
                    forall|i: int| 0 <= i < keys@.len() ==> (#[trigger] keys@[i]).0 == sentence_at(ts, found@[i]).total_spec() && keys@[i].1 == sentence_at(ts, found@[i]).word_count_spec() && keys@[i].1 > 0 && keys@[i].2 == i,
                    forall|a: Address|
                        valid_address(ts, a) && accepts(*f, #[trigger] sentence_at(ts, a)) && (a.0 < t || (a.0 == t && a.1 < p)) ==> found@.contains(a),
                decreases np - p,
            {
                let sentences = paragraphs[p].sentences();
                let ns = sentences.len();
                let mut s: usize = 0;
                while s < ns
                    invariant
                        ts == self.texts_spec(),
                        filter_bounded(*f),
                        self.wf(),
                        nt == ts.len(),
                        t < nt,
                        paragraphs@ == ts[t as int].paragraphs_spec(),
                        np == paragraphs@.len(),
                        p < np,
                        sentences@ == paragraphs@[p as int].sentences_spec(),
                        ns == sentences@.len(),
                        s <= ns,
                        keys@.len() == found@.len(),
                        forall|i: int| 0 <= i < found@.len() ==> valid_address(ts, #[trigger] found@[i]) && accepts(*f, sentence_at(ts, found@[i])),
                        forall|i: int|
                            0 <= i < found@.len() ==> (#[trigger] found@[i]).0 < t || (found@[i].0 == t && (found@[i].1 < p || (found@[i].1 == p && found@[i].2 < s))),
                        forall|i: int, j: int| 0 <= i < j < found@.len() ==> address_lt(found@[i], found@[j]),
                        forall|i: int| 0 <= i < keys@.len() ==> (#[trigger] keys@[i]).0 == sentence_at(ts, found@[i]).total_spec() && keys@[i].1 == sentence_at(ts, found@[i]).word_count_spec() && keys@[i].1 > 0 && keys@[i].2 == i,
                        forall|a: Address|
                            valid_address(ts, a) && accepts(*f, #[trigger] sentence_at(ts, a)) && (a.0 < t || (a.0 == t && (a.1 < p || (a.1 == p && a.2 < s)))) ==> found@.contains(a),
                    decreases ns - s,
                {
                    let b = &sentences[s];
                    let ghost addr: Address = (t, p, s);
                    proof {
                        assert(valid_address(ts, addr));
                        assert(sentence_at(ts, addr) == *b);
                        assert(b.wf());
                        b.lemma_bounds();
                    }
                    let wc = b.word_count();
                    let mut keep = false;
                    if f.min_words_exclusive < wc && wc < f.max_words_exclusive {
                        let max = b.rank_max();
                        let scale = b.scale();
                        let splits = b.whitespace_split_count() as u128;
                        let w = wc as u128;
                        proof {
                            assert(max * f.max_difficulty_below.den <= u128::MAX) by (nonlinear_arith)
                                requires max < word_bound(), f.max_difficulty_below.den <= u64::MAX;
                            assert(f.max_difficulty_below.num * scale <= u128::MAX) by (nonlinear_arith)
                                requires scale < word_bound(), f.max_difficulty_below.num <= u64::MAX;
                            assert(f.valid_ratio_above.num * splits <= u128::MAX) by (nonlinear_arith)
                                requires splits < word_bound(), f.valid_ratio_above.num <= u64::MAX;
                            assert(w * f.valid_ratio_above.den <= u128::MAX) by (nonlinear_arith)
                                requires w < word_bound(), f.valid_ratio_above.den <= u64::MAX;
                        }
                        if max * f.max_difficulty_below.den < f.max_difficulty_below.num * scale
                            && f.valid_ratio_above.num * splits < w * f.valid_ratio_above.den {
                            keep = true;
                        }
                    }
                    if keep {
                        let total = b.rank_total();
                        let ghost before = found@;
                        keys.push((total, wc as u32, found.len()));
                        found.push((t, p, s));
                        proof {
                            assert(found@[found@.len() - 1] == addr);
                            assert forall|a: Address|
                                valid_address(ts, a) && accepts(*f, #[trigger] sentence_at(ts, a)) && (a.0 < t || (a.0 == t && (a.1 < p || (a.1 == p && a.2 < s + 1)))) implies found@.contains(a) by {
                                if a == addr {
                                    assert(found@[found@.len() - 1] == a);
                                } else {
                                    assert(before.contains(a));
                                    let i = choose|i: int| 0 <= i < before.len() && before[i] == a;
                                    assert(found@[i] == a);
                                }
                            }
                        }
                    } else {
                        proof {
                            assert(!accepts(*f, sentence_at(ts, addr)));
                        }
                    }
                    s = s + 1;
                }
                p = p + 1;
            }
            t = t + 1;
        }
        let ghost fv = found@;
        let ghost kv = keys@;
        proof {
            assert(kv.no_duplicates()) by {
                assert forall|a: int, b: int| 0 <= a < kv.len() && 0 <= b < kv.len() && a != b implies kv[a] != kv[b] by {
                    assert(kv[a].2 == a && kv[b].2 == b);
                }
            }
            kv.lemma_multiset_has_no_duplicates();
        }
        let sorted = sorted_by_average(keys);
        let ghost sv = sorted@;
        proof {
            sv.lemma_multiset_has_no_duplicates_conv();
            assert(sv.len() == kv.len()) by {
                assert(sv.to_multiset().len() == kv.to_multiset().len());
            }
            assert forall|q: int| 0 <= q < sv.len() implies #[trigger] sv[q].2 < fv.len() && sv[q] == kv[sv[q].2 as int] by {
                assert(sv.contains(sv[q]));
                assert(sv.to_multiset().count(sv[q]) > 0);
                assert(kv.contains(sv[q]));
            }
        }
        let n = sorted.len();
        let mut out: Vec<Address> = Vec::new();
        let mut q: usize = 0;
        while q < n
            invariant
                n == sv.len() == fv.len() == kv.len(),
                sorted@ == sv,
                found@ == fv,
                forall|x: int| 0 <= x < sv.len() ==> #[trigger] sv[x].2 < fv.len() && sv[x] == kv[sv[x].2 as int],
                q <= n,
                out@.len() == q,
                forall|x: int| 0 <= x < q ==> #[trigger] out@[x] == fv[sv[x].2 as int],
            decreases n - q,
        {
            out.push(found[sorted[q].2]);
            q = q + 1;
        }
        proof {
            assert forall|a: Address| valid_address(ts, a) && accepts(*f, #[trigger] sentence_at(ts, a)) implies out@.contains(a) by {
                assert(fv.contains(a));
                let i = choose|i: int| 0 <= i < fv.len() && fv[i] == a;
                assert(kv.contains(kv[i]));
                assert(kv.to_multiset().count(kv[i]) > 0);
                assert(sv.contains(kv[i]));
                let x = choose|x: int| 0 <= x < sv.len() && sv[x] == kv[i];
                assert(out@[x] == a);
            }
            assert forall|x: int, y: int| 0 <= x < out@.len() && 0 <= y < out@.len() && x != y implies out@[x] != out@[y] by {
                let i = sv[x].2 as int;
                let j = sv[y].2 as int;
                assert(sv[x] != sv[y]);
                assert(i != j);
                if i < j {
                    assert(address_lt(fv[i], fv[j]));
                } else {
                    assert(address_lt(fv[j], fv[i]));
                }
            }
            assert forall|x: int, y: int| 0 <= x < y < out@.len() implies {
                let a = sentence_at(ts, #[trigger] out@[x]);
                let b = sentence_at(ts, #[trigger] out@[y]);
                average_lt(a, b) || (average_eq(a, b) && address_lt(out@[x], out@[y]))
            } by {
                let i = sv[x].2 as int;
                let j = sv[y].2 as int;
                let a = sentence_at(ts, fv[i]);
                let b = sentence_at(ts, fv[j]);
                assert(item_before(sv[x], sv[y]));
                assert(sv[x] != sv[y]);
                assert(a.scale_spec() == b.scale_spec());
                assert(a.wf());
                a.lemma_bounds();
                let sc = a.scale_spec();
                let (ta, wa, tb, wb) = (a.total_spec(), a.word_count_spec(), b.total_spec(), b.word_count_spec());
                assert(ta * (wb * sc) == (ta * wb) * sc) by (nonlinear_arith);
                assert(tb * (wa * sc) == (tb * wa) * sc) by (nonlinear_arith);
                assert((ta * wb < tb * wa) ==> (ta * wb) * sc < (tb * wa) * sc) by (nonlinear_arith)
                    requires sc > 0;
                if i < j {
                    assert(address_lt(fv[i], fv[j]));
                }
            }
        }
        out
    }

    /// The documents, in order.
    pub fn texts(&self) -> (r: &Vec<Text>)
        ensures
            r@ == self.texts_spec(),
    {
        &self.vec
    }
}

} // verus!
