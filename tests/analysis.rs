use analyzer::dict::Dict;
use analyzer::hanzi_db::{parse_usize, usize_from_row_item, Character, HanziDb};
use analyzer::word_list::{between, first_char, is_valid_line, line_to_word, split_on};
use analyzer::hanzi_db::line_to_character;
use analyzer::ratio::Ratio;
use analyzer::text_block::TextBlock;
use analyzer::text_view::{split_text_ref, TextView};
use analyzer::texts::{Paragraph, Text, Texts};
use analyzer::user_level::{Learning, LearningStatus, UserLearning};
use analyzer::word_db::{same_text, WordDb};

fn pair(w: &str, d: &str) -> (String, String) {
    (w.to_string(), d.to_string())
}

fn repeat(word: &str, times: usize) -> String {
    let mut s = String::new();
    for _ in 0..times {
        s.push_str(word);
        s.push(' ');
    }
    s
}

fn small_db() -> WordDb {
    let defs = vec![pair("sat", "rested"), pair("the", "article"), pair("cat", "animal")];
    let corpus = vec![
        repeat("the", 6) + &repeat("cat", 5),
        repeat("the", 4) + &repeat("sat", 1) + "dog dog dog dog dog dog dog dog dog dog dog",
    ];
    WordDb::load(&defs, &corpus)
}

fn texts_of(views: &[TextView]) -> Vec<String> {
    views.iter().map(|v| v.text().to_string()).collect()
}

#[test]
fn rank_ratios_follow_frequency() {
    let db = small_db();
    assert_eq!(db.vocabulary_size(), 3);
    assert_eq!(db.difficulty("the"), Some(Ratio::new(0, 3)));
    assert_eq!(db.difficulty("cat"), Some(Ratio::new(1, 3)));
    assert_eq!(db.difficulty("sat"), Some(Ratio::new(2, 3)));
    assert_eq!(db.difficulty("dog"), None);
}

#[test]
fn difficulty_lowercases_its_word() {
    let db = small_db();
    assert_eq!(db.difficulty("THE"), Some(Ratio::new(0, 3)));
    assert_eq!(db.difficulty("Cat"), Some(Ratio::new(1, 3)));
    assert_eq!(db.difficulty_exact("Cat"), None);
}

#[test]
fn define_passes_the_dictionary_through() {
    let db = small_db();
    assert_eq!(db.define("cat"), Some("animal"));
    assert_eq!(db.define("dog"), None);
}

#[test]
fn equal_counts_rank_in_dictionary_order() {
    let defs = vec![pair("b", "-"), pair("a", "-"), pair("c", "-")];
    let corpus = vec!["a b c a b".to_string()];
    let db = WordDb::load(&defs, &corpus);
    assert_eq!(db.difficulty("b"), Some(Ratio::new(0, 3)));
    assert_eq!(db.difficulty("a"), Some(Ratio::new(1, 3)));
    assert_eq!(db.difficulty("c"), Some(Ratio::new(2, 3)));
    let again = WordDb::load(&defs, &corpus);
    for w in ["a", "b", "c"] {
        assert_eq!(db.difficulty(w), again.difficulty(w));
    }
}

#[test]
fn unseen_words_rank_last() {
    let defs = vec![pair("zebra", "-"), pair("cat", "-")];
    let corpus = vec!["cat".to_string()];
    let db = WordDb::load(&defs, &corpus);
    assert_eq!(db.difficulty("cat"), Some(Ratio::new(0, 2)));
    assert_eq!(db.difficulty("zebra"), Some(Ratio::new(1, 2)));
}

#[test]
fn leaf_of_known_words() {
    let db = small_db();
    let b = TextBlock::new(TextView::new("the cat sat".to_string()), &db);
    assert_eq!(b.word_count(), 3);
    assert_eq!(b.whitespace_split_count(), 3);
    assert_eq!(b.max_difficulty(), Ratio::new(2, 3));
    assert_eq!(b.total_difficulty(), Ratio::new(3, 3));
    assert_eq!(b.average_difficulty(), Some(Ratio::new(3, 9)));
    assert_eq!(b.valid_word_ratio(), Some(Ratio::new(3, 3)));
    assert_eq!(b.text(), "the cat sat");
}

#[test]
fn leaf_with_unknown_word() {
    let db = small_db();
    let b = TextBlock::new(TextView::new("the cat ran".to_string()), &db);
    assert_eq!(b.word_count(), 2);
    assert_eq!(b.whitespace_split_count(), 3);
    assert_eq!(b.valid_word_ratio(), Some(Ratio::new(2, 3)));
    assert_eq!(b.total_difficulty(), Ratio::new(1, 3));
    assert_eq!(b.max_difficulty(), Ratio::new(1, 3));
    assert_eq!(b.average_difficulty(), Some(Ratio::new(1, 6)));
}

#[test]
fn leaf_lowercases_before_lookup() {
    let db = small_db();
    let b = TextBlock::new(TextView::new("The  CAT\tSat".to_string()), &db);
    assert_eq!(b.word_count(), 3);
    assert_eq!(b.whitespace_split_count(), 3);
}

#[test]
fn leaf_without_known_words_has_no_average() {
    let db = small_db();
    let b = TextBlock::new(TextView::new("dog ran".to_string()), &db);
    assert_eq!(b.word_count(), 0);
    assert_eq!(b.average_difficulty(), None);
    assert_eq!(b.max_difficulty(), Ratio::new(0, 1));
    assert_eq!(b.valid_word_ratio(), Some(Ratio::new(0, 2)));
    let empty = TextBlock::new(TextView::new("   ".to_string()), &db);
    assert_eq!(empty.whitespace_split_count(), 0);
    assert_eq!(empty.valid_word_ratio(), None);
}

#[test]
fn leaf_is_deterministic() {
    let db = small_db();
    let view = TextView::new("the cat ran. sat".to_string());
    let a = TextBlock::new(view.share(), &db);
    let b = TextBlock::new(view.share(), &db);
    assert_eq!(a.word_count(), b.word_count());
    assert_eq!(a.whitespace_split_count(), b.whitespace_split_count());
    assert_eq!(a.total_difficulty(), b.total_difficulty());
    assert_eq!(a.max_difficulty(), b.max_difficulty());
    assert_eq!(a.average_difficulty(), b.average_difficulty());
}

#[test]
fn leaf_from_given_words() {
    let db = small_db();
    let view = TextView::new("x".to_string());
    let b = TextBlock::from_words(view, &vec!["sat", "Sat", "cat"], &db);
    assert_eq!(b.word_count(), 2);
    assert_eq!(b.whitespace_split_count(), 3);
    assert_eq!(b.total_difficulty(), Ratio::new(3, 3));
}

#[test]
fn fold_sums_and_maximises() {
    let db = small_db();
    let a = TextBlock::new(TextView::new("the cat".to_string()), &db);
    let b = TextBlock::new(TextView::new("sat ran".to_string()), &db);
    let c = TextBlock::new(TextView::new("dog".to_string()), &db);
    let parent = TextBlock::new_with_sub_blocks(TextView::new("all".to_string()), vec![&a, &b, &c]);
    assert_eq!(parent.word_count(), 3);
    assert_eq!(parent.whitespace_split_count(), 5);
    assert_eq!(parent.total_difficulty(), Ratio::new(3, 3));
    assert_eq!(parent.max_difficulty(), Ratio::new(2, 3));
    assert_eq!(parent.average_difficulty(), Some(Ratio::new(3, 9)));
    assert_eq!(parent.text(), "all");
    let checked = TextBlock::checked_fold(TextView::new("all".to_string()), vec![&a, &b]).unwrap();
    assert_eq!(checked.word_count(), 3);
}

#[test]
fn fold_of_nothing_is_zero() {
    let parent = TextBlock::new_with_sub_blocks(TextView::new(String::new()), vec![]);
    assert_eq!(parent.word_count(), 0);
    assert_eq!(parent.whitespace_split_count(), 0);
    assert_eq!(parent.max_difficulty(), Ratio::new(0, 1));
    assert_eq!(parent.average_difficulty(), None);
    assert_eq!(parent.valid_word_ratio(), None);
}

#[test]
fn split_cuts_at_each_full_stop() {
    let view = TextView::new("A.B.C.D.".to_string());
    let parts = split_text_ref(&view, ".", 0);
    assert_eq!(texts_of(&parts), vec!["A", ".B", ".C", ".D"]);
}

#[test]
fn split_drops_the_trailing_fragment() {
    let view = TextView::new("one. two. three".to_string());
    let parts = split_text_ref(&view, ".", 0);
    assert_eq!(texts_of(&parts), vec!["one", ". two"]);
}

#[test]
fn split_counts_occurrences_without_threshold() {
    let view = TextView::new("a..b...c".to_string());
    assert_eq!(split_text_ref(&view, ".", 0).len(), 5);
    let view = TextView::new("xaaaay".to_string());
    assert_eq!(texts_of(&split_text_ref(&view, "aa", 0)), vec!["x", "aa"]);
}

#[test]
fn split_with_large_threshold_yields_nothing() {
    let view = TextView::new("a.b.c.d.".to_string());
    assert_eq!(split_text_ref(&view, ".", usize::MAX).len(), 0);
    assert_eq!(split_text_ref(&view, ".", 8).len(), 0);
}

#[test]
fn split_coalesces_below_threshold() {
    let view = TextView::new("a\nb\nc\nd\ne".to_string());
    let parts = split_text_ref(&view, "\n", 1);
    assert_eq!(texts_of(&parts), vec!["a\nb", "\nc\nd"]);
}

#[test]
fn split_with_empty_delimiter_yields_nothing() {
    let view = TextView::new("abc".to_string());
    assert_eq!(split_text_ref(&view, "", 0).len(), 0);
}

#[test]
fn split_of_a_sub_view() {
    let view = TextView::new("x.y\nz.w.\n".to_string());
    let lines = split_text_ref(&view, "\n", 0);
    assert_eq!(texts_of(&lines), vec!["x.y", "\nz.w."]);
    let parts = split_text_ref(&lines[1], ".", 0);
    assert_eq!(texts_of(&parts), vec!["\nz", ".w"]);
}

#[test]
fn split_keeps_multibyte_text_whole() {
    let view = TextView::new("été.çà.".to_string());
    assert_eq!(texts_of(&split_text_ref(&view, ".", 0)), vec!["été", ".çà"]);
}

#[test]
fn paragraph_folds_its_sentences() {
    let db = small_db();
    let p = Paragraph::new(TextView::new("the cat. sat ran. dog".to_string()), &db).unwrap();
    assert_eq!(p.sentences().len(), 2);
    assert_eq!(p.sentences()[0].text(), "the cat");
    assert_eq!(p.sentences()[1].text(), ". sat ran");
    assert_eq!(p.sentences()[1].word_count(), 1);
    assert_eq!(p.text_block().word_count(), 3);
    assert_eq!(p.text_block().whitespace_split_count(), 5);
    assert_eq!(p.text_block().max_difficulty(), Ratio::new(2, 3));
}

#[test]
fn text_builds_three_levels() {
    let db = small_db();
    let content = format!("{}tail that is dropped.", "the cat.\n".repeat(101));
    let t = Text::new("book".to_string(), content.clone(), &db).unwrap();
    assert_eq!(t.name(), "book");
    assert_eq!(t.text_block().text(), content);
    assert_eq!(t.paragraphs().len(), 1);
    let p = &t.paragraphs()[0];
    assert_eq!(p.text_block().text(), format!("{}the cat.", "the cat.\n".repeat(100)));
    assert_eq!(p.sentences().len(), 101);
    assert_eq!(p.sentences()[0].text(), "the cat");
    assert_eq!(p.sentences()[1].text(), ".\nthe cat");
    assert_eq!(p.text_block().word_count(), 202);
    assert_eq!(t.text_block().word_count(), 202);
    assert_eq!(t.text_block().max_difficulty(), Ratio::new(1, 3));
}

#[test]
fn short_text_has_no_paragraph() {
    let db = small_db();
    let t = Text::new("note".to_string(), "the cat.\nsat.\n".to_string(), &db).unwrap();
    assert_eq!(t.paragraphs().len(), 0);
    assert_eq!(t.text_block().word_count(), 0);
    assert_eq!(t.text_block().average_difficulty(), None);
}

#[test]
fn texts_keep_document_order() {
    let db = small_db();
    let docs = vec![pair("one", "the cat."), pair("two", "sat.")];
    let ts = Texts::load(&db, docs).unwrap();
    assert_eq!(ts.texts().len(), 2);
    assert_eq!(ts.texts()[0].name(), "one");
    assert_eq!(ts.texts()[1].name(), "two");
    assert_eq!(ts.texts()[1].text_block().text(), "sat.");
}

#[test]
fn outside_text_helpers() {
    let db = WordDb::load(&vec![pair("àb", "-"), pair("c", "-")], &vec![]);
    assert_eq!(db.difficulty("ÀB"), Some(Ratio::new(0, 2)));
    let b = TextBlock::new(TextView::new(" ÀB\tbb \n c ".to_string()), &db);
    assert_eq!(b.whitespace_split_count(), 3);
    assert_eq!(b.word_count(), 2);
    assert!(same_text("ab", "ab"));
    assert!(!same_text("ab", "abc"));
}

#[test]
fn learning_follows_searches() {
    let mut l = Learning::new();
    l.record(LearningStatus::NoSearch);
    l.record(LearningStatus::NoSearch);
    assert_eq!(l, Learning { seen: 2, searched: 0, acc: 2 });
    l.record(LearningStatus::Search);
    assert_eq!(l, Learning { seen: 3, searched: 1, acc: -1 });
    l.record(LearningStatus::Search);
    assert_eq!(l, Learning { seen: 4, searched: 2, acc: -2 });
}

#[test]
fn user_learning_updates_known_words() {
    let db = small_db();
    let mut u = UserLearning::new(&db);
    let cat = "cat".to_string();
    let dog = "dog".to_string();
    u.update(vec![(&cat, LearningStatus::Search), (&dog, LearningStatus::NoSearch), (&cat, LearningStatus::NoSearch)]);
    assert_eq!(u.learning_of("cat"), Some(Learning { seen: 2, searched: 1, acc: 0 }));
    assert_eq!(u.learning_of("the"), Some(Learning { seen: 0, searched: 0, acc: 0 }));
    assert_eq!(u.learning_of("dog"), None);
}

#[test]
fn dict_hands_back_its_pairs() {
    let d = Dict::new(vec![pair("a", "first")]);
    assert_eq!(d.into_definitions(), vec![pair("a", "first")]);
}

#[test]
fn ranked_sentences_filter_and_order() {
    let db = small_db();
    let block = "the cat sat. the the. cat cat sat. dog the. sat sat. ";
    let content = format!("{}tail", format!("{}\n", block).repeat(101));
    let ts = Texts::load(&db, vec![("doc".to_string(), content)]).unwrap();
    let filter = analyzer::texts::SentenceFilter {
        min_words_exclusive: 1,
        max_words_exclusive: 10,
        max_difficulty_below: Ratio::new(1, 1),
        valid_ratio_above: Ratio::new(1, 2),
    };
    let found = ts.ranked_sentences(&filter);
    // Each sentence but the first starts at its full stop, which counts as
    // an unknown word: ". dog the" keeps 1 of 3 words and is dropped.
    let sentences = ts.texts()[0].paragraphs()[0].sentences();
    let firsts: Vec<String> = found.iter().take(3).map(|&(_, _, s)| sentences[s].text().to_string()).collect();
    assert_eq!(firsts, vec![". the the", ". the the", ". the the"]);
    assert!(found[0] < found[1] && found[1] < found[2]);
    assert_eq!(found.len(), 101 * 4);
    assert!(found.windows(2).all(|w| {
        let a = sentences[w[0].2].average_difficulty().unwrap();
        let b = sentences[w[1].2].average_difficulty().unwrap();
        a.num * b.den <= b.num * a.den
    }));
    let last = found.last().unwrap();
    assert_eq!(sentences[last.2].average_difficulty(), Some(Ratio::new(4, 6)));
    assert!(found.iter().all(|&(_, _, s)| sentences[s].word_count() > 1));
}

#[test]
fn decimal_fields_parse_like_std() {
    assert_eq!(parse_usize("42"), Some(42));
    assert_eq!(parse_usize("+7"), Some(7));
    assert_eq!(parse_usize(""), None);
    assert_eq!(parse_usize("+"), None);
    assert_eq!(parse_usize("4a"), None);
    assert_eq!(parse_usize("-1"), None);
    assert_eq!(parse_usize(&usize::MAX.to_string()), Some(usize::MAX));
    assert_eq!(parse_usize("184467440737095516150"), None);
    let row = vec!["12", "x", "30"];
    assert_eq!(usize_from_row_item(&row, 2), Some(30));
    assert_eq!(usize_from_row_item(&row, 1), None);
    assert_eq!(usize_from_row_item(&row, 3), None);
    assert!(is_valid_line("你 好"));
    assert!(!is_valid_line("# comment"));
    assert!(is_valid_line(""));
}

#[test]
fn character_difficulty_falls_back_to_twice_the_size() {
    let ch = |rank: usize, c: char| Character {
        frequency_rank: rank,
        simplified: c,
        pinyin: String::new(),
        definitions: vec![],
        stroke_count: 1,
        hsk_level: 1,
    };
    let db = HanziDb::new(vec![ch(1, '的'), ch(2, '一'), ch(5, '的')]);
    assert_eq!(db.character_count(), 3);
    assert_eq!(db.difficulty('一'), 2);
    assert_eq!(db.difficulty('的'), 5);
    assert_eq!(db.difficulty('僧'), 6);
}

#[test]
fn learning_defaults_to_unseen() {
    assert_eq!(Learning::default(), Learning { seen: 0, searched: 0, acc: 0 });
}

#[test]
fn between_takes_from_first_start_to_first_end() {
    assert_eq!(between("中國 中国 [zhong1 guo2] /China/", '[', ']'), Some("[zhong1 guo2"));
    assert_eq!(between("a]b[c", '[', ']'), None);
    assert_eq!(between("no brackets", '[', ']'), None);
    assert_eq!(between("x[y", '[', ']'), None);
    assert_eq!(between("[]", '[', ']'), Some("["));
}

#[test]
fn ranking_orders_by_exact_average() {
    // Ranks are 0..4 out of 5: "a"=0, "b"=1, "c"=2, "d"=3, "e"=4.
    let defs = vec![pair("a", "-"), pair("b", "-"), pair("c", "-"), pair("d", "-"), pair("e", "-")];
    let db = WordDb::load(&defs, &vec![]);
    // Averages: "e b" 5/2 -> 5/10, "c c" 4/10, "d a c" 5/15, "b d" 4/10.
    let block = "e b. c c. d a c. b d. ";
    let content = format!("{}x", format!("{}\n", block).repeat(101));
    let ts = Texts::load(&db, vec![("doc".to_string(), content)]).unwrap();
    let filter = analyzer::texts::SentenceFilter {
        min_words_exclusive: 0,
        max_words_exclusive: 100,
        max_difficulty_below: Ratio::new(1, 1),
        valid_ratio_above: Ratio::new(0, 1),
    };
    let found = ts.ranked_sentences(&filter);
    let sentences = ts.texts()[0].paragraphs()[0].sentences();
    for w in found.windows(2) {
        let a = sentences[w[0].2].average_difficulty().unwrap();
        let b = sentences[w[1].2].average_difficulty().unwrap();
        assert!(a.num * b.den < b.num * a.den || (a.num * b.den == b.num * a.den && w[0] < w[1]));
    }
    let first = sentences[found[0].2].average_difficulty().unwrap();
    assert_eq!(first.num * 15, first.den * 5);
}

#[test]
fn split_on_matches_std_split() {
    for (text, c) in [("a,b,,c", ','), ("", ','), (",", ','), ("x", ','), ("é;ü;", ';'), ("中,国", ',')] {
        let expected: Vec<&str> = text.split(c).collect();
        assert_eq!(split_on(text, c), expected);
    }
    assert_eq!(first_char("僧行"), Some('僧'));
    assert_eq!(first_char(""), None);
}

#[test]
fn character_lines_parse() {
    let ch = line_to_character("12,的,de,of;possessive,白,106.3,8,1,3001").unwrap();
    assert_eq!(ch.frequency_rank, 12);
    assert_eq!(ch.simplified, '的');
    assert_eq!(ch.pinyin, "de");
    assert_eq!(ch.definitions, vec!["of".to_string(), "possessive".to_string()]);
    assert_eq!(ch.stroke_count, 8);
    assert_eq!(ch.hsk_level, 1);
    assert!(line_to_character("12,的,de,of,白,106.3,8").is_none());
    assert!(line_to_character("x,的,de,of,白,106.3,8,1").is_none());
    assert!(line_to_character("1,,de,of,白,106.3,8,1").is_none());
}

#[test]
fn word_lines_parse() {
    let w = line_to_word("中國 中国 [zhong1 guo2] /China/Middle Kingdom/").unwrap();
    assert_eq!(w.traditional, "中國");
    assert_eq!(w.simplified, "中国");
    assert_eq!(w.pinyin, "[zhong1 guo2");
    assert_eq!(w.definitions, vec!["China".to_string(), "Middle Kingdom".to_string(), String::new()]);
    assert_eq!(w.occurrences, 0);
    assert!(line_to_word("中國").is_none());
    assert!(line_to_word("a b no brackets").is_none());
}

#[test]
fn annotate_pairs_words_with_difficulty() {
    let db = small_db();
    let a = db.annotate("The Dog sat");
    assert_eq!(
        a,
        vec![
            ("the".to_string(), Some(Ratio::new(0, 3))),
            ("dog".to_string(), None),
            ("sat".to_string(), Some(Ratio::new(2, 3))),
        ]
    );
}
