use vstd::prelude::*;
use vstd::string::StringSliceAdditionalSpecFns;
use vstd::utf8::*;

verus! {

/// The position of the first `c` in `s`, if there is one.
pub open spec fn first_char_index(s: Seq<char>, c: char) -> Option<int> {
    if s.contains(c) {
        Some(choose|k: int| 0 <= k < s.len() && s[k] == c && forall|j: int| 0 <= j < k ==> s[j] != c)
    } else {
        None
    }
}

/// The byte offset of the first `c` in `s`, if there is one.
pub open spec fn first_byte_index(s: Seq<char>, c: char) -> Option<int> {
    match first_char_index(s, c) {
        Some(k) => Some(encode_utf8(s.take(k)).len() as int),
        None => None,
    }
}

/// Relies on `str::find` with a `char`: the byte offset of the first
/// character of `s` that is `c`.
#[verifier::external_body]
fn find_char(s: &str, c: char) -> (r: Option<usize>)
    ensures
        r matches Some(i) ==> exists|k: int|
            0 <= k < s@.len() && s@[k] == c && (forall|j: int| 0 <= j < k ==> s@[j] != c) && i == encode_utf8(
                s@.take(k),
            ).len(),
        r is None ==> !s@.contains(c),
{
    s.find(c)
}

/// The encoding of a text is the encoding of a prefix followed by that of
/// the rest.
pub proof fn lemma_encode_split(s: Seq<char>, k: int)
    requires
        0 <= k <= s.len(),
    ensures
        encode_utf8(s) == encode_utf8(s.take(k)) + encode_utf8(s.skip(k)),
    decreases k,
{
    if k == 0 {
        assert(s.take(0) =~= Seq::<char>::empty());
        assert(s.skip(0) =~= s);
        assert(encode_utf8(s.take(0)) =~= Seq::<u8>::empty());
        assert(encode_utf8(s) =~= encode_utf8(s.take(0)) + encode_utf8(s.skip(0)));
    } else {
        lemma_encode_split(s.drop_first(), k - 1);
        assert(s.take(k).drop_first() =~= s.drop_first().take(k - 1));
        assert(s.take(k)[0] == s[0]);
        assert(s.drop_first().skip(k - 1) =~= s.skip(k));
        assert(encode_utf8(s) =~= encode_utf8(s.take(k)) + encode_utf8(s.skip(k)));
    }
}

/// The end of an encoded prefix is a character boundary.
pub proof fn lemma_prefix_boundary(s: Seq<char>, k: int)
    requires
        0 <= k <= s.len(),
    ensures
        is_char_boundary(encode_utf8(s), encode_utf8(s.take(k)).len() as int),
{
    let whole = encode_utf8(s);
    let p = encode_utf8(s.take(k));
    let rest = encode_utf8(s.skip(k));
    lemma_encode_split(s, k);
    encode_utf8_valid_utf8(s);
    encode_utf8_valid_utf8(s.skip(k));
    is_char_boundary_start_end_of_seq(whole);
    if p.len() < whole.len() {
        is_char_boundary_start_end_of_seq(rest);
        is_char_boundary_iff_not_is_continuation_byte(rest, 0);
        assert(whole[p.len() as int] == rest[0]);
        is_char_boundary_iff_not_is_continuation_byte(whole, p.len() as int);
    } else {
        assert(p.len() == whole.len());
    }
}

/// The text of `string` from the first `start` up to the first `end`, if
/// both are there and `end` does not come first.
pub fn between(string: &str, start: char, end: char) -> (r: Option<&str>)
    ensures
        r is Some <==> (first_byte_index(string@, start) is Some && first_byte_index(string@, end) is Some
            && first_byte_index(string@, start)->0 <= first_byte_index(string@, end)->0),
        r matches Some(t) ==> t.spec_bytes() == string.spec_bytes().subrange(
            first_byte_index(string@, start)->0,
            first_byte_index(string@, end)->0,
        ),
{
    let i_start = match find_char(string, start) {
        Some(i) => i,
        None => return None,
    };
    let i_end = match find_char(string, end) {
        Some(i) => i,
        None => return None,
    };
    let ghost b = string.spec_bytes();
    proof {
        let ks = choose|k: int|
            0 <= k < string@.len() && string@[k] == start && (forall|j: int| 0 <= j < k ==> string@[j] != start)
                && i_start == encode_utf8(string@.take(k)).len();
        let ke = choose|k: int|
            0 <= k < string@.len() && string@[k] == end && (forall|j: int| 0 <= j < k ==> string@[j] != end)
                && i_end == encode_utf8(string@.take(k)).len();
        assert(string@.contains(start));
        assert(string@.contains(end));
        let cs = first_char_index(string@, start)->0;
        let ce = first_char_index(string@, end)->0;
        assert(cs == ks);
        assert(ce == ke);
        lemma_prefix_boundary(string@, ks);
        lemma_prefix_boundary(string@, ke);
        lemma_encode_split(string@, ks);
        lemma_encode_split(string@, ke);
    }
    if i_start > i_end {
        return None;
    }
    let (_, rest) = string.split_at(i_start);
    proof {
        let rb = rest.spec_bytes();
        let k = (i_end - i_start) as int;
        encode_utf8_valid_utf8(string@);
        valid_utf8_split(b, i_start as int);
        is_char_boundary_start_end_of_seq(rb);
        if 0 < k < rb.len() {
            assert(rb[k] == b[i_end as int]);
            is_char_boundary_iff_not_is_continuation_byte(b, i_end as int);
            is_char_boundary_iff_not_is_continuation_byte(rb, k);
        }
    }
    let (mid, _) = rest.split_at(i_end - i_start);
    proof {
        assert(mid.spec_bytes() =~= b.subrange(i_start as int, i_end as int));
    }
    Some(mid)
}

/// The pieces of `s` between occurrences of `c`, in order; as many as there
/// are occurrences, plus one.
pub open spec fn pieces(s: Seq<char>, c: char) -> Seq<Seq<char>>
    decreases s.len(),
{
    match first_char_index(s, c) {
        Some(k) => if 0 <= k < s.len() {
            seq![s.take(k)] + pieces(s.skip(k + 1), c)
        } else {
            seq![s]
        },
        None => seq![s],
    }
}

/// The number of bytes that encode `c`.
fn char_width(c: char) -> (r: usize)
    ensures
        r == encode_utf8(seq![c]).len(),
{
    let v = c as u32;
    proof {
        char_is_scalar(c);
        assert(seq![c].drop_first() =~= Seq::<char>::empty());
        assert(encode_utf8(seq![c]) == encode_scalar(v) + encode_utf8(Seq::<char>::empty()));
        assert(encode_utf8(seq![c]) =~= encode_scalar(v));
    }
    if v <= 0x7F {
        1
    } else if v <= 0x7FF {
        2
    } else if v <= 0xFFFF {
        3
    } else {
        4
    }
}

/// Splits `s` at each occurrence of `c`, as `str::split` with a `char` does.
pub fn split_on<'a>(s: &'a str, c: char) -> (r: Vec<&'a str>)
    ensures
        r@.map_values(|x: &str| x@) == pieces(s@, c),
{
    let mut out: Vec<&'a str> = Vec::new();
    let mut rest: &'a str = s;
    loop
        invariant
            out@.map_values(|x: &str| x@) + pieces(rest@, c) == pieces(s@, c),
        decreases rest@.len(),
    {
        match find_char(rest, c) {
            None => {
                proof {
                    assert(first_char_index(rest@, c) is None);
                    assert(out@.push(rest).map_values(|x: &str| x@) =~= out@.map_values(|x: &str| x@) + pieces(rest@, c));
                }
                out.push(rest);
                return out;
            },
            Some(i) => {
                let ghost k = first_char_index(rest@, c)->0;
                let ghost rs = rest@;
                proof {
                    let kk = choose|kk: int|
                        0 <= kk < rs.len() && rs[kk] == c && (forall|j: int| 0 <= j < kk ==> rs[j] != c) && i
                            == encode_utf8(rs.take(kk)).len();
                    assert(rs.contains(c));
                    assert(k == kk);
                    lemma_prefix_boundary(rs, k);
                    lemma_encode_split(rs, k);
                }
                let (head, tail) = rest.split_at(i);
                proof {
                    assert(head.spec_bytes() =~= encode_utf8(rs.take(k)));
                    assert(tail.spec_bytes() =~= encode_utf8(rs.skip(k)));
                    encode_utf8_decode_utf8(head@);
                    encode_utf8_decode_utf8(rs.take(k));
                    encode_utf8_decode_utf8(tail@);
                    encode_utf8_decode_utf8(rs.skip(k));
                    assert(head@ == rs.take(k));
                    assert(tail@ == rs.skip(k));
                    assert(tail@.take(1) =~= seq![c]);
                    lemma_prefix_boundary(tail@, 1);
                    lemma_encode_split(tail@, 1);
                }
                let w = char_width(c);
                let (_, next) = tail.split_at(w);
                proof {
                    let ts = tail.spec_bytes();
                    assert(next.spec_bytes() =~= encode_utf8(tail@.skip(1)));
                    encode_utf8_decode_utf8(next@);
                    encode_utf8_decode_utf8(tail@.skip(1));
                    assert(next@ == rs.skip(k + 1));
                    assert(pieces(rs, c) == seq![rs.take(k)] + pieces(rs.skip(k + 1), c));
                    assert(out@.push(head).map_values(|x: &str| x@) =~= out@.map_values(|x: &str| x@) + seq![rs.take(k)]);
                    assert(out@.push(head).map_values(|x: &str| x@) + pieces(next@, c) =~= out@.map_values(|x: &str| x@)
                        + pieces(rs, c));
                }
                out.push(head);
                rest = next;
            },
        }
    }
}

/// The first character of `s`, if it has one.
pub fn first_char(s: &str) -> (r: Option<char>)
    ensures
        s@.len() > 0 ==> r == Some(s@[0]),
        s@.len() == 0 ==> r is None,
{
    broadcast use {vstd::string::axiom_spec_iter, vstd::string::next_postcondition};

    let mut it = s.chars();
    it.next()
}

/// Copies of all but the first of `parts`.
fn owned_after_first(parts: &Vec<&str>) -> (r: Vec<String>)
    ensures
        parts@.len() >= 1 ==> r@.map_values(|d: String| d@) == parts@.map_values(|x: &str| x@).drop_first(),
{
    let mut definitions: Vec<String> = Vec::new();
    if parts.len() == 0 {
        return definitions;
    }
    let mut k: usize = 1;
    while k < parts.len()
        invariant
            1 <= k <= parts@.len(),
            definitions@.len() == k - 1,
            forall|q: int| 0 <= q < k - 1 ==> (#[trigger] definitions@[q])@ == parts@[q + 1]@,
        decreases parts@.len() - k,
    {
        definitions.push(parts[k].to_owned());
        k = k + 1;
    }
    assert(definitions@.map_values(|d: String| d@) =~= parts@.map_values(|x: &str| x@).drop_first());
    definitions
}

/// A word of the Chinese word list; a word is one idea written with one or
/// more characters.
#[derive(Clone, Debug)]
pub struct Word {
    pub traditional: String,
    pub simplified: String,
    pub pinyin: String,
    pub definitions: Vec<String>,
    pub occurrences: usize,
    pub occurrence_rank: usize,
}

/// A line of the word list describes a word: it has a space after the
/// traditional form, and a `[` that comes no later than the first `]`.
pub open spec fn describes_word(line: Seq<char>) -> bool {
    &&& pieces(line, ' ').len() >= 2
    &&& first_byte_index(line, '[') is Some
    &&& first_byte_index(line, ']') is Some
    &&& first_byte_index(line, '[')->0 <= first_byte_index(line, ']')->0
}

/// Reads one line of the word list: traditional form, a space, simplified
/// form, a space, pinyin from `[` up to `]`, and definitions after each
/// `/`. Counts and ranks start at zero.
pub fn line_to_word(line: &str) -> (r: Option<Word>)
    ensures
        r is Some <==> describes_word(line@),
        r matches Some(w) ==> {
            &&& w.traditional@ == pieces(line@, ' ')[0]
            &&& w.simplified@ == pieces(line@, ' ')[1]
            &&& encode_utf8(w.pinyin@) == line.spec_bytes().subrange(
                first_byte_index(line@, '[')->0,
                first_byte_index(line@, ']')->0,
            )
            &&& w.definitions@.map_values(|d: String| d@) == pieces(line@, '/').drop_first()
            &&& w.occurrences == 0
            &&& w.occurrence_rank == 0
        },
{
    let split_space = split_on(line, ' ');
    let parts0 = split_on(line, '/');
    proof {
        assert(parts0@.map_values(|x: &str| x@).len() >= 1) by {
            reveal_with_fuel(pieces, 1);
        }
        assert(split_space@.map_values(|x: &str| x@).len() == pieces(line@, ' ').len());
        if split_space@.len() >= 2 {
            assert(split_space@.map_values(|x: &str| x@)[0] == split_space@[0]@);
            assert(split_space@.map_values(|x: &str| x@)[1] == split_space@[1]@);
        }
    }
    if split_space.len() < 2 {
        return None;
    }
    let pinyin = match between(line, '[', ']') {
        Some(p) => p.to_owned(),
        None => return None,
    };
    let traditional = split_space[0].to_owned();
    let simplified = split_space[1].to_owned();
    let definitions = owned_after_first(&parts0);
    Some(Word { traditional, simplified, pinyin, definitions, occurrences: 0, occurrence_rank: 0 })
}

/// A line of the word list that is not a comment: it does not start with
/// `#`.
pub fn is_valid_line(ln: &str) -> (r: bool)
    ensures
        r == !(ln.spec_bytes().len() > 0 && ln.spec_bytes()[0] == 35),
{
    let b = ln.as_bytes();
    !(b.len() > 0 && b[0] == 35)
}

} // verus!
