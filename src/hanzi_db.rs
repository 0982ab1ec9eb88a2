use vstd::prelude::*;
use crate::word_list::{first_char, pieces, split_on};
use vstd::string::StringSliceAdditionalSpecFns;
use vstd::utf8::encode_utf8;

verus! {

/// What the character table records of one character.
#[derive(Clone, Debug)]
pub struct Character {
    pub frequency_rank: usize,
    pub simplified: char,
    pub pinyin: String,
    pub definitions: Vec<String>,
    pub stroke_count: usize,
    pub hsk_level: usize,
}

/// A table of characters, each with its frequency rank.
pub struct HanziDb {
    characters: Vec<Character>,
}

/// The value of the decimal digits `b`.
pub open spec fn digits_value(b: Seq<u8>) -> int
    decreases b.len(),
{
    if b.len() == 0 {
        0
    } else {
        digits_value(b.drop_last()) * 10 + (b.last() - 48)
    }
}

/// All of `b` are ASCII digits.
pub open spec fn all_digits(b: Seq<u8>) -> bool {
    forall|i: int| 0 <= i < b.len() ==> 48 <= #[trigger] b[i] <= 57
}

/// The unsigned integer that `b` writes in decimal, with an optional leading
/// `+`, if it has digits only and fits a `usize`.
pub open spec fn parse_usize_spec(b: Seq<u8>) -> Option<int> {
    let d = if b.len() > 0 && b[0] == 43 { b.drop_first() } else { b };
    if d.len() > 0 && all_digits(d) && digits_value(d) <= usize::MAX {
        Some(digits_value(d))
    } else {
        None
    }
}

/// Reads a decimal `usize` as `str::parse::<usize>` does.
pub fn parse_usize(s: &str) -> (r: Option<usize>)
    ensures
        r matches Some(v) ==> parse_usize_spec(s.spec_bytes()) == Some(v as int),
        r is None ==> parse_usize_spec(s.spec_bytes()) is None,
{
    let b = s.as_bytes();
    let n = b.len();
    let mut i: usize = 0;
    if n > 0 && b[0] == 43 {
        i = 1;
    }
    let ghost d = b@.subrange(i as int, n as int);
    proof {
        if n > 0 && b@[0] == 43 {
            assert(d =~= b@.drop_first());
        } else {
            assert(d =~= b@);
        }
    }
    if i == n {
        return None;
    }
    let start = i;
    let mut v: usize = 0;
    while i < n
        invariant
            b@ == s.spec_bytes(),
            n == b@.len(),
            start <= i <= n,
            d == b@.subrange(start as int, n as int),
            d == (if b@.len() > 0 && b@[0] == 43 { b@.drop_first() } else { b@ }),
            d.len() > 0,
            all_digits(b@.subrange(start as int, i as int)),
            v == digits_value(b@.subrange(start as int, i as int)),
        decreases n - i,
    {
        let c = b[i];
        proof {
            assert(b@.subrange(start as int, i + 1).drop_last() =~= b@.subrange(start as int, i as int));
        }
        if c < 48 || c > 57 {
            proof {
                assert(d[i - start] == c);
                assert(!(48 <= d[i - start] <= 57));
                assert(!all_digits(d));
            }
            return None;
        }
        let digit = (c - 48) as usize;
        if v > (usize::MAX - digit) / 10 {
            proof {
                if all_digits(d) {
                    lemma_digits_grow(d, i - start + 1);
                    assert(d.subrange(0, i - start + 1) =~= b@.subrange(start as int, i + 1));
                    assert(v * 10 + digit > usize::MAX) by (nonlinear_arith)
                        requires
                            v > (usize::MAX - digit) / 10,
                            0 <= digit <= 9,
                    ;
                }
            }
            return None;
        }
        v = v * 10 + digit;
        i = i + 1;
    }
    proof {
        assert(b@.subrange(start as int, n as int) =~= d);
    }
    Some(v)
}

/// A prefix of digits is worth no more than the whole.
pub proof fn lemma_digits_grow(d: Seq<u8>, k: int)
    requires
        0 <= k <= d.len(),
    ensures
        all_digits(d) ==> digits_value(d.subrange(0, k)) <= digits_value(d),
    decreases d.len() - k,
{
    if k < d.len() && all_digits(d) {
        lemma_digits_grow(d, k + 1);
        assert(d.subrange(0, k + 1).drop_last() =~= d.subrange(0, k));
        assert(all_digits(d.subrange(0, k))) by {
            assert forall|i: int| 0 <= i < k implies 48 <= #[trigger] d.subrange(0, k)[i] <= 57 by {
                assert(d.subrange(0, k)[i] == d[i]);
            }
        }
        lemma_digits_nonneg(d.subrange(0, k));
    } else if k == d.len() {
        assert(d.subrange(0, k) =~= d);
    }
}

/// Digits are worth at least zero.
pub proof fn lemma_digits_nonneg(d: Seq<u8>)
    requires
        all_digits(d),
    ensures
        digits_value(d) >= 0,
    decreases d.len(),
{
    if d.len() > 0 {
        assert(all_digits(d.drop_last())) by {
            assert forall|i: int| 0 <= i < d.drop_last().len() implies 48 <= #[trigger] d.drop_last()[i] <= 57 by {
                assert(d.drop_last()[i] == d[i]);
            }
        }
        lemma_digits_nonneg(d.drop_last());
    }
}

/// The number in field `index` of a table row, if the row has that field
/// and it is a decimal `usize`.
pub fn usize_from_row_item(row: &Vec<&str>, index: usize) -> (r: Option<usize>)
    ensures
        index >= row@.len() ==> r is None,
        index < row@.len() ==> (r is None <==> parse_usize_spec(row@[index as int].spec_bytes()) is None),
        r matches Some(x) ==> index < row@.len() && parse_usize_spec(row@[index as int].spec_bytes()) == Some(x as int),
{
    if index >= row.len() {
        return None;
    }
    parse_usize(row[index])
}

/// The number that field `i` of `fields` writes in decimal, if it does.
pub open spec fn field_number(fields: Seq<Seq<char>>, i: int) -> Option<int> {
    if 0 <= i < fields.len() {
        parse_usize_spec(encode_utf8(fields[i]))
    } else {
        None
    }
}

/// A line of the character table describes a character: it has eight
/// comma-separated fields, numbers in the first, seventh and eighth, and a
/// character at the start of the second.
pub open spec fn describes_character(line: Seq<char>) -> bool {
    let f = pieces(line, ',');
    &&& f.len() >= 8
    &&& field_number(f, 0) is Some
    &&& f[1].len() > 0
    &&& field_number(f, 6) is Some
    &&& field_number(f, 7) is Some
}

/// Reads one line of the character table: frequency rank, character,
/// pinyin, `;`-separated definitions, radical, radical code, stroke count
/// and HSK level, separated by commas.
pub fn line_to_character(line: &str) -> (r: Option<Character>)
    ensures
        r is Some <==> describes_character(line@),
        r matches Some(ch) ==> {
            let f = pieces(line@, ',');
            &&& ch.frequency_rank as int == field_number(f, 0)->0
            &&& ch.simplified == f[1][0]
            &&& ch.pinyin@ == f[2]
            &&& ch.definitions@.map_values(|d: String| d@) == pieces(f[3], ';')
            &&& ch.stroke_count as int == field_number(f, 6)->0
            &&& ch.hsk_level as int == field_number(f, 7)->0
        },
{
    let row = split_on(line, ',');
    let ghost f = pieces(line@, ',');
    if row.len() < 8 {
        proof {
            assert(row@.map_values(|x: &str| x@).len() == f.len());
        }
        return None;
    }
    let parts = split_on(row[3], ';');
    let mut definitions: Vec<String> = Vec::new();
    let mut k: usize = 0;
    while k < parts.len()
        invariant
            k <= parts@.len(),
            definitions@.len() == k,
            forall|q: int| 0 <= q < k ==> (#[trigger] definitions@[q])@ == parts@[q]@,
        decreases parts@.len() - k,
    {
        definitions.push(parts[k].to_owned());
        k = k + 1;
    }
    proof {
        assert(definitions@.map_values(|d: String| d@) =~= parts@.map_values(|x: &str| x@));
        assert forall|i: int| 0 <= i < row@.len() implies (#[trigger] row@[i])@ == f[i] by {
            assert(row@.map_values(|x: &str| x@)[i] == row@[i]@);
        }
        assert(row@.map_values(|x: &str| x@).len() == f.len());
        assert(row@[0].spec_bytes() == encode_utf8(f[0]));
        assert(row@[6].spec_bytes() == encode_utf8(f[6]));
        assert(row@[7].spec_bytes() == encode_utf8(f[7]));
    }
    let frequency_rank = match usize_from_row_item(&row, 0) {
        Some(v) => v,
        None => return None,
    };
    let simplified = match first_char(row[1]) {
        Some(c) => c,
        None => return None,
    };
    let stroke_count = match usize_from_row_item(&row, 6) {
        Some(v) => v,
        None => return None,
    };
    let hsk_level = match usize_from_row_item(&row, 7) {
        Some(v) => v,
        None => return None,
    };
    let pinyin = row[2].to_owned();
    Some(Character { frequency_rank, simplified, pinyin, definitions, stroke_count, hsk_level })
}

impl HanziDb {
    /// The characters of the table.
    pub closed spec fn characters_spec(&self) -> Seq<Character> {
        self.characters@
    }

    /// A table of the given characters.
    pub fn new(characters: Vec<Character>) -> (r: HanziDb)
        ensures
            r.characters_spec() == characters@,
    {
        HanziDb { characters }
    }

    /// The number of characters of the table.
    pub fn character_count(&self) -> (r: usize)
        ensures
            r == self.characters_spec().len(),
    {
        self.characters.len()
    }

    /// The difficulty of `c`: the frequency rank of its entry (the last one,
    /// where the table repeats it, as a table keyed by character keeps), or
    /// twice the size of the table for a character that it lacks.
    pub fn difficulty(&self, c: char) -> (r: u128)
        ensures
            (exists|i: int| 0 <= i < self.characters_spec().len() && self.characters_spec()[i].simplified == c)
                ==> exists|i: int|
                0 <= i < self.characters_spec().len() && self.characters_spec()[i].simplified == c && (forall|k: int|
                    i < k < self.characters_spec().len() ==> self.characters_spec()[k].simplified != c) && r
                    == self.characters_spec()[i].frequency_rank,
            (forall|i: int| 0 <= i < self.characters_spec().len() ==> self.characters_spec()[i].simplified != c)
                ==> r == 2 * self.characters_spec().len(),
    {
        let n = self.characters.len();
        let mut i: usize = n;
        while i > 0
            invariant
                n == self.characters_spec().len(),
                i <= n,
                forall|k: int| i <= k < n ==> self.characters_spec()[k].simplified != c,
            decreases i,
        {
            if self.characters[i - 1].simplified == c {
                return self.characters[i - 1].frequency_rank as u128;
            }
            i = i - 1;
        }
        2 * (n as u128)
    }
}

} // verus!
