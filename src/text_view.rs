use std::rc::Rc;
use vstd::prelude::*;
use vstd::string::StringSliceAdditionalSpecFns;
use vstd::utf8::*;

verus! {

broadcast use {
    is_char_boundary_start_end_of_seq,
    is_char_boundary_iff_not_is_continuation_byte,
    valid_utf8_split,
    decode_utf8_split,
    encode_utf8_valid_utf8,
    encode_utf8_decode_utf8,
};

/// A byte range of a shared, immutable text buffer.
///
/// Views never copy text: sub-views share the buffer of the view they were
/// taken from, and stay valid for as long as any of them is alive. Both ends
/// of a view always lie on character boundaries.
pub struct TextView {
    buffer: Rc<String>,
    start: usize,
    end: usize,
}

impl TextView {
    /// The UTF-8 bytes of the whole buffer that this view points into.
    pub closed spec fn buffer_bytes(&self) -> Seq<u8> {
        encode_utf8(self.buffer@)
    }

    /// Byte offset of the first byte of the view within its buffer.
    pub closed spec fn lo(&self) -> int {
        self.start as int
    }

    /// Byte offset one past the last byte of the view within its buffer.
    pub closed spec fn hi(&self) -> int {
        self.end as int
    }

    /// The view is a range of its buffer whose ends are character boundaries.
    pub closed spec fn wf(&self) -> bool {
        &&& self.start <= self.end
        &&& self.end <= self.buffer_bytes().len()
        &&& is_char_boundary(self.buffer_bytes(), self.start as int)
        &&& is_char_boundary(self.buffer_bytes(), self.end as int)
    }

    /// The bytes that the view covers.
    pub open spec fn bytes(&self) -> Seq<u8> {
        self.buffer_bytes().subrange(self.lo(), self.hi())
    }

    /// The characters that the view covers.
    pub open spec fn chars(&self) -> Seq<char> {
        decode_utf8(self.bytes())
    }

    /// Two views cover the same range of the same text.
    pub open spec fn same_view(&self, other: &TextView) -> bool {
        self.buffer_bytes() == other.buffer_bytes() && self.lo() == other.lo() && self.hi() == other.hi()
    }

    /// Views that cover the same range of the same text are alike.
    pub proof fn lemma_same_view(&self, other: &TextView)
        requires
            self.same_view(other),
        ensures
            self.wf() == other.wf(),
            self.bytes() == other.bytes(),
            self.chars() == other.chars(),
    {
    }

    /// Two views point into the same buffer.
    pub open spec fn shares_buffer(&self, other: &TextView) -> bool {
        self.buffer_bytes() == other.buffer_bytes()
    }

    /// Takes ownership of a whole text and returns a view of all of it.
    pub fn new(content: String) -> (r: TextView)
        ensures
            r.wf(),
            r.chars() == content@,
            r.lo() == 0,
            r.hi() == r.buffer_bytes().len(),
    {
        let len = content.as_str().as_bytes().len();
        proof {
            let b = encode_utf8(content@);
            encode_utf8_valid_utf8(content@);
            encode_utf8_decode_utf8(content@);
            is_char_boundary_start_end_of_seq(b);
            assert(b.subrange(0, b.len() as int) =~= b);
        }
        let ghost c = content@;
        let r = TextView { buffer: Rc::new(content), start: 0, end: len };
        assert(r.bytes() =~= encode_utf8(c));
        r
    }

    /// A second handle on the same view; the text is shared, not copied.
    pub fn share(&self) -> (r: TextView)
        ensures
            r.buffer_bytes() == self.buffer_bytes(),
            r.lo() == self.lo(),
            r.hi() == self.hi(),
            self.wf() ==> r.wf(),
    {
        TextView { buffer: share_buffer(&self.buffer), start: self.start, end: self.end }
    }

    /// The text that the view covers.
    pub fn text(&self) -> (r: &str)
        requires
            self.wf(),
        ensures
            r@ == self.chars(),
            r.spec_bytes() == self.bytes(),
    {
        let whole = self.buffer.as_str();
        let ghost b = whole.spec_bytes();
        let (_, rest) = whole.split_at(self.start);
        proof {
            let k = (self.end - self.start) as int;
            let rb = rest.spec_bytes();
            assert(rb =~= b.subrange(self.start as int, b.len() as int));
            valid_utf8_split(b, self.start as int);
            is_char_boundary_start_end_of_seq(rb);
            if 0 < k < rb.len() {
                assert(rb[k] == b[self.end as int]);
                is_char_boundary_iff_not_is_continuation_byte(b, self.end as int);
                is_char_boundary_iff_not_is_continuation_byte(rb, k);
            }
        }
        let (mid, _) = rest.split_at(self.end - self.start);
        proof {
            assert(mid.spec_bytes() =~= self.bytes());
            assert(decode_utf8(encode_utf8(mid@)) == mid@);
        }
        mid
    }
}

/// The spans, relative to the start of `b`, that segmentation cuts while it
/// scans `b` from `pos` for non-overlapping occurrences of the delimiter `d`.
///
/// `last` is where the pending span starts and `acc` counts the delimiter
/// bytes met since the last cut. A span ends where the delimiter occurrence
/// that makes `acc` exceed `min_bytes` begins; the next span begins there.
/// Whatever follows the last cut is not part of any span.
pub open spec fn cut_spans(b: Seq<u8>, d: Seq<u8>, min_bytes: int, pos: int, last: int, acc: int) -> Seq<(int, int)>
    decreases b.len() - pos,
{
    if d.len() == 0 || pos < 0 || pos + d.len() > b.len() {
        seq![]
    } else if b.subrange(pos, pos + d.len()) == d {
        if acc + d.len() > min_bytes {
            seq![(last, pos)] + cut_spans(b, d, min_bytes, pos + d.len(), pos, 0)
        } else {
            cut_spans(b, d, min_bytes, pos + d.len(), last, acc + d.len())
        }
    } else {
        cut_spans(b, d, min_bytes, pos + 1, last, acc)
    }
}

/// The spans of `b` that segmentation on `d` with threshold `min_bytes` yields.
pub open spec fn split_spans(b: Seq<u8>, d: Seq<u8>, min_bytes: int) -> Seq<(int, int)> {
    cut_spans(b, d, min_bytes, 0, 0, 0)
}

/// The number of non-overlapping occurrences of `d` in `b` from `pos` on,
/// found left to right.
pub open spec fn occurrences(b: Seq<u8>, d: Seq<u8>, pos: int) -> nat
    decreases b.len() - pos,
{
    if d.len() == 0 || pos < 0 || pos + d.len() > b.len() {
        0
    } else if b.subrange(pos, pos + d.len()) == d {
        1 + occurrences(b, d, pos + d.len())
    } else {
        occurrences(b, d, pos + 1)
    }
}

/// With no threshold, scanning from any point cuts once per occurrence of
/// the delimiter.
pub proof fn lemma_cuts_without_threshold(b: Seq<u8>, d: Seq<u8>, pos: int, last: int)
    requires
        0 <= pos,
    ensures
        cut_spans(b, d, 0, pos, last, 0).len() == occurrences(b, d, pos),
    decreases b.len() - pos,
{
    if d.len() == 0 || pos + d.len() > b.len() {
    } else if b.subrange(pos, pos + d.len()) == d {
        lemma_cuts_without_threshold(b, d, pos + d.len(), pos);
    } else {
        lemma_cuts_without_threshold(b, d, pos + 1, last);
    }
}

/// A threshold that the delimiter bytes still to come cannot pass leaves
/// nothing to cut.
pub proof fn lemma_cuts_past_threshold(b: Seq<u8>, d: Seq<u8>, min_bytes: int, pos: int, last: int, acc: int)
    requires
        0 <= pos,
        0 <= acc <= pos,
        b.len() <= min_bytes,
    ensures
        cut_spans(b, d, min_bytes, pos, last, acc).len() == 0,
    decreases b.len() - pos,
{
    if d.len() == 0 || pos + d.len() > b.len() {
    } else if b.subrange(pos, pos + d.len()) == d {
        lemma_cuts_past_threshold(b, d, min_bytes, pos + d.len(), last, acc + d.len());
    } else {
        lemma_cuts_past_threshold(b, d, min_bytes, pos + 1, last, acc);
    }
}

/// Segmentation with `min_bytes == 0` yields one span per non-overlapping
/// occurrence of the delimiter (what follows the last one is dropped), and a
/// threshold at least as large as the text yields no span.
pub proof fn lemma_split_boundary(b: Seq<u8>, d: Seq<u8>, min_bytes: int)
    ensures
        split_spans(b, d, 0).len() == occurrences(b, d, 0),
        b.len() <= min_bytes ==> split_spans(b, d, min_bytes).len() == 0,
{
    lemma_cuts_without_threshold(b, d, 0, 0);
    if b.len() <= min_bytes {
        lemma_cuts_past_threshold(b, d, min_bytes, 0, 0, 0);
    }
}

/// Whether `d` occurs in `b` at byte `i`.
fn occurs_at(b: &[u8], d: &[u8], i: usize) -> (r: bool)
    requires
        i + d@.len() <= b@.len(),
    ensures
        r == (b@.subrange(i as int, i + d@.len()) == d@),
{
    let blen = b.len();
    let mut j: usize = 0;
    while j < d.len()
        invariant
            j <= d@.len(),
            blen == b@.len(),
            i + d@.len() <= b@.len(),
            forall|k: int| 0 <= k < j ==> b@[i + k] == d@[k],
        decreases d@.len() - j,
    {
        if b[i + j] != d[j] {
            assert(b@.subrange(i as int, i + d@.len())[j as int] != d@[j as int]);
            return false;
        }
        j = j + 1;
    }
    assert(b@.subrange(i as int, i + d@.len()) =~= d@);
    true
}

/// Cuts `text` into consecutive views at occurrences of `delimiter`.
///
/// Scanning left to right for non-overlapping occurrences, a view is cut each
/// time the delimiter bytes met since the previous cut exceed `min_bytes`;
/// it runs from the previous cut to the start of that occurrence. With
/// `min_bytes == 0` every occurrence cuts. The text after the last cut is
/// dropped. An empty delimiter cuts nothing.
pub fn split_text_ref(text: &TextView, delimiter: &str, min_bytes: usize) -> (r: Vec<TextView>)
    requires
        text.wf(),
    ensures
        r@.len() == split_spans(text.bytes(), delimiter.spec_bytes(), min_bytes as int).len(),
        forall|k: int|
            0 <= k < r@.len() ==> {
                let span = split_spans(text.bytes(), delimiter.spec_bytes(), min_bytes as int)[k];
                &&& (#[trigger] r@[k]).wf()
                &&& r@[k].shares_buffer(text)
                &&& r@[k].lo() == text.lo() + span.0
                &&& r@[k].hi() == text.lo() + span.1
            },
{
    let whole: &[u8] = text.buffer.as_str().as_bytes();
    let d: &[u8] = delimiter.as_bytes();
    let ghost bb = text.buffer_bytes();
    let ghost b = text.bytes();
    let ghost dd = d@;
    let ghost m = min_bytes as int;
    let total = whole.len();
    let n = text.end - text.start;
    let dlen = d.len();
    let mut out: Vec<TextView> = Vec::new();
    let ghost mut done: Seq<(int, int)> = seq![];
    let mut last: usize = 0;
    let mut acc: usize = 0;
    let mut i: usize = 0;
    proof {
        encode_utf8_valid_utf8(delimiter@);
        if dd.len() > 0 {
            is_char_boundary_start_end_of_seq(dd);
            is_char_boundary_iff_not_is_continuation_byte(dd, 0);
        }
        encode_utf8_valid_utf8(text.buffer@);
    }
    if dlen == 0 {
        return out;
    }
    while i < n && dlen <= n - i
        invariant
            whole@ == bb,
            bb == text.buffer_bytes(),
            d@ == dd,
            m == min_bytes as int,
            b == bb.subrange(text.start as int, text.end as int),
            text.wf(),
            valid_utf8(bb),
            n == b.len(),
            total == bb.len(),
            text.start + n == text.end,
            text.end <= total,
            dd.len() == dlen > 0,
            !is_continuation_byte(dd[0]),
            i <= n,
            last <= i,
            acc <= min_bytes,
            is_char_boundary(bb, text.start + last),
            out@.len() == done.len(),
            done + cut_spans(b, dd, m, i as int, last as int, acc as int) == split_spans(b, dd, m),
            forall|k: int|
                0 <= k < out@.len() ==> {
                    &&& out@[k].wf()
                    &&& out@[k].shares_buffer(text)
                    &&& out@[k].lo() == text.lo() + done[k].0
                    &&& out@[k].hi() == text.lo() + done[k].1
                },
        decreases n - i,
    {
        let at = text.start + i;
        proof {
            assert(bb.subrange(at as int, at + dlen) =~= b.subrange(i as int, i + dlen));
        }
        if occurs_at(whole, d, at) {
            proof {
                assert(b.subrange(i as int, i + dlen)[0] == dd[0]);
                is_char_boundary_iff_not_is_continuation_byte(bb, at as int);
            }
            if dlen > min_bytes - acc {
                let piece = TextView {
                    buffer: share_buffer(&text.buffer),
                    start: text.start + last,
                    end: at,
                };
                proof {
                    assert(bb[at as int] == dd[0]);
                    assert(is_char_boundary(bb, at as int));

                    assert(piece.shares_buffer(text));
                    let old_done = done;
                    done = done.push((last as int, i as int));
                    assert(seq![(last as int, i as int)] + cut_spans(b, dd, m, i + dlen, i as int, 0)
                        == cut_spans(b, dd, m, i as int, last as int, acc as int));
                    assert(done + cut_spans(b, dd, m, i + dlen, i as int, 0)
                        =~= old_done + (seq![(last as int, i as int)] + cut_spans(b, dd, m, i + dlen, i as int, 0)));
                }
                out.push(piece);
                last = i;
                acc = 0;
            } else {
                acc = acc + dlen;
            }
            i = i + dlen;
        } else {
            i = i + 1;
        }
    }
    proof {
        assert(cut_spans(b, dd, m, i as int, last as int, acc as int) =~= seq![]);
        assert(done =~= split_spans(b, dd, m));
    }
    out
}

/// Relies on `Rc::clone`: the new handle points to the same value.
#[verifier::external_body]
fn share_buffer(b: &Rc<String>) -> (r: Rc<String>)
    ensures
        r@ == b@,
{
    Rc::clone(b)
}

} // verus!
