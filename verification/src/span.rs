//! Spans: zero-copy descriptors of a byte range of a borrowed UTF-8 buffer,
//! with the line and column at which the range starts, and the
//! character-class-bounded `consume` operation that all scanning is built on.

use crate::encoding::{
    byte_offset, col_after, lemma_byte_offset_bounds, lemma_byte_offset_mono,
    lemma_byte_offset_skip, lemma_byte_offset_succ, lemma_encode_concat, lemma_encode_injective,
    lemma_encode_len_bounds, lemma_encode_scalar_len, lemma_line_col_bounds,
    lemma_offset_is_boundary, lemma_offset_subrange, lemma_run_len_exact, lemma_singleton,
    newline_count, run_len,
};
use vstd::prelude::*;
use vstd::std_specs::iter::IteratorSpec;
use vstd::string::{StringExecFns, StringSliceAdditionalSpecFns};
use vstd::utf8::*;

verus! {

broadcast use vstd::string::group_string_axioms;

/// A character class: anything that can answer whether it contains a
/// character may bound a [`Span::consume`] call.
pub trait ContainsChar {
    /// What the class contains, as a mathematical predicate on characters.
    spec fn spec_contains(&self, c: char) -> bool;

    /// Whether `c` belongs to the class.
    fn contains_char(&self, c: char) -> (r: bool)
        ensures
            r == self.spec_contains(c),
    ;
}

/// A single literal character is the class holding exactly itself.
impl ContainsChar for char {
    open spec fn spec_contains(&self, c: char) -> bool {
        *self == c
    }

    fn contains_char(&self, c: char) -> (r: bool) {
        *self == c
    }
}

/// A string is the class of the characters it holds.
impl<'a> ContainsChar for &'a str {
    open spec fn spec_contains(&self, c: char) -> bool {
        self@.contains(c)
    }

    fn contains_char(&self, c: char) -> (r: bool) {
        let mut it = self.chars();
        let ghost mut k: int = 0;
        loop
            invariant
                0 <= k <= self@.len(),
                it.remaining() =~= self@.skip(k),
                forall|i: int| 0 <= i < k ==> self@[i] != c,
            decreases self@.len() - k,
        {
            match it.next() {
                Some(d) => {
                    if d == c {
                        assert(self@[k] == c);
                        return true;
                    }
                    proof {
                        k = k + 1;
                    }
                },
                None => {
                    assert(self@.skip(k).len() == 0);
                    assert(forall|i: int| 0 <= i < self@.len() ==> self@[i] != c);
                    return false;
                },
            }
        }
    }
}

/// An exclusive character range is the class of the characters between its
/// bounds, the upper one excluded.
impl ContainsChar for core::ops::Range<char> {
    open spec fn spec_contains(&self, c: char) -> bool {
        self.start <= c < self.end
    }

    fn contains_char(&self, c: char) -> (r: bool) {
        self.start <= c && c < self.end
    }
}

/// Relies on `RangeInclusive::start`: it returns the range's lower bound.
pub assume_specification<Idx>[ core::ops::RangeInclusive::<Idx>::start ](
    r: &core::ops::RangeInclusive<Idx>,
) -> (ret: &Idx)
    ensures
        *ret == r@.start,
;

/// Relies on `RangeInclusive::end`: it returns the range's upper bound.
pub assume_specification<Idx>[ core::ops::RangeInclusive::<Idx>::end ](
    r: &core::ops::RangeInclusive<Idx>,
) -> (ret: &Idx)
    ensures
        *ret == r@.end,
;

/// An inclusive character range is the class of the characters between its
/// bounds.
impl ContainsChar for core::ops::RangeInclusive<char> {
    open spec fn spec_contains(&self, c: char) -> bool {
        self@.start <= c <= self@.end
    }

    fn contains_char(&self, c: char) -> (r: bool) {
        *self.start() <= c && c <= *self.end()
    }
}

/// A pair of classes is their union: the class of the characters either
/// side contains.
impl<A: ContainsChar, B: ContainsChar> ContainsChar for (A, B) {
    open spec fn spec_contains(&self, c: char) -> bool {
        self.0.spec_contains(c) || self.1.spec_contains(c)
    }

    fn contains_char(&self, c: char) -> (r: bool) {
        self.0.contains_char(c) || self.1.contains_char(c)
    }
}

/// The predicate a class stands for, in the form the run-length model uses.
pub open spec fn class_pred<CC: ContainsChar>(valid: CC) -> spec_fn(char) -> bool {
    |c: char| valid.spec_contains(c)
}

/// Number of bytes the UTF-8 encoding of `c` occupies: one for scalar values
/// up to 0x7F, two up to 0x7FF, three up to 0xFFFF, four above.
pub fn bytes_per_char(c: char) -> (r: usize)
    ensures
        r == encode_scalar(c as u32).len(),
        1 <= r <= 4,
{
    proof {
        broadcast use vstd::utf8::char_is_scalar;

    }
    let u = c as u32;
    if u < 0x80 {
        1
    } else if u < 0x800 {
        2
    } else if u < 0x10000 {
        3
    } else {
        4
    }
}

/// The mathematical value of a [`Span`]: the buffer's characters, the
/// character range the span covers, and the line and column at which the
/// range starts.
pub ghost struct SpanModel {
    /// The characters of the whole underlying buffer.
    pub buf: Seq<char>,
    /// Character index at which the span starts.
    pub lo: int,
    /// Character index one past the last character of the span.
    pub hi: int,
    /// 1-based line of the character at `lo`.
    pub line: int,
    /// 1-based column of the character at `lo`.
    pub col: int,
}

impl SpanModel {
    /// Byte offset of the span's start within the buffer's UTF-8 encoding.
    pub open spec fn first_byte(self) -> int {
        byte_offset(self.buf, self.lo)
    }

    /// Byte offset one past the span's last byte.
    pub open spec fn last_byte(self) -> int {
        byte_offset(self.buf, self.hi)
    }

    /// The UTF-8 encoding of the whole buffer.
    pub open spec fn bytes(self) -> Seq<u8> {
        encode_utf8(self.buf)
    }

    /// The characters the span covers.
    pub open spec fn text(self) -> Seq<char> {
        self.buf.subrange(self.lo, self.hi)
    }

    /// Well-formedness: the character range lies within the buffer, the
    /// buffer fits in an addressable allocation, and line and column are
    /// 1-based and no larger than the traversed prefix allows.
    pub open spec fn wf(self) -> bool {
        &&& 0 <= self.lo <= self.hi <= self.buf.len()
        &&& encode_utf8(self.buf).len() <= usize::MAX as int / 2
        &&& 1 <= self.line && self.line - 1 <= self.lo
        &&& 1 <= self.col && self.col - 1 <= self.lo
    }
}

/// A substring of a borrowed `&str`, described by byte offsets that always
/// lie on UTF-8 character boundaries, together with the line and column of
/// its first character.
#[derive(Clone, Copy)]
pub struct Span<'a> {
    data: &'a str,
    line_num: usize,
    col_num: usize,
    first_byte: usize,
    last_byte: usize,
    lo: Ghost<int>,
    hi: Ghost<int>,
}

impl<'a> View for Span<'a> {
    type V = SpanModel;

    closed spec fn view(&self) -> SpanModel {
        SpanModel {
            buf: self.data@,
            lo: self.lo@,
            hi: self.hi@,
            line: self.line_num as int,
            col: self.col_num as int,
        }
    }
}

/// Relies on `str::len`: a string's UTF-8 encoding occupies exactly its byte
/// length, and a Rust allocation never exceeds `isize::MAX` bytes.
#[verifier::external_body]
fn byte_len(s: &str) -> (r: usize)
    ensures
        r == s.spec_bytes().len(),
        r <= usize::MAX / 2,
{
    s.len()
}

impl<'a> Span<'a> {
    /// Well-formedness: the model is well formed and the stored byte offsets
    /// are the byte offsets of the model's character range.
    pub closed spec fn wf(self) -> bool {
        &&& self@.wf()
        &&& self.first_byte == self@.first_byte()
        &&& self.last_byte == self@.last_byte()
    }

    /// Creates a new span covering all of `data`, at line 1, column 1.
    pub fn new(data: &'a str) -> (r: Self)
        ensures
            r.wf(),
            r@.buf == data@,
            r@.lo == 0,
            r@.hi == data@.len(),
            r@.line == 1,
            r@.col == 1,
    {
        let len = byte_len(data);
        proof {
            lemma_byte_offset_bounds(data@, 0);
        }
        Self {
            data,
            line_num: 1,
            col_num: 1,
            first_byte: 0,
            last_byte: len,
            lo: Ghost(0),
            hi: Ghost(data@.len() as int),
        }
    }

    /// 1-based line of the span's first character.
    pub fn line_num(&self) -> (r: usize)
        ensures
            r == self@.line,
    {
        self.line_num
    }

    /// 1-based column of the span's first character.
    pub fn col_num(&self) -> (r: usize)
        ensures
            r == self@.col,
    {
        self.col_num
    }

    /// Byte offset of the span's start.
    pub fn first_byte(&self) -> (r: usize)
        requires
            self.wf(),
        ensures
            r == self@.first_byte(),
    {
        self.first_byte
    }

    /// Byte offset one past the span's last byte.
    pub fn last_byte(&self) -> (r: usize)
        requires
            self.wf(),
        ensures
            r == self@.last_byte(),
    {
        self.last_byte
    }

    /// Returns the substring of the buffer that the span covers. O(1): the
    /// byte offsets are boundary-aligned, so the buffer is sliced directly.
    pub fn spanned(&self) -> (r: &'a str)
        requires
            self.wf(),
        ensures
            r@ == self@.text(),
    {
        slice_range(self.data, self.first_byte, self.last_byte, Ghost(self@.lo), Ghost(self@.hi))
    }

    /// The first character of the spanned text, or none if the span is empty.
    pub fn first_char(&self) -> (r: Option<char>)
        requires
            self.wf(),
        ensures
            r == (if self@.text().len() > 0 {
                Some(self@.text()[0])
            } else {
                None::<char>
            }),
    {
        let s = self.spanned();
        let mut it = s.chars();
        it.next()
    }

    /// Consumes the longest prefix of the spanned text all of whose
    /// characters `valid` contains. If that prefix is non-empty, the cursor
    /// advances past it — updating byte offset, line and column — and the
    /// prefix is returned as a new span carrying the position the cursor had
    /// before advancing; if it is empty, the cursor is left unchanged and
    /// none is returned.
    pub fn consume<CC: ContainsChar>(&mut self, valid: CC) -> (r: Option<Span<'a>>)
        requires
            old(self).wf(),
        ensures
            final (self).wf(),
            final (self)@.buf == old(self)@.buf,
            final (self)@.hi == old(self)@.hi,
            ({
                let text = old(self)@.text();
                let n = run_len(text, class_pred(valid));
                &&& (r is Some <==> n > 0)
                &&& (r is None ==> *final (self) == *old(self))
                &&& (r matches Some(sp) ==> {
                    &&& sp.wf()
                    &&& sp@.buf == old(self)@.buf
                    &&& sp@.lo == old(self)@.lo
                    &&& sp@.hi == old(self)@.lo + n
                    &&& sp@.line == old(self)@.line
                    &&& sp@.col == old(self)@.col
                    &&& sp@.text() == text.take(n)
                    &&& final (self)@.lo == old(self)@.lo + n
                    &&& final (self)@.line == old(self)@.line + newline_count(text.take(n))
                    &&& final (self)@.col == col_after(old(self)@.col, text.take(n))
                    &&& final (self)@.first_byte() == old(self)@.first_byte() + encode_utf8(
                        text.take(n),
                    ).len()
                })
            }),
    {
        let s = self.spanned();
        let ghost text = self@.text();
        let ghost buf = self@.buf;
        let ghost lo = self@.lo;
        let ghost hi = self@.hi;
        let col0 = self.col_num;
        proof {
            lemma_encode_len_bounds(buf);
            lemma_offset_subrange(buf, lo, hi);
            lemma_byte_offset_bounds(buf, lo);
            lemma_byte_offset_bounds(buf, hi);
            lemma_byte_offset_mono(buf, lo, hi);
            assert(encode_utf8(text).len() <= self@.bytes().len());
            assert(text.take(0) =~= Seq::<char>::empty());
        }
        let ghost total = encode_utf8(text).len() as int;
        let mut it = s.chars();
        let mut n: usize = 0;
        let mut consumed_bytes: usize = 0;
        let mut lines: usize = 0;
        let mut col: usize = col0;
        let mut stop = false;
        while !stop
            invariant
                0 <= n <= text.len(),
                text.len() <= usize::MAX as int / 2,
                col0 + text.len() <= usize::MAX as int / 2 + 1,
                total <= usize::MAX as int / 2,
                total == encode_utf8(text).len(),
                !stop ==> it.remaining() =~= text.skip(n as int),
                forall|i: int| 0 <= i < n ==> valid.spec_contains(#[trigger] text[i]),
                stop ==> (n == text.len() || !valid.spec_contains(text[n as int])),
                consumed_bytes == encode_utf8(text.take(n as int)).len(),
                consumed_bytes <= total,
                lines == newline_count(text.take(n as int)),
                lines <= n,
                col == col_after(col0 as int, text.take(n as int)),
                col <= col0 + n,
                1 <= col,
            decreases (if stop {
                0int
            } else {
                1int
            }) + text.len() - n,
        {
            match it.next() {
                Some(c) => {
                    if valid.contains_char(c) {
                        proof {
                            assert(c == text[n as int]);
                            assert(text.take(n + 1).drop_last() =~= text.take(n as int));
                            assert(text.take(n + 1).last() == c);
                            lemma_byte_offset_succ(text, n as int);
                            lemma_byte_offset_mono(text, n + 1, text.len() as int);
                            assert(text.take(text.len() as int) =~= text);
                            lemma_encode_scalar_len(c);
                        }
                        consumed_bytes = consumed_bytes + bytes_per_char(c);
                        n = n + 1;
                        if c == '\n' {
                            lines = lines + 1;
                            col = 1;
                        } else {
                            col = col + 1;
                        }
                    } else {
                        stop = true;
                    }
                },
                None => {
                    proof {
                        assert(text.skip(n as int).len() == 0);
                    }
                    stop = true;
                },
            }
        }
        proof {
            lemma_run_len_exact(text, class_pred(valid), n as int);
        }
        if n == 0 {
            return None;
        }
        proof {
            lemma_byte_offset_skip(buf, lo, lo + n);
            assert(buf.skip(lo).take(n as int) =~= text.take(n as int));
            lemma_byte_offset_mono(buf, lo + n, hi);
            lemma_line_col_bounds(col0 as int, text.take(n as int));
        }
        let sub = Span {
            data: self.data,
            line_num: self.line_num,
            col_num: self.col_num,
            first_byte: self.first_byte,
            last_byte: self.first_byte + consumed_bytes,
            lo: Ghost(lo),
            hi: Ghost(lo + n as int),
        };
        proof {
            assert(sub@.text() =~= text.take(n as int));
        }
        self.first_byte = self.first_byte + consumed_bytes;
        self.line_num = self.line_num + lines;
        self.col_num = col;
        self.lo = Ghost(lo + n as int);
        Some(sub)
    }

    /// Consumes exactly the first character of the spanned text, whatever it
    /// is, returning it as a one-character span; used for fixed single-symbol
    /// tokens, which never extend over a run.
    pub(crate) fn consume_first(&mut self) -> (r: Span<'a>)
        requires
            old(self).wf(),
            old(self)@.text().len() > 0,
        ensures
            r.wf(),
            final (self).wf(),
            final (self)@.buf == old(self)@.buf,
            final (self)@.hi == old(self)@.hi,
            r@.buf == old(self)@.buf,
            r@.lo == old(self)@.lo,
            r@.hi == old(self)@.lo + 1,
            r@.line == old(self)@.line,
            r@.col == old(self)@.col,
            r@.text() == old(self)@.text().take(1),
            final (self)@.lo == old(self)@.lo + 1,
            final (self)@.line == old(self)@.line + newline_count(old(self)@.text().take(1)),
            final (self)@.col == col_after(old(self)@.col, old(self)@.text().take(1)),
            final (self)@.first_byte() == old(self)@.first_byte() + encode_utf8(
                old(self)@.text().take(1),
            ).len(),
    {
        let ghost buf = self@.buf;
        let ghost lo = self@.lo;
        let ghost hi = self@.hi;
        let ghost text = self@.text();
        let c = match self.first_char() {
            Some(c) => c,
            None => unreached(),
        };
        let w = bytes_per_char(c);
        proof {
            assert(c == buf[lo]);
            lemma_byte_offset_succ(buf, lo);
            lemma_byte_offset_mono(buf, lo + 1, hi);
            lemma_encode_len_bounds(buf);
            lemma_byte_offset_bounds(buf, hi);
            assert(text.take(1) =~= seq![c]);
            lemma_singleton(c, self@.col);
        }
        let sub = Span {
            data: self.data,
            line_num: self.line_num,
            col_num: self.col_num,
            first_byte: self.first_byte,
            last_byte: self.first_byte + w,
            lo: Ghost(lo),
            hi: Ghost(lo + 1),
        };
        proof {
            assert(sub@.text() =~= text.take(1));
        }
        self.first_byte = self.first_byte + w;
        if c == '\n' {
            self.line_num = self.line_num + 1;
            self.col_num = 1;
        } else {
            self.col_num = self.col_num + 1;
        }
        self.lo = Ghost(lo + 1);
        sub
    }

    /// Returns the smallest span covering both `self` and `other`: byte
    /// offsets take the minimum start and maximum end, and line and column
    /// each take the minimum. Both spans must describe the same buffer.
    pub fn union(self, other: Span<'a>) -> (r: Span<'a>)
        requires
            self.wf(),
            other.wf(),
            self@.buf == other@.buf,
        ensures
            r.wf(),
            r@.buf == self@.buf,
            r@.lo == (if self@.lo <= other@.lo {
                self@.lo
            } else {
                other@.lo
            }),
            r@.hi == (if self@.hi >= other@.hi {
                self@.hi
            } else {
                other@.hi
            }),
            r@.line == (if self@.line <= other@.line {
                self@.line
            } else {
                other@.line
            }),
            r@.col == (if self@.col <= other@.col {
                self@.col
            } else {
                other@.col
            }),
    {
        proof {
            let buf = self@.buf;
            if self@.lo <= other@.lo {
                lemma_byte_offset_mono(buf, self@.lo, other@.lo);
            } else {
                lemma_byte_offset_mono(buf, other@.lo, self@.lo);
            }
            if self@.hi <= other@.hi {
                lemma_byte_offset_mono(buf, self@.hi, other@.hi);
            } else {
                lemma_byte_offset_mono(buf, other@.hi, self@.hi);
            }
            lemma_byte_offset_mono(
                buf,
                if self@.lo <= other@.lo {
                    self@.lo
                } else {
                    other@.lo
                },
                if self@.hi >= other@.hi {
                    self@.hi
                } else {
                    other@.hi
                },
            );
        }
        let first_byte = if self.first_byte <= other.first_byte {
            self.first_byte
        } else {
            other.first_byte
        };
        let last_byte = if self.last_byte >= other.last_byte {
            self.last_byte
        } else {
            other.last_byte
        };
        let line_num = if self.line_num <= other.line_num {
            self.line_num
        } else {
            other.line_num
        };
        let col_num = if self.col_num <= other.col_num {
            self.col_num
        } else {
            other.col_num
        };
        Span {
            data: self.data,
            line_num,
            col_num,
            first_byte,
            last_byte,
            lo: Ghost(
                if self@.lo <= other@.lo {
                    self@.lo
                } else {
                    other@.lo
                },
            ),
            hi: Ghost(
                if self@.hi >= other@.hi {
                    self@.hi
                } else {
                    other@.hi
                },
            ),
        }
    }

    /// Renders the span's position as a human-readable `line:column`
    /// locator for diagnostics.
    pub fn locator(&self) -> (r: String)
        ensures
            r@ == decimal_seq(self@.line) + seq![':'] + decimal_seq(self@.col),
    {
        let mut out = String::new();
        push_decimal(&mut out, self.line_num);
        out.append(":");
        push_decimal(&mut out, self.col_num);
        proof {
            reveal_strlit(":");
            assert(":"@ =~= seq![':']);
            assert(out@ =~= decimal_seq(self@.line) + seq![':'] + decimal_seq(self@.col));
        }
        out
    }

    /// Slices the span's byte range out of `s`, which must be the very
    /// buffer the span describes; none when the span starts at the buffer's
    /// end. The companion of [`Span::spanned`] for callers that hold the
    /// buffer themselves.
    pub fn sub_str<'b>(&self, s: &'b str) -> (r: Option<&'b str>)
        requires
            self.wf(),
            s@ == self@.buf,
        ensures
            (r is Some <==> self@.lo < self@.buf.len()),
            (r matches Some(t) ==> t@ == self@.text()),
    {
        proof {
            lemma_byte_offset_bounds(self@.buf, self@.lo);
            lemma_byte_offset_mono(self@.buf, self@.lo, self@.buf.len() as int);
            if self@.lo < self@.buf.len() {
                lemma_byte_offset_mono(self@.buf, self@.lo + 1, self@.buf.len() as int);
                lemma_byte_offset_succ(self@.buf, self@.lo);
                lemma_encode_scalar_len(self@.buf[self@.lo]);
            }
        }
        if self.first_byte >= s.len() {
            None
        } else {
            Some(slice_range(s, self.first_byte, self.last_byte, Ghost(self@.lo), Ghost(self@.hi)))
        }
    }
}

/// A well-formed span's model is well formed: its character range lies within
/// the buffer and its position fields are 1-based and bounded.
pub broadcast proof fn lemma_span_wf_model(s: Span<'_>)
    requires
        #[trigger] s.wf(),
    ensures
        s@.wf(),
{
}

/// Boundary alignment: a well-formed span's byte offsets always lie on UTF-8
/// character boundaries of its buffer's encoding — `new`, `consume` and
/// `union` only ever produce well-formed spans.
pub proof fn lemma_boundary_alignment(m: SpanModel)
    requires
        m.wf(),
    ensures
        is_char_boundary(m.bytes(), m.first_byte()),
        is_char_boundary(m.bytes(), m.last_byte()),
{
    lemma_offset_is_boundary(m.buf, m.lo);
    lemma_offset_is_boundary(m.buf, m.hi);
}

/// Byte-width correctness: a single character occupies one, two, three or
/// four bytes according to its scalar value, so consuming exactly that
/// character advances the start offset by exactly its encoded length.
pub proof fn lemma_byte_width(c: char)
    ensures
        encode_utf8(seq![c]) == encode_scalar(c as u32),
        (c as u32) < 0x80 ==> encode_scalar(c as u32).len() == 1,
        0x80 <= (c as u32) < 0x800 ==> encode_scalar(c as u32).len() == 2,
        0x800 <= (c as u32) < 0x10000 ==> encode_scalar(c as u32).len() == 3,
        0x10000 <= (c as u32) ==> encode_scalar(c as u32).len() == 4,
{
    broadcast use char_is_scalar;

    lemma_singleton(c, 1);
}

/// Union correctness: a covering span starts no later and ends no earlier
/// than a covered one, and the covered span's text is the contiguous piece
/// of the covering span's text between the same character positions.
pub proof fn lemma_union_covers(u: SpanModel, a: SpanModel)
    requires
        u.wf(),
        a.wf(),
        u.buf == a.buf,
        u.lo <= a.lo,
        a.hi <= u.hi,
    ensures
        u.first_byte() <= a.first_byte(),
        a.last_byte() <= u.last_byte(),
        a.text() == u.text().subrange(a.lo - u.lo, a.hi - u.lo),
{
    lemma_byte_offset_mono(u.buf, u.lo, a.lo);
    lemma_byte_offset_mono(u.buf, a.hi, u.hi);
    assert(a.text() =~= u.text().subrange(a.lo - u.lo, a.hi - u.lo));
}

/// The decimal digit character for a value below ten.
pub open spec fn digit_char(d: int) -> char
    recommends
        0 <= d < 10,
{
    if d == 0 {
        '0'
    } else if d == 1 {
        '1'
    } else if d == 2 {
        '2'
    } else if d == 3 {
        '3'
    } else if d == 4 {
        '4'
    } else if d == 5 {
        '5'
    } else if d == 6 {
        '6'
    } else if d == 7 {
        '7'
    } else if d == 8 {
        '8'
    } else {
        '9'
    }
}

/// The decimal rendering of a non-negative number, most significant digit
/// first.
pub open spec fn decimal_seq(n: int) -> Seq<char>
    recommends
        0 <= n,
    decreases n,
{
    if n < 10 {
        seq![digit_char(n)]
    } else {
        decimal_seq(n / 10) + seq![digit_char(n % 10)]
    }
}

/// The one-character string for a decimal digit.
fn digit_str(d: usize) -> (r: &'static str)
    requires
        d < 10,
    ensures
        r@ == seq![digit_char(d as int)],
{
    proof {
        reveal_strlit("0");
        reveal_strlit("1");
        reveal_strlit("2");
        reveal_strlit("3");
        reveal_strlit("4");
        reveal_strlit("5");
        reveal_strlit("6");
        reveal_strlit("7");
        reveal_strlit("8");
        reveal_strlit("9");
    }
    let r = if d == 0 {
        "0"
    } else if d == 1 {
        "1"
    } else if d == 2 {
        "2"
    } else if d == 3 {
        "3"
    } else if d == 4 {
        "4"
    } else if d == 5 {
        "5"
    } else if d == 6 {
        "6"
    } else if d == 7 {
        "7"
    } else if d == 8 {
        "8"
    } else {
        "9"
    };
    proof {
        assert(r@ =~= seq![digit_char(d as int)]);
    }
    r
}

/// Appends the decimal rendering of `n` to `out`.
fn push_decimal(out: &mut String, n: usize)
    ensures
        final (out)@ == old(out)@ + decimal_seq(n as int),
    decreases n,
{
    if n < 10 {
        out.append(digit_str(n));
    } else {
        push_decimal(out, n / 10);
        out.append(digit_str(n % 10));
        proof {
            assert(out@ =~= old(out)@ + decimal_seq(n as int));
        }
    }
}

/// Slices `s` between two boundary-aligned byte offsets, given the character
/// positions they correspond to.
fn slice_range<'b>(
    s: &'b str,
    fb: usize,
    lb: usize,
    Ghost(lo): Ghost<int>,
    Ghost(hi): Ghost<int>,
) -> (r: &'b str)
    requires
        0 <= lo <= hi <= s@.len(),
        fb == byte_offset(s@, lo),
        lb == byte_offset(s@, hi),
    ensures
        r@ == s@.subrange(lo, hi),
{
    proof {
        lemma_offset_is_boundary(s@, lo);
        lemma_byte_offset_bounds(s@, hi);
        lemma_offset_subrange(s@, lo, s@.len() as int);
        assert(s@.subrange(lo, s@.len() as int) =~= s@.skip(lo));
        lemma_byte_offset_skip(s@, lo, hi);
        lemma_offset_is_boundary(s@.skip(lo), hi - lo);
        lemma_byte_offset_mono(s@, lo, hi);
        lemma_byte_offset_mono(s@, hi, s@.len() as int);
    }
    let (_, rest) = s.split_at(fb);
    proof {
        assert(rest.spec_bytes() == encode_utf8(s@.skip(lo)));
        lemma_byte_offset_bounds(s@.skip(lo), hi - lo);
        lemma_offset_subrange(s@.skip(lo), 0, hi - lo);
        assert(s@.skip(lo).subrange(0, hi - lo) =~= s@.subrange(lo, hi));
    }
    let (mid, _) = rest.split_at(lb - fb);
    proof {
        assert(mid.spec_bytes() == encode_utf8(s@.subrange(lo, hi)));
        lemma_encode_injective(mid@, s@.subrange(lo, hi));
    }
    mid
}

} // verus!
