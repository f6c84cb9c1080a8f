//! Spec-level model of UTF-8 byte offsets, matching runs, and line/column
//! bookkeeping over character sequences.
//!
//! The scanner works on a `&str` whose view is a `Seq<char>`; byte offsets
//! into the buffer are modelled as the length of the UTF-8 encoding of a
//! character prefix, using vstd's `encode_utf8`.

use vstd::prelude::*;
use vstd::utf8::*;

verus! {

/// Byte offset of the `i`-th character of `s`: the number of bytes the UTF-8
/// encoding of the first `i` characters occupies.
pub open spec fn byte_offset(s: Seq<char>, i: int) -> int {
    encode_utf8(s.take(i)).len() as int
}

/// Length of the longest prefix of `s` all of whose characters satisfy `p`.
pub open spec fn run_len(s: Seq<char>, p: spec_fn(char) -> bool) -> int
    decreases s.len(),
{
    if s.len() == 0 {
        0
    } else if p(s[0]) {
        1 + run_len(s.drop_first(), p)
    } else {
        0
    }
}

/// Number of newline characters in `s`.
pub open spec fn newline_count(s: Seq<char>) -> int
    decreases s.len(),
{
    if s.len() == 0 {
        0
    } else {
        newline_count(s.drop_last()) + if s.last() == '\n' {
            1int
        } else {
            0int
        }
    }
}

/// Column reached after traversing `s` starting from column `col0`:
/// a newline resets the column, every traversed character advances it by one.
pub open spec fn col_after(col0: int, s: Seq<char>) -> int
    decreases s.len(),
{
    if s.len() == 0 {
        col0
    } else if s.last() == '\n' {
        1
    } else {
        col_after(col0, s.drop_last()) + 1
    }
}

/// Encoding a concatenation concatenates the encodings.
pub proof fn lemma_encode_concat(a: Seq<char>, b: Seq<char>)
    ensures
        encode_utf8(a + b) == encode_utf8(a) + encode_utf8(b),
    decreases a.len(),
{
    if a.len() == 0 {
        assert(a + b =~= b);
        assert(encode_utf8(a) + encode_utf8(b) =~= encode_utf8(b));
    } else {
        assert((a + b).drop_first() =~= a.drop_first() + b);
        lemma_encode_concat(a.drop_first(), b);
        assert(encode_scalar(a[0] as u32) + (encode_utf8(a.drop_first()) + encode_utf8(b))
            =~= (encode_scalar(a[0] as u32) + encode_utf8(a.drop_first())) + encode_utf8(b));
        assert((a + b)[0] == a[0]);
    }
}

/// Every character's encoding occupies between 1 and 4 bytes.
pub proof fn lemma_encode_scalar_len(c: char)
    ensures
        1 <= encode_scalar(c as u32).len() <= 4,
{
    broadcast use char_is_scalar;

}

/// A sequence never occupies fewer bytes than it has characters, and at most
/// four bytes per character.
pub proof fn lemma_encode_len_bounds(s: Seq<char>)
    ensures
        s.len() <= encode_utf8(s).len() <= 4 * s.len(),
    decreases s.len(),
{
    if s.len() > 0 {
        lemma_encode_scalar_len(s[0]);
        lemma_encode_len_bounds(s.drop_first());
    }
}

/// The encoding, newline count, and column effect of a single character.
pub proof fn lemma_singleton(c: char, col0: int)
    ensures
        encode_utf8(seq![c]) == encode_scalar(c as u32),
        newline_count(seq![c]) == (if c == '\n' {
            1int
        } else {
            0int
        }),
        col_after(col0, seq![c]) == (if c == '\n' {
            1int
        } else {
            col0 + 1
        }),
{
    let s = seq![c];
    assert(s.drop_first() =~= Seq::<char>::empty());
    assert(s.drop_last() =~= Seq::<char>::empty());
    assert(s.last() == c);
    assert(newline_count(Seq::<char>::empty()) == 0);
    assert(col_after(col0, Seq::<char>::empty()) == col0);
    assert(encode_utf8(Seq::<char>::empty()) =~= Seq::<u8>::empty());
    assert(encode_utf8(s) =~= encode_scalar(c as u32) + encode_utf8(s.drop_first()));
    assert(encode_scalar(c as u32) + Seq::<u8>::empty() =~= encode_scalar(c as u32));
}

/// Stepping one character forward advances the byte offset by that
/// character's encoded width.
pub proof fn lemma_byte_offset_succ(s: Seq<char>, i: int)
    requires
        0 <= i < s.len(),
    ensures
        byte_offset(s, i + 1) == byte_offset(s, i) + encode_scalar(s[i] as u32).len(),
{
    assert(s.take(i + 1) =~= s.take(i) + seq![s[i]]);
    lemma_encode_concat(s.take(i), seq![s[i]]);
    lemma_singleton(s[i], 1);
}

/// Byte offsets grow strictly with the character index.
pub proof fn lemma_byte_offset_mono(s: Seq<char>, i: int, j: int)
    requires
        0 <= i <= j <= s.len(),
    ensures
        byte_offset(s, i) + (j - i) <= byte_offset(s, j),
        byte_offset(s, i) <= byte_offset(s, j),
{
    assert(s.take(j).take(i) =~= s.take(i));
    assert(s.take(j) =~= s.take(i) + s.take(j).skip(i));
    lemma_encode_concat(s.take(i), s.take(j).skip(i));
    lemma_encode_len_bounds(s.take(j).skip(i));
}

/// The offset of the start is zero and the offset of the end is the byte
/// length of the whole sequence; offsets of interior positions lie between.
pub proof fn lemma_byte_offset_bounds(s: Seq<char>, i: int)
    requires
        0 <= i <= s.len(),
    ensures
        i <= byte_offset(s, i) <= encode_utf8(s).len(),
        byte_offset(s, 0) == 0,
        byte_offset(s, s.len() as int) == encode_utf8(s).len(),
{
    assert(s.take(s.len() as int) =~= s);
    assert(s.take(0) =~= Seq::<char>::empty());
    lemma_byte_offset_mono(s, 0, i);
    lemma_byte_offset_mono(s, i, s.len() as int);
    lemma_encode_len_bounds(s.take(i));
}

/// Bytes between the offsets of two character positions are exactly the
/// encoding of the characters between those positions.
pub proof fn lemma_offset_subrange(s: Seq<char>, i: int, j: int)
    requires
        0 <= i <= j <= s.len(),
    ensures
        encode_utf8(s).subrange(byte_offset(s, i), byte_offset(s, j)) == encode_utf8(
            s.subrange(i, j),
        ),
{
    assert(s =~= s.take(j) + s.skip(j));
    assert(s.take(j) =~= s.take(i) + s.subrange(i, j));
    lemma_encode_concat(s.take(j), s.skip(j));
    lemma_encode_concat(s.take(i), s.subrange(i, j));
    lemma_byte_offset_mono(s, i, j);
    lemma_byte_offset_bounds(s, j);
    assert(encode_utf8(s).subrange(byte_offset(s, i), byte_offset(s, j)) =~= encode_utf8(
        s.subrange(i, j),
    ));
}

/// Offsets taken in a suffix line up with offsets taken in the whole sequence.
pub proof fn lemma_byte_offset_skip(s: Seq<char>, i: int, j: int)
    requires
        0 <= i <= j <= s.len(),
    ensures
        byte_offset(s.skip(i), j - i) == byte_offset(s, j) - byte_offset(s, i),
{
    assert(s.skip(i).take(j - i) =~= s.subrange(i, j));
    assert(s.take(j) =~= s.take(i) + s.subrange(i, j));
    lemma_encode_concat(s.take(i), s.subrange(i, j));
}

/// Two sequences with the same encoding are the same sequence.
pub proof fn lemma_encode_injective(a: Seq<char>, b: Seq<char>)
    requires
        encode_utf8(a) == encode_utf8(b),
    ensures
        a == b,
{
    broadcast use encode_utf8_decode_utf8;

    assert(decode_utf8(encode_utf8(a)) == a);
    assert(decode_utf8(encode_utf8(b)) == b);
}

/// The byte offset of every character position is a character boundary of the
/// encoded sequence.
pub proof fn lemma_offset_is_boundary(s: Seq<char>, i: int)
    requires
        0 <= i <= s.len(),
    ensures
        is_char_boundary(encode_utf8(s), byte_offset(s, i)),
{
    broadcast use encode_utf8_valid_utf8;

    let bytes = encode_utf8(s);
    let off = byte_offset(s, i);
    assert(s =~= s.take(i) + s.skip(i));
    lemma_encode_concat(s.take(i), s.skip(i));
    lemma_byte_offset_bounds(s, i);
    if i == s.len() {
        assert(off == bytes.len());
        is_char_boundary_start_end_of_seq(bytes);
    } else {
        let tail = encode_utf8(s.skip(i));
        encode_utf8_first_scalar(s.skip(i));
        lemma_encode_scalar_len(s.skip(i)[0]);
        assert(tail.len() > 0) by {
            lemma_encode_len_bounds(s.skip(i));
        }
        assert(bytes[off] == tail[0]);
        assert(valid_first_scalar(tail));
        assert(!is_continuation_byte(bytes[off]));
        is_char_boundary_iff_not_is_continuation_byte(bytes, off);
    }
}

/// Greediness, exactly: the length of the maximal matching run is `n` when
/// the first `n` characters match and the following one (if any) does not.
pub proof fn lemma_run_len_exact(s: Seq<char>, p: spec_fn(char) -> bool, n: int)
    requires
        0 <= n <= s.len(),
        forall|i: int| 0 <= i < n ==> p(#[trigger] s[i]),
        n < s.len() ==> !p(s[n]),
    ensures
        run_len(s, p) == n,
    decreases s.len(),
{
    if s.len() == 0 {
    } else if n == 0 {
    } else {
        assert(p(s[0]));
        assert(forall|i: int| 0 <= i < n - 1 ==> p(#[trigger] s.drop_first()[i]));
        assert(n - 1 < s.drop_first().len() ==> !p(s.drop_first()[n - 1]));
        lemma_run_len_exact(s.drop_first(), p, n - 1);
    }
}

/// The matching run matches: its characters satisfy the predicate and it is
/// not extendable.
pub proof fn lemma_run_len_props(s: Seq<char>, p: spec_fn(char) -> bool)
    ensures
        0 <= run_len(s, p) <= s.len(),
        forall|i: int| 0 <= i < run_len(s, p) ==> p(#[trigger] s[i]),
        run_len(s, p) < s.len() ==> !p(s[run_len(s, p)]),
    decreases s.len(),
{
    if s.len() == 0 {
    } else if p(s[0]) {
        lemma_run_len_props(s.drop_first(), p);
        assert forall|i: int| 0 <= i < run_len(s, p) implies p(#[trigger] s[i]) by {
            if i > 0 {
                assert(s[i] == s.drop_first()[i - 1]);
                assert(p(s.drop_first()[i - 1]));
            }
        }
    }
}

/// A run's length depends only on the predicate's value on the characters of
/// the sequence.
pub proof fn lemma_run_len_congruence(s: Seq<char>, p: spec_fn(char) -> bool, q: spec_fn(
    char,
) -> bool)
    requires
        forall|i: int| 0 <= i < s.len() ==> p(#[trigger] s[i]) == q(s[i]),
    ensures
        run_len(s, p) == run_len(s, q),
    decreases s.len(),
{
    if s.len() > 0 && p(s[0]) {
        assert(forall|i: int|
            0 <= i < s.drop_first().len() ==> p(#[trigger] s.drop_first()[i]) == q(
                s.drop_first()[i],
            ));
        lemma_run_len_congruence(s.drop_first(), p, q);
    }
}

/// Newlines in a concatenation are the newlines of the parts.
pub proof fn lemma_newline_count_concat(a: Seq<char>, b: Seq<char>)
    ensures
        newline_count(a + b) == newline_count(a) + newline_count(b),
    decreases b.len(),
{
    if b.len() == 0 {
        assert(a + b =~= a);
    } else {
        assert((a + b).drop_last() =~= a + b.drop_last());
        assert((a + b).last() == b.last());
        lemma_newline_count_concat(a, b.drop_last());
    }
}

/// Traversing a concatenation advances the column through the parts in order.
pub proof fn lemma_col_after_concat(col0: int, a: Seq<char>, b: Seq<char>)
    ensures
        col_after(col0, a + b) == col_after(col_after(col0, a), b),
    decreases b.len(),
{
    if b.len() == 0 {
        assert(a + b =~= a);
    } else {
        assert((a + b).drop_last() =~= a + b.drop_last());
        assert((a + b).last() == b.last());
        lemma_col_after_concat(col0, a, b.drop_last());
    }
}

/// A sequence never holds more newlines than characters, and the column after
/// traversing it exceeds neither the starting column plus its length nor one
/// plus its length.
pub proof fn lemma_line_col_bounds(col0: int, s: Seq<char>)
    requires
        1 <= col0,
    ensures
        0 <= newline_count(s) <= s.len(),
        1 <= col_after(col0, s) <= col0 + s.len(),
    decreases s.len(),
{
    if s.len() > 0 {
        lemma_line_col_bounds(col0, s.drop_last());
    }
}

/// The pieces of `s` between consecutive cut positions.
pub open spec fn pieces(s: Seq<char>, cuts: Seq<int>) -> Seq<Seq<char>>
    recommends
        cuts.len() >= 1,
{
    Seq::new((cuts.len() - 1) as nat, |i: int| s.subrange(cuts[i], cuts[i + 1]))
}

proof fn lemma_partition_prefix(s: Seq<char>, cuts: Seq<int>, k: int)
    requires
        cuts.len() >= 1,
        cuts[0] == 0,
        cuts.last() == s.len(),
        forall|i: int, j: int| 0 <= i <= j < cuts.len() ==> #[trigger] cuts[i] <= #[trigger] cuts[j],
        0 <= k <= cuts.len() - 1,
    ensures
        pieces(s, cuts).take(k).flatten() == s.take(cuts[k]),
    decreases k,
{
    let ps = pieces(s, cuts);
    if k == 0 {
        assert(ps.take(0) =~= Seq::<Seq<char>>::empty());
        assert(s.take(0) =~= Seq::<char>::empty());
    } else {
        lemma_partition_prefix(s, cuts, k - 1);
        ps.lemma_take_succ_push(k - 1);
        ps.take(k - 1).lemma_flatten_push(ps[k - 1]);
        assert(cuts[0] <= cuts[k - 1] && cuts[k] <= cuts.last());
        assert(s.take(cuts[k - 1]) + s.subrange(cuts[k - 1], cuts[k]) =~= s.take(cuts[k]));
    }
}

/// Coverage over a whole scan: every scan step consumes exactly the piece of
/// the buffer between the cursor's old and new positions, so cutting the
/// buffer at the successive cursor positions and concatenating the pieces —
/// skipped whitespace runs and token texts alike, in emission order —
/// reproduces the buffer exactly.
pub proof fn lemma_partition(s: Seq<char>, cuts: Seq<int>)
    requires
        cuts.len() >= 1,
        cuts[0] == 0,
        cuts.last() == s.len(),
        forall|i: int, j: int| 0 <= i <= j < cuts.len() ==> #[trigger] cuts[i] <= #[trigger] cuts[j],
    ensures
        pieces(s, cuts).flatten() == s,
{
    lemma_partition_prefix(s, cuts, cuts.len() - 1);
    assert(pieces(s, cuts).take(cuts.len() - 1) =~= pieces(s, cuts));
    assert(s.take(cuts.last()) =~= s);
}

/// Coverage of one scan step: the skipped prefix, the matched run, and the
/// unconsumed remainder partition the scanned text.
pub proof fn lemma_scan_partition(text: Seq<char>, w: int, n: int)
    requires
        0 <= w,
        0 <= n,
        w + n <= text.len(),
    ensures
        text.take(w) + text.skip(w).take(n) + text.skip(w + n) == text,
        text.skip(w).take(n) == text.subrange(w, w + n),
        text.skip(w).skip(n) == text.skip(w + n),
    decreases text.len(),
{
    assert(text.skip(w).take(n) =~= text.subrange(w, w + n));
    assert(text.skip(w).skip(n) =~= text.skip(w + n));
    assert(text.take(w) + text.skip(w).take(n) + text.skip(w + n) =~= text);
}

} // verus!
