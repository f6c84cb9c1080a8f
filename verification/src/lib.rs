//! A span-tracking lexical scanner.
//!
//! The library turns a UTF-8 text buffer into a sequence of classified
//! substrings (tokens) without copying the buffer: every token is described by
//! a [`span::Span`], a pair of byte offsets into the buffer together with the
//! line and column at which the spanned text starts. [`Lexer`] drives the
//! scan, skipping whitespace, classifying each run of characters in a fixed
//! priority order, and failing fast on a character no class accepts.

use vstd::prelude::*;

pub mod encoding;
pub mod span;

use crate::encoding::{
    col_after, lemma_col_after_concat, lemma_newline_count_concat, lemma_run_len_congruence,
    lemma_run_len_props, newline_count, run_len,
};
use crate::span::{class_pred, ContainsChar, Span};

verus! {

broadcast use crate::span::lemma_span_wf_model;

/// Whitespace that the lexer skips between tokens.
pub open spec fn is_whitespace_char(c: char) -> bool {
    c == ' ' || c == '\t' || c == '\n'
}

/// Characters a word token is made of: an underscore or an ASCII letter.
pub open spec fn is_word_char(c: char) -> bool {
    c == '_' || ('A' <= c && c <= 'Z') || ('a' <= c && c <= 'z')
}

/// The punctuation set.
pub open spec fn is_punct_char(c: char) -> bool {
    c == '.' || c == ',' || c == '!' || c == '?' || c == ';' || c == ':'
}

/// Decimal digits, which number tokens are made of.
pub open spec fn is_digit_char(c: char) -> bool {
    '0' <= c && c <= '9'
}

/// Single-character fixed symbols: operators and parentheses.
pub open spec fn is_symbol_char(c: char) -> bool {
    c == '+' || c == '-' || c == '*' || c == '(' || c == ')'
}

/// Whether some token class accepts `c` as its first character.
pub open spec fn starts_token(c: char) -> bool {
    is_word_char(c) || is_punct_char(c) || is_digit_char(c) || is_symbol_char(c)
}

/// The whitespace class as a predicate value.
pub open spec fn whitespace_pred() -> spec_fn(char) -> bool {
    |c: char| is_whitespace_char(c)
}

/// The word class as a predicate value.
pub open spec fn word_pred() -> spec_fn(char) -> bool {
    |c: char| is_word_char(c)
}

/// The punctuation class as a predicate value.
pub open spec fn punct_pred() -> spec_fn(char) -> bool {
    |c: char| is_punct_char(c)
}

/// The digit class as a predicate value.
pub open spec fn digit_pred() -> spec_fn(char) -> bool {
    |c: char| is_digit_char(c)
}

/// The fixed token a symbol character stands for.
pub open spec fn symbol_token<'a>(c: char) -> Token<'a>
    recommends
        is_symbol_char(c),
{
    if c == '+' {
        Token::Add
    } else if c == '-' {
        Token::Sub
    } else if c == '*' {
        Token::Mul
    } else if c == '(' {
        Token::OpenParen
    } else {
        Token::CloseParen
    }
}

/// How many characters the token starting at the front of `rest` covers:
/// the longest run of its class for words, punctuation and numbers, and
/// exactly one character for a fixed symbol.
pub open spec fn token_len(rest: Seq<char>) -> int
    recommends
        rest.len() > 0,
{
    if is_word_char(rest[0]) {
        run_len(rest, word_pred())
    } else if is_punct_char(rest[0]) {
        run_len(rest, punct_pred())
    } else if is_digit_char(rest[0]) {
        run_len(rest, digit_pred())
    } else {
        1
    }
}

/// A classified unit of lexical input. A variant either carries the span or
/// substring it was scanned from, or is a zero-width fixed symbol.
#[derive(Clone, Copy)]
pub enum Token<'a> {
    /// A run of word characters (underscore or ASCII letters).
    Word(Span<'a>),
    /// A run of punctuation characters.
    Punct(Span<'a>),
    /// A run of decimal digits, carried as its source text.
    Number(&'a str),
    /// The `+` operator.
    Add,
    /// The `-` operator.
    Sub,
    /// The `*` operator.
    Mul,
    /// An opening parenthesis.
    OpenParen,
    /// A closing parenthesis.
    CloseParen,
}

/// A scanning failure, surfaced to the direct caller of [`Lexer::next`].
#[derive(Debug, Clone, Copy, PartialEq, Eq)]
pub enum LexError {
    /// The scanner met a character that belongs to none of the grammar's
    /// classes; it reports the character and its 1-based line and column.
    UnsupportedCharacter {
        /// The offending character.
        ch: char,
        /// 1-based line at which it stands.
        line: usize,
        /// 1-based column at which it stands.
        col: usize,
    },
}

/// The lexer: a cursor span over the unconsumed remainder of the buffer,
/// advanced in place by every `next` call.
pub struct Lexer<'a> {
    cursor: Span<'a>,
}

impl<'a> View for Lexer<'a> {
    type V = crate::span::SpanModel;

    closed spec fn view(&self) -> crate::span::SpanModel {
        self.cursor@
    }
}

impl<'a> Lexer<'a> {
    /// Well-formedness: the cursor is well formed and always reaches to the
    /// end of the buffer.
    pub closed spec fn wf(self) -> bool {
        &&& self.cursor.wf()
        &&& self@.hi == self@.buf.len()
    }

    /// Creates a lexer whose cursor covers all of `input`, at line 1,
    /// column 1.
    pub fn new(input: &'a str) -> (r: Self)
        ensures
            r.wf(),
            r@.buf == input@,
            r@.lo == 0,
            r@.line == 1,
            r@.col == 1,
    {
        Lexer { cursor: Span::new(input) }
    }

    /// Produces the next token, skipping leading whitespace.
    ///
    /// Returns `Ok(None)` when no character remains — a terminal state: once
    /// the remainder is empty it stays empty, so every further call keeps
    /// returning `Ok(None)`. Returns the token and its span when the first
    /// pending character starts a class, consuming the longest run of that
    /// class (one character for a fixed symbol). Fails with
    /// [`LexError::UnsupportedCharacter`] — consuming nothing beyond the
    /// whitespace — when the character starts no class.
    pub fn next(&mut self) -> (r: Result<Option<(Token<'a>, Span<'a>)>, LexError>)
        requires
            old(self).wf(),
        ensures
            final (self).wf(),
            final (self)@.buf == old(self)@.buf,
            final (self)@.hi == old(self)@.hi,
            old(self)@.text().len() == 0 ==> (r matches Ok(o) && o is None) && final (self)@
                == old(self)@,
            (r matches Ok(o) && o is None) ==> final (self)@.text().len() == 0,
            ({
                let text = old(self)@.text();
                let w = run_len(text, whitespace_pred());
                let rest = text.skip(w);
                let line1 = old(self)@.line + newline_count(text.take(w));
                let col1 = col_after(old(self)@.col, text.take(w));
                let n = token_len(rest);
                &&& ((r matches Ok(o) && o is None) <==> rest.len() == 0)
                &&& (rest.len() == 0 ==> final (self)@.lo == old(self)@.lo + w && final (
                self)@.line == line1 && final (self)@.col == col1)
                &&& (r is Err <==> rest.len() > 0 && !starts_token(rest[0]))
                &&& (r matches Err(e) ==> e == (LexError::UnsupportedCharacter {
                    ch: rest[0],
                    line: line1 as usize,
                    col: col1 as usize,
                }) && final (self)@.lo == old(self)@.lo + w && final (self)@.line == line1
                    && final (self)@.col == col1)
                &&& (r matches Ok(Some(ts)) ==> {
                    let tok = ts.0;
                    let sp = ts.1;
                    &&& rest.len() > 0 && starts_token(rest[0])
                    &&& sp.wf()
                    &&& sp@.buf == old(self)@.buf
                    &&& sp@.lo == old(self)@.lo + w
                    &&& sp@.hi == old(self)@.lo + w + n
                    &&& sp@.line == line1
                    &&& sp@.col == col1
                    &&& sp@.text() == rest.take(n)
                    &&& (is_word_char(rest[0]) ==> tok == Token::Word(sp))
                    &&& (is_punct_char(rest[0]) ==> tok == Token::Punct(sp))
                    &&& (is_digit_char(rest[0]) ==> tok is Number && (tok->Number_0)@
                        == rest.take(n))
                    &&& (is_symbol_char(rest[0]) ==> tok == symbol_token(rest[0]))
                    &&& final (self)@.lo == old(self)@.lo + w + n
                    &&& final (self)@.line == old(self)@.line + newline_count(text.take(w + n))
                    &&& final (self)@.col == col_after(old(self)@.col, text.take(w + n))
                })
            }),
    {
        let ghost text = self@.text();
        let ghost buf = self@.buf;
        let ghost lo0 = self@.lo;
        let ghost hi = self@.hi;
        let ws_class = (' ', ('\t', '\n'));
        let _skipped = self.cursor.consume(ws_class);
        proof {
            assert forall|i: int| 0 <= i < text.len() implies class_pred(ws_class)(
                #[trigger] text[i],
            ) == whitespace_pred()(text[i]) by {
                let x = text[i];
                assert(class_pred(ws_class)(x) == ws_class.spec_contains(x));
                assert(whitespace_pred()(x) == is_whitespace_char(x));
            }
            lemma_run_len_congruence(text, class_pred(ws_class), whitespace_pred());
            lemma_run_len_props(text, whitespace_pred());
            assert(text.take(0) =~= Seq::<char>::empty());
            assert(newline_count(Seq::<char>::empty()) == 0);
        }
        let ghost w = run_len(text, whitespace_pred());
        proof {
            assert(self@.lo == lo0 + w);
            assert(0 <= w <= text.len());
            buf.lemma_slice_of_slice(lo0, hi, w, hi - lo0);
            assert(text.skip(w) =~= text.subrange(w, hi - lo0));
            assert(self@.text() =~= buf.subrange(lo0 + w, hi));
        }
        let ghost rest = text.skip(w);
        match self.cursor.first_char() {
            None => Ok(None),
            Some(c) => {
                proof {
                    assert(c == rest[0]);
                }
                if c == '_' || ('A' <= c && c <= 'Z') || ('a' <= c && c <= 'z') {
                    let word_class = ('_', ('A'..='Z', 'a'..='z'));
                    proof {
                        assert forall|i: int| 0 <= i < rest.len() implies class_pred(word_class)(
                            #[trigger] rest[i],
                        ) == word_pred()(rest[i]) by {
                            let x = rest[i];
                            assert(class_pred(word_class)(x) == word_class.spec_contains(x));
                            assert(word_pred()(x) == is_word_char(x));
                        }
                        lemma_run_len_congruence(rest, class_pred(word_class), word_pred());
                        lemma_run_len_props(rest, word_pred());
                    }
                    let sp = match self.cursor.consume(word_class) {
                        Some(sp) => sp,
                        None => unreached(),
                    };
                    proof {
                        lemma_step_bookkeeping(text, w, token_len(rest), old(self)@.col);
                    }
                    Ok(Some((Token::Word(sp), sp)))
                } else if c == '.' || c == ',' || c == '!' || c == '?' || c == ';' || c == ':' {
                    let punct_class = ".,!?;:";
                    proof {
                        reveal_strlit(".,!?;:");
                        assert forall|x: char|
                            #[trigger] punct_class@.contains(x) == is_punct_char(x) by {
                            if is_punct_char(x) {
                                if x == '.' {
                                    assert(punct_class@[0] == x);
                                } else if x == ',' {
                                    assert(punct_class@[1] == x);
                                } else if x == '!' {
                                    assert(punct_class@[2] == x);
                                } else if x == '?' {
                                    assert(punct_class@[3] == x);
                                } else if x == ';' {
                                    assert(punct_class@[4] == x);
                                } else {
                                    assert(punct_class@[5] == x);
                                }
                            }
                        }
                        assert forall|i: int| 0 <= i < rest.len() implies class_pred(punct_class)(
                            #[trigger] rest[i],
                        ) == punct_pred()(rest[i]) by {
                            let x = rest[i];
                            assert(class_pred(punct_class)(x) == punct_class.spec_contains(x));
                            assert(punct_pred()(x) == is_punct_char(x));
                        }
                        lemma_run_len_congruence(rest, class_pred(punct_class), punct_pred());
                        lemma_run_len_props(rest, punct_pred());
                    }
                    let sp = match self.cursor.consume(punct_class) {
                        Some(sp) => sp,
                        None => unreached(),
                    };
                    proof {
                        lemma_step_bookkeeping(text, w, token_len(rest), old(self)@.col);
                    }
                    Ok(Some((Token::Punct(sp), sp)))
                } else if '0' <= c && c <= '9' {
                    let (tok, sp) = self.consume_number();
                    proof {
                        lemma_step_bookkeeping(text, w, token_len(rest), old(self)@.col);
                    }
                    Ok(Some((tok, sp)))
                } else if c == '+' || c == '-' || c == '*' || c == '(' || c == ')' {
                    let sp = self.cursor.consume_first();
                    let tok = if c == '+' {
                        Token::Add
                    } else if c == '-' {
                        Token::Sub
                    } else if c == '*' {
                        Token::Mul
                    } else if c == '(' {
                        Token::OpenParen
                    } else {
                        Token::CloseParen
                    };
                    proof {
                        lemma_step_bookkeeping(text, w, 1, old(self)@.col);
                    }
                    Ok(Some((tok, sp)))
                } else {
                    Err(
                        LexError::UnsupportedCharacter {
                            ch: c,
                            line: self.cursor.line_num(),
                            col: self.cursor.col_num(),
                        },
                    )
                }
            },
        }
    }

    /// Consumes the pending run of digits and wraps it as a number token.
    fn consume_number(&mut self) -> (r: (Token<'a>, Span<'a>))
        requires
            old(self).wf(),
            old(self)@.text().len() > 0,
            is_digit_char(old(self)@.text()[0]),
        ensures
            final (self).wf(),
            final (self)@.buf == old(self)@.buf,
            final (self)@.hi == old(self)@.hi,
            ({
                let rest = old(self)@.text();
                let n = run_len(rest, digit_pred());
                let sp = r.1;
                &&& sp.wf()
                &&& sp@.buf == old(self)@.buf
                &&& sp@.lo == old(self)@.lo
                &&& sp@.hi == old(self)@.lo + n
                &&& sp@.line == old(self)@.line
                &&& sp@.col == old(self)@.col
                &&& sp@.text() == rest.take(n)
                &&& (r.0 matches Token::Number(t) && t@ == rest.take(n))
                &&& final (self)@.lo == old(self)@.lo + n
                &&& final (self)@.line == old(self)@.line + newline_count(rest.take(n))
                &&& final (self)@.col == col_after(old(self)@.col, rest.take(n))
            }),
    {
        let ghost rest = self@.text();
        let digit_class = '0'..='9';
        proof {
            assert forall|i: int| 0 <= i < rest.len() implies class_pred(digit_class)(
                #[trigger] rest[i],
            ) == digit_pred()(rest[i]) by {
                let x = rest[i];
                assert(class_pred(digit_class)(x) == digit_class.spec_contains(x));
                assert(digit_pred()(x) == is_digit_char(x));
            }
            lemma_run_len_congruence(rest, class_pred(digit_class), digit_pred());
            lemma_run_len_props(rest, digit_pred());
        }
        let sp = match self.cursor.consume(digit_class) {
            Some(sp) => sp,
            None => unreached(),
        };
        let t = sp.spanned();
        (Token::Number(t), sp)
    }
}

/// Bookkeeping of one scan step: the line and column advance over the skipped
/// whitespace and the token text exactly as they advance over their
/// concatenation.
proof fn lemma_step_bookkeeping(text: Seq<char>, w: int, n: int, col0: int)
    requires
        0 <= w,
        0 <= n,
        w + n <= text.len(),
    ensures
        text.take(w + n) == text.take(w) + text.skip(w).take(n),
        newline_count(text.take(w + n)) == newline_count(text.take(w)) + newline_count(
            text.skip(w).take(n),
        ),
        col_after(col0, text.take(w + n)) == col_after(
            col_after(col0, text.take(w)),
            text.skip(w).take(n),
        ),
{
    assert(text.take(w + n) =~= text.take(w) + text.skip(w).take(n));
    lemma_newline_count_concat(text.take(w), text.skip(w).take(n));
    lemma_col_after_concat(col0, text.take(w), text.skip(w).take(n));
}

} // verus!
