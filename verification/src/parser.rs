//! The tokenizer engine: the parser state and the single `parse` operation,
//! with its two sub-scanners and the pool allocator.
//!
//! Every function is specified against the model in [`crate::model`]: `parse`
//! returns, leaves behind, and writes into the pool exactly what [`run`] says
//! of its starting configuration.

use crate::model::hex_window_end;
use crate::model::is_delim;
use crate::model::is_primitive_lead;
use crate::model::is_printable;
use crate::model::is_simple_escape;
use crate::model::last_open;
use crate::model::last_open_container;
use crate::model::lemma_last_open_range;
use crate::model::lemma_prim_scan_range;
use crate::model::lemma_run_step;
use crate::model::lemma_step_wf;
use crate::model::lemma_str_scan_range;
use crate::model::prim_scan;
use crate::model::run;
use crate::model::step;
use crate::model::str_scan;
use crate::model::wf;
use crate::model::all_hex;
use crate::model::PState;
use crate::model::PrimScan;
use crate::model::Step;
use crate::model::StrScan;
use crate::model::BACKSLASH;
use crate::model::COLON;
use crate::model::COMMA;
use crate::model::CR;
use crate::model::LBRACE;
use crate::model::LBRACKET;
use crate::model::LF;
use crate::model::QUOTE;
use crate::model::RBRACE;
use crate::model::RBRACKET;
use crate::model::SPACE;
use crate::model::TAB;
use crate::token::lemma_toks_view_index;
use crate::token::lemma_toks_view_len;
use crate::token::lemma_toks_view_update;
use crate::token::toks_view;
use crate::token::Error;
use crate::token::SpecToken;
use crate::token::Token;
use crate::token::TokenKind;
use vstd::prelude::*;

verus! {

broadcast use lemma_toks_view_len, lemma_toks_view_index, lemma_toks_view_update;

/// The abstract image of an `Option<usize>` super-token index.
pub open spec fn super_view(o: Option<usize>) -> Option<int> {
    match o {
        Some(i) => Some(i as int),
        None => None,
    }
}

/// The parser state: a cursor into the input, the pool cursor, and the
/// index of the token that emitted tokens are attributed to. A plain value,
/// created once and mutated by each call of [`JsonParser::parse`].
pub struct JsonParser {
    pos: usize,
    tok_next: usize,
    tok_super: Option<usize>,
}

impl View for JsonParser {
    type V = PState;

    closed spec fn view(&self) -> PState {
        PState {
            pos: self.pos as int,
            tok_next: self.tok_next as int,
            tok_super: super_view(self.tok_super),
        }
    }
}

impl Default for JsonParser {
    /// The state before any byte has been scanned.
    fn default() -> (r: Self)
        ensures
            r@ == (PState { pos: 0, tok_next: 0, tok_super: None }),
    {
        Self { pos: 0, tok_next: 0, tok_super: None }
    }
}

/// The largest `j < n` with `tokens[j]` open, scanning backward as the model
/// function [`last_open`] reads the pool.
fn find_open(tokens: &[Token], n: usize) -> (r: Option<usize>)
    requires
        n <= tokens@.len(),
    ensures
        super_view(r) == last_open(toks_view(tokens@), n as int),
{
    let mut i = n;
    while i > 0
        invariant
            i <= n <= tokens@.len(),
            last_open(toks_view(tokens@), n as int) == last_open(toks_view(tokens@), i as int),
        decreases i,
    {
        i = i - 1;
        if tokens[i].start != -1 && tokens[i].end == -1 {
            return Some(i);
        }
    }
    None
}

/// The largest `j < n` with `tokens[j]` an open object or array, scanning
/// backward as the model function [`last_open_container`] reads the pool.
fn find_open_container(tokens: &[Token], n: usize) -> (r: Option<usize>)
    requires
        n <= tokens@.len(),
    ensures
        super_view(r) == last_open_container(toks_view(tokens@), n as int),
{
    let mut i = n;
    while i > 0
        invariant
            i <= n <= tokens@.len(),
            last_open_container(toks_view(tokens@), n as int) == last_open_container(
                toks_view(tokens@),
                i as int,
            ),
        decreases i,
    {
        i = i - 1;
        let k = tokens[i].kind;
        if (k == TokenKind::Object || k == TokenKind::Array) && tokens[i].start != -1
            && tokens[i].end == -1 {
            return Some(i);
        }
    }
    None
}

impl JsonParser {
    /// A parser that has scanned nothing: cursor at the start of the buffer,
    /// empty pool, no super token.
    pub fn new() -> (r: Self)
        ensures
            r@ == (PState { pos: 0, tok_next: 0, tok_super: None }),
    {
        Self::default()
    }

    /// Hand out the next pool slot and clear its range and child count, or
    /// report exhaustion and change nothing. The cursor into the input and
    /// the super token are never touched.
    fn alloc_token(&mut self, tokens: &mut [Token]) -> (r: Option<usize>)
        ensures
            old(self)@.tok_next >= old(tokens)@.len() ==> r is None && *final(self) == *old(self)
                && final(tokens)@ == old(tokens)@,
            old(self)@.tok_next < old(tokens)@.len() ==> {
                &&& super_view(r) == Some(old(self)@.tok_next)
                &&& final(self)@ == (PState {
                    pos: old(self)@.pos,
                    tok_next: old(self)@.tok_next + 1,
                    tok_super: old(self)@.tok_super,
                })
                &&& toks_view(final(tokens)@) == toks_view(old(tokens)@).update(
                    old(self)@.tok_next,
                    crate::model::reset_slot(toks_view(old(tokens)@)[old(self)@.tok_next]),
                )
                &&& final(tokens)@.len() == old(tokens)@.len()
            },
    {
        if self.tok_next >= tokens.len() {
            return None;
        }
        let idx = self.tok_next;
        self.tok_next = self.tok_next + 1;
        let mut tok = tokens[idx];
        tok.end = -1;
        tok.start = -1;
        tok.size = 0;
        tokens[idx] = tok;
        Some(idx)
    }

    /// Run the tokenizer: scan the buffer from the cursor onward, filling
    /// the caller's token array, and return the total number of tokens
    /// allocated so far across all calls sharing this state.
    ///
    /// The whole behaviour is pinned to the model: the returned value, the
    /// state left behind and the token array left behind are exactly those
    /// of [`run`] on the starting configuration. In particular, on `Ok(n)`
    /// the cursor stands at the end of the buffer, `n` is the pool cursor,
    /// and no token is left open; on [`Error::Part`] more bytes are needed;
    /// on [`Error::Invalid`] the scanned portion cannot be JSON; on
    /// [`Error::NoMemory`] the pool is exhausted and a retry with a larger
    /// array holding the same tokens may continue. Tokens already written
    /// are never corrupted: the pool changes only as the model says.
    ///
    /// Resumption expects the same buffer, extended only by appending bytes
    /// at its end: the cursor and every recorded range are absolute offsets
    /// into it. The rewind on failure is not uniform: exhaustion or a fault
    /// inside a string or primitive rewinds the cursor to the start of that
    /// token, while exhaustion on an opening bracket leaves the cursor on
    /// the bracket and nothing allocated; the contract states each case.
    ///
    /// The well-formedness demanded of the starting configuration holds of
    /// a fresh parser with any array, and is preserved by every call; a
    /// caller that re-enters with the same array, or with a larger one
    /// holding the same tokens, keeps it.
    pub fn parse(&mut self, js: &[u8], tokens: &mut [Token]) -> (r: Result<usize, Error>)
        requires
            js@.len() <= isize::MAX,
            wf(old(self)@, toks_view(old(tokens)@)),
        ensures
            ({
                let o = run(old(self)@, js@, toks_view(old(tokens)@));
                &&& final(self)@ == o.state
                &&& toks_view(final(tokens)@) == o.toks
                &&& match r {
                    Ok(n) => o.res == Ok::<int, Error>(n as int),
                    Err(e) => o.res == Err::<int, Error>(e),
                }
            }),
            final(tokens)@.len() == old(tokens)@.len(),
            wf(final(self)@, toks_view(final(tokens)@)),
            final(self)@.tok_next >= old(self)@.tok_next,
            match r {
                Ok(n) => n as int == final(self)@.tok_next && final(self)@.pos >= js@.len(),
                Err(e) => true,
            },
    {
        let mut count = self.tok_next;
        while self.pos < js.len()
            invariant
                js@.len() <= isize::MAX,
                wf(self@, toks_view(tokens@)),
                tokens@.len() == old(tokens)@.len(),
                count as int == self@.tok_next,
                self@.tok_next >= old(self)@.tok_next,
                run(old(self)@, js@, toks_view(old(tokens)@)) == run(
                    self@,
                    js@,
                    toks_view(tokens@),
                ),
            decreases js@.len() - self.pos,
        {
            let ghost s_pre = self@;
            let ghost t_pre = toks_view(tokens@);
            proof {
                lemma_step_wf(s_pre, js@, t_pre);
                lemma_run_step(s_pre, js@, t_pre);
            }
            let c = js[self.pos];
            if c == LBRACE || c == LBRACKET {
                match self.alloc_token(tokens) {
                    None => {
                        proof {
                            assert(match step(s_pre, js@, t_pre) {
                                Step::Done(o) => o.res == Err::<int, Error>(Error::NoMemory)
                                    && o.state == self@ && o.toks == toks_view(tokens@),
                                _ => false,
                            });
                        }
                        return Err(Error::NoMemory);
                    },
                    Some(i) => {
                        count = count + 1;
                        if let Some(su) = self.tok_super {
                            let t = tokens[su];
                            // An object cannot own a container without a key.
                            if t.kind == TokenKind::Object {
                                proof {
                                    assert(match step(s_pre, js@, t_pre) {
                                        Step::Done(o) => o.res == Err::<int, Error>(
                                            Error::Invalid,
                                        ) && o.state == self@ && o.toks == toks_view(tokens@),
                                        _ => false,
                                    });
                                }
                                return Err(Error::Invalid);
                            }
                            let mut bumped = t;
                            bumped.size = bumped.size + 1;
                            tokens[su] = bumped;
                        }
                        let kind = if c == LBRACE {
                            TokenKind::Object
                        } else {
                            TokenKind::Array
                        };
                        tokens[i] = Token::new(kind, self.pos as isize, -1);
                        self.tok_super = Some(self.tok_next - 1);
                    },
                }
            } else if c == RBRACE || c == RBRACKET {
                let kind = if c == RBRACE {
                    TokenKind::Object
                } else {
                    TokenKind::Array
                };
                match find_open(tokens, self.tok_next) {
                    None => {
                        // An unmatched closing bracket.
                        proof {
                            assert(match step(s_pre, js@, t_pre) {
                                Step::Done(o) => o.res == Err::<int, Error>(Error::Invalid)
                                    && o.state == self@ && o.toks == toks_view(tokens@),
                                _ => false,
                            });
                        }
                        return Err(Error::Invalid);
                    },
                    Some(j) => {
                        proof {
                            lemma_last_open_range(t_pre, s_pre.tok_next);
                        }
                        if tokens[j].kind != kind {
                            proof {
                                assert(match step(s_pre, js@, t_pre) {
                                    Step::Done(o) => o.res == Err::<int, Error>(Error::Invalid)
                                        && o.state == self@ && o.toks == toks_view(tokens@),
                                    _ => false,
                                });
                            }
                            return Err(Error::Invalid);
                        }
                        let enclosing = find_open(tokens, j);
                        let mut t = tokens[j];
                        t.end = (self.pos + 1) as isize;
                        tokens[j] = t;
                        self.tok_super = enclosing;
                    },
                }
            } else if c == QUOTE {
                match self.parse_string(js, tokens) {
                    Err(e) => {
                        proof {
                            assert(match step(s_pre, js@, t_pre) {
                                Step::Done(o) => o.res == Err::<int, Error>(e) && o.state == self@
                                    && o.toks == toks_view(tokens@),
                                _ => false,
                            });
                        }
                        return Err(e);
                    },
                    Ok(_) => {},
                }
                count = count + 1;
                if let Some(su) = self.tok_super {
                    let mut bumped = tokens[su];
                    bumped.size = bumped.size + 1;
                    tokens[su] = bumped;
                }
                proof {
                    lemma_str_scan_range(js@, s_pre.pos + 1);
                }
            } else if c == TAB || c == CR || c == LF || c == SPACE {
                // Whitespace is skipped.
            } else if c == COLON {
                if self.tok_next == 0 {
                    // A colon before any token.
                    proof {
                        assert(match step(s_pre, js@, t_pre) {
                            Step::Done(o) => o.res == Err::<int, Error>(Error::Invalid) && o.state
                                == self@ && o.toks == toks_view(tokens@),
                            _ => false,
                        });
                    }
                    return Err(Error::Invalid);
                }
                self.tok_super = Some(self.tok_next - 1);
            } else if c == COMMA {
                if let Some(su) = self.tok_super {
                    let k = tokens[su].kind;
                    if k != TokenKind::Object && k != TokenKind::Array {
                        match find_open_container(tokens, self.tok_next) {
                            Some(j) => {
                                self.tok_super = Some(j);
                            },
                            None => {},
                        }
                    }
                }
            } else if is_primitive_lead_byte(c) {
                // Primitives must not be object keys, nor follow a key that
                // already owns its value.
                if let Some(su) = self.tok_super {
                    let t = tokens[su];
                    if t.kind == TokenKind::Object || (t.kind == TokenKind::Str && t.size != 0) {
                        proof {
                            assert(match step(s_pre, js@, t_pre) {
                                Step::Done(o) => o.res == Err::<int, Error>(Error::Invalid)
                                    && o.state == self@ && o.toks == toks_view(tokens@),
                                _ => false,
                            });
                        }
                        return Err(Error::Invalid);
                    }
                }
                match self.parse_primitive(js, tokens) {
                    Err(e) => {
                        proof {
                            assert(match step(s_pre, js@, t_pre) {
                                Step::Done(o) => o.res == Err::<int, Error>(e) && o.state == self@
                                    && o.toks == toks_view(tokens@),
                                _ => false,
                            });
                        }
                        return Err(e);
                    },
                    Ok(_) => {},
                }
                count = count + 1;
                if let Some(su) = self.tok_super {
                    let mut bumped = tokens[su];
                    bumped.size = bumped.size + 1;
                    tokens[su] = bumped;
                }
                proof {
                    lemma_prim_scan_range(js@, s_pre.pos);
                }
            } else {
                // An unexpected byte.
                proof {
                    assert(match step(s_pre, js@, t_pre) {
                        Step::Done(o) => o.res == Err::<int, Error>(Error::Invalid) && o.state
                            == self@ && o.toks == toks_view(tokens@),
                        _ => false,
                    });
                }
                return Err(Error::Invalid);
            }
            self.pos = self.pos + 1;
            proof {
                assert(match step(s_pre, js@, t_pre) {
                    Step::Next(s2, t2) => s2 == self@ && t2 =~= toks_view(tokens@),
                    _ => false,
                });
            }
        }
        // Any token still open means an unterminated container.
        match find_open(tokens, self.tok_next) {
            Some(_) => {
                return Err(Error::Part);
            },
            None => {},
        }
        Ok(count)
    }

    /// Scan one primitive from the cursor to the next delimiter and fill the
    /// next pool slot with it, as the model's primitive scan says: on a
    /// non-printable byte or on pool exhaustion the cursor is rewound to the
    /// start of the run; on success it is left one before the delimiter, for
    /// the caller's own increment to land on the delimiter itself.
    fn parse_primitive(&mut self, js: &[u8], tokens: &mut [Token]) -> (r: Result<(), Error>)
        requires
            js@.len() <= isize::MAX,
            old(self)@.pos < js@.len(),
            !is_delim(js@[old(self)@.pos]),
            is_printable(js@[old(self)@.pos]),
        ensures
            final(tokens)@.len() == old(tokens)@.len(),
            match prim_scan(js@, old(self)@.pos) {
                PrimScan::Bad => r == Err::<(), Error>(Error::Invalid) && *final(self) == *old(self)
                    && final(tokens)@ == old(tokens)@,
                PrimScan::End(e) => {
                    if old(self)@.tok_next < old(tokens)@.len() {
                        &&& r == Ok::<(), Error>(())
                        &&& final(self)@ == (PState {
                            pos: e - 1,
                            tok_next: old(self)@.tok_next + 1,
                            tok_super: old(self)@.tok_super,
                        })
                        &&& toks_view(final(tokens)@) == toks_view(old(tokens)@).update(
                            old(self)@.tok_next,
                            SpecToken {
                                kind: TokenKind::Primitive,
                                start: old(self)@.pos,
                                end: e,
                                size: 0,
                            },
                        )
                    } else {
                        &&& r == Err::<(), Error>(Error::NoMemory)
                        &&& *final(self) == *old(self)
                        &&& final(tokens)@ == old(tokens)@
                    }
                },
            },
    {
        let start = self.pos;
        while self.pos < js.len() && !is_delim_byte(js[self.pos])
            invariant
                js@.len() <= isize::MAX,
                start == old(self)@.pos,
                start <= self.pos <= js@.len(),
                start < js@.len() && !is_delim(js@[start as int]),
                self.tok_next == old(self).tok_next,
                self.tok_super == old(self).tok_super,
                tokens@ == old(tokens)@,
                prim_scan(js@, start as int) == prim_scan(js@, self.pos as int),
            decreases js@.len() - self.pos,
        {
            let c = js[self.pos];
            if c < 32 || c >= 127 {
                self.pos = start;
                return Err(Error::Invalid);
            }
            self.pos = self.pos + 1;
        }
        assert(prim_scan(js@, start as int) == PrimScan::End(self.pos as int));
        assert(self.pos != start);
        match self.alloc_token(tokens) {
            Some(i) => {
                tokens[i] = Token::new(TokenKind::Primitive, start as isize, self.pos as isize);
            },
            None => {
                self.pos = start;
                return Err(Error::NoMemory);
            },
        }
        self.pos = self.pos - 1;
        Ok(())
    }

    /// Scan one string from the opening quote at the cursor and fill the
    /// next pool slot with its content range (quotes excluded), as the
    /// model's string scan says: on a bad escape, on a non-hex `\u` digit,
    /// on an unterminated string and on pool exhaustion the cursor is
    /// rewound to the opening quote; on success it is left on the closing
    /// quote, for the caller's own increment to move past it.
    fn parse_string(&mut self, js: &[u8], tokens: &mut [Token]) -> (r: Result<(), Error>)
        requires
            js@.len() <= isize::MAX,
            old(self)@.pos < js@.len(),
        ensures
            final(tokens)@.len() == old(tokens)@.len(),
            match str_scan(js@, old(self)@.pos + 1) {
                StrScan::Closed(e) => {
                    if old(self)@.tok_next < old(tokens)@.len() {
                        &&& r == Ok::<(), Error>(())
                        &&& final(self)@ == (PState {
                            pos: e,
                            tok_next: old(self)@.tok_next + 1,
                            tok_super: old(self)@.tok_super,
                        })
                        &&& toks_view(final(tokens)@) == toks_view(old(tokens)@).update(
                            old(self)@.tok_next,
                            SpecToken {
                                kind: TokenKind::Str,
                                start: old(self)@.pos + 1,
                                end: e,
                                size: 0,
                            },
                        )
                    } else {
                        &&& r == Err::<(), Error>(Error::NoMemory)
                        &&& *final(self) == *old(self)
                        &&& final(tokens)@ == old(tokens)@
                    }
                },
                StrScan::Bad => r == Err::<(), Error>(Error::Invalid) && *final(self) == *old(self)
                    && final(tokens)@ == old(tokens)@,
                StrScan::Unterminated => r == Err::<(), Error>(Error::Part) && *final(self)
                    == *old(self) && final(tokens)@ == old(tokens)@,
            },
    {
        let start = self.pos;
        // Skip the opening quote.
        self.pos = self.pos + 1;
        while self.pos < js.len()
            invariant
                js@.len() <= isize::MAX,
                start == old(self)@.pos,
                start < js@.len(),
                start < self.pos <= js@.len(),
                self.tok_next == old(self).tok_next,
                self.tok_super == old(self).tok_super,
                tokens@ == old(tokens)@,
                str_scan(js@, start + 1) == str_scan(js@, self.pos as int),
            decreases js@.len() - self.pos,
        {
            let c = js[self.pos];
            // Quote: end of string.
            if c == QUOTE {
                match self.alloc_token(tokens) {
                    Some(i) => {
                        tokens[i] = Token::new(
                            TokenKind::Str,
                            (start + 1) as isize,
                            self.pos as isize,
                        );
                        return Ok(());
                    },
                    None => {
                        self.pos = start;
                        return Err(Error::NoMemory);
                    },
                }
            }
            // Backslash: an escape follows.
            if c == BACKSLASH && self.pos + 1 < js.len() {
                self.pos = self.pos + 1;
                let e = js[self.pos];
                if e == QUOTE || e == 47 || e == BACKSLASH || e == 98 || e == 102 || e == 114
                    || e == 110 || e == 116 {
                    // A one-byte escape: consumed by the increment below.
                } else if e == 117 {
                    // \uXXXX: up to four hex digits, fewer if the input ends.
                    self.pos = self.pos + 1;
                    let ghost u0 = self.pos as int;
                    let mut cnt: usize = 0;
                    while cnt < 4 && self.pos < js.len()
                        invariant
                            js@.len() <= isize::MAX,
                            start == old(self)@.pos,
                            0 <= u0,
                            cnt <= 4,
                            self.pos as int == u0 + cnt,
                            u0 <= self.pos as int <= js@.len(),
                            self.tok_next == old(self).tok_next,
                            self.tok_super == old(self).tok_super,
                            tokens@ == old(tokens)@,
                            all_hex(js@, u0, self.pos as int),
                            str_scan(js@, start + 1) == str_scan(js@, (u0 - 2) as int),
                            u0 - 2 < js@.len(),
                            js@[u0 - 2] == BACKSLASH,
                            u0 - 1 < js@.len(),
                            js@[u0 - 1] == 117,
                            !is_simple_escape(js@[u0 - 1]),
                            start + 1 <= u0 - 2,
                        decreases 4 - cnt,
                    {
                        let h = js[self.pos];
                        let ok = (48 <= h && h <= 57) || (65 <= h && h <= 70) || (97 <= h && h
                            <= 102);
                        if !ok {
                            proof {
                                assert(!all_hex(js@, u0, hex_window_end(js@, u0)));
                                assert(str_scan(js@, (u0 - 2) as int) == StrScan::Bad);
                            }
                            self.pos = start;
                            return Err(Error::Invalid);
                        }
                        self.pos = self.pos + 1;
                        cnt = cnt + 1;
                    }
                    proof {
                        assert(self.pos as int == hex_window_end(js@, u0));
                        assert(str_scan(js@, (u0 - 2) as int) == str_scan(js@, self.pos as int));
                    }
                    self.pos = self.pos - 1;
                } else {
                    // An unknown escape.
                    self.pos = start;
                    return Err(Error::Invalid);
                }
            }
            self.pos = self.pos + 1;
        }
        self.pos = start;
        Err(Error::Part)
    }
}

/// Whether a byte ends a primitive, as the model predicate reads it.
fn is_delim_byte(c: u8) -> (b: bool)
    ensures
        b == is_delim(c),
{
    c == COLON || c == TAB || c == CR || c == LF || c == SPACE || c == COMMA || c == RBRACKET
        || c == RBRACE
}

/// Whether a byte starts a primitive, as the model predicate reads it: a
/// digit, `-`, or the first letter of `true`, `false` or `null`.
fn is_primitive_lead_byte(c: u8) -> (b: bool)
    ensures
        b == is_primitive_lead(c),
{
    (48 <= c && c <= 57) || c == 45 || c == 116 || c == 102 || c == 110
}

} // verus!
