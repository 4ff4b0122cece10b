//! The mathematical model of the scan.
//!
//! The tokenizer is specified as a pure transition function: [`run`] takes an
//! abstract parser state, the input bytes and the token pool, consumes one
//! byte class per [`step`] and either stops with an [`Outcome`] or continues
//! with a strictly larger cursor. The executable parser in [`crate::parser`]
//! is proved to return exactly what [`run`] says, and the laws in
//! [`crate::laws`] are proved of [`run`] by induction.

use crate::token::Error;
use crate::token::SpecToken;
use crate::token::TokenKind;
use vstd::prelude::*;

verus! {

/// The byte `{`.
pub const LBRACE: u8 = 123;

/// The byte `}`.
pub const RBRACE: u8 = 125;

/// The byte `[`.
pub const LBRACKET: u8 = 91;

/// The byte `]`.
pub const RBRACKET: u8 = 93;

/// The byte `"`.
pub const QUOTE: u8 = 34;

/// The byte `\`.
pub const BACKSLASH: u8 = 92;

/// The byte `:`.
pub const COLON: u8 = 58;

/// The byte `,`.
pub const COMMA: u8 = 44;

/// The byte for a space.
pub const SPACE: u8 = 32;

/// The byte for a tab.
pub const TAB: u8 = 9;

/// The byte for a carriage return.
pub const CR: u8 = 13;

/// The byte for a line feed.
pub const LF: u8 = 10;

/// The abstract parser state: the cursor into the input, the number of pool
/// slots handed out so far, and the index of the token that the next emitted
/// token is attributed to (the top of the implicit stack), if any.
pub ghost struct PState {
    pub pos: int,
    pub tok_next: int,
    pub tok_super: Option<int>,
}

/// What one call of the tokenizer amounts to: the returned value, the parser
/// state left behind, and the token pool left behind.
pub ghost struct Outcome {
    pub res: Result<int, Error>,
    pub state: PState,
    pub toks: Seq<SpecToken>,
}

/// One dispatch either ends the call or continues in a new configuration.
pub ghost enum Step {
    Done(Outcome),
    Next(PState, Seq<SpecToken>),
}

/// A token whose start is known but whose end is not: an unclosed container
/// on the current nesting path.
pub open spec fn is_open(t: SpecToken) -> bool {
    t.start != -1 && t.end == -1
}

/// A byte that ends a primitive: `:`, `,`, `]`, `}`, space, tab, CR or LF.
pub open spec fn is_delim(c: u8) -> bool {
    ||| c == COLON
    ||| c == TAB
    ||| c == CR
    ||| c == LF
    ||| c == SPACE
    ||| c == COMMA
    ||| c == RBRACKET
    ||| c == RBRACE
}

/// Printable ASCII, the only bytes a primitive may hold.
pub open spec fn is_printable(c: u8) -> bool {
    32 <= c < 127
}

/// A byte that starts a primitive: a digit, `-`, or the first letter of
/// `true`, `false` or `null`.
pub open spec fn is_primitive_lead(c: u8) -> bool {
    ||| 48 <= c <= 57  // a digit
    ||| c == 45  // -
    ||| c == 116  // t
    ||| c == 102  // f
    ||| c == 110  // n
}

/// A hexadecimal digit, as the four digits of a `\uXXXX` escape.
pub open spec fn is_hex(c: u8) -> bool {
    ||| 48 <= c <= 57  // 0 to 9
    ||| 65 <= c <= 70  // A to F
    ||| 97 <= c <= 102  // a to f
}

/// The escapes `\" \/ \\ \b \f \r \n \t` that a string may hold.
pub open spec fn is_simple_escape(c: u8) -> bool {
    ||| c == QUOTE
    ||| c == 47  // /
    ||| c == BACKSLASH
    ||| c == 98  // b
    ||| c == 102  // f
    ||| c == 114  // r
    ||| c == 110  // n
    ||| c == 116  // t
}

/// Whether a container kind is one of the two container kinds.
pub open spec fn is_container(k: TokenKind) -> bool {
    k == TokenKind::Object || k == TokenKind::Array
}

/// What scanning a primitive from `i` yields: the index of the first
/// delimiter at or after `i` (or the input length if none follows), or a
/// fault if a non-printable byte stands in the run.
pub ghost enum PrimScan {
    End(int),
    Bad,
}

/// Scan a primitive: walk from `i` to the first delimiter or to the end of
/// the input; every byte on the way must be printable ASCII.
pub open spec fn prim_scan(js: Seq<u8>, i: int) -> PrimScan
    decreases js.len() - i,
{
    if i >= js.len() {
        PrimScan::End(js.len() as int)
    } else if is_delim(js[i]) {
        PrimScan::End(i)
    } else if !is_printable(js[i]) {
        PrimScan::Bad
    } else {
        prim_scan(js, i + 1)
    }
}

/// What scanning a string yields: the index of the unescaped closing quote,
/// a fault (a bad escape or a non-hex `\u` digit), or an unterminated string
/// (the input ended first).
pub ghost enum StrScan {
    Closed(int),
    Bad,
    Unterminated,
}

/// One past the last index of the `\uXXXX` hex window that begins at `i`:
/// four digits, or fewer if the input ends first.
pub open spec fn hex_window_end(js: Seq<u8>, i: int) -> int {
    if i + 4 <= js.len() {
        i + 4
    } else {
        js.len() as int
    }
}

/// Every byte in `[i, j)` is a hex digit.
pub open spec fn all_hex(js: Seq<u8>, i: int, j: int) -> bool {
    forall|k: int| i <= k < j ==> is_hex(#[trigger] js[k])
}

/// Scan a string body from `i` (one past the opening quote) for the closing
/// quote, consuming escape sequences on the way.
pub open spec fn str_scan(js: Seq<u8>, i: int) -> StrScan
    decreases js.len() - i,
{
    if i >= js.len() {
        StrScan::Unterminated
    } else if js[i] == QUOTE {
        StrScan::Closed(i)
    } else if js[i] == BACKSLASH && i + 1 < js.len() {
        if is_simple_escape(js[i + 1]) {
            str_scan(js, i + 2)
        } else if js[i + 1] == 117 {  // u
            let w = hex_window_end(js, i + 2);
            if all_hex(js, i + 2, w) {
                str_scan(js, w)
            } else {
                StrScan::Bad
            }
        } else {
            StrScan::Bad
        }
    } else {
        str_scan(js, i + 1)
    }
}

/// The largest `j < n` such that `toks[j]` is open, if any: the innermost
/// unclosed container, found by the backward scan over the pool.
pub open spec fn last_open(toks: Seq<SpecToken>, n: int) -> Option<int>
    decreases n,
{
    if n <= 0 {
        None
    } else if is_open(toks[n - 1]) {
        Some(n - 1)
    } else {
        last_open(toks, n - 1)
    }
}

/// The largest `j < n` such that `toks[j]` is an open object or array, if
/// any: where attribution returns after the value slot of a key.
pub open spec fn last_open_container(toks: Seq<SpecToken>, n: int) -> Option<int>
    decreases n,
{
    if n <= 0 {
        None
    } else if is_container(toks[n - 1].kind) && is_open(toks[n - 1]) {
        Some(n - 1)
    } else {
        last_open_container(toks, n - 1)
    }
}

/// A freshly allocated pool slot: range and child count cleared, the kind
/// left as the slot held it.
pub open spec fn reset_slot(t: SpecToken) -> SpecToken {
    SpecToken { kind: t.kind, start: -1, end: -1, size: 0 }
}

/// The same token with one more child attributed to it.
pub open spec fn bump_size(t: SpecToken) -> SpecToken {
    SpecToken { kind: t.kind, start: t.start, end: t.end, size: t.size + 1 }
}

/// The same state with the cursor moved one byte onward.
pub open spec fn advance(s: PState) -> PState {
    PState { pos: s.pos + 1, tok_next: s.tok_next, tok_super: s.tok_super }
}

/// `{` or `[`: allocate a pool slot for the container. An object cannot own
/// a container without an intervening key, so a super token of kind object
/// faults; any other super token gains a child. The new token is open at the
/// current byte and becomes the super token.
pub open spec fn open_step(s: PState, toks: Seq<SpecToken>, kind: TokenKind) -> Step {
    if s.tok_next >= toks.len() {
        Step::Done(Outcome { res: Err(Error::NoMemory), state: s, toks })
    } else {
        let toks1 = toks.update(s.tok_next, reset_slot(toks[s.tok_next]));
        let s1 = PState { pos: s.pos, tok_next: s.tok_next + 1, tok_super: s.tok_super };
        match s.tok_super {
            Some(su) => {
                if toks1[su].kind == TokenKind::Object {
                    Step::Done(Outcome { res: Err(Error::Invalid), state: s1, toks: toks1 })
                } else {
                    let toks2 = toks1.update(su, bump_size(toks1[su]));
                    let toks3 = toks2.update(
                        s.tok_next,
                        SpecToken { kind, start: s.pos, end: -1, size: 0 },
                    );
                    Step::Next(
                        PState {
                            pos: s.pos + 1,
                            tok_next: s.tok_next + 1,
                            tok_super: Some(s.tok_next),
                        },
                        toks3,
                    )
                }
            },
            None => {
                let toks3 = toks1.update(
                    s.tok_next,
                    SpecToken { kind, start: s.pos, end: -1, size: 0 },
                );
                Step::Next(
                    PState { pos: s.pos + 1, tok_next: s.tok_next + 1, tok_super: Some(s.tok_next) },
                    toks3,
                )
            },
        }
    }
}

/// `}` or `]`: the innermost open token must exist and match the bracket; its
/// end becomes one past the bracket, and the next enclosing open token (if
/// any) becomes the super token again.
pub open spec fn close_step(s: PState, toks: Seq<SpecToken>, kind: TokenKind) -> Step {
    match last_open(toks, s.tok_next) {
        None => Step::Done(Outcome { res: Err(Error::Invalid), state: s, toks }),
        Some(j) => {
            if toks[j].kind != kind {
                Step::Done(Outcome { res: Err(Error::Invalid), state: s, toks })
            } else {
                let closed = SpecToken {
                    kind: toks[j].kind,
                    start: toks[j].start,
                    end: s.pos + 1,
                    size: toks[j].size,
                };
                Step::Next(
                    PState {
                        pos: s.pos + 1,
                        tok_next: s.tok_next,
                        tok_super: last_open(toks, j),
                    },
                    toks.update(j, closed),
                )
            }
        },
    }
}

/// `"`: scan for the closing quote. On success one string token spanning the
/// content (quotes excluded) is allocated and the super token gains a child;
/// on any failure the cursor stays at the opening quote.
pub open spec fn string_step(s: PState, js: Seq<u8>, toks: Seq<SpecToken>) -> Step {
    match str_scan(js, s.pos + 1) {
        StrScan::Closed(e) => {
            if s.tok_next >= toks.len() {
                Step::Done(Outcome { res: Err(Error::NoMemory), state: s, toks })
            } else {
                let toks1 = toks.update(
                    s.tok_next,
                    SpecToken { kind: TokenKind::Str, start: s.pos + 1, end: e, size: 0 },
                );
                let toks2 = match s.tok_super {
                    Some(su) => toks1.update(su, bump_size(toks1[su])),
                    None => toks1,
                };
                Step::Next(
                    PState { pos: e + 1, tok_next: s.tok_next + 1, tok_super: s.tok_super },
                    toks2,
                )
            }
        },
        StrScan::Bad => Step::Done(Outcome { res: Err(Error::Invalid), state: s, toks }),
        StrScan::Unterminated => Step::Done(Outcome { res: Err(Error::Part), state: s, toks }),
    }
}

/// `:`: attribution moves to the token just emitted — the key — so that the
/// value about to follow counts as the key's child. A colon before any token
/// faults.
pub open spec fn colon_step(s: PState, toks: Seq<SpecToken>) -> Step {
    if s.tok_next == 0 {
        Step::Done(Outcome { res: Err(Error::Invalid), state: s, toks })
    } else {
        Step::Next(
            PState { pos: s.pos + 1, tok_next: s.tok_next, tok_super: Some(s.tok_next - 1) },
            toks,
        )
    }
}

/// `,`: if attribution sits on a key (not on a container), it returns to the
/// nearest enclosing open container, or stays where it was if none is open.
pub open spec fn comma_step(s: PState, toks: Seq<SpecToken>) -> Step {
    match s.tok_super {
        Some(su) => {
            if is_container(toks[su].kind) {
                Step::Next(advance(s), toks)
            } else {
                let sup = match last_open_container(toks, s.tok_next) {
                    Some(j) => Some(j),
                    None => s.tok_super,
                };
                Step::Next(
                    PState { pos: s.pos + 1, tok_next: s.tok_next, tok_super: sup },
                    toks,
                )
            }
        },
        None => Step::Next(advance(s), toks),
    }
}

/// A primitive lead byte: a primitive cannot be an object key, nor follow a
/// key that already owns its value. The run to the next delimiter becomes one
/// primitive token, the super token gains a child, and the delimiter itself
/// is left to be dispatched on.
pub open spec fn prim_step(s: PState, js: Seq<u8>, toks: Seq<SpecToken>) -> Step {
    let faulted = match s.tok_super {
        Some(su) => toks[su].kind == TokenKind::Object || (toks[su].kind == TokenKind::Str
            && toks[su].size != 0),
        None => false,
    };
    if faulted {
        Step::Done(Outcome { res: Err(Error::Invalid), state: s, toks })
    } else {
        match prim_scan(js, s.pos) {
            PrimScan::Bad => Step::Done(Outcome { res: Err(Error::Invalid), state: s, toks }),
            PrimScan::End(e) => {
                if s.tok_next >= toks.len() {
                    Step::Done(Outcome { res: Err(Error::NoMemory), state: s, toks })
                } else {
                    let toks1 = toks.update(
                        s.tok_next,
                        SpecToken { kind: TokenKind::Primitive, start: s.pos, end: e, size: 0 },
                    );
                    let toks2 = match s.tok_super {
                        Some(su) => toks1.update(su, bump_size(toks1[su])),
                        None => toks1,
                    };
                    Step::Next(
                        PState { pos: e, tok_next: s.tok_next + 1, tok_super: s.tok_super },
                        toks2,
                    )
                }
            },
        }
    }
}

/// Dispatch on the byte under the cursor, as the table in the top-level scan
/// reads it. Whitespace is skipped; any byte no case accepts faults.
pub open spec fn step(s: PState, js: Seq<u8>, toks: Seq<SpecToken>) -> Step {
    let c = js[s.pos];
    if c == LBRACE {
        open_step(s, toks, TokenKind::Object)
    } else if c == LBRACKET {
        open_step(s, toks, TokenKind::Array)
    } else if c == RBRACE {
        close_step(s, toks, TokenKind::Object)
    } else if c == RBRACKET {
        close_step(s, toks, TokenKind::Array)
    } else if c == QUOTE {
        string_step(s, js, toks)
    } else if c == TAB || c == CR || c == LF || c == SPACE {
        Step::Next(advance(s), toks)
    } else if c == COLON {
        colon_step(s, toks)
    } else if c == COMMA {
        comma_step(s, toks)
    } else if is_primitive_lead(c) {
        prim_step(s, js, toks)
    } else {
        Step::Done(Outcome { res: Err(Error::Invalid), state: s, toks })
    }
}

/// What the call returns once the cursor leaves the input: a token still open
/// means the document is incomplete; otherwise the total number of pool slots
/// handed out so far is the token count.
pub open spec fn finish(s: PState, toks: Seq<SpecToken>) -> Outcome {
    if last_open(toks, s.tok_next) is Some {
        Outcome { res: Err(Error::Part), state: s, toks }
    } else {
        Outcome { res: Ok(s.tok_next), state: s, toks }
    }
}

/// The whole scan: dispatch byte classes until the input is exhausted or a
/// step ends the call. Every continuing step moves the cursor strictly
/// onward, which bounds the scan by the input length.
pub open spec fn run(s: PState, js: Seq<u8>, toks: Seq<SpecToken>) -> Outcome
    decreases js.len() - s.pos,
{
    if !(0 <= s.pos < js.len()) {
        finish(s, toks)
    } else {
        match step(s, js, toks) {
            Step::Done(o) => o,
            Step::Next(s2, toks2) => {
                if s.pos < s2.pos && s2.pos <= js.len() {
                    run(s2, js, toks2)
                } else {
                    finish(s2, toks2)
                }
            },
        }
    }
}

/// A primitive scan never ends before it started nor past the input; it ends
/// at the input length or on a delimiter; and every byte of the run is
/// printable and no delimiter.
pub proof fn lemma_prim_scan_range(js: Seq<u8>, i: int)
    requires
        0 <= i <= js.len(),
    ensures
        match prim_scan(js, i) {
            PrimScan::End(e) => {
                &&& i <= e <= js.len()
                &&& e < js.len() ==> is_delim(js[e])
                &&& forall|k: int| i <= k < e ==> !is_delim(#[trigger] js[k]) && is_printable(js[k])
            },
            PrimScan::Bad => true,
        },
    decreases js.len() - i,
{
    if i >= js.len() {
    } else if is_delim(js[i]) {
    } else if !is_printable(js[i]) {
    } else {
        lemma_prim_scan_range(js, i + 1);
    }
}

/// A closed string scan ends at or after where it started and strictly
/// inside the input, on a quote.
pub proof fn lemma_str_scan_range(js: Seq<u8>, i: int)
    requires
        0 <= i,
    ensures
        match str_scan(js, i) {
            StrScan::Closed(e) => i <= e < js.len() && js[e] == QUOTE,
            _ => true,
        },
    decreases js.len() - i,
{
    if i >= js.len() {
    } else if js[i] == QUOTE {
    } else if js[i] == BACKSLASH && i + 1 < js.len() {
        if is_simple_escape(js[i + 1]) {
            lemma_str_scan_range(js, i + 2);
        } else if js[i + 1] == 117 {
            let w = hex_window_end(js, i + 2);
            if all_hex(js, i + 2, w) {
                lemma_str_scan_range(js, w);
            }
        }
    } else {
        lemma_str_scan_range(js, i + 1);
    }
}

/// The innermost open token, when there is one, is an allocated slot, is
/// open, and nothing above it is open.
pub proof fn lemma_last_open_range(toks: Seq<SpecToken>, n: int)
    ensures
        match last_open(toks, n) {
            Some(j) => {
                &&& 0 <= j < n
                &&& is_open(toks[j])
                &&& forall|k: int| j < k < n ==> !is_open(#[trigger] toks[k])
            },
            None => forall|k: int| 0 <= k < n ==> !is_open(#[trigger] toks[k]),
        },
    decreases n,
{
    if n <= 0 {
    } else if is_open(toks[n - 1]) {
    } else {
        lemma_last_open_range(toks, n - 1);
    }
}

/// The innermost open container, when there is one, is an allocated slot, is
/// an open container, and no open container stands above it.
pub proof fn lemma_last_open_container_range(toks: Seq<SpecToken>, n: int)
    ensures
        match last_open_container(toks, n) {
            Some(j) => {
                &&& 0 <= j < n
                &&& is_container(toks[j].kind) && is_open(toks[j])
                &&& forall|k: int| j < k < n ==> !(is_container((#[trigger] toks[k]).kind)
                    && is_open(toks[k]))
            },
            None => forall|k: int| 0 <= k < n ==> !(is_container((#[trigger] toks[k]).kind)
                && is_open(toks[k])),
        },
    decreases n,
{
    if n <= 0 {
    } else if is_container(toks[n - 1].kind) && is_open(toks[n - 1]) {
    } else {
        lemma_last_open_container_range(toks, n - 1);
    }
}

/// A continuing step moves the cursor strictly onward, and never past the
/// end of the input.
pub proof fn lemma_step_advances(s: PState, js: Seq<u8>, toks: Seq<SpecToken>)
    requires
        0 <= s.pos < js.len(),
    ensures
        match step(s, js, toks) {
            Step::Done(o) => true,
            Step::Next(s2, t2) => s.pos < s2.pos <= js.len(),
        },
{
    let c = js[s.pos];
    if c == QUOTE {
        lemma_str_scan_range(js, s.pos + 1);
    } else if is_primitive_lead(c) {
        lemma_prim_scan_range(js, s.pos);
        match prim_scan(js, s.pos) {
            PrimScan::End(e) => {
                assert(!is_delim(c) && is_printable(c));
                assert(prim_scan(js, s.pos) == prim_scan(js, s.pos + 1));
                lemma_prim_scan_range(js, s.pos + 1);
            },
            PrimScan::Bad => {},
        }
    }
}

/// One unfolding of [`run`]: a step that ends the call gives its outcome,
/// and a continuing step gives the run from where it left off.
pub proof fn lemma_run_step(s: PState, js: Seq<u8>, toks: Seq<SpecToken>)
    requires
        0 <= s.pos < js.len(),
    ensures
        match step(s, js, toks) {
            Step::Done(o) => run(s, js, toks) == o,
            Step::Next(s2, t2) => s.pos < s2.pos <= js.len() && run(s, js, toks) == run(
                s2,
                js,
                t2,
            ),
        },
{
    lemma_step_advances(s, js, toks);
}

/// Every step preserves well-formedness of the configuration and the length
/// of the pool, and never takes a pool slot back.
pub proof fn lemma_step_wf(s: PState, js: Seq<u8>, toks: Seq<SpecToken>)
    requires
        wf(s, toks),
        0 <= s.pos < js.len(),
    ensures
        match step(s, js, toks) {
            Step::Done(o) => wf(o.state, o.toks) && o.toks.len() == toks.len()
                && o.state.tok_next >= s.tok_next,
            Step::Next(s2, t2) => wf(s2, t2) && t2.len() == toks.len() && s2.tok_next
                >= s.tok_next,
        },
{
    let c = js[s.pos];
    if c == RBRACE || c == RBRACKET {
        lemma_last_open_range(toks, s.tok_next);
        match last_open(toks, s.tok_next) {
            Some(j) => {
                lemma_last_open_range(toks, j);
            },
            None => {},
        }
    } else if c == QUOTE {
        lemma_str_scan_range(js, s.pos + 1);
    } else if c == COMMA {
        lemma_last_open_container_range(toks, s.tok_next);
    } else if is_primitive_lead(c) {
        lemma_prim_scan_range(js, s.pos);
    }
}

/// The configurations the parser can actually stand in: the pool cursor is
/// within the pool, the super token (if any) is an allocated slot, and no
/// allocated token has gathered more children than there are allocated
/// tokens. A fresh parser satisfies this with any pool, and every call
/// preserves it.
pub open spec fn wf(s: PState, toks: Seq<SpecToken>) -> bool {
    &&& 0 <= s.pos
    &&& 0 <= s.tok_next <= toks.len()
    &&& match s.tok_super {
        Some(su) => 0 <= su < s.tok_next,
        None => true,
    }
    &&& forall|i: int| 0 <= i < s.tok_next ==> 0 <= (#[trigger] toks[i]).size <= s.tok_next
}

} // verus!
