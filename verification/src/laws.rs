//! The laws of the tokenizer, proved of the model by induction over [`run`].
//!
//! Each law speaks of the same configurations that the contract of
//! [`crate::JsonParser::parse`] speaks of, so together with that contract it
//! holds of the executable parser: a call's outcome *is* `run` on its
//! starting configuration.

use crate::model::all_hex;
use crate::model::finish;
use crate::model::hex_window_end;
use crate::model::is_container;
use crate::model::is_delim;
use crate::model::is_hex;
use crate::model::is_primitive_lead;
use crate::model::is_printable;
use crate::model::is_simple_escape;
use crate::model::last_open;
use crate::model::prim_scan;
use crate::model::str_scan;
use crate::model::last_open_container;
use crate::model::lemma_last_open_range;
use crate::model::lemma_prim_scan_range;
use crate::model::lemma_run_step;
use crate::model::lemma_step_advances;
use crate::model::lemma_str_scan_range;
use crate::model::lemma_step_wf;
use crate::model::run;
use crate::model::step;
use crate::model::wf;
use crate::model::Outcome;
use crate::model::PState;
use crate::model::Step;
use crate::model::PrimScan;
use crate::model::StrScan;
use crate::model::BACKSLASH;
use crate::model::COMMA;
use crate::model::LBRACE;
use crate::model::LBRACKET;
use crate::model::QUOTE;
use crate::model::RBRACE;
use crate::model::RBRACKET;
use crate::token::TokenKind;
use crate::token::Error;
use crate::token::SpecToken;
use vstd::prelude::*;

verus! {

/// A call leaves a well-formed configuration behind, never shrinks the pool
/// or the pool cursor, and never moves the input cursor past the end.
pub proof fn lemma_run_wf(s: PState, js: Seq<u8>, toks: Seq<SpecToken>)
    requires
        wf(s, toks),
        s.pos <= js.len(),
    ensures
        ({
            let o = run(s, js, toks);
            &&& wf(o.state, o.toks)
            &&& o.toks.len() == toks.len()
            &&& o.state.tok_next >= s.tok_next
            &&& o.state.pos <= js.len()
        }),
    decreases js.len() - s.pos,
{
    if !(0 <= s.pos < js.len()) {
    } else {
        lemma_step_wf(s, js, toks);
        lemma_run_step(s, js, toks);
        match step(s, js, toks) {
            Step::Done(o) => {},
            Step::Next(s2, t2) => {
                lemma_run_wf(s2, js, t2);
            },
        }
    }
}

/// When a call returns a count, the count is the pool cursor, the whole
/// input has been consumed, and no token is left open.
pub proof fn lemma_run_ok(s: PState, js: Seq<u8>, toks: Seq<SpecToken>)
    requires
        0 <= s.pos,
    ensures
        ({
            let o = run(s, js, toks);
            o.res is Ok ==> {
                &&& o.res == Ok::<int, Error>(o.state.tok_next)
                &&& o.state.pos >= js.len()
                &&& last_open(o.toks, o.state.tok_next) is None
            }
        }),
    decreases js.len() - s.pos,
{
    if !(0 <= s.pos < js.len()) {
    } else {
        lemma_run_step(s, js, toks);
        match step(s, js, toks) {
            Step::Done(o) => {},
            Step::Next(s2, t2) => {
                lemma_step_advances(s, js, toks);
                lemma_run_ok(s2, js, t2);
            },
        }
    }
}

/// The token count is idempotent: running again over an unchanged,
/// fully-closed buffer — one whose first call returned a count — allocates
/// nothing, changes nothing, and returns the same count.
pub proof fn lemma_count_idempotent(s: PState, js: Seq<u8>, toks: Seq<SpecToken>)
    requires
        0 <= s.pos,
        run(s, js, toks).res is Ok,
    ensures
        ({
            let o = run(s, js, toks);
            run(o.state, js, o.toks) == o
        }),
{
    lemma_run_ok(s, js, toks);
}

/// Two pools agree on their first `n` slots.
pub open spec fn agree_prefix(ta: Seq<SpecToken>, tb: Seq<SpecToken>, n: int) -> bool {
    forall|i: int| 0 <= i < n ==> ta[i] == tb[i]
}

/// The backward scan for an open token reads only the slots below `n`.
proof fn lemma_last_open_prefix(ta: Seq<SpecToken>, tb: Seq<SpecToken>, n: int)
    requires
        agree_prefix(ta, tb, n),
    ensures
        last_open(ta, n) == last_open(tb, n),
    decreases n,
{
    if n <= 0 {
    } else {
        lemma_last_open_prefix(ta, tb, n - 1);
    }
}

/// The backward scan for an open container reads only the slots below `n`.
proof fn lemma_last_open_container_prefix(ta: Seq<SpecToken>, tb: Seq<SpecToken>, n: int)
    requires
        agree_prefix(ta, tb, n),
    ensures
        last_open_container(ta, n) == last_open_container(tb, n),
    decreases n,
{
    if n <= 0 {
    } else {
        lemma_last_open_container_prefix(ta, tb, n - 1);
    }
}

/// A step that ends the call never ends it with a count.
proof fn lemma_step_done_err(s: PState, js: Seq<u8>, toks: Seq<SpecToken>)
    ensures
        match step(s, js, toks) {
            Step::Done(o) => o.res is Err,
            Step::Next(s2, t2) => true,
        },
{
}

/// One step of two runs over the same input and state, whose pools agree on
/// every allocated slot but whose capacities may differ: the smaller-pool
/// step either moves in lockstep or fails allocation.
proof fn lemma_step_compare(s: PState, js: Seq<u8>, ta: Seq<SpecToken>, tb: Seq<SpecToken>)
    requires
        wf(s, ta),
        wf(s, tb),
        0 <= s.pos < js.len(),
        tb.len() <= ta.len(),
        agree_prefix(ta, tb, s.tok_next),
    ensures
        match (step(s, js, ta), step(s, js, tb)) {
            (Step::Done(oa), Step::Done(ob)) => oa.res is Err,
            (Step::Done(oa), Step::Next(sb, t2b)) => false,
            (Step::Next(sa, t2a), Step::Next(sb, t2b)) => sa == sb && agree_prefix(
                t2a,
                t2b,
                sa.tok_next,
            ) && s.tok_next <= sa.tok_next,
            (Step::Next(sa, t2a), Step::Done(ob)) => ob.res == Err::<int, Error>(Error::NoMemory)
                && sa.tok_next == s.tok_next + 1 && s.tok_next >= tb.len(),
        },
{
    lemma_step_done_err(s, js, ta);
    let c = js[s.pos];
    if c == RBRACE || c == RBRACKET {
        lemma_last_open_prefix(ta, tb, s.tok_next);
        match last_open(ta, s.tok_next) {
            Some(j) => {
                lemma_last_open_range(ta, s.tok_next);
                lemma_last_open_prefix(ta, tb, j);
            },
            None => {},
        }
    } else if c == COMMA {
        lemma_last_open_container_prefix(ta, tb, s.tok_next);
    }
}

/// The capacity boundary: of two runs from one state over one input, whose
/// pools hold the same allocated tokens, the one with the larger pool
/// returning a count means the other returns the same count, state and
/// tokens if its pool has room for the count, and reports exhaustion if it
/// is even one slot short.
pub proof fn lemma_capacity(s: PState, js: Seq<u8>, ta: Seq<SpecToken>, tb: Seq<SpecToken>)
    requires
        wf(s, ta),
        wf(s, tb),
        s.pos <= js.len(),
        tb.len() <= ta.len(),
        agree_prefix(ta, tb, s.tok_next),
        run(s, js, ta).res is Ok,
    ensures
        ({
            let oa = run(s, js, ta);
            let ob = run(s, js, tb);
            let n = oa.state.tok_next;
            &&& n <= tb.len() ==> ob.res == oa.res && ob.state == oa.state && agree_prefix(
                oa.toks,
                ob.toks,
                n,
            )
            &&& n > tb.len() ==> ob.res == Err::<int, Error>(Error::NoMemory)
        }),
    decreases js.len() - s.pos,
{
    lemma_run_ok(s, js, ta);
    if !(0 <= s.pos < js.len()) {
        lemma_last_open_prefix(ta, tb, s.tok_next);
    } else {
        lemma_step_compare(s, js, ta, tb);
        lemma_run_step(s, js, ta);
        lemma_run_step(s, js, tb);
        lemma_step_wf(s, js, ta);
        lemma_step_wf(s, js, tb);
        match (step(s, js, ta), step(s, js, tb)) {
            (Step::Done(oa1), _) => {},
            (Step::Next(sa, t2a), Step::Next(sb, t2b)) => {
                lemma_capacity(sa, js, t2a, t2b);
            },
            (Step::Next(sa, t2a), Step::Done(ob1)) => {
                lemma_run_wf(sa, js, t2a);
            },
        }
    }
}

/// A primitive scan inside a prefix of the input reads the same on the full
/// input, unless it ran into the cut itself: a fault stands either way, and
/// an end strictly inside the prefix, at the end of the whole input, or on a
/// byte that delimits in the full input too, stands either way.
proof fn lemma_prim_scan_prefix(js: Seq<u8>, m: int, i: int)
    requires
        0 <= i <= m <= js.len(),
    ensures
        match prim_scan(js.take(m), i) {
            PrimScan::Bad => prim_scan(js, i) == PrimScan::Bad,
            PrimScan::End(e) => (e < m || m == js.len() || is_delim(js[m])) ==> prim_scan(js, i)
                == PrimScan::End(e),
        },
    decreases m - i,
{
    let js1 = js.take(m);
    if i >= m {
    } else if is_delim(js1[i]) {
    } else if !is_printable(js1[i]) {
    } else {
        lemma_prim_scan_prefix(js, m, i + 1);
    }
}

/// A string scan that resolves inside a prefix of the input — closed or
/// faulted — reads the same on the full input; only an unterminated scan can
/// read on past the cut.
proof fn lemma_str_scan_prefix(js: Seq<u8>, m: int, i: int)
    requires
        0 <= i,
        0 <= m <= js.len(),
    ensures
        match str_scan(js.take(m), i) {
            StrScan::Closed(e) => str_scan(js, i) == StrScan::Closed(e),
            StrScan::Bad => str_scan(js, i) == StrScan::Bad,
            StrScan::Unterminated => true,
        },
    decreases m - i,
{
    let js1 = js.take(m);
    if i >= m {
    } else if js1[i] == QUOTE {
    } else if js1[i] == BACKSLASH && i + 1 < m {
        if is_simple_escape(js1[i + 1]) {
            lemma_str_scan_prefix(js, m, i + 2);
        } else if js1[i + 1] == 117 {
            let w1 = hex_window_end(js1, i + 2);
            let w = hex_window_end(js, i + 2);
            if all_hex(js1, i + 2, w1) {
                if w1 == i + 6 {
                    assert(w == w1);
                    assert forall|k: int| i + 2 <= k < w implies is_hex(#[trigger] js[k]) by {
                        assert(js[k] == js1[k]);
                    }
                    assert(all_hex(js, i + 2, w));
                    lemma_str_scan_prefix(js, m, w1);
                } else {
                    // The window was cut short by the prefix end: the
                    // prefix scan continues at the cut and ends
                    // unterminated.
                    assert(w1 == m);
                    assert(str_scan(js1, i) == str_scan(js1, w1));
                    assert(str_scan(js1, w1) == StrScan::Unterminated);
                }
            } else {
                let k = choose|k: int| i + 2 <= k < w1 && !is_hex(js1[k]);
                assert(js[k] == js1[k]);
                assert(!all_hex(js, i + 2, w));
            }
        }
    } else {
        if js1[i] == BACKSLASH {
            // The backslash is the last byte of the prefix: the prefix scan
            // steps over it and ends unterminated.
            assert(str_scan(js1, i) == str_scan(js1, i + 1));
            assert(str_scan(js1, i + 1) == StrScan::Unterminated);
        } else {
            lemma_str_scan_prefix(js, m, i + 1);
        }
    }
}

/// The opening byte of a container kind.
pub open spec fn open_byte(k: TokenKind) -> u8 {
    if k == TokenKind::Object {
        LBRACE
    } else {
        LBRACKET
    }
}

/// One token describes a real span of the input scanned up to `pos`: the
/// slot is unused, or an open container standing on its opening bracket, or
/// a closed token whose range carves the source text of an element of its
/// kind out of the input — a container from opening to closing bracket, a
/// string's content between its two quotes, a primitive's unbroken run of
/// printable bytes up to a delimiter or the end of the input.
pub open spec fn token_sound(t: SpecToken, js: Seq<u8>, pos: int) -> bool {
    ||| (t.start == -1 && t.end == -1)
    ||| (t.end == -1 && is_container(t.kind) && 0 <= t.start <= pos && t.start < js.len()
        && js[t.start] == open_byte(t.kind))
    ||| (0 <= t.start <= t.end <= js.len() && match t.kind {
        TokenKind::Undefined => false,
        TokenKind::Object => t.start < t.end && js[t.start] == LBRACE && js[t.end - 1] == RBRACE,
        TokenKind::Array => t.start < t.end && js[t.start] == LBRACKET && js[t.end - 1]
            == RBRACKET,
        TokenKind::Str => 1 <= t.start && t.end < js.len() && js[t.start - 1] == QUOTE
            && js[t.end] == QUOTE,
        TokenKind::Primitive => t.start < t.end && (t.end < js.len() ==> is_delim(js[t.end]))
            && (forall|k: int| t.start <= k < t.end ==> is_printable(#[trigger] js[k])
            && !is_delim(js[k])),
    })
}

/// Every allocated token describes a real span of the input, as
/// [`token_sound`] says: slicing `[start, end)` from the input is always
/// sound, and reproduces the source text the token was carved from.
pub open spec fn ranges_wf(toks: Seq<SpecToken>, n: int, js: Seq<u8>, pos: int) -> bool {
    forall|i: int| 0 <= i < n ==> token_sound(#[trigger] toks[i], js, pos)
}

/// One step preserves the soundness of every allocated range.
proof fn lemma_step_ranges(s: PState, js: Seq<u8>, toks: Seq<SpecToken>)
    requires
        wf(s, toks),
        ranges_wf(toks, s.tok_next, js, s.pos),
        0 <= s.pos < js.len(),
    ensures
        match step(s, js, toks) {
            Step::Done(o) => ranges_wf(o.toks, o.state.tok_next, js, o.state.pos),
            Step::Next(s2, t2) => ranges_wf(t2, s2.tok_next, js, s2.pos),
        },
{
    let c = js[s.pos];
    if c == RBRACE || c == RBRACKET {
        lemma_last_open_range(toks, s.tok_next);
        match last_open(toks, s.tok_next) {
            Some(j) => {
                lemma_last_open_range(toks, j);
            },
            None => {},
        }
    } else if c == QUOTE {
        lemma_str_scan_range(js, s.pos + 1);
    } else if is_primitive_lead(c) {
        lemma_prim_scan_range(js, s.pos);
        match prim_scan(js, s.pos) {
            PrimScan::End(e) => {
                assert(prim_scan(js, s.pos) == prim_scan(js, s.pos + 1));
                lemma_prim_scan_range(js, s.pos + 1);
            },
            PrimScan::Bad => {},
        }
    }
}

/// A run started on sound ranges leaves every allocated range sound: each
/// token's span lies within the input, ordered, and of a known kind.
pub proof fn lemma_run_ranges(s: PState, js: Seq<u8>, toks: Seq<SpecToken>)
    requires
        wf(s, toks),
        ranges_wf(toks, s.tok_next, js, s.pos),
        s.pos <= js.len(),
    ensures
        ({
            let o = run(s, js, toks);
            ranges_wf(o.toks, o.state.tok_next, js, o.state.pos)
        }),
    decreases js.len() - s.pos,
{
    if !(0 <= s.pos < js.len()) {
    } else {
        lemma_run_step(s, js, toks);
        lemma_step_wf(s, js, toks);
        lemma_step_ranges(s, js, toks);
        match step(s, js, toks) {
            Step::Done(o) => {},
            Step::Next(s2, t2) => {
                lemma_run_ranges(s2, js, t2);
            },
        }
    }
}

/// One step writes only to slots below the pool cursor it leaves behind.
proof fn lemma_step_frame(s: PState, js: Seq<u8>, toks: Seq<SpecToken>)
    requires
        wf(s, toks),
        0 <= s.pos < js.len(),
    ensures
        match step(s, js, toks) {
            Step::Done(o) => forall|i: int|
                o.state.tok_next <= i < toks.len() ==> o.toks[i] == toks[i],
            Step::Next(s2, t2) => forall|i: int|
                s2.tok_next <= i < toks.len() ==> t2[i] == toks[i],
        },
{
    let c = js[s.pos];
    if c == RBRACE || c == RBRACKET {
        lemma_last_open_range(toks, s.tok_next);
    }
}

/// The engine only fills: a run never touches a slot at or above the pool
/// cursor it ends with, whatever it returns. Together with
/// [`lemma_run_ranges`] this is the promise that no error discards or
/// corrupts committed work: every slot either keeps what the caller put
/// there or holds a sound token.
pub proof fn lemma_run_frame(s: PState, js: Seq<u8>, toks: Seq<SpecToken>)
    requires
        wf(s, toks),
        s.pos <= js.len(),
    ensures
        ({
            let o = run(s, js, toks);
            forall|i: int| o.state.tok_next <= i < toks.len() ==> o.toks[i] == toks[i]
        }),
    decreases js.len() - s.pos,
{
    if !(0 <= s.pos < js.len()) {
    } else {
        lemma_run_step(s, js, toks);
        lemma_step_wf(s, js, toks);
        lemma_step_frame(s, js, toks);
        match step(s, js, toks) {
            Step::Done(o) => {},
            Step::Next(s2, t2) => {
                lemma_run_wf(s2, js, t2);
                lemma_run_frame(s2, js, t2);
            },
        }
    }
}

/// The outcome of a prefix run whose tail the resumability law excludes: the
/// cut fell strictly inside a primitive, so the prefix run emitted a token
/// for the front part of the run that the full input continues.
pub open spec fn cut_primitive(o1: Outcome, js: Seq<u8>, m: int) -> bool {
    &&& m < js.len()
    &&& !is_delim(js[m])
    &&& o1.state.tok_next > 0
    &&& o1.toks[o1.state.tok_next - 1].kind == TokenKind::Primitive
    &&& o1.toks[o1.state.tok_next - 1].end == m
}

/// Resumability: a run over a prefix of the input that asks for more bytes
/// can be resumed, with the state and tokens it left behind, over the full
/// input, and ends exactly as a single run over the full input from the
/// original state — provided the cut did not fall strictly inside a
/// primitive whose run the full input continues, for then the prefix run has
/// already committed a token for the front part alone.
pub proof fn lemma_resume(s: PState, js: Seq<u8>, m: int, toks: Seq<SpecToken>)
    requires
        wf(s, toks),
        0 <= m <= js.len(),
        run(s, js.take(m), toks).res == Err::<int, Error>(Error::Part),
        !cut_primitive(run(s, js.take(m), toks), js, m),
    ensures
        ({
            let o1 = run(s, js.take(m), toks);
            run(o1.state, js, o1.toks) == run(s, js, toks)
        }),
    decreases m - s.pos, 1int,
{
    let js1 = js.take(m);
    if !(0 <= s.pos < m) {
        // The prefix run finishes at once: it leaves state and tokens as
        // they stand, so resuming is the run over the full input itself.
    } else {
        lemma_run_step(s, js1, toks);
        let c = js[s.pos];
        assert(js1[s.pos] == c);
        if c == QUOTE {
            lemma_str_scan_prefix(js, m, s.pos + 1);
            match str_scan(js1, s.pos + 1) {
                StrScan::Unterminated => {
                    // The prefix ended inside the string: the prefix run
                    // rewound to the opening quote and changed nothing, so
                    // resuming rescans the whole string on the full input.
                },
                _ => {
                    assert(step(s, js1, toks) == step(s, js, toks));
                    lemma_resume_step(s, js, m, toks);
                },
            }
        } else if is_primitive_lead(c) {
            lemma_prim_scan_prefix(js, m, s.pos);
            match prim_scan(js1, s.pos) {
                PrimScan::Bad => {
                    assert(step(s, js1, toks) == step(s, js, toks));
                    lemma_resume_step(s, js, m, toks);
                },
                PrimScan::End(e) => {
                    if e < m || m == js.len() || is_delim(js[m]) {
                        assert(step(s, js1, toks) == step(s, js, toks));
                        lemma_resume_step(s, js, m, toks);
                    } else {
                        // The cut fell inside the primitive: the prefix run
                        // committed a token ending at the cut, continued at
                        // the cut, and finished. That outcome is exactly
                        // what the law leaves out.
                        match step(s, js1, toks) {
                            Step::Done(o) => {},
                            Step::Next(s2, t2) => {
                                lemma_prim_scan_range(js1, s.pos);
                                assert(s2.pos == m);
                                assert(run(s2, js1, t2) == finish(s2, t2));
                                assert(t2[s.tok_next] == SpecToken {
                                    kind: TokenKind::Primitive,
                                    start: s.pos,
                                    end: m,
                                    size: 0,
                                });
                                assert(cut_primitive(run(s, js1, toks), js, m));
                            },
                        }
                    }
                },
            }
        } else {
            // Every other dispatch reads the byte under the cursor alone,
            // which the prefix and the full input share.
            assert(step(s, js1, toks) == step(s, js, toks));
            lemma_resume_step(s, js, m, toks);
        }
    }
}

/// One agreeing step of the resumability induction: when the prefix run and
/// the full run take the same step, the law follows for the configuration
/// the step leaves.
proof fn lemma_resume_step(s: PState, js: Seq<u8>, m: int, toks: Seq<SpecToken>)
    requires
        wf(s, toks),
        0 <= m <= js.len(),
        0 <= s.pos < m,
        step(s, js.take(m), toks) == step(s, js, toks),
        run(s, js.take(m), toks).res == Err::<int, Error>(Error::Part),
        !cut_primitive(run(s, js.take(m), toks), js, m),
    ensures
        ({
            let o1 = run(s, js.take(m), toks);
            run(o1.state, js, o1.toks) == run(s, js, toks)
        }),
    decreases m - s.pos, 0int,
{
    let js1 = js.take(m);
    lemma_run_step(s, js1, toks);
    lemma_run_step(s, js, toks);
    lemma_step_wf(s, js1, toks);
    match step(s, js1, toks) {
        Step::Done(o) => {
            // A step both runs end on, with the prefix run asking for more
            // bytes: only an unterminated string does that, and it changes
            // nothing, so resuming is again the full run itself.
        },
        Step::Next(s2, t2) => {
            lemma_resume(s2, js, m, t2);
        },
    }
}

} // verus!
