//! The frame grammar and the resumable parsing machine, as a mathematical
//! specification over byte sequences.
//!
//! The grammar maps a leading type byte to a parsing rule: `*` introduces an
//! array, `$` a bulk string, `:` an integer; at the top level only, a line
//! without a leading `*` is read whole as an inline command. The machine
//! drives the grammar over a growing buffer: it either completes one value
//! (reporting the exact number of bytes it occupied), suspends when the bytes
//! available do not yet hold a whole value, or reports a grammar violation
//! located by original-buffer byte offsets.

use vstd::prelude::*;

use crate::resp_types::SpecValue;

verus! {

broadcast use
    vstd::seq::axiom_seq_index_decreases,
    vstd::seq::axiom_seq_subrange_decreases;

/// Position of the first CRLF (the exact byte pair 13, 10) at or after `i`,
/// or `None` if the available bytes hold none. A bare line feed never counts.
pub open spec fn find_crlf(s: Seq<u8>, i: int) -> Option<int>
    decreases s.len() - i,
{
    if i < 0 || i + 2 > s.len() {
        None
    } else if s[i] == 13 && s[i + 1] == 10 {
        Some(i)
    } else {
        find_crlf(s, i + 1)
    }
}

/// ASCII whitespace, as trimmed from around an integer token.
pub open spec fn is_ws(b: u8) -> bool {
    b == 32 || (9 <= b && b <= 13)
}

/// A decimal digit byte.
pub open spec fn is_digit(b: u8) -> bool {
    48 <= b && b <= 57
}

pub open spec fn all_digits(t: Seq<u8>) -> bool {
    forall|j: int| 0 <= j < t.len() ==> is_digit(#[trigger] t[j])
}

/// Value of a sequence of decimal digit bytes, most significant first.
pub open spec fn digits_val(t: Seq<u8>) -> int
    decreases t.len(),
{
    if t.len() == 0 {
        0
    } else {
        digits_val(t.drop_last()) * 10 + (t.last() - 48)
    }
}

/// The token with surrounding ASCII whitespace removed.
pub open spec fn trim_front(t: Seq<u8>) -> Seq<u8>
    decreases t.len(),
{
    if t.len() > 0 && is_ws(t[0]) {
        trim_front(t.drop_first())
    } else {
        t
    }
}

pub open spec fn trim_back(t: Seq<u8>) -> Seq<u8>
    decreases t.len(),
{
    if t.len() > 0 && is_ws(t.last()) {
        trim_back(t.drop_last())
    } else {
        t
    }
}

pub open spec fn trim(t: Seq<u8>) -> Seq<u8> {
    trim_back(trim_front(t))
}

/// The signed decimal value of a token after trimming: an optional sign, then
/// at least one digit and nothing else. `None` on any other content.
pub open spec fn int_of_digits(t: Seq<u8>) -> Option<int> {
    let d = if t.len() > 0 && (t[0] == 43 || t[0] == 45) {
        t.drop_first()
    } else {
        t
    };
    if d.len() == 0 || !all_digits(d) {
        None
    } else if t.len() > 0 && t[0] == 45 {
        Some(-digits_val(d))
    } else {
        Some(digits_val(d))
    }
}

/// Parse a CRLF-terminated token as a base-10 signed 64-bit integer, the way
/// the integer grammar rule reads it: surrounding whitespace is trimmed, and
/// a value outside the 64-bit range is garbage like any other non-number.
pub open spec fn parse_i64(t: Seq<u8>) -> Option<i64> {
    match int_of_digits(trim(t)) {
        None => None,
        Some(v) => if i64::MIN <= v <= i64::MAX {
            Some(v as i64)
        } else {
            None
        },
    }
}

/// One array whose elements are still being gathered: how many elements are
/// still owed (always at least one) and those parsed so far, in order.
pub struct SpecLevel {
    pub remaining: int,
    pub elems: Seq<SpecValue>,
}

/// What the machine is about to read at the cursor.
pub enum SpecMode {
    /// The type byte of a value (or, at the top level, an inline line).
    Head,
    /// The body of a bulk string of the given declared length, then CRLF.
    Body { len: int },
}

/// The machine's resumable progress: a cursor past all confirmed bytes, the
/// stack of arrays whose elements are still being gathered (innermost last),
/// and what is expected at the cursor. `inline_top` selects the top-level
/// entry point: a frame whose first byte is not `*` is then read as a whole
/// inline line instead of being dispatched by type byte.
pub struct MachineState {
    pub cursor: int,
    pub stack: Seq<SpecLevel>,
    pub mode: SpecMode,
    pub inline_top: bool,
}

/// The machine's initial state.
pub open spec fn init_state(inline_top: bool) -> MachineState {
    MachineState { cursor: 0, stack: Seq::empty(), mode: SpecMode::Head, inline_top }
}

/// A grammar violation, located by byte offsets into the original buffer.
pub enum Violation {
    /// A CRLF-terminated token where an integer was required held something
    /// that is not a base-10 signed 64-bit number.
    NotAnInteger { at: int, token: Seq<u8> },
    /// A leading type byte that no rule of the grammar accepts at a nested
    /// position.
    UnexpectedToken { at: int, byte: u8 },
    /// A bulk string body not followed by the mandatory CRLF terminator.
    MissingTerminator { at: int },
    /// An inline line that is not valid UTF-8 text.
    InvalidText { at: int },
    /// The byte stream ended in the middle of a frame.
    TruncatedFrame,
}

/// The outcome of driving the machine as far as the available bytes allow.
pub enum RunResult {
    /// The bytes run out before one whole value was confirmed; the state
    /// records every confirmed token so that parsing resumes exactly there.
    Suspended(MachineState),
    /// One whole value, occupying exactly the first `used` bytes.
    Complete { value: SpecValue, used: int },
    /// The bytes do not match the grammar.
    Violated(Violation),
}

/// Weight of the pending-array stack, used as a termination measure: an upper
/// bound on how many deliveries can happen without consuming another byte.
pub open spec fn stack_weight(stack: Seq<SpecLevel>) -> nat
    decreases stack.len(),
{
    if stack.len() == 0 {
        0
    } else {
        stack_weight(stack.drop_last()) + (if stack.last().remaining > 0 {
            stack.last().remaining as nat
        } else {
            0 as nat
        })
    }
}

/// Drive the machine from `st` over `s` until it completes a value, suspends
/// for more bytes, or finds a violation.
///
/// The range guards on positions returned by `find_crlf` keep the recursion
/// measure self-evident; `lemma_find_crlf_props` shows they never fire.
pub open spec fn run(st: MachineState, s: Seq<u8>) -> RunResult
    decreases s.len() - st.cursor, stack_weight(st.stack) + st.stack.len(), 1int,
{
    if !(0 <= st.cursor <= s.len()) {
        RunResult::Suspended(st)
    } else {
        match st.mode {
            SpecMode::Head => {
                if st.cursor >= s.len() {
                    RunResult::Suspended(st)
                } else {
                    let b = s[st.cursor];
                    if st.stack.len() == 0 && st.inline_top && b != 42 {
                        match find_crlf(s, st.cursor) {
                            None => RunResult::Suspended(st),
                            Some(j) => {
                                if !(st.cursor <= j && j + 2 <= s.len()) {
                                    RunResult::Suspended(st)
                                } else {
                                    let line = s.subrange(st.cursor, j);
                                    if vstd::utf8::valid_utf8(line) {
                                        RunResult::Complete {
                                            value: SpecValue::SimpleString(
                                                vstd::utf8::decode_utf8(line),
                                            ),
                                            used: j + 2,
                                        }
                                    } else {
                                        RunResult::Violated(Violation::InvalidText {
                                            at: st.cursor,
                                        })
                                    }
                                }
                            },
                        }
                    } else if b == 58 || b == 36 || b == 42 {
                        match find_crlf(s, st.cursor + 1) {
                            None => RunResult::Suspended(st),
                            Some(j) => {
                                if !(st.cursor < j && j + 2 <= s.len()) {
                                    RunResult::Suspended(st)
                                } else {
                                    let tok = s.subrange(st.cursor + 1, j);
                                    match parse_i64(tok) {
                                        None => RunResult::Violated(Violation::NotAnInteger {
                                            at: st.cursor + 1,
                                            token: tok,
                                        }),
                                        Some(n) => {
                                            if b == 58 {
                                                deliver(st, SpecValue::Integer(n), j + 2, s)
                                            } else if n < 0 {
                                                deliver(st, SpecValue::Nil, j + 2, s)
                                            } else if b == 36 {
                                                run(
                                                    MachineState {
                                                        cursor: j + 2,
                                                        mode: SpecMode::Body { len: n as int },
                                                        ..st
                                                    },
                                                    s,
                                                )
                                            } else if n == 0 {
                                                deliver(
                                                    st,
                                                    SpecValue::Array(Seq::empty()),
                                                    j + 2,
                                                    s,
                                                )
                                            } else {
                                                run(
                                                    MachineState {
                                                        cursor: j + 2,
                                                        stack: st.stack.push(SpecLevel {
                                                            remaining: n as int,
                                                            elems: Seq::empty(),
                                                        }),
                                                        mode: SpecMode::Head,
                                                        ..st
                                                    },
                                                    s,
                                                )
                                            }
                                        },
                                    }
                                }
                            },
                        }
                    } else {
                        RunResult::Violated(Violation::UnexpectedToken {
                            at: st.cursor,
                            byte: b,
                        })
                    }
                }
            },
            SpecMode::Body { len } => {
                if len < 0 {
                    RunResult::Suspended(st)
                } else if st.cursor + len + 2 > s.len() {
                    RunResult::Suspended(st)
                } else if s[st.cursor + len] == 13 && s[st.cursor + len + 1] == 10 {
                    deliver(
                        MachineState { mode: SpecMode::Head, ..st },
                        SpecValue::BulkString(s.subrange(st.cursor, st.cursor + len)),
                        st.cursor + len + 2,
                        s,
                    )
                } else {
                    RunResult::Violated(Violation::MissingTerminator { at: st.cursor + len })
                }
            },
        }
    }
}

/// Hand one completed value to the machine: it either completes the frame
/// (empty stack), completes enclosing arrays in cascade, or records the value
/// as the next element of the innermost pending array and parses on.
pub open spec fn deliver(st: MachineState, v: SpecValue, cursor: int, s: Seq<u8>) -> RunResult
    decreases s.len() - cursor, stack_weight(st.stack) + st.stack.len(), 0int,
    via deliver_decreases
{
    if !(0 <= cursor <= s.len()) {
        RunResult::Suspended(st)
    } else if st.stack.len() == 0 {
        RunResult::Complete { value: v, used: cursor }
    } else {
        let top = st.stack.last();
        if top.remaining <= 1 {
            deliver(
                MachineState { stack: st.stack.drop_last(), ..st },
                SpecValue::Array(top.elems.push(v)),
                cursor,
                s,
            )
        } else {
            run(
                MachineState {
                    cursor,
                    stack: st.stack.update(
                        st.stack.len() - 1,
                        SpecLevel { remaining: top.remaining - 1, elems: top.elems.push(v) },
                    ),
                    mode: SpecMode::Head,
                    inline_top: st.inline_top,
                },
                s,
            )
        }
    }
}

/// Where `find_crlf` points: at the first CRLF at or after `i`, in range,
/// with no CRLF before it; and when it finds none, none is there.
pub proof fn lemma_find_crlf_props(s: Seq<u8>, i: int)
    requires
        0 <= i,
    ensures
        match find_crlf(s, i) {
            Some(j) => i <= j && j + 2 <= s.len() && s[j] == 13 && s[j + 1] == 10 && (forall|
                k: int,
            |
                i <= k < j ==> !((#[trigger] s[k]) == 13 && s[k + 1] == 10)),
            None => forall|k: int|
                i <= k && k + 2 <= s.len() ==> !((#[trigger] s[k]) == 13 && s[k + 1] == 10),
        },
    decreases s.len() - i,
{
    if i + 2 > s.len() {
    } else if s[i] == 13 && s[i + 1] == 10 {
    } else {
        lemma_find_crlf_props(s, i + 1);
    }
}

/// A CRLF already found is still found, at the same place, after more bytes
/// arrive.
pub proof fn lemma_find_crlf_extend(s: Seq<u8>, e: Seq<u8>, i: int)
    requires
        0 <= i,
    ensures
        find_crlf(s, i) is Some ==> find_crlf(s + e, i) == find_crlf(s, i),
    decreases s.len() - i,
{
    if i + 2 > s.len() {
    } else if s[i] == 13 && s[i + 1] == 10 {
        assert((s + e)[i] == 13 && (s + e)[i + 1] == 10);
    } else {
        assert((s + e)[i] == s[i] && (s + e)[i + 1] == s[i + 1]);
        lemma_find_crlf_extend(s, e, i + 1);
    }
}

/// Appending bytes never changes a verdict already reached, and a suspended
/// machine, resumed from its saved state on the grown buffer, gives exactly
/// what parsing the grown buffer from scratch gives. This is what makes the
/// saved progress snapshot sound: no confirmed prefix is ever re-scanned, and
/// the result is as if the whole frame had arrived at once.
pub proof fn lemma_run_extend(st: MachineState, s: Seq<u8>, e: Seq<u8>)
    ensures
        match run(st, s) {
            RunResult::Suspended(b) => run(st, s + e) == run(b, s + e),
            r => run(st, s + e) == r,
        },
    decreases s.len() - st.cursor, stack_weight(st.stack) + st.stack.len(), 1int,
{
    let s2 = s + e;
    if !(0 <= st.cursor <= s.len()) {
    } else {
        match st.mode {
            SpecMode::Head => {
                if st.cursor >= s.len() {
                } else {
                    assert(s2[st.cursor] == s[st.cursor]);
                    let b = s[st.cursor];
                    if st.stack.len() == 0 && st.inline_top && b != 42 {
                        lemma_find_crlf_props(s, st.cursor);
                        lemma_find_crlf_extend(s, e, st.cursor);
                        match find_crlf(s, st.cursor) {
                            None => {},
                            Some(j) => {
                                assert(s2.subrange(st.cursor, j) =~= s.subrange(st.cursor, j));
                            },
                        }
                    } else if b == 58 || b == 36 || b == 42 {
                        lemma_find_crlf_props(s, st.cursor + 1);
                        lemma_find_crlf_extend(s, e, st.cursor + 1);
                        match find_crlf(s, st.cursor + 1) {
                            None => {},
                            Some(j) => {
                                assert(s2.subrange(st.cursor + 1, j) =~= s.subrange(
                                    st.cursor + 1,
                                    j,
                                ));
                                let tok = s.subrange(st.cursor + 1, j);
                                match parse_i64(tok) {
                                    None => {},
                                    Some(n) => {
                                        if b == 58 {
                                            lemma_deliver_extend(
                                                st,
                                                SpecValue::Integer(n),
                                                j + 2,
                                                s,
                                                e,
                                            );
                                        } else if n < 0 {
                                            lemma_deliver_extend(st, SpecValue::Nil, j + 2, s, e);
                                        } else if b == 36 {
                                            lemma_run_extend(
                                                MachineState {
                                                    cursor: j + 2,
                                                    mode: SpecMode::Body { len: n as int },
                                                    ..st
                                                },
                                                s,
                                                e,
                                            );
                                        } else if n == 0 {
                                            lemma_deliver_extend(
                                                st,
                                                SpecValue::Array(Seq::empty()),
                                                j + 2,
                                                s,
                                                e,
                                            );
                                        } else {
                                            lemma_run_extend(
                                                MachineState {
                                                    cursor: j + 2,
                                                    stack: st.stack.push(SpecLevel {
                                                        remaining: n as int,
                                                        elems: Seq::empty(),
                                                    }),
                                                    mode: SpecMode::Head,
                                                    ..st
                                                },
                                                s,
                                                e,
                                            );
                                        }
                                    },
                                }
                            },
                        }
                    } else {
                    }
                }
            },
            SpecMode::Body { len } => {
                if len < 0 {
                } else if st.cursor + len + 2 > s.len() {
                } else {
                    assert(s2[st.cursor + len] == s[st.cursor + len]);
                    assert(s2[st.cursor + len + 1] == s[st.cursor + len + 1]);
                    if s[st.cursor + len] == 13 && s[st.cursor + len + 1] == 10 {
                        assert(s2.subrange(st.cursor, st.cursor + len) =~= s.subrange(
                            st.cursor,
                            st.cursor + len,
                        ));
                        lemma_deliver_extend(
                            MachineState { mode: SpecMode::Head, ..st },
                            SpecValue::BulkString(s.subrange(st.cursor, st.cursor + len)),
                            st.cursor + len + 2,
                            s,
                            e,
                        );
                    }
                }
            },
        }
    }
}

/// Companion of `lemma_run_extend` for the delivery cascade.
pub proof fn lemma_deliver_extend(st: MachineState, v: SpecValue, cursor: int, s: Seq<u8>, e: Seq<u8>)
    requires
        0 <= cursor <= s.len(),
    ensures
        match deliver(st, v, cursor, s) {
            RunResult::Suspended(b) => deliver(st, v, cursor, s + e) == run(b, s + e),
            r => deliver(st, v, cursor, s + e) == r,
        },
    decreases s.len() - cursor, stack_weight(st.stack) + st.stack.len(), 0int,
{
    if st.stack.len() == 0 {
    } else {
        let top = st.stack.last();
        if top.remaining <= 1 {
            lemma_deliver_extend(
                MachineState { stack: st.stack.drop_last(), ..st },
                SpecValue::Array(top.elems.push(v)),
                cursor,
                s,
                e,
            );
        } else {
            lemma_weight_after_element(st.stack, v);
            lemma_run_extend(
                MachineState {
                    cursor,
                    stack: st.stack.update(
                        st.stack.len() - 1,
                        SpecLevel { remaining: top.remaining - 1, elems: top.elems.push(v) },
                    ),
                    mode: SpecMode::Head,
                    inline_top: st.inline_top,
                },
                s,
                e,
            );
        }
    }
}

/// A completed value occupies a prefix of the buffer: its byte count is in
/// range.
pub proof fn lemma_run_used(st: MachineState, s: Seq<u8>)
    ensures
        match run(st, s) {
            RunResult::Complete { used, .. } => 0 <= used <= s.len(),
            _ => true,
        },
    decreases s.len() - st.cursor, stack_weight(st.stack) + st.stack.len(), 1int,
{
    if !(0 <= st.cursor <= s.len()) {
    } else {
        match st.mode {
            SpecMode::Head => {
                if st.cursor < s.len() {
                    let b = s[st.cursor];
                    if st.stack.len() == 0 && st.inline_top && b != 42 {
                    } else if b == 58 || b == 36 || b == 42 {
                        match find_crlf(s, st.cursor + 1) {
                            None => {},
                            Some(j) => {
                                if st.cursor < j && j + 2 <= s.len() {
                                    let tok = s.subrange(st.cursor + 1, j);
                                    match parse_i64(tok) {
                                        None => {},
                                        Some(n) => {
                                            if b == 58 {
                                                lemma_deliver_used(
                                                    st,
                                                    SpecValue::Integer(n),
                                                    j + 2,
                                                    s,
                                                );
                                            } else if n < 0 {
                                                lemma_deliver_used(st, SpecValue::Nil, j + 2, s);
                                            } else if b == 36 {
                                                lemma_run_used(
                                                    MachineState {
                                                        cursor: j + 2,
                                                        mode: SpecMode::Body { len: n as int },
                                                        ..st
                                                    },
                                                    s,
                                                );
                                            } else if n == 0 {
                                                lemma_deliver_used(
                                                    st,
                                                    SpecValue::Array(Seq::empty()),
                                                    j + 2,
                                                    s,
                                                );
                                            } else {
                                                lemma_run_used(
                                                    MachineState {
                                                        cursor: j + 2,
                                                        stack: st.stack.push(SpecLevel {
                                                            remaining: n as int,
                                                            elems: Seq::empty(),
                                                        }),
                                                        mode: SpecMode::Head,
                                                        ..st
                                                    },
                                                    s,
                                                );
                                            }
                                        },
                                    }
                                }
                            },
                        }
                    }
                }
            },
            SpecMode::Body { len } => {
                if 0 <= len && st.cursor + len + 2 <= s.len() && s[st.cursor + len] == 13 && s[
                    st.cursor + len + 1
                ] == 10 {
                    lemma_deliver_used(
                        MachineState { mode: SpecMode::Head, ..st },
                        SpecValue::BulkString(s.subrange(st.cursor, st.cursor + len)),
                        st.cursor + len + 2,
                        s,
                    );
                }
            },
        }
    }
}

/// Companion of `lemma_run_used` for the delivery cascade.
pub proof fn lemma_deliver_used(st: MachineState, v: SpecValue, cursor: int, s: Seq<u8>)
    requires
        0 <= cursor <= s.len(),
    ensures
        match deliver(st, v, cursor, s) {
            RunResult::Complete { used, .. } => 0 <= used <= s.len(),
            _ => true,
        },
    decreases s.len() - cursor, stack_weight(st.stack) + st.stack.len(), 0int,
{
    if st.stack.len() == 0 {
    } else {
        let top = st.stack.last();
        if top.remaining <= 1 {
            lemma_deliver_used(
                MachineState { stack: st.stack.drop_last(), ..st },
                SpecValue::Array(top.elems.push(v)),
                cursor,
                s,
            );
        } else {
            lemma_weight_after_element(st.stack, v);
            lemma_run_used(
                MachineState {
                    cursor,
                    stack: st.stack.update(
                        st.stack.len() - 1,
                        SpecLevel { remaining: top.remaining - 1, elems: top.elems.push(v) },
                    ),
                    mode: SpecMode::Head,
                    inline_top: st.inline_top,
                },
                s,
            );
        }
    }
}

/// Recording one more element of the innermost pending array lowers the
/// stack's weight by one.
pub proof fn lemma_weight_after_element(stack: Seq<SpecLevel>, v: SpecValue)
    requires
        stack.len() > 0,
        stack.last().remaining > 1,
    ensures
        stack_weight(
            stack.update(
                stack.len() - 1,
                SpecLevel {
                    remaining: stack.last().remaining - 1,
                    elems: stack.last().elems.push(v),
                },
            ),
        ) + 1 == stack_weight(stack),
{
    let top = stack.last();
    let upd = stack.update(
        stack.len() - 1,
        SpecLevel { remaining: top.remaining - 1, elems: top.elems.push(v) },
    );
    assert(upd.drop_last() =~= stack.drop_last());
    assert(upd.last() == SpecLevel { remaining: top.remaining - 1, elems: top.elems.push(v) });
    assert(stack_weight(upd) == stack_weight(upd.drop_last()) + (top.remaining - 1) as nat);
    assert(stack_weight(stack) == stack_weight(stack.drop_last()) + top.remaining as nat);
}

#[via_fn]
proof fn deliver_decreases(st: MachineState, v: SpecValue, cursor: int, s: Seq<u8>) {
    if 0 <= cursor <= s.len() && st.stack.len() > 0 {
        let top = st.stack.last();
        if top.remaining > 1 {
            lemma_weight_after_element(st.stack, v);
        }
    }
}

/// A digit sequence's value is nonnegative, and a prefix never exceeds the
/// whole.
pub proof fn lemma_digits_val_prefix_le(t: Seq<u8>, k: int)
    requires
        0 <= k <= t.len(),
        all_digits(t),
    ensures
        0 <= digits_val(t.take(k)) <= digits_val(t),
    decreases t.len(),
{
    if t.len() == 0 {
        assert(t.take(k) =~= t);
    } else if k == t.len() {
        assert(t.take(k) =~= t);
        lemma_digits_val_prefix_le(t.drop_last(), t.len() - 1);
        assert(t.drop_last().take(t.len() - 1) =~= t.drop_last());
        assert(digits_val(t.drop_last()) * 10 >= digits_val(t.drop_last())) by (nonlinear_arith)
            requires digits_val(t.drop_last()) >= 0;
    } else {
        assert(all_digits(t.drop_last()));
        assert(t.drop_last().take(k) =~= t.take(k));
        lemma_digits_val_prefix_le(t.drop_last(), k);
        assert(digits_val(t.drop_last()) * 10 >= digits_val(t.drop_last())) by (nonlinear_arith)
            requires digits_val(t.drop_last()) >= 0;
    }
}

/// Scan forward for the literal two-byte CRLF sequence. Finding none is not
/// a grammar violation: it only means the line's bytes have not all arrived.
pub(crate) fn scan_crlf(buf: &Vec<u8>, from: usize) -> (r: Option<usize>)
    requires
        from <= buf.len(),
    ensures
        match r {
            Some(j) => find_crlf(buf@, from as int) == Some(j as int) && from <= j && j + 2
                <= buf.len(),
            None => find_crlf(buf@, from as int) is None,
        },
{
    let mut i = from;
    loop
        invariant
            from <= i <= buf.len(),
            find_crlf(buf@, from as int) == find_crlf(buf@, i as int),
        decreases buf.len() - i,
    {
        if buf.len() - i < 2 {
            return None;
        }
        if buf[i] == 13 && buf[i + 1] == 10 {
            return Some(i);
        }
        i = i + 1;
    }
}

/// Read a token in `buf[start..end]` as a signed decimal 64-bit integer:
/// surrounding ASCII whitespace is trimmed; anything else but a sign and at
/// least one digit, or a value outside the 64-bit range, is rejected.
pub(crate) fn parse_int_token(buf: &Vec<u8>, start: usize, end: usize) -> (r: Option<i64>)
    requires
        start <= end <= buf.len(),
    ensures
        r == parse_i64(buf@.subrange(start as int, end as int)),
{
    let ghost tok = buf@.subrange(start as int, end as int);
    let mut lo = start;
    while lo < end && (buf[lo] == 32 || (9 <= buf[lo] && buf[lo] <= 13))
        invariant
            start <= lo <= end <= buf.len(),
            forall|j: int| start <= j < lo ==> is_ws(#[trigger] buf@[j]),
        decreases end - lo,
    {
        lo = lo + 1;
    }
    let mut hi = end;
    while hi > lo && (buf[hi - 1] == 32 || (9 <= buf[hi - 1] && buf[hi - 1] <= 13))
        invariant
            lo <= hi <= end <= buf.len(),
            lo == end || !is_ws(buf@[lo as int]),
            forall|j: int| hi <= j < end ==> is_ws(#[trigger] buf@[j]),
        decreases hi - lo,
    {
        hi = hi - 1;
    }
    proof {
        assert forall|j: int| 0 <= j < lo - start implies is_ws(#[trigger] tok[j]) by {
            assert(tok[j] == buf@[start + j]);
        }
        assert forall|j: int| hi - start <= j < tok.len() implies is_ws(#[trigger] tok[j]) by {
            assert(tok[j] == buf@[start + j]);
        }
        if lo == hi && lo < end {
            assert(is_ws(buf@[lo as int]));
            assert(false);
        }
        if lo < hi {
            assert(tok[lo - start] == buf@[lo as int]);
            assert(tok[hi - start - 1] == buf@[hi - 1]);
        }
        lemma_trim_is_subrange(tok, lo - start, hi - start);
        assert(trim(tok) =~= buf@.subrange(lo as int, hi as int));
    }
    let ghost t = trim(tok);
    let mut i = lo;
    let mut neg = false;
    if i < hi && (buf[i] == 43 || buf[i] == 45) {
        proof {
            assert(t[0] == buf@[lo as int]);
        }
        neg = buf[i] == 45;
        i = i + 1;
    } else {
        proof {
            if t.len() > 0 {
                assert(t[0] == buf@[lo as int]);
            }
        }
    }
    let ghost d = if t.len() > 0 && (t[0] == 43 || t[0] == 45) {
        t.drop_first()
    } else {
        t
    };
    proof {
        assert(d =~= buf@.subrange(i as int, hi as int));
    }
    if i == hi {
        return None;
    }
    let mut acc: u128 = 0;
    let mut j = i;
    while j < hi
        invariant
            i <= j <= hi <= buf.len(),
            i < hi,
            start <= i,
            d == buf@.subrange(i as int, hi as int),
            t == trim(tok),
            tok == buf@.subrange(start as int, end as int),
            hi <= end,
            int_of_digits(t) == if d.len() == 0 || !all_digits(d) {
                Option::<int>::None
            } else if neg {
                Option::<int>::Some(-digits_val(d))
            } else {
                Option::<int>::Some(digits_val(d))
            },
            acc == digits_val(buf@.subrange(i as int, j as int)),
            acc <= 0x8000_0000_0000_0000u128,
            all_digits(buf@.subrange(i as int, j as int)),
        decreases hi - j,
    {
        let b = buf[j];
        if !(48 <= b && b <= 57) {
            proof {
                assert(d[j - i] == buf@[j as int]);
                assert(!is_digit(d[j - i]));
                assert(!all_digits(d));
            }
            return None;
        }
        proof {
            let pre = buf@.subrange(i as int, j as int);
            let post = buf@.subrange(i as int, j + 1);
            assert(post.drop_last() =~= pre);
            assert(post.last() == buf@[j as int]);
            assert(digits_val(post) == digits_val(pre) * 10 + (buf@[j as int] - 48));
            assert(all_digits(post));
        }
        acc = acc * 10 + ((b - 48) as u128);
        j = j + 1;
        if acc > 0x8000_0000_0000_0000u128 {
            proof {
                if all_digits(d) {
                    lemma_digits_val_prefix_le(d, j - i);
                    assert(d.take(j - i) =~= buf@.subrange(i as int, j as int));
                    assert(digits_val(d) >= acc);
                }
            }
            return None;
        }
    }
    proof {
        assert(buf@.subrange(i as int, j as int) =~= d);
        assert(all_digits(d));
        assert(digits_val(d) == acc);
    }
    if neg {
        if acc == 0x8000_0000_0000_0000u128 {
            Some(i64::MIN)
        } else {
            Some(-(acc as i64))
        }
    } else {
        if acc > i64::MAX as u128 {
            None
        } else {
            Some(acc as i64)
        }
    }
}

/// Trimming removes exactly the whitespace run at each end.
pub proof fn lemma_trim_is_subrange(t: Seq<u8>, lo: int, hi: int)
    requires
        0 <= lo <= hi <= t.len(),
        forall|j: int| 0 <= j < lo ==> is_ws(#[trigger] t[j]),
        forall|j: int| hi <= j < t.len() ==> is_ws(#[trigger] t[j]),
        lo < hi ==> !is_ws(t[lo]) && !is_ws(t[hi - 1]),
        lo == hi ==> lo == t.len(),
    ensures
        trim(t) == t.subrange(lo, hi),
{
    lemma_trim_front_skips(t, lo);
    lemma_trim_back_takes(t.skip(lo), hi - lo);
    assert(t.skip(lo).take(hi - lo) =~= t.subrange(lo, hi));
}

proof fn lemma_trim_front_skips(t: Seq<u8>, lo: int)
    requires
        0 <= lo <= t.len(),
        forall|j: int| 0 <= j < lo ==> is_ws(#[trigger] t[j]),
        lo < t.len() ==> !is_ws(t[lo]),
    ensures
        trim_front(t) == t.skip(lo),
    decreases t.len(),
{
    if lo == 0 {
        assert(t.skip(0) =~= t);
    } else {
        assert(is_ws(t[0]));
        lemma_trim_front_skips(t.drop_first(), lo - 1);
        assert(t.drop_first().skip(lo - 1) =~= t.skip(lo));
    }
}

proof fn lemma_trim_back_takes(t: Seq<u8>, hi: int)
    requires
        0 <= hi <= t.len(),
        forall|j: int| hi <= j < t.len() ==> is_ws(#[trigger] t[j]),
        hi > 0 ==> !is_ws(t[hi - 1]),
    ensures
        trim_back(t) == t.take(hi),
    decreases t.len(),
{
    if hi == t.len() {
        assert(t.take(hi) =~= t);
    } else if t.len() > 0 {
        assert(is_ws(t.last()));
        lemma_trim_back_takes(t.drop_last(), hi);
        assert(t.drop_last().take(hi) =~= t.take(hi));
    }
}

/// A verdict, once reached, is final: bytes that arrive later never change a
/// completed value, its consumed length, or a violation already found.
pub proof fn lemma_verdict_stable(st: MachineState, s: Seq<u8>, e: Seq<u8>)
    requires
        !(run(st, s) is Suspended),
    ensures
        run(st, s + e) == run(st, s),
{
    lemma_run_extend(st, s, e);
}

/// Every strict prefix of a frame's wire bytes only suspends the machine: a
/// decoder fed a split frame answers that it needs more data at every cut,
/// and completes with the very same value and consumed length once the rest
/// arrives — splitting a frame at arbitrary points changes nothing.
pub proof fn lemma_prefix_suspends(st: MachineState, s: Seq<u8>, k: int)
    requires
        0 <= k <= s.len(),
        run(st, s) matches RunResult::Complete { used, .. } && k < used,
    ensures
        run(st, s.take(k)) is Suspended,
{
    let p = s.take(k);
    let e = s.skip(k);
    assert(p + e =~= s);
    lemma_run_extend(st, p, e);
    lemma_run_used(st, p);
    match run(st, p) {
        RunResult::Suspended(_) => {},
        RunResult::Complete { value, used } => {
            assert(run(st, s) == run(st, p));
            assert(false);
        },
        RunResult::Violated(_) => {
            assert(run(st, s) == run(st, p));
            assert(false);
        },
    }
}

/// Decimal digit bytes of a nonnegative number, most significant first.
pub open spec fn dec_bytes(n: int) -> Seq<u8>
    decreases n,
{
    if n < 10 {
        seq![(48 + n) as u8]
    } else {
        dec_bytes(n / 10).push((48 + n % 10) as u8)
    }
}

/// The wire form of a signed decimal integer token.
pub open spec fn int_wire_bytes(n: int) -> Seq<u8> {
    if n < 0 {
        seq![45u8] + dec_bytes(-n)
    } else {
        dec_bytes(n)
    }
}

/// Whether a value has a wire form: everything the nested grammar produces
/// except texts, with lengths a signed 64-bit length field can declare.
pub open spec fn encodable(v: SpecValue) -> bool
    decreases v,
{
    match v {
        SpecValue::Nil => true,
        SpecValue::Integer(_) => true,
        SpecValue::BulkString(b) => b.len() <= i64::MAX,
        SpecValue::Array(elems) => elems.len() <= i64::MAX && all_encodable(elems),
        _ => false,
    }
}

pub open spec fn all_encodable(elems: Seq<SpecValue>) -> bool
    decreases elems,
{
    if elems.len() == 0 {
        true
    } else {
        encodable(elems.first()) && all_encodable(elems.drop_first())
    }
}

/// The exact bytes of a value on the wire: `*<len>\r\n` then the elements for
/// an array, `$<len>\r\n<bytes>\r\n` for a bulk string, `:<n>\r\n` for an
/// integer, and the declared length `-1` for Nil.
pub open spec fn wire(v: SpecValue) -> Seq<u8>
    decreases v,
{
    match v {
        SpecValue::Nil => seq![36u8, 45u8, 49u8, 13u8, 10u8],
        SpecValue::Integer(n) => seq![58u8] + int_wire_bytes(n as int) + seq![13u8, 10u8],
        SpecValue::BulkString(b) => seq![36u8] + int_wire_bytes(b.len() as int) + seq![
            13u8,
            10u8,
        ] + b + seq![13u8, 10u8],
        SpecValue::Array(elems) => seq![42u8] + int_wire_bytes(elems.len() as int) + seq![
            13u8,
            10u8,
        ] + wires(elems),
        _ => Seq::empty(),
    }
}

/// The concatenated wire forms of a sequence of values, in order.
pub open spec fn wires(elems: Seq<SpecValue>) -> Seq<u8>
    decreases elems,
{
    if elems.len() == 0 {
        Seq::empty()
    } else {
        wire(elems.first()) + wires(elems.drop_first())
    }
}

/// Reading one byte of a subrange known to equal `w`.
proof fn lemma_subrange_index(s: Seq<u8>, a: int, b: int, w: Seq<u8>, k: int)
    requires
        0 <= a,
        a + w.len() == b,
        b <= s.len(),
        s.subrange(a, b) == w,
        0 <= k < w.len(),
    ensures
        s[a + k] == w[k],
{
    assert(s.subrange(a, b)[k] == s[a + k]);
}

/// Decimal digit bytes really are digits and stand for the number rendered.
pub proof fn lemma_dec_bytes(n: int)
    requires
        0 <= n,
    ensures
        all_digits(dec_bytes(n)),
        digits_val(dec_bytes(n)) == n,
        dec_bytes(n).len() >= 1,
    decreases n,
{
    if n < 10 {
        let t = dec_bytes(n);
        assert(t == seq![(48 + n) as u8]);
        assert(t.len() == 1);
        assert(t[0] == (48 + n) as u8);
        assert(t.last() == (48 + n) as u8);
        assert(t.drop_last() =~= Seq::<u8>::empty());
        assert(digits_val(t.drop_last()) == 0);
        assert(digits_val(t) == (48 + n) as u8 - 48);
    } else {
        lemma_dec_bytes(n / 10);
        let p = dec_bytes(n / 10);
        let t = dec_bytes(n);
        assert(t.drop_last() =~= p);
        assert(digits_val(t) == digits_val(p) * 10 + ((48 + n % 10) as u8 - 48));
        assert(all_digits(t)) by {
            assert(forall|k: int|
                0 <= k < p.len() ==> #[trigger] t[k] == p[k]);
        }
    }
}

/// An integer token's wire form parses back to exactly that integer.
pub proof fn lemma_int_wire_parses(n: i64)
    ensures
        parse_i64(int_wire_bytes(n as int)) == Some(n),
        forall|k: int| 0 <= k < int_wire_bytes(n as int).len() ==> #[trigger] int_wire_bytes(
            n as int,
        )[k] != 13,
        int_wire_bytes(n as int).len() >= 1,
{
    let t = int_wire_bytes(n as int);
    if n >= 0 {
        lemma_dec_bytes(n as int);
        lemma_trim_is_subrange(t, 0, t.len() as int);
        assert(t.subrange(0, t.len() as int) =~= t);
        assert(trim(t) == t);
        assert(is_digit(t[0]));
        assert(int_of_digits(t) == Some(digits_val(t)));
    } else {
        lemma_dec_bytes(-(n as int));
        let d = dec_bytes(-(n as int));
        assert(t =~= seq![45u8] + d);
        assert(t[0] == 45);
        assert(t.last() == d.last());
        assert(is_digit(d.last()));
        lemma_trim_is_subrange(t, 0, t.len() as int);
        assert(t.subrange(0, t.len() as int) =~= t);
        assert(trim(t) == t);
        assert(t.drop_first() =~= d);
        assert(int_of_digits(t) == Some(-digits_val(d)));
    }
}

/// Where the first CRLF is, told directly: at `j`, when no CR comes earlier.
pub proof fn lemma_find_crlf_at(s: Seq<u8>, i: int, j: int)
    requires
        0 <= i <= j,
        j + 2 <= s.len(),
        s[j] == 13,
        s[j + 1] == 10,
        forall|k: int| i <= k < j ==> (#[trigger] s[k]) != 13,
    ensures
        find_crlf(s, i) == Some(j),
    decreases j - i,
{
    if i < j {
        lemma_find_crlf_at(s, i + 1, j);
    }
}

/// The delivery cascade reads nothing of the state but its stack and its
/// entry-point flag.
proof fn lemma_deliver_state_irrelevant(
    st1: MachineState,
    st2: MachineState,
    v: SpecValue,
    cursor: int,
    s: Seq<u8>,
)
    requires
        st1.stack == st2.stack,
        st1.inline_top == st2.inline_top,
        0 <= cursor <= s.len(),
    ensures
        deliver(st1, v, cursor, s) == deliver(st2, v, cursor, s),
    decreases st1.stack.len(),
{
    if st1.stack.len() > 0 {
        let top = st1.stack.last();
        if top.remaining <= 1 {
            lemma_deliver_state_irrelevant(
                MachineState { stack: st1.stack.drop_last(), ..st1 },
                MachineState { stack: st2.stack.drop_last(), ..st2 },
                SpecValue::Array(top.elems.push(v)),
                cursor,
                s,
            );
        }
    }
}

/// From any head position whose dispatch rule applies, a value's wire bytes
/// parse to exactly that value, and the machine then hands it to whatever
/// encloses it.
#[verifier::rlimit(100)]
pub proof fn lemma_wire_parses(st: MachineState, s: Seq<u8>, v: SpecValue)
    requires
        encodable(v),
        st.mode is Head,
        0 <= st.cursor,
        st.cursor + wire(v).len() <= s.len(),
        s.subrange(st.cursor, st.cursor + wire(v).len() as int) == wire(v),
        !(st.stack.len() == 0 && st.inline_top && s[st.cursor] != 42),
    ensures
        run(st, s) == deliver(st, v, st.cursor + wire(v).len(), s),
    decreases v,
{
    let c = st.cursor;
    let w = wire(v);
    let b2 = c + w.len() as int;
    assert forall|k: int| 0 <= k < w.len() implies #[trigger] s[c + k] == w[k] by {
        lemma_subrange_index(s, c, b2, w, k);
    }
    assert(s[c] == w[0]) by {
        assert(s[c + 0] == w[0]);
    }
    match v {
        SpecValue::Nil => {
            assert(s[c] == 36);
            lemma_find_crlf_at(s, c + 1, c + 3);
            let tok = s.subrange(c + 1, c + 3);
            assert(tok =~= seq![45u8, 49u8]);
            lemma_trim_is_subrange(tok, 0, 2);
            assert(tok.subrange(0, 2) =~= tok);
            let d = tok.drop_first();
            assert(d =~= seq![49u8]);
            assert(d.len() == 1);
            assert(d[0] == 49);
            assert(d.last() == 49);
            assert(d.drop_last() =~= Seq::<u8>::empty());
            assert(digits_val(d.drop_last()) == 0);
            assert(digits_val(d) == 1);
            assert(all_digits(d));
            assert(parse_i64(tok) == Some(-1i64));
        },
        SpecValue::Integer(n) => {
            assert(s[c] == 58);
            lemma_int_wire_parses(n);
            let iw = int_wire_bytes(n as int);
            let j = c + 1 + iw.len() as int;
            assert forall|k: int| c + 1 <= k < j implies (#[trigger] s[k]) != 13 by {
                assert(s[c + (k - c)] == w[k - c]);
                assert(w[k - c] == iw[k - c - 1]);
            }
            assert(s[j] == 13) by {
                assert(s[c + (1 + iw.len())] == w[1 + iw.len() as int]);
            }
            assert(s[j + 1] == 10) by {
                assert(s[c + (1 + iw.len() + 1)] == w[1 + iw.len() as int + 1]);
            }
            lemma_find_crlf_at(s, c + 1, j);
            assert forall|k: int| 0 <= k < iw.len() implies s.subrange(c + 1, j)[k] == iw[k] by {
                assert(s[c + (1 + k)] == w[1 + k]);
                assert(s.subrange(c + 1, j)[k] == s[c + 1 + k]);
                assert(w[1 + k] == iw[k]);
            }
            assert(s.subrange(c + 1, j) =~= iw);
        },
        SpecValue::BulkString(b) => {
            assert(s[c] == 36);
            let ln = b.len() as int;
            assert(ln <= i64::MAX);
            lemma_int_wire_parses(ln as i64);
            let iw = int_wire_bytes(ln);
            let j = c + 1 + iw.len() as int;
            assert forall|k: int| c + 1 <= k < j implies (#[trigger] s[k]) != 13 by {
                assert(s[c + (k - c)] == w[k - c]);
                assert(w[k - c] == iw[k - c - 1]);
            }
            assert(s[j] == 13) by {
                assert(s[c + (1 + iw.len())] == w[1 + iw.len() as int]);
            }
            assert(s[j + 1] == 10) by {
                assert(s[c + (1 + iw.len() + 1)] == w[1 + iw.len() as int + 1]);
            }
            lemma_find_crlf_at(s, c + 1, j);
            assert forall|k: int| 0 <= k < iw.len() implies s.subrange(c + 1, j)[k] == iw[k] by {
                assert(s[c + (1 + k)] == w[1 + k]);
                assert(s.subrange(c + 1, j)[k] == s[c + 1 + k]);
                assert(w[1 + k] == iw[k]);
            }
            assert(s.subrange(c + 1, j) =~= iw);
            let st2 = MachineState { cursor: j + 2, mode: SpecMode::Body { len: ln }, ..st };
            assert(s[j + 2 + ln] == 13) by {
                assert(s[c + (1 + iw.len() + 2 + ln)] == w[1 + iw.len() as int + 2 + ln]);
            }
            assert(s[j + 2 + ln + 1] == 10) by {
                assert(s[c + (1 + iw.len() + 2 + ln + 1)] == w[1 + iw.len() as int + 2 + ln + 1]);
            }
            assert forall|k: int| 0 <= k < ln implies s.subrange(j + 2, j + 2 + ln)[k] == b[k] by {
                assert(s[c + (1 + iw.len() + 2 + k)] == w[1 + iw.len() as int + 2 + k]);
                assert(s.subrange(j + 2, j + 2 + ln)[k] == s[j + 2 + k]);
                assert(j + 2 + k == c + (1 + iw.len() + 2 + k));
            }
            assert(s.subrange(j + 2, j + 2 + ln) =~= b);
            assert(parse_i64(s.subrange(c + 1, j)) == Some(ln as i64));
            assert(run(st, s) == run(st2, s));
            assert(st2.cursor + ln + 2 <= s.len());
            assert(run(st2, s) == deliver(
                MachineState { mode: SpecMode::Head, ..st2 },
                SpecValue::BulkString(s.subrange(st2.cursor, st2.cursor + ln)),
                st2.cursor + ln + 2,
                s,
            ));
            assert(run(st, s) == deliver(
                MachineState { mode: SpecMode::Head, ..st2 },
                SpecValue::BulkString(b),
                j + 2 + ln + 2,
                s,
            ));
            lemma_deliver_state_irrelevant(
                MachineState { mode: SpecMode::Head, ..st2 },
                st,
                SpecValue::BulkString(b),
                j + 2 + ln + 2,
                s,
            );
        },
        SpecValue::Array(elems) => {
            assert(s[c] == 42);
            let ln = elems.len() as int;
            assert(ln <= i64::MAX);
            lemma_int_wire_parses(ln as i64);
            let iw = int_wire_bytes(ln);
            let j = c + 1 + iw.len() as int;
            assert forall|k: int| c + 1 <= k < j implies (#[trigger] s[k]) != 13 by {
                assert(s[c + (k - c)] == w[k - c]);
                assert(w[k - c] == iw[k - c - 1]);
            }
            assert(s[j] == 13) by {
                assert(s[c + (1 + iw.len())] == w[1 + iw.len() as int]);
            }
            assert(s[j + 1] == 10) by {
                assert(s[c + (1 + iw.len() + 1)] == w[1 + iw.len() as int + 1]);
            }
            lemma_find_crlf_at(s, c + 1, j);
            assert forall|k: int| 0 <= k < iw.len() implies s.subrange(c + 1, j)[k] == iw[k] by {
                assert(s[c + (1 + k)] == w[1 + k]);
                assert(s.subrange(c + 1, j)[k] == s[c + 1 + k]);
                assert(w[1 + k] == iw[k]);
            }
            assert(s.subrange(c + 1, j) =~= iw);
            if ln == 0 {
                assert(wires(elems) =~= Seq::<u8>::empty());
                assert(SpecValue::Array(Seq::empty()) == v) by {
                    assert(elems =~= Seq::<SpecValue>::empty());
                }
            } else {
                let st3 = MachineState {
                    cursor: j + 2,
                    stack: st.stack.push(SpecLevel { remaining: ln, elems: Seq::empty() }),
                    mode: SpecMode::Head,
                    ..st
                };
                assert forall|k: int| 0 <= k < wires(elems).len() implies s.subrange(
                    j + 2,
                    j + 2 + wires(elems).len() as int,
                )[k] == wires(elems)[k] by {
                    assert(s[c + (1 + iw.len() + 2 + k)] == w[1 + iw.len() as int + 2 + k]);
                    assert(s.subrange(j + 2, j + 2 + wires(elems).len() as int)[k] == s[j + 2 + k]);
                    assert(j + 2 + k == c + (1 + iw.len() + 2 + k));
                }
                assert(s.subrange(j + 2, j + 2 + wires(elems).len() as int) =~= wires(elems));
                lemma_elems_parse(st3, s, elems, Seq::empty(), j + 2);
                assert(st3.stack.drop_last() =~= st.stack);
                assert(Seq::<SpecValue>::empty() + elems =~= elems);
                lemma_deliver_state_irrelevant(
                    MachineState { stack: st3.stack.drop_last(), ..st3 },
                    st,
                    SpecValue::Array(elems),
                    j + 2 + wires(elems).len() as int,
                    s,
                );
            }
        },
        _ => {},
    }
}

/// Companion of `lemma_wire_parses`: with an array open on the stack that
/// still owes exactly these elements, their concatenated wire bytes parse to
/// exactly these elements in order, and the completed array is handed on.
pub proof fn lemma_elems_parse(
    st: MachineState,
    s: Seq<u8>,
    elems: Seq<SpecValue>,
    done: Seq<SpecValue>,
    c: int,
)
    requires
        st.stack.len() > 0,
        st.stack.last() == (SpecLevel { remaining: elems.len() as int, elems: done }),
        elems.len() >= 1,
        all_encodable(elems),
        st.mode is Head,
        st.cursor == c,
        0 <= c,
        c + wires(elems).len() <= s.len(),
        s.subrange(c, c + wires(elems).len() as int) == wires(elems),
    ensures
        run(st, s) == deliver(
            MachineState { stack: st.stack.drop_last(), ..st },
            SpecValue::Array(done + elems),
            c + wires(elems).len(),
            s,
        ),
    decreases elems,
{
    let e = elems.first();
    let rest = elems.drop_first();
    let w1 = wire(e);
    let ws = wires(elems);
    assert(ws == w1 + wires(rest));
    assert(encodable(e));
    assert forall|k: int| 0 <= k < ws.len() implies #[trigger] s[c + k] == ws[k] by {
        lemma_subrange_index(s, c, c + ws.len() as int, ws, k);
    }
    assert forall|k: int| 0 <= k < w1.len() implies s.subrange(c, c + w1.len() as int)[k]
        == w1[k] by {
        assert(s[c + k] == ws[k]);
        assert(ws[k] == w1[k]);
    }
    assert(s.subrange(c, c + w1.len() as int) =~= w1);
    lemma_wire_parses(st, s, e);
    let c1 = c + w1.len() as int;
    if elems.len() == 1 {
        assert(wires(rest) =~= Seq::<u8>::empty());
        assert(done.push(e) =~= done + elems);
    } else {
        let lvl = SpecLevel { remaining: elems.len() - 1, elems: done.push(e) };
        let st4 = MachineState {
            cursor: c1,
            stack: st.stack.update(st.stack.len() - 1, lvl),
            mode: SpecMode::Head,
            inline_top: st.inline_top,
        };
        assert(deliver(st, e, c1, s) == run(st4, s));
        assert(st4.stack.last() == (SpecLevel { remaining: rest.len() as int, elems: done.push(e) }));
        assert forall|k: int| 0 <= k < wires(rest).len() implies s.subrange(
            c1,
            c1 + wires(rest).len() as int,
        )[k] == wires(rest)[k] by {
            assert(s[c + (w1.len() + k)] == ws[w1.len() as int + k]);
            assert(s.subrange(c1, c1 + wires(rest).len() as int)[k] == s[c1 + k]);
            assert(c1 + k == c + (w1.len() + k));
            assert(ws[w1.len() as int + k] == wires(rest)[k]);
        }
        assert(s.subrange(c1, c1 + wires(rest).len() as int) =~= wires(rest));
        lemma_elems_parse(st4, s, rest, done.push(e), c1);
        assert(st4.stack.drop_last() =~= st.stack.drop_last());
        assert(done.push(e) + rest =~= done + elems);
        lemma_deliver_state_irrelevant(
            MachineState { stack: st4.stack.drop_last(), ..st4 },
            MachineState { stack: st.stack.drop_last(), ..st },
            SpecValue::Array(done + elems),
            c1 + wires(rest).len() as int,
            s,
        );
    }
}

/// Any well-formed frame decodes to exactly its value — an array to exactly
/// its declared number of elements, in their original order — and occupies
/// exactly its wire length, whatever bytes follow it in the buffer.
pub proof fn lemma_wire_round_trip(inline_top: bool, v: SpecValue, rest: Seq<u8>)
    requires
        encodable(v),
        inline_top ==> v is Array,
    ensures
        run(init_state(inline_top), wire(v) + rest) == (RunResult::Complete {
            value: v,
            used: wire(v).len() as int,
        }),
{
    let s = wire(v) + rest;
    assert(s.subrange(0, wire(v).len() as int) =~= wire(v));
    if inline_top {
        assert(s[0] == 42);
    }
    lemma_wire_parses(init_state(inline_top), s, v);
}

/// Two frames buffered together are decoded one per attempt: the first
/// attempt completes the first value and consumes exactly its wire bytes,
/// leaving the second frame untouched; the next attempt then completes the
/// second value the same way.
pub proof fn lemma_back_to_back_frames(inline_top: bool, v1: SpecValue, v2: SpecValue)
    requires
        encodable(v1),
        encodable(v2),
        inline_top ==> v1 is Array && v2 is Array,
    ensures
        run(init_state(inline_top), wire(v1) + wire(v2)) == (RunResult::Complete {
            value: v1,
            used: wire(v1).len() as int,
        }),
        (wire(v1) + wire(v2)).skip(wire(v1).len() as int) == wire(v2),
        run(init_state(inline_top), wire(v2)) == (RunResult::Complete {
            value: v2,
            used: wire(v2).len() as int,
        }),
{
    lemma_wire_round_trip(inline_top, v1, wire(v2));
    assert((wire(v1) + wire(v2)).skip(wire(v1).len() as int) =~= wire(v2));
    lemma_wire_round_trip(inline_top, v2, Seq::empty());
    assert(wire(v2) + Seq::<u8>::empty() =~= wire(v2));
}

} // verus!
