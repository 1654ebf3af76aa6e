//! The streaming codec: a resumable decoder for whole protocol frames over an
//! arbitrarily-chunked byte stream, and the (intentionally trivial) reply
//! encoder.
//!
//! The decoder owns the bytes fed to it so far. Each call to [`RespCodec::decode`]
//! hands it the newly arrived bytes; it either completes one value together
//! with the exact byte count the value occupied, asks for more data while
//! consuming nothing, or reports a grammar violation as ordinary result data
//! and discards the buffered remainder. Its whole behaviour is a function of
//! the bytes fed so far, never of how they were split into chunks.

use vstd::prelude::*;

use crate::messages::{violation_message, Fault};
use crate::resp_parser::{
    deliver, init_state, parse_int_token, run, scan_crlf, MachineState, RunResult, SpecLevel,
    SpecMode, Violation,
};
use crate::resp_types::{lemma_values_view_push, value_view, values_view, RespDataType, SpecValue};

verus! {

/// The kind of a fatal transport fault.
#[derive(Debug)]
pub enum RespStreamErrorKind {
    IoError,
}

/// A fatal fault of the underlying byte stream. Never produced by the codec
/// itself, which performs no I/O; the transport layer wraps its read or write
/// failures in this and must then tear the connection down.
#[derive(Debug)]
pub struct RespStreamError {
    pub kind: RespStreamErrorKind,
    pub message: String,
}

impl RespStreamError {
    /// Wrap the message of an underlying I/O fault.
    pub fn io_error(message: String) -> (r: RespStreamError)
        ensures
            r.kind is IoError,
            r.message == message,
    {
        RespStreamError { kind: RespStreamErrorKind::IoError, message }
    }
}

/// The kind of a grammar violation.
#[derive(Debug)]
pub enum RespParseErrorKind {
    ParseError,
}

/// A grammar violation: non-fatal, data-shaped. The message embeds the
/// offending token or byte, located by offsets into the original buffer.
#[derive(Debug)]
pub struct RespParseError {
    pub kind: RespParseErrorKind,
    pub message: String,
}

/// A decoded frame, or the grammar violation that the bytes held instead.
pub type RespResult = Result<RespDataType, RespParseError>;

/// What one decode attempt yielded.
pub enum DecodeOutcome {
    /// The bytes available do not yet hold one whole value. Nothing was
    /// consumed; every confirmed token is retained for the next attempt.
    NeedMoreData,
    /// One result, and how many buffered bytes it stood in: for a value its
    /// exact wire length, for a parse error everything buffered (no
    /// resynchronization is attempted, the valid restart point is unknown).
    Done(RespResult, usize),
}

/// How the decoder is left by one decode attempt.
pub open spec fn decode_leftover(inline_top: bool, s: Seq<u8>, eof: bool, post: Seq<u8>) -> bool {
    match run(init_state(inline_top), s) {
        RunResult::Suspended(_) => if eof && s.len() > 0 {
            post == Seq::<u8>::empty()
        } else {
            post == s
        },
        RunResult::Complete { used, .. } => post == s.skip(used),
        RunResult::Violated(_) => post == Seq::<u8>::empty(),
    }
}

/// What one decode attempt over the bytes `s` must yield: exactly what the
/// grammar machine yields on `s`, with a truncated frame counting as a
/// violation when the stream has ended.
pub open spec fn decode_outcome_ok(inline_top: bool, s: Seq<u8>, eof: bool, r: DecodeOutcome) -> bool {
    match run(init_state(inline_top), s) {
        RunResult::Suspended(_) => if eof && s.len() > 0 {
            match r {
                DecodeOutcome::Done(Err(e), n) => e.kind is ParseError && e.message@
                    == violation_message(Violation::TruncatedFrame) && n == s.len(),
                _ => false,
            }
        } else {
            r is NeedMoreData
        },
        RunResult::Complete { value, used } => match r {
            DecodeOutcome::Done(Ok(v), n) => value_view(v) == value && n == used,
            _ => false,
        },
        RunResult::Violated(viol) => match r {
            DecodeOutcome::Done(Err(e), n) => e.kind is ParseError && e.message@
                == violation_message(viol) && n == s.len(),
            _ => false,
        },
    }
}

/// A decoder that has reported a grammar violation (or handed over a
/// truncated frame at end of stream) keeps no bytes: `decode` leaves its
/// buffer empty. By `decode`'s contract the next attempt therefore behaves
/// exactly like a fresh decoder fed the same chunk — a failure never taints
/// the frames that come after it.
pub proof fn lemma_fresh_after_violation(inline_top: bool, chunk: Seq<u8>, eof: bool, r: DecodeOutcome)
    ensures
        decode_outcome_ok(inline_top, Seq::<u8>::empty() + chunk, eof, r) == decode_outcome_ok(
            inline_top,
            chunk,
            eof,
            r,
        ),
{
    assert(Seq::<u8>::empty() + chunk =~= chunk);
}

/// One array whose elements are still being gathered.
struct PendingArray {
    remaining: u64,
    elems: Vec<RespDataType>,
}

/// What the decoder expects at its cursor.
#[derive(Clone, Copy)]
enum Mode {
    Head,
    Body { len: u64 },
}

/// Which of the machine's two activities the engine loop is in: parsing the
/// next token, or handing a completed value to its enclosing arrays.
enum EnginePhase {
    Parse,
    Deliver(RespDataType, usize),
}

/// The streaming decoder and encoder for one connection.
///
/// One instance is created per connection and owned exclusively by it; it is
/// pure computation over in-memory bytes and performs no I/O itself.
pub struct RespCodec {
    buf: Vec<u8>,
    cursor: usize,
    stack: Vec<PendingArray>,
    mode: Mode,
    inline_top: bool,
}

/// Internal verdict of one engine run over the buffered bytes.
enum EngineVerdict {
    Suspend,
    Finished(RespDataType, usize),
    Faulted(Fault),
}

impl View for RespCodec {
    type V = Seq<u8>;

    /// The bytes fed to the decoder and not yet consumed.
    closed spec fn view(&self) -> Seq<u8> {
        self.buf@
    }
}

impl RespCodec {
    /// The machine state this decoder has saved.
    closed spec fn st_spec(&self) -> MachineState {
        MachineState {
            cursor: self.cursor as int,
            stack: Seq::new(
                self.stack@.len(),
                |i: int| SpecLevel {
                    remaining: self.stack@[i].remaining as int,
                    elems: values_view(self.stack@[i].elems@),
                },
            ),
            mode: match self.mode {
                Mode::Head => SpecMode::Head,
                Mode::Body { len } => SpecMode::Body { len: len as int },
            },
            inline_top: self.inline_top,
        }
    }

    /// Whether this decoder reads a top-level line without a leading `*` as
    /// an inline command (the per-connection entry point does; the bare
    /// value-grammar entry point does not).
    pub closed spec fn inline_spec(&self) -> bool {
        self.inline_top
    }

    /// The saved state is a sound resume point: it is exactly where parsing
    /// the buffered bytes from scratch suspends, or the initial state.
    pub closed spec fn wf(&self) -> bool {
        &&& self.cursor <= self.buf@.len()
        &&& (self.st_spec() == init_state(self.inline_top) || run(
            init_state(self.inline_top),
            self.buf@,
        ) == RunResult::Suspended(self.st_spec()))
    }

    /// A fresh decoder for one connection: empty, in the initial state, with
    /// the top-level inline-command fallback.
    pub fn new() -> (r: RespCodec)
        ensures
            r.wf(),
            r@ == Seq::<u8>::empty(),
            r.inline_spec(),
    {
        let r = RespCodec {
            buf: Vec::new(),
            cursor: 0,
            stack: Vec::new(),
            mode: Mode::Head,
            inline_top: true,
        };
        proof {
            assert(r.st_spec().stack =~= Seq::<SpecLevel>::empty());
            assert(r.st_spec() == init_state(true));
        }
        r
    }

    /// Forget all progress and all buffered bytes.
    fn reset(&mut self)
        ensures
            final(self).st_spec() == init_state(old(self).inline_top),
            final(self).inline_top == old(self).inline_top,
            final(self).buf@ == Seq::<u8>::empty(),
            final(self).cursor == 0,
    {
        self.buf = Vec::new();
        self.cursor = 0;
        self.stack = Vec::new();
        self.mode = Mode::Head;
        proof {
            assert(self.st_spec().stack =~= Seq::<SpecLevel>::empty());
            assert(self.st_spec() == init_state(self.inline_top));
        }
    }
}

impl RespCodec {
    /// Drive the saved machine over the buffered bytes as far as they allow,
    /// resuming at the saved cursor, stack and mode: no confirmed token is
    /// ever re-parsed.
    #[verifier::loop_isolation(false)]
    fn run_engine(&mut self) -> (r: EngineVerdict)
        requires
            old(self).cursor <= old(self).buf@.len(),
        ensures
            final(self).buf@ == old(self).buf@,
            final(self).inline_top == old(self).inline_top,
            final(self).cursor <= final(self).buf@.len(),
            match r {
                EngineVerdict::Suspend => run(old(self).st_spec(), old(self).buf@)
                    == RunResult::Suspended(final(self).st_spec()),
                EngineVerdict::Finished(v, used) => run(old(self).st_spec(), old(self).buf@)
                    == (RunResult::Complete { value: value_view(v), used: used as int }) && used
                    <= old(self).buf@.len(),
                EngineVerdict::Faulted(f) => run(old(self).st_spec(), old(self).buf@)
                    == RunResult::Violated(f@),
            },
    {
        let ghost s = self.buf@;
        let ghost st0 = self.st_spec();
        let mut phase = EnginePhase::Parse;
        loop
            invariant
                self.buf@ == s,
                self.inline_top == old(self).inline_top,
                self.cursor <= s.len(),
                match phase {
                    EnginePhase::Parse => run(st0, s) == run(self.st_spec(), s),
                    EnginePhase::Deliver(val, c2) => run(st0, s) == deliver(
                        self.st_spec(),
                        value_view(val),
                        c2 as int,
                        s,
                    ) && c2 <= s.len() && self.mode is Head,
                },
            decreases
                (match phase {
                    EnginePhase::Parse => s.len() - self.cursor,
                    EnginePhase::Deliver(_, c2) => s.len() - c2,
                }),
                crate::resp_parser::stack_weight(self.st_spec().stack) + self.stack@.len(),
                (match phase {
                    EnginePhase::Parse => 1int,
                    EnginePhase::Deliver(..) => 0int,
                }),
        {
            phase = match phase {
                EnginePhase::Parse => {
                    match self.mode {
                        Mode::Head => {
                            if self.cursor >= self.buf.len() {
                                return EngineVerdict::Suspend;
                            }
                            let b = self.buf[self.cursor];
                            if self.stack.len() == 0 && self.inline_top && b != 42 {
                                proof {
                                    assert(self.st_spec().stack.len() == 0);
                                }
                                match scan_crlf(&self.buf, self.cursor) {
                                    None => {
                                        return EngineVerdict::Suspend;
                                    },
                                    Some(j) => {
                                        let line = copy_range(&self.buf, self.cursor, j);
                                        match bytes_to_string(line) {
                                            Some(txt) => {
                                                let v = RespDataType::SimpleString(txt);
                                                return EngineVerdict::Finished(v, j + 2);
                                            },
                                            None => {
                                                return EngineVerdict::Faulted(
                                                    Fault::InvalidText { at: self.cursor },
                                                );
                                            },
                                        }
                                    },
                                }
                            } else if b == 58 || b == 36 || b == 42 {
                                proof {
                                    if self.stack.len() != 0 {
                                        assert(self.st_spec().stack.len() != 0);
                                    }
                                }
                                match scan_crlf(&self.buf, self.cursor + 1) {
                                    None => {
                                        return EngineVerdict::Suspend;
                                    },
                                    Some(j) => {
                                        match parse_int_token(&self.buf, self.cursor + 1, j) {
                                            None => {
                                                let token = copy_range(
                                                    &self.buf,
                                                    self.cursor + 1,
                                                    j,
                                                );
                                                return EngineVerdict::Faulted(
                                                    Fault::NotAnInteger {
                                                        at: self.cursor + 1,
                                                        token,
                                                    },
                                                );
                                            },
                                            Some(n) => {
                                                if b == 58 {
                                                    EnginePhase::Deliver(
                                                        RespDataType::Integer(n),
                                                        j + 2,
                                                    )
                                                } else if n < 0 {
                                                    EnginePhase::Deliver(RespDataType::Nil, j + 2)
                                                } else if b == 36 {
                                                    let ghost before = self.st_spec();
                                                    self.mode = Mode::Body { len: n as u64 };
                                                    self.cursor = j + 2;
                                                    proof {
                                                        assert(self.st_spec().stack
                                                            =~= before.stack);
                                                        assert(self.st_spec() == (MachineState {
                                                            cursor: j + 2,
                                                            mode: SpecMode::Body { len: n as int },
                                                            ..before
                                                        }));
                                                    }
                                                    EnginePhase::Parse
                                                } else if n == 0 {
                                                    let v = RespDataType::Array(Vec::new());
                                                    proof {
                                                        assert(value_view(v)
                                                            == SpecValue::Array(values_view(
                                                            Seq::empty(),
                                                        )));
                                                        assert(values_view(Seq::empty())
                                                            =~= Seq::<SpecValue>::empty());
                                                    }
                                                    EnginePhase::Deliver(v, j + 2)
                                                } else {
                                                    let ghost before = self.st_spec();
                                                    self.stack.push(
                                                        PendingArray {
                                                            remaining: n as u64,
                                                            elems: Vec::new(),
                                                        },
                                                    );
                                                    self.cursor = j + 2;
                                                    proof {
                                                        assert(values_view(Seq::empty())
                                                            =~= Seq::<SpecValue>::empty());
                                                        assert(self.st_spec().stack
                                                            =~= before.stack.push(SpecLevel {
                                                            remaining: n as int,
                                                            elems: Seq::empty(),
                                                        }));
                                                        assert(self.st_spec() == (MachineState {
                                                            cursor: j + 2,
                                                            stack: before.stack.push(SpecLevel {
                                                                remaining: n as int,
                                                                elems: Seq::empty(),
                                                            }),
                                                            mode: SpecMode::Head,
                                                            ..before
                                                        }));
                                                    }
                                                    EnginePhase::Parse
                                                }
                                            },
                                        }
                                    },
                                }
                            } else {
                                return EngineVerdict::Faulted(
                                    Fault::UnexpectedToken { at: self.cursor, byte: b },
                                );
                            }
                        },
                        Mode::Body { len } => {
                            let avail = self.buf.len() - self.cursor;
                            if (len as u128) + 2 > (avail as u128) {
                                return EngineVerdict::Suspend;
                            }
                            let len_us = len as usize;
                            let end = self.cursor + len_us;
                            if self.buf[end] == 13 && self.buf[end + 1] == 10 {
                                let body = copy_range(&self.buf, self.cursor, end);
                                let ghost before = self.st_spec();
                                self.mode = Mode::Head;
                                proof {
                                    assert(self.st_spec().stack =~= before.stack);
                                    assert(self.st_spec() == (MachineState {
                                        mode: SpecMode::Head,
                                        ..before
                                    }));
                                }
                                EnginePhase::Deliver(RespDataType::BulkString(body), end + 2)
                            } else {
                                return EngineVerdict::Faulted(
                                    Fault::MissingTerminator { at: end },
                                );
                            }
                        },
                    }
                },
                EnginePhase::Deliver(val, c2) => {
                    if self.stack.len() == 0 {
                        proof {
                            assert(self.st_spec().stack.len() == 0);
                        }
                        return EngineVerdict::Finished(val, c2);
                    }
                    let ghost before = self.st_spec();
                    let mut top = self.stack.pop().unwrap();
                    proof {
                        assert(self.st_spec().stack =~= before.stack.drop_last());
                        assert(before.stack.last() == SpecLevel {
                            remaining: top.remaining as int,
                            elems: values_view(top.elems@),
                        });
                    }
                    if top.remaining <= 1 {
                        let ghost popped = self.st_spec();
                        let ghost old_elems = top.elems@;
                        top.elems.push(val);
                        let arr = RespDataType::Array(top.elems);
                        proof {
                            lemma_values_view_push(old_elems, val);
                            assert(value_view(arr) == SpecValue::Array(
                                values_view(old_elems).push(value_view(val)),
                            ));
                            assert(popped == (MachineState {
                                stack: before.stack.drop_last(),
                                ..before
                            }));
                        }
                        EnginePhase::Deliver(arr, c2)
                    } else {
                        let ghost old_elems = top.elems@;
                        top.remaining = top.remaining - 1;
                        top.elems.push(val);
                        self.stack.push(top);
                        self.cursor = c2;
                        proof {
                            let lvl = SpecLevel {
                                remaining: before.stack.last().remaining - 1,
                                elems: before.stack.last().elems.push(value_view(val)),
                            };
                            lemma_values_view_push(old_elems, val);
                            assert(self.st_spec().stack =~= before.stack.update(
                                before.stack.len() - 1,
                                lvl,
                            ));
                            crate::resp_parser::lemma_weight_after_element(
                                before.stack,
                                value_view(val),
                            );
                            assert(self.st_spec() == (MachineState {
                                cursor: c2 as int,
                                stack: before.stack.update(before.stack.len() - 1, lvl),
                                mode: SpecMode::Head,
                                inline_top: before.inline_top,
                            }));
                        }
                        EnginePhase::Parse
                    }
                },
            };
        }
    }
}

impl RespCodec {
    /// One decode attempt: feed the newly arrived bytes, then drive the saved
    /// machine over everything buffered.
    ///
    /// The outcome is a pure function of the bytes fed so far and `eof`,
    /// never of the chunk boundaries. On `NeedMoreData` nothing is consumed
    /// and all progress is kept. On a completed value exactly its wire bytes
    /// leave the buffer, so a following frame is untouched. On a grammar
    /// violation the error is returned as ordinary result data, everything
    /// buffered is discarded (the valid restart point is unknown) and the
    /// decoder is reset, ready for a fresh frame. With `eof` set, bytes that
    /// end mid-frame are a violation too (a truncated frame).
    pub fn decode(&mut self, chunk: &[u8], eof: bool) -> (r: DecodeOutcome)
        requires
            old(self).wf(),
        ensures
            final(self).wf(),
            final(self).inline_spec() == old(self).inline_spec(),
            decode_outcome_ok(old(self).inline_spec(), old(self)@ + chunk@, eof, r),
            decode_leftover(old(self).inline_spec(), old(self)@ + chunk@, eof, final(self)@),
    {
        let ghost pre = self.buf@;
        let ghost st_saved = self.st_spec();
        let ghost inline = self.inline_top;
        append_bytes(&mut self.buf, chunk);
        let ghost s = self.buf@;
        proof {
            crate::resp_parser::lemma_run_extend(init_state(inline), pre, chunk@);
            if st_saved == init_state(inline) {
                assert(run(init_state(inline), s) == run(st_saved, s));
            }
            assert(run(init_state(inline), s) == run(st_saved, s));
        }
        let verdict = self.run_engine();
        match verdict {
            EngineVerdict::Suspend => {
                if eof && self.buf.len() > 0 {
                    let total = self.buf.len();
                    self.reset();
                    let msg = Fault::TruncatedFrame.render();
                    DecodeOutcome::Done(
                        Err(RespParseError { kind: RespParseErrorKind::ParseError, message: msg }),
                        total,
                    )
                } else {
                    DecodeOutcome::NeedMoreData
                }
            },
            EngineVerdict::Finished(v, used) => {
                let rest = copy_range(&self.buf, used, self.buf.len());
                self.reset();
                self.buf = rest;
                proof {
                    assert(s.subrange(used as int, s.len() as int) =~= s.skip(used as int));
                }
                DecodeOutcome::Done(Ok(v), used)
            },
            EngineVerdict::Faulted(f) => {
                let total = self.buf.len();
                let msg = f.render();
                self.reset();
                DecodeOutcome::Done(
                    Err(RespParseError { kind: RespParseErrorKind::ParseError, message: msg }),
                    total,
                )
            },
        }
    }
}

/// One-shot entry to the bare value grammar: decode a single value from the
/// front of `bytes`, dispatched by its leading type byte even at the top
/// level (no inline-command fallback). This is the same rule set that parses
/// every nested array element.
pub fn decode_value(bytes: &[u8], eof: bool) -> (r: DecodeOutcome)
    ensures
        decode_outcome_ok(false, bytes@, eof, r),
{
    let mut codec = RespCodec {
        buf: Vec::new(),
        cursor: 0,
        stack: Vec::new(),
        mode: Mode::Head,
        inline_top: false,
    };
    proof {
        assert(codec.st_spec().stack =~= Seq::<SpecLevel>::empty());
        assert(codec.st_spec() == init_state(false));
        assert(Seq::<u8>::empty() + bytes@ =~= bytes@);
    }
    codec.decode(bytes, eof)
}

/// Append an already wire-formatted reply's raw bytes to the outbound buffer,
/// reserving capacity first. The reply side performs no framing and no
/// validation: the caller is responsible for a well-formed reply line.
pub fn encode(line: &str, out: &mut Vec<u8>)
    ensures
        final(out)@ == old(out)@ + vstd::utf8::encode_utf8(line@),
{
    let bytes = line.as_bytes();
    out.reserve(bytes.len());
    append_bytes(out, bytes);
}

/// Append every byte of `src` to `dst`.
fn append_bytes(dst: &mut Vec<u8>, src: &[u8])
    ensures
        final(dst)@ == old(dst)@ + src@,
{
    let mut i: usize = 0;
    while i < src.len()
        invariant
            i <= src@.len(),
            dst@ == old(dst)@ + src@.take(i as int),
        decreases src@.len() - i,
    {
        dst.push(src[i]);
        proof {
            assert((old(dst)@ + src@.take(i as int)).push(src@[i as int]) =~= old(dst)@
                + src@.take(i + 1));
        }
        i = i + 1;
    }
    proof {
        assert(src@.take(src@.len() as int) =~= src@);
    }
}

/// Copy of `buf[a..b]`.
fn copy_range(buf: &Vec<u8>, a: usize, b: usize) -> (r: Vec<u8>)
    requires
        a <= b <= buf.len(),
    ensures
        r@ == buf@.subrange(a as int, b as int),
{
    let mut r: Vec<u8> = Vec::new();
    let mut i = a;
    while i < b
        invariant
            a <= i <= b <= buf.len(),
            r@ == buf@.subrange(a as int, i as int),
        decreases b - i,
    {
        r.push(buf[i]);
        proof {
            assert(buf@.subrange(a as int, i as int).push(buf@[i as int]) =~= buf@.subrange(
                a as int,
                i + 1,
            ));
        }
        i = i + 1;
    }
    r
}

/// Relies on `String::from_utf8`: it succeeds exactly on valid UTF-8 and
/// yields the text those bytes encode.
#[verifier::external_body]
fn bytes_to_string(b: Vec<u8>) -> (r: Option<String>)
    ensures
        r is Some <==> vstd::utf8::valid_utf8(b@),
        r matches Some(s) ==> s@ == vstd::utf8::decode_utf8(b@),
{
    match String::from_utf8(b) {
        Ok(s) => Some(s),
        Err(_) => None,
    }
}

} // verus!
