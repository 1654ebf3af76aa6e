//! Rendering of grammar-violation diagnostics: each fault is reported with a
//! human-readable message that embeds the offending token or byte and its
//! offset into the original buffer.

use vstd::prelude::*;
use vstd::string::StringExecFns;

use crate::resp_parser::Violation;

verus! {

/// The character for a decimal digit value.
pub open spec fn digit_char(d: int) -> char {
    ((48 + d) as u8) as char
}

/// Decimal rendering of a nonnegative number, most significant digit first.
pub open spec fn dec_of(n: int) -> Seq<char>
    decreases n,
{
    if n < 10 {
        seq![digit_char(n)]
    } else {
        dec_of(n / 10).push(digit_char(n % 10))
    }
}

/// Each byte of a token shown as the character with that code, the way a raw
/// protocol byte is displayed.
pub open spec fn latin1(t: Seq<u8>) -> Seq<char> {
    t.map_values(|b: u8| b as char)
}

/// The diagnostic text for each grammar violation.
pub open spec fn violation_message(v: Violation) -> Seq<char> {
    match v {
        Violation::NotAnInteger { at, token } => "expected integer, got garbage: '"@ + latin1(
            token,
        ) + "' at byte "@ + dec_of(at),
        Violation::UnexpectedToken { at, byte } => "unexpected token '"@ + seq![byte as char]
            + "' at byte "@ + dec_of(at),
        Violation::MissingTerminator { at } => "expected CRLF terminator at byte "@ + dec_of(at),
        Violation::InvalidText { at } => "invalid utf-8 in inline command at byte "@ + dec_of(at),
        Violation::TruncatedFrame => "unexpected end of input"@,
    }
}

/// Relies on `String::push`: appends exactly the given character.
#[verifier::external_body]
fn push_char(s: &mut String, c: char)
    ensures
        final(s)@ == old(s)@.push(c),
{
    s.push(c);
}

/// Append the decimal rendering of `n`.
fn push_dec(s: &mut String, n: u64)
    ensures
        final(s)@ == old(s)@ + dec_of(n as int),
    decreases n,
{
    if n >= 10 {
        push_dec(s, n / 10);
    }
    let d: u8 = (n % 10) as u8 + 48;
    push_char(s, d as char);
    proof {
        if n < 10 {
            assert(old(s)@ + dec_of(n as int) =~= old(s)@.push(digit_char(n as int)));
        } else {
            assert(old(s)@ + dec_of(n as int) =~= (old(s)@ + dec_of(n as int / 10)).push(
                digit_char(n as int % 10),
            ));
        }
    }
}

/// Append each byte of the token as the character with that code.
fn push_latin1(s: &mut String, t: &Vec<u8>)
    ensures
        final(s)@ == old(s)@ + latin1(t@),
{
    let mut i: usize = 0;
    while i < t.len()
        invariant
            i <= t.len(),
            s@ == old(s)@ + latin1(t@).take(i as int),
        decreases t.len() - i,
    {
        push_char(s, t[i] as char);
        proof {
            assert(latin1(t@)[i as int] == t@[i as int] as char);
            assert((old(s)@ + latin1(t@).take(i as int)).push(t@[i as int] as char) =~= old(s)@
                + latin1(t@).take(i + 1));
        }
        i = i + 1;
    }
    proof {
        assert(latin1(t@).take(t@.len() as int) =~= latin1(t@));
    }
}

/// The violations as runtime records, offsets held as machine integers.
pub enum Fault {
    NotAnInteger { at: usize, token: Vec<u8> },
    UnexpectedToken { at: usize, byte: u8 },
    MissingTerminator { at: usize },
    InvalidText { at: usize },
    TruncatedFrame,
}

impl Fault {
    /// The violation this record stands for.
    pub open spec fn view(&self) -> Violation {
        match self {
            Fault::NotAnInteger { at, token } => Violation::NotAnInteger {
                at: *at as int,
                token: token@,
            },
            Fault::UnexpectedToken { at, byte } => Violation::UnexpectedToken {
                at: *at as int,
                byte: *byte,
            },
            Fault::MissingTerminator { at } => Violation::MissingTerminator { at: *at as int },
            Fault::InvalidText { at } => Violation::InvalidText { at: *at as int },
            Fault::TruncatedFrame => Violation::TruncatedFrame,
        }
    }

    /// Render this fault's diagnostic text.
    pub fn render(&self) -> (r: String)
        ensures
            r@ == violation_message(self.view()),
    {
        let mut s = String::new();
        match self {
            Fault::NotAnInteger { at, token } => {
                s.append("expected integer, got garbage: '");
                push_latin1(&mut s, token);
                s.append("' at byte ");
                push_dec(&mut s, *at as u64);
            },
            Fault::UnexpectedToken { at, byte } => {
                s.append("unexpected token '");
                push_char(&mut s, *byte as char);
                s.append("' at byte ");
                push_dec(&mut s, *at as u64);
            },
            Fault::MissingTerminator { at } => {
                s.append("expected CRLF terminator at byte ");
                push_dec(&mut s, *at as u64);
            },
            Fault::InvalidText { at } => {
                s.append("invalid utf-8 in inline command at byte ");
                push_dec(&mut s, *at as u64);
            },
            Fault::TruncatedFrame => {
                s.append("unexpected end of input");
            },
        }
        proof {
            assert(Seq::<char>::empty() + violation_message(self.view()) =~= violation_message(
                self.view(),
            ));
            match self {
                Fault::UnexpectedToken { at, byte } => {
                    assert((Seq::<char>::empty() + "unexpected token '"@).push(*byte as char)
                        =~= Seq::<char>::empty() + "unexpected token '"@ + seq![*byte as char]);
                },
                _ => {},
            }
        }
        s
    }
}

} // verus!
