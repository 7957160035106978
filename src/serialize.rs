use crate::types::{decimal_of, decimal_text, utf8_string, Reply, Value};
use vstd::prelude::*;
use vstd::slice::{slice_subrange, slice_to_vec};
use vstd::utf8::{decode_utf8, encode_utf8, encode_utf8_decode_utf8, encode_utf8_valid_utf8, valid_utf8};

verus! {

/// Declared bulk lengths and array counts must stay below this bound (512 MiB).
pub const RESP_MAX_SIZE: i64 = 536870912;

const CR: u8 = 13;
const LF: u8 = 10;
const PLUS: u8 = 43;
const MINUS: u8 = 45;
const COLON: u8 = 58;
const DOLLAR: u8 = 36;
const STAR: u8 = 42;
const ZERO: u8 = 48;
const NINE: u8 = 57;

/// The text that describes a fault.
pub open spec fn fault_message(f: Fault) -> Seq<char> {
    match f {
        Fault::Incomplete => "unexpected end of stream"@,
        Fault::TooShort(n) => "too short: "@ + decimal_of(n as int),
        Fault::InvalidCrlf => "invalid CRLF"@,
        Fault::InvalidUtf8 => "invalid utf-8 sequence"@,
        Fault::InvalidInteger => "invalid integer"@,
        Fault::Server(text, _) => text,
        Fault::BulkLength(n) => "invalid bulk length: "@ + decimal_of(n),
        Fault::ArrayLength(n) => "invalid array length: "@ + decimal_of(n),
        Fault::UnknownPrefix(b) => "invalid RESP type: "@ + decimal_of(b as int),
    }
}

impl DecodeError {
    /// Describes the failure; for a server error, its message as the server sent it.
    pub fn message(self) -> (r: String)
        ensures
            r@ == fault_message(self@),
    {
        match self {
            DecodeError::Incomplete => String::from_str("unexpected end of stream"),
            DecodeError::TooShort(n) => {
                let mut m = String::from_str("too short: ");
                m.append(decimal_text(n as i128).as_str());
                m
            },
            DecodeError::InvalidCrlf => String::from_str("invalid CRLF"),
            DecodeError::InvalidUtf8 => String::from_str("invalid utf-8 sequence"),
            DecodeError::InvalidInteger => String::from_str("invalid integer"),
            DecodeError::Server(text, _) => text,
            DecodeError::InvalidBulkLength(n) => {
                let mut m = String::from_str("invalid bulk length: ");
                m.append(decimal_text(n as i128).as_str());
                m
            },
            DecodeError::InvalidArrayLength(n) => {
                let mut m = String::from_str("invalid array length: ");
                m.append(decimal_text(n as i128).as_str());
                m
            },
            DecodeError::InvalidPrefix(b) => {
                let mut m = String::from_str("invalid RESP type: ");
                m.append(decimal_text(b as i128).as_str());
                m
            },
        }
    }
}

/// Why a byte sequence does not decode to a reply (model of [`DecodeError`]).
pub enum Fault {
    Incomplete,
    TooShort(nat),
    InvalidCrlf,
    InvalidUtf8,
    InvalidInteger,
    Server(Seq<char>, nat),
    BulkLength(int),
    ArrayLength(int),
    UnknownPrefix(u8),
}

/// What decoding the front of a byte sequence gives: a result and the number
/// of bytes it spans, or a fault.
pub enum Parsed<A> {
    Done(A, nat),
    Failed(Fault),
}

/// A failure to decode a RESP frame.
#[derive(PartialEq, Eq, Debug)]
pub enum DecodeError {
    /// The bytes end before the frame does; more input may complete it.
    Incomplete,
    /// The header line, terminator included, is shorter than three bytes.
    TooShort(usize),
    /// A header line or a bulk payload is not followed by `\r\n`.
    InvalidCrlf,
    /// Text that must be UTF-8 is not.
    InvalidUtf8,
    /// A header that must hold a decimal `i64` does not.
    InvalidInteger,
    /// The server answered with an error frame carrying this message; the
    /// frame, and any array frames that it stood in, spanned this many bytes.
    Server(String, usize),
    /// A bulk string declared a length below -1 or at least 512 MiB.
    InvalidBulkLength(i64),
    /// An array declared a count below -1 or at least 512 MiB.
    InvalidArrayLength(i64),
    /// The frame starts with a byte that is no RESP type prefix.
    InvalidPrefix(u8),
}

impl View for DecodeError {
    type V = Fault;

    open spec fn view(&self) -> Fault {
        match self {
            DecodeError::Incomplete => Fault::Incomplete,
            DecodeError::TooShort(n) => Fault::TooShort(*n as nat),
            DecodeError::InvalidCrlf => Fault::InvalidCrlf,
            DecodeError::InvalidUtf8 => Fault::InvalidUtf8,
            DecodeError::InvalidInteger => Fault::InvalidInteger,
            DecodeError::Server(s, n) => Fault::Server(s@, *n as nat),
            DecodeError::InvalidBulkLength(n) => Fault::BulkLength(*n as int),
            DecodeError::InvalidArrayLength(n) => Fault::ArrayLength(*n as int),
            DecodeError::InvalidPrefix(b) => Fault::UnknownPrefix(*b),
        }
    }
}

pub open spec fn is_digit(c: u8) -> bool {
    48 <= c <= 57
}

/// The number that a sequence of ASCII decimal digits spells.
pub open spec fn digits_value(d: Seq<u8>) -> nat
    decreases d.len(),
{
    if d.len() == 0 {
        0
    } else {
        digits_value(d.drop_last()) * 10 + (d.last() - 48) as nat
    }
}

/// The digits of an integer's text, after an optional sign.
pub open spec fn unsigned_part(text: Seq<u8>) -> Seq<u8> {
    if text.len() > 0 && (text[0] == 45 || text[0] == 43) {
        text.drop_first()
    } else {
        text
    }
}

/// The `i64` that `text` spells in decimal, with an optional `+` or `-` sign.
pub open spec fn integer_of(text: Seq<u8>) -> Option<int> {
    let digits = unsigned_part(text);
    let magnitude = digits_value(digits) as int;
    let n = if text.len() > 0 && text[0] == 45 {
        -magnitude
    } else {
        magnitude
    };
    if digits.len() > 0 && (forall|i: int| 0 <= i < digits.len() ==> is_digit(#[trigger] digits[i]))
        && i64::MIN <= n <= i64::MAX {
        Some(n)
    } else {
        None
    }
}

/// `i` is the position of the first `\n` in `b`.
pub open spec fn is_line_end(b: Seq<u8>, i: int) -> bool {
    &&& 0 <= i < b.len()
    &&& b[i] == 10
    &&& forall|j: int| 0 <= j < i ==> b[j] != 10
}

/// The length of the first line of `b`, its `\n` included.
pub open spec fn line_len(b: Seq<u8>) -> Option<nat> {
    if exists|i: int| is_line_end(b, i) {
        Some((choose|i: int| is_line_end(b, i)) as nat + 1)
    } else {
        None
    }
}

/// A declared bulk length or array count that is neither -1 nor in range.
pub open spec fn bad_size(n: int) -> bool {
    n < -1 || n >= RESP_MAX_SIZE
}

/// What decoding one RESP frame from the front of `b` gives.
pub open spec fn frame(b: Seq<u8>) -> Parsed<Reply>
    decreases b.len(), 0nat, 0nat,
{
    match line_len(b) {
        None => Parsed::Failed(Fault::Incomplete),
        Some(n) => {
            if n < 3 {
                Parsed::Failed(Fault::TooShort(n))
            } else if b[n - 2] != 13 {
                Parsed::Failed(Fault::InvalidCrlf)
            } else {
                let text = b.subrange(1, n - 2);
                if b[0] == 43 {
                    if text == seq![79u8, 75u8] {
                        Parsed::Done(Reply::Okay, n)
                    } else if valid_utf8(text) {
                        Parsed::Done(Reply::Status(decode_utf8(text)), n)
                    } else {
                        Parsed::Failed(Fault::InvalidUtf8)
                    }
                } else if b[0] == 45 {
                    if valid_utf8(text) {
                        Parsed::Failed(Fault::Server(decode_utf8(text), n))
                    } else {
                        Parsed::Failed(Fault::InvalidUtf8)
                    }
                } else if b[0] == 58 {
                    match integer_of(text) {
                        Some(k) => Parsed::Done(Reply::Int(k), n),
                        None => Parsed::Failed(Fault::InvalidInteger),
                    }
                } else if b[0] == 36 {
                    match integer_of(text) {
                        None => Parsed::Failed(Fault::InvalidInteger),
                        Some(k) => {
                            if k == -1 {
                                Parsed::Done(Reply::Nil, n)
                            } else if bad_size(k) {
                                Parsed::Failed(Fault::BulkLength(k))
                            } else if b.len() < n + k + 2 {
                                Parsed::Failed(Fault::Incomplete)
                            } else if b[n + k] != 13 || b[n + k + 1] != 10 {
                                Parsed::Failed(Fault::InvalidCrlf)
                            } else {
                                Parsed::Done(Reply::Bulk(b.subrange(n as int, n + k)), (n + k + 2) as nat)
                            }
                        },
                    }
                } else if b[0] == 42 {
                    match integer_of(text) {
                        None => Parsed::Failed(Fault::InvalidInteger),
                        Some(k) => {
                            if k == -1 {
                                Parsed::Done(Reply::Nil, n)
                            } else if bad_size(k) {
                                Parsed::Failed(Fault::ArrayLength(k))
                            } else {
                                match elements(b.subrange(n as int, b.len() as int), k as nat) {
                                    Parsed::Done(items, m) => Parsed::Done(Reply::Array(items), n + m),
                                    Parsed::Failed(f) => Parsed::Failed(shifted(f, n)),
                                }
                            }
                        },
                    }
                } else {
                    Parsed::Failed(Fault::UnknownPrefix(b[0]))
                }
            }
        },
    }
}

/// What decoding `count` consecutive frames from the front of `b` gives.
pub open spec fn elements(b: Seq<u8>, count: nat) -> Parsed<Seq<Reply>>
    decreases b.len(), 1nat, count,
{
    if count == 0 {
        Parsed::Done(Seq::empty(), 0)
    } else {
        match frame(b) {
            Parsed::Done(first, n) => {
                if n <= b.len() {
                    prepend(seq![first], n, elements(b.subrange(n as int, b.len() as int), (count - 1) as nat))
                } else {
                    Parsed::Failed(Fault::Incomplete)
                }
            },
            Parsed::Failed(f) => Parsed::Failed(f),
        }
    }
}

/// A fault found `n` bytes further on: a server error then spans `n` more bytes.
pub open spec fn shifted(f: Fault, n: nat) -> Fault {
    match f {
        Fault::Server(text, m) => Fault::Server(text, n + m),
        other => other,
    }
}

/// Puts `front`, spanning `n` bytes, before the replies of `rest`.
pub open spec fn prepend(front: Seq<Reply>, n: nat, rest: Parsed<Seq<Reply>>) -> Parsed<Seq<Reply>> {
    match rest {
        Parsed::Done(items, m) => Parsed::Done(front + items, n + m),
        Parsed::Failed(f) => Parsed::Failed(shifted(f, n)),
    }
}

/// Whether two bytes are the RESP line terminator `\r\n`.
pub fn is_crlf(a: u8, b: u8) -> (r: bool)
    ensures
        r == (a == 13 && b == 10),
{
    a == CR && b == LF
}

proof fn lemma_digits_step(d: Seq<u8>, i: int)
    requires
        0 <= i < d.len(),
    ensures
        digits_value(d.subrange(0, i + 1)) == digits_value(d.subrange(0, i)) * 10 + (d[i] - 48) as nat,
{
    assert(d.subrange(0, i + 1).drop_last() =~= d.subrange(0, i));
}

/// Parses a signed decimal `i64`: an optional `+` or `-`, then at least one
/// ASCII digit, and nothing else.
pub fn parse_integer(bytes: &[u8]) -> (r: Result<i64, DecodeError>)
    ensures
        match r {
            Ok(n) => integer_of(bytes@) == Some(n as int),
            Err(e) => integer_of(bytes@) is None && e is InvalidInteger,
        },
{
    let len = bytes.len();
    let signed = len > 0 && (bytes[0] == MINUS || bytes[0] == PLUS);
    let negative = len > 0 && bytes[0] == MINUS;
    let start: usize = if signed { 1 } else { 0 };
    let ghost digits = unsigned_part(bytes@);
    assert(digits =~= bytes@.subrange(start as int, len as int));
    if start >= len {
        return Err(DecodeError::InvalidInteger);
    }
    // Past this bound the magnitude fits no `i64`; it is kept no larger.
    let bound: u128 = 9223372036854775808;
    let mut acc: u128 = 0;
    let mut i: usize = start;
    while i < len
        invariant
            start <= i <= len,
            len == bytes@.len(),
            digits == bytes@.subrange(start as int, len as int),
            digits == unsigned_part(bytes@),
            negative == (len > 0 && bytes@[0] == 45),
            bound == 9223372036854775808,
            forall|j: int| 0 <= j < i - start ==> is_digit(#[trigger] digits[j]),
            digits_value(digits.subrange(0, i - start)) <= bound ==> acc == digits_value(
                digits.subrange(0, i - start),
            ),
            digits_value(digits.subrange(0, i - start)) > bound ==> acc > bound,
            acc <= bound * 10 + 9,
        decreases len - i,
    {
        let c = bytes[i];
        if c < ZERO || c > NINE {
            assert(!is_digit(digits[i - start]));
            return Err(DecodeError::InvalidInteger);
        }
        proof {
            lemma_digits_step(digits, i - start);
        }
        if acc <= bound {
            acc = acc * 10 + (c - ZERO) as u128;
        }
        i = i + 1;
    }
    assert(digits.subrange(0, digits.len() as int) =~= digits);
    if negative {
        if acc <= bound {
            Ok((0 - (acc as i128)) as i64)
        } else {
            Err(DecodeError::InvalidInteger)
        }
    } else {
        if acc < bound {
            Ok(acc as i64)
        } else {
            Err(DecodeError::InvalidInteger)
        }
    }
}

/// The first line of `b` is the `len - pos` bytes ending at `i`.
proof fn lemma_line_len(b: Seq<u8>, i: int)
    requires
        0 <= i < b.len(),
        b[i] == 10,
        forall|j: int| 0 <= j < i ==> b[j] != 10,
    ensures
        line_len(b) == Some((i + 1) as nat),
{
    assert(is_line_end(b, i));
    let k = choose|k: int| is_line_end(b, k);
    assert(is_line_end(b, k));
    if k < i {
        assert(b[k] != 10);
    } else if k > i {
        assert(b[i] != 10);
    }
}

/// Moves a failure found `by` bytes further on back to where decoding began.
fn shift_error(e: DecodeError, by: usize) -> (r: DecodeError)
    requires
        e matches DecodeError::Server(_, m) ==> m + by <= usize::MAX,
    ensures
        r@ == shifted(e@, by as nat),
        r matches DecodeError::Server(_, m) ==> e matches DecodeError::Server(_, k) && m == k + by,
{
    match e {
        DecodeError::Server(text, m) => DecodeError::Server(text, m + by),
        other => other,
    }
}

/// The model of an array value holds the models of its items in order.
proof fn lemma_array_view(items: Vec<Value>)
    ensures
        Value::Array(items)@ == Reply::Array(Seq::new(items@.len() as nat, |j: int| items@[j]@)),
{
    let v = Value::Array(items);
    let s = Seq::new(items@.len() as nat, |j: int| items@[j]@);
    assert(v@ is Array);
    let t = v@->Array_0;
    assert(t.len() == s.len());
    assert forall|j: int| 0 <= j < t.len() implies t[j] == s[j] by {}
    assert(t =~= s);
}

/// Decodes `count` consecutive frames from `start` in `buf`; on success also
/// returns the number of bytes they span.
fn decode_elements(buf: &[u8], start: usize, count: usize) -> (r: Result<(Vec<Value>, usize), DecodeError>)
    requires
        start <= buf@.len(),
    ensures
        match r {
            Ok((items, n)) => start + n <= buf@.len() && elements(
                buf@.subrange(start as int, buf@.len() as int),
                count as nat,
            ) == Parsed::Done(Seq::new(items@.len() as nat, |j: int| items@[j]@), n as nat),
            Err(e) => elements(buf@.subrange(start as int, buf@.len() as int), count as nat)
                == Parsed::<Seq<Reply>>::Failed(e@) && (e matches DecodeError::Server(_, m) ==> start + m
                <= buf@.len()),
        },
    decreases buf@.len() - start, 1nat,
{
    let len = buf.len();
    let mut items: Vec<Value> = Vec::new();
    let mut p: usize = start;
    let mut done: usize = 0;
    while done < count
        invariant
            start <= p <= len,
            len == buf@.len(),
            done <= count,
            items@.len() == done,
            elements(buf@.subrange(start as int, len as int), count as nat) == prepend(
                Seq::new(done as nat, |j: int| items@[j]@),
                (p - start) as nat,
                elements(buf@.subrange(p as int, len as int), (count - done) as nat),
            ),
        decreases count - done,
    {
        let ghost rest = buf@.subrange(p as int, len as int);
        let ghost before = Seq::new(done as nat, |j: int| items@[j]@);
        let (v, m) = match decode_at(buf, p) {
            Ok(x) => x,
            Err(e) => {
                assert(elements(rest, (count - done) as nat) == Parsed::<Seq<Reply>>::Failed(e@));
                return Err(shift_error(e, p - start));
            },
        };
        proof {
            assert(rest.subrange(m as int, rest.len() as int) =~= buf@.subrange(p + m, len as int));
            let tail = elements(buf@.subrange(p + m, len as int), (count - done - 1) as nat);
            assert(elements(rest, (count - done) as nat) == prepend(seq![v@], m as nat, tail));
            match tail {
                Parsed::Done(ws, t) => {
                    assert(before + (seq![v@] + ws) =~= (before + seq![v@]) + ws);
                },
                Parsed::Failed(_) => {},
            }
        }
        items.push(v);
        p = p + m;
        done = done + 1;
        proof {
            assert(Seq::new(done as nat, |j: int| items@[j]@) =~= before + seq![v@]);
        }
    }
    let ghost all = Seq::new(done as nat, |j: int| items@[j]@);
    assert(all + Seq::<Reply>::empty() =~= all);
    Ok((items, p - start))
}

/// Decodes the frame that starts at `pos` in `buf`; on success also returns
/// the number of bytes it spans.
fn decode_at(buf: &[u8], pos: usize) -> (r: Result<(Value, usize), DecodeError>)
    requires
        pos <= buf@.len(),
    ensures
        match r {
            Ok((v, n)) => pos + n <= buf@.len() && frame(buf@.subrange(pos as int, buf@.len() as int))
                == Parsed::Done(v@, n as nat),
            Err(e) => frame(buf@.subrange(pos as int, buf@.len() as int)) == Parsed::<Reply>::Failed(
                e@,
            ) && (e matches DecodeError::Server(_, m) ==> pos + m <= buf@.len()),
        },
    decreases buf@.len() - pos, 0nat,
{
    let len = buf.len();
    let ghost b = buf@.subrange(pos as int, len as int);
    let mut i: usize = pos;
    while i < len
        invariant
            pos <= i <= len,
            len == buf@.len(),
            forall|j: int| pos <= j < i ==> buf@[j] != 10,
        ensures
            pos <= i <= len,
            forall|j: int| pos <= j < i ==> buf@[j] != 10,
            i < len ==> buf@[i as int] == 10,
        decreases len - i,
    {
        if buf[i] == LF {
            break;
        }
        i = i + 1;
    }
    if i == len {
        assert(!exists|j: int| is_line_end(b, j)) by {
            assert forall|j: int| !is_line_end(b, j) by {
                if 0 <= j < b.len() {
                    assert(b[j] == buf@[pos + j]);
                }
            }
        }
        return Err(DecodeError::Incomplete);
    }
    let n: usize = i + 1 - pos;
    proof {
        assert forall|j: int| 0 <= j < i - pos implies b[j] != 10 by {
            assert(b[j] == buf@[pos + j]);
        }
        lemma_line_len(b, i - pos);
    }
    if n < 3 {
        return Err(DecodeError::TooShort(n));
    }
    if !is_crlf(buf[i - 1], buf[i]) {
        return Err(DecodeError::InvalidCrlf);
    }
    let text = slice_subrange(buf, pos + 1, i - 1);
    assert(text@ =~= b.subrange(1, n - 2));
    let prefix = buf[pos];
    if prefix == PLUS {
        // The status text `OK` becomes its own variant.
        if text.len() == 2 && text[0] == 79 && text[1] == 75 {
            assert(text@ =~= seq![79u8, 75u8]);
            Ok((Value::Okay, n))
        } else {
            assert(text@ != seq![79u8, 75u8]);
            match utf8_string(slice_to_vec(text)) {
                Some(s) => Ok((Value::Status(s), n)),
                None => Err(DecodeError::InvalidUtf8),
            }
        }
    } else if prefix == MINUS {
        match utf8_string(slice_to_vec(text)) {
            Some(s) => Err(DecodeError::Server(s, n)),
            None => Err(DecodeError::InvalidUtf8),
        }
    } else if prefix == COLON {
        let k = parse_integer(text)?;
        Ok((Value::Int(k), n))
    } else if prefix == DOLLAR {
        let k = parse_integer(text)?;
        if k == -1 {
            return Ok((Value::Nil, n));
        }
        if k < -1 || k >= RESP_MAX_SIZE {
            return Err(DecodeError::InvalidBulkLength(k));
        }
        let k = k as usize;
        let body = i + 1;
        if len - body < k + 2 {
            return Err(DecodeError::Incomplete);
        }
        if !is_crlf(buf[body + k], buf[body + k + 1]) {
            return Err(DecodeError::InvalidCrlf);
        }
        let payload = slice_to_vec(slice_subrange(buf, body, body + k));
        assert(payload@ =~= b.subrange(n as int, n + k));
        Ok((Value::Bulk(payload), n + k + 2))
    } else if prefix == STAR {
        let k = parse_integer(text)?;
        if k == -1 {
            return Ok((Value::Nil, n));
        }
        if k < -1 || k >= RESP_MAX_SIZE {
            return Err(DecodeError::InvalidArrayLength(k));
        }
        let start = i + 1;
        assert(b.subrange(n as int, b.len() as int) =~= buf@.subrange(start as int, len as int));
        let (items, m) = match decode_elements(buf, start, k as usize) {
            Ok(x) => x,
            Err(e) => return Err(shift_error(e, n)),
        };
        proof {
            lemma_array_view(items);
        }
        Ok((Value::Array(items), n + m))
    } else {
        Err(DecodeError::InvalidPrefix(prefix))
    }
}

/// Decodes one RESP frame from the front of `buf`, with nested frames for an
/// array. On success it also returns the number of bytes that the frame spans;
/// whatever follows them is left alone. A server error frame comes back as
/// `Err(DecodeError::Server(message, span))`, never as a value.
pub fn decode(buf: &[u8]) -> (r: Result<(Value, usize), DecodeError>)
    ensures
        match r {
            Ok((v, n)) => n <= buf@.len() && frame(buf@) == Parsed::Done(v@, n as nat),
            Err(e) => frame(buf@) == Parsed::<Reply>::Failed(e@) && (e matches DecodeError::Server(_, m)
                ==> m <= buf@.len()),
        },
{
    assert(buf@.subrange(0, buf@.len() as int) =~= buf@);
    decode_at(buf, 0)
}

/// A header line on the wire: a type prefix, its text and `\r\n`.
pub open spec fn header(prefix: u8, text: Seq<u8>) -> Seq<u8> {
    seq![prefix] + text + seq![13u8, 10u8]
}

pub open spec fn no_newline(text: Seq<u8>) -> bool {
    forall|i: int| 0 <= i < text.len() ==> text[i] != 10
}

/// The ASCII decimal digits of `n`, without leading zeros.
pub open spec fn ascii_digits(n: nat) -> Seq<u8>
    decreases n,
{
    if n < 10 {
        seq![(48 + n) as u8]
    } else {
        ascii_digits(n / 10).push((48 + n % 10) as u8)
    }
}

/// The ASCII decimal text of `n`, after a `-` if it is negative.
pub open spec fn ascii_decimal(n: int) -> Seq<u8> {
    if n < 0 {
        seq![45u8] + ascii_digits((-n) as nat)
    } else {
        ascii_digits(n as nat)
    }
}

proof fn lemma_ascii_digits(n: nat)
    ensures
        ascii_digits(n).len() > 0,
        forall|i: int| 0 <= i < ascii_digits(n).len() ==> is_digit(#[trigger] ascii_digits(n)[i]),
        digits_value(ascii_digits(n)) == n,
    decreases n,
{
    let d = ascii_digits(n);
    if n >= 10 {
        lemma_ascii_digits(n / 10);
        assert(d.drop_last() =~= ascii_digits(n / 10));
        assert(d.last() == 48 + n % 10);
        assert(n == (n / 10) * 10 + n % 10);
        assert(digits_value(d) == digits_value(d.drop_last()) * 10 + (d.last() - 48) as nat);
        assert(digits_value(d) == (n / 10) * 10 + n % 10);
    } else {
        assert(d.drop_last() =~= Seq::<u8>::empty());
        assert(d.last() == 48 + n);
        assert(digits_value(d.drop_last()) == 0);
    }
}

proof fn lemma_ascii_decimal(n: int)
    requires
        i64::MIN <= n <= i64::MAX,
    ensures
        integer_of(ascii_decimal(n)) == Some(n),
        no_newline(ascii_decimal(n)),
        ascii_decimal(n).len() > 0,
{
    let t = ascii_decimal(n);
    if n < 0 {
        lemma_ascii_digits((-n) as nat);
        assert(unsigned_part(t) =~= ascii_digits((-n) as nat));
        assert forall|i: int| 0 <= i < t.len() implies t[i] != 10 by {
            if i > 0 {
                assert(t[i] == ascii_digits((-n) as nat)[i - 1]);
            }
        }
    } else {
        lemma_ascii_digits(n as nat);
        assert(is_digit(t[0]));
        assert(unsigned_part(t) == t);
        assert forall|i: int| 0 <= i < t.len() implies t[i] != 10 by {
            assert(is_digit(t[i]));
        }
    }
}

/// How the header line of `header(prefix, text)` reads, whatever follows it.
proof fn lemma_header(prefix: u8, text: Seq<u8>, rest: Seq<u8>)
    requires
        prefix != 10,
        no_newline(text),
    ensures
        ({
            let b = header(prefix, text) + rest;
            &&& line_len(b) == Some(text.len() + 3)
            &&& b[0] == prefix
            &&& b[text.len() as int + 1] == 13
            &&& b.subrange(1, text.len() as int + 1) == text
            &&& b.subrange(text.len() as int + 3, b.len() as int) == rest
        }),
{
    let b = header(prefix, text) + rest;
    let i = text.len() as int + 2;
    assert forall|j: int| 0 <= j < i implies b[j] != 10 by {
        if j > 0 && j <= text.len() {
            assert(b[j] == text[j - 1]);
        }
    }
    lemma_line_len(b, i);
    assert(b.subrange(1, text.len() as int + 1) =~= text);
    assert(b.subrange(text.len() as int + 3, b.len() as int) =~= rest);
}

/// A status frame whose text is not `OK` decodes to that text, whatever follows it.
pub proof fn lemma_status_frame(text: Seq<u8>, rest: Seq<u8>)
    requires
        no_newline(text),
        valid_utf8(text),
        text != seq![79u8, 75u8],
    ensures
        frame(header(43, text) + rest) == Parsed::Done(Reply::Status(decode_utf8(text)), text.len() + 3),
{
    lemma_header(43, text, rest);
}

/// `+OK\r\n` decodes to `Okay`, and `Okay` comes from nothing else.
pub proof fn lemma_okay_frame(b: Seq<u8>, rest: Seq<u8>)
    ensures
        frame(header(43, seq![79u8, 75u8]) + rest) == Parsed::Done(Reply::Okay, 5),
        frame(b) matches Parsed::Done(Reply::Okay, n) ==> n == 5 && b.subrange(0, 5) == header(
            43,
            seq![79u8, 75u8],
        ),
{
    lemma_header(43, seq![79u8, 75u8], rest);
    if let Parsed::Done(Reply::Okay, n) = frame(b) {
        let k = line_len(b)->Some_0;
        assert(b.subrange(1, k - 2).len() == 2);
        assert(b[k - 1] == 10) by {
            let i = choose|i: int| is_line_end(b, i);
        }
        assert(b.subrange(0, 5) =~= header(43, seq![79u8, 75u8])) by {
            assert(b.subrange(1, 3)[0] == b[1]);
            assert(b.subrange(1, 3)[1] == b[2]);
        }
    }
}

/// `$-1\r\n` and `*-1\r\n` decode to `Nil`; `Nil` comes only from a bulk or
/// array header whose declared size reads -1.
pub proof fn lemma_nil_frame(b: Seq<u8>, rest: Seq<u8>)
    ensures
        frame(header(36, seq![45u8, 49u8]) + rest) == Parsed::Done(Reply::Nil, 5),
        frame(header(42, seq![45u8, 49u8]) + rest) == Parsed::Done(Reply::Nil, 5),
        frame(b) matches Parsed::Done(Reply::Nil, n) ==> {
            &&& b[0] == 36 || b[0] == 42
            &&& integer_of(b.subrange(1, n - 2)) == Some(-1)
            &&& b.subrange(0, n as int) == header(b[0], b.subrange(1, n - 2))
        },
{
    lemma_ascii_decimal(-1);
    assert(ascii_decimal(-1) =~= seq![45u8, 49u8]);
    lemma_header(36, seq![45u8, 49u8], rest);
    lemma_header(42, seq![45u8, 49u8], rest);
    if let Parsed::Done(Reply::Nil, n) = frame(b) {
        assert(b[n - 1] == 10) by {
            let i = choose|i: int| is_line_end(b, i);
        }
        assert(b.subrange(0, n as int) =~= header(b[0], b.subrange(1, n - 2)));
    }
}

/// `:<n>\r\n` decodes to `Int(n)` for every `i64` n.
pub proof fn lemma_integer_frame(n: i64, rest: Seq<u8>)
    ensures
        frame(header(58, ascii_decimal(n as int)) + rest) == Parsed::Done(
            Reply::Int(n as int),
            ascii_decimal(n as int).len() + 3,
        ),
{
    lemma_ascii_decimal(n as int);
    lemma_header(58, ascii_decimal(n as int), rest);
}

/// A bulk string of any allowed length decodes to exactly its payload when
/// the two bytes after the payload are `\r\n`, and fails otherwise.
pub proof fn lemma_bulk_frame(payload: Seq<u8>, t0: u8, t1: u8, rest: Seq<u8>)
    requires
        payload.len() < RESP_MAX_SIZE,
    ensures
        ({
            let text = ascii_decimal(payload.len() as int);
            let b = header(36, text) + payload + seq![t0, t1] + rest;
            frame(b) == if t0 == 13 && t1 == 10 {
                Parsed::Done(Reply::Bulk(payload), text.len() + 3 + payload.len() + 2)
            } else {
                Parsed::Failed(Fault::InvalidCrlf)
            }
        }),
{
    let text = ascii_decimal(payload.len() as int);
    lemma_ascii_decimal(payload.len() as int);
    let tail = payload + seq![t0, t1] + rest;
    lemma_header(36, text, tail);
    let b = header(36, text) + payload + seq![t0, t1] + rest;
    assert(b =~= header(36, text) + tail);
    let n = text.len() as int + 3;
    assert(b[n + payload.len()] == t0);
    assert(b[n + payload.len() + 1] == t1);
    assert(b.subrange(n, n + payload.len()) =~= payload);
}

/// A declared bulk length or array count out of range is rejected from the
/// header alone, whatever bytes follow it.
pub proof fn lemma_bad_size_frame(k: i64, rest: Seq<u8>)
    requires
        bad_size(k as int),
    ensures
        frame(header(36, ascii_decimal(k as int)) + rest) == Parsed::<Reply>::Failed(Fault::BulkLength(k as int)),
        frame(header(42, ascii_decimal(k as int)) + rest) == Parsed::<Reply>::Failed(Fault::ArrayLength(k as int)),
{
    lemma_ascii_decimal(k as int);
    lemma_header(36, ascii_decimal(k as int), rest);
    lemma_header(42, ascii_decimal(k as int), rest);
}

/// A bulk reply that carries the UTF-8 encoding of a text decodes to those
/// bytes, and text extraction gives the text back.
pub proof fn lemma_bulk_text_round_trip(text: Seq<char>, rest: Seq<u8>)
    requires
        encode_utf8(text).len() < RESP_MAX_SIZE,
    ensures
        ({
            let payload = encode_utf8(text);
            let b = header(36, ascii_decimal(payload.len() as int)) + payload + seq![13u8, 10u8] + rest;
            &&& frame(b) matches Parsed::Done(r, _) && r == Reply::Bulk(payload)
            &&& crate::types::text_of(Reply::Bulk(payload)) == Some(text)
        }),
{
    lemma_bulk_frame(encode_utf8(text), 13, 10, rest);
    encode_utf8_valid_utf8(text);
    encode_utf8_decode_utf8(text);
}

/// A frame that starts with `-` never decodes to a value; with valid text it
/// fails with the server's message, which is also the failure's description.
pub proof fn lemma_error_frame(b: Seq<u8>, text: Seq<u8>, rest: Seq<u8>)
    ensures
        b.len() > 0 && b[0] == 45 ==> frame(b) is Failed,
        no_newline(text) && valid_utf8(text) ==> {
            &&& frame(header(45, text) + rest) == Parsed::<Reply>::Failed(
                Fault::Server(decode_utf8(text), text.len() + 3),
            )
            &&& fault_message(Fault::Server(decode_utf8(text), text.len() + 3)) == decode_utf8(text)
        },
{
    if no_newline(text) {
        lemma_header(45, text, rest);
    }
}

} // verus!
