use crate::error::{DecodeError, ProtocolError};
use crate::value::{
    string_bytes, values_view, ArgsVec, RedisRequest, RedisValue, Request, StringVec, Value,
};
use vstd::prelude::*;

verus! {

pub const CR: u8 = 13;
pub const LF: u8 = 10;
pub const SPACE: u8 = 32;
pub const MINUS: u8 = 45;
pub const ZERO: u8 = 48;
pub const NINE: u8 = 57;
pub const STAR: u8 = 42;
pub const DOLLAR: u8 = 36;
pub const COLON: u8 = 58;

/// `v` lies in the range of a signed 64-bit integer.
pub open spec fn fits_i64(v: int) -> bool {
    i64::MIN <= v <= i64::MAX
}

/// `c` is an ASCII decimal digit.
pub open spec fn is_digit(c: u8) -> bool {
    48 <= c <= 57
}

/// The value of the ASCII digit `c`.
pub open spec fn digit_value(c: u8) -> int {
    c - 48
}

/// A protocol error of the given kind.
pub open spec fn protocol<T>(e: ProtocolError) -> Result<T, DecodeError> {
    Err(DecodeError::Protocol(e))
}

/// The digits of an integer after its first byte: at most `k` more bytes are read,
/// each digit folded in with `value * 10 + sign * digit`, and a `\r\n` ends it.
pub open spec fn int_digits(s: Seq<u8>, p: int, value: int, sign: int, k: nat) -> Result<
    (int, int),
    DecodeError,
>
    decreases k,
{
    if k == 0 {
        protocol(ProtocolError::InvalidInteger)
    } else if p < 0 || p >= s.len() {
        Err(DecodeError::ConnectionClosed)
    } else if s[p] == 13u8 {
        if p + 1 >= s.len() {
            Err(DecodeError::ConnectionClosed)
        } else if s[p + 1] == 10u8 {
            Ok((value, p + 2))
        } else {
            protocol(ProtocolError::UnexpectedLineEnding)
        }
    } else if !fits_i64(value * 10) {
        protocol(ProtocolError::TooLargeInteger)
    } else if !is_digit(s[p]) {
        protocol(ProtocolError::NonDigit)
    } else if !fits_i64(value * 10 + sign * digit_value(s[p])) {
        protocol(ProtocolError::TooLargeInteger)
    } else {
        int_digits(s, p + 1, value * 10 + sign * digit_value(s[p]), sign, (k - 1) as nat)
    }
}

/// A signed integer starting at `p`: a `-` or a first digit, then the rest of its digits
/// and `\r\n`. Any other first byte starts the value at zero.
pub open spec fn parse_integer(s: Seq<u8>, p: int) -> Result<(int, int), DecodeError> {
    if p < 0 || p >= s.len() {
        Err(DecodeError::ConnectionClosed)
    } else {
        let c = s[p];
        let sign: int = if c == 45u8 { -1 } else { 1 };
        let value: int = if is_digit(c) { digit_value(c) } else { 0 };
        int_digits(s, p + 1, value, sign, 20)
    }
}

/// A size: an integer that must not be negative, nor exceed the address space.
pub open spec fn parse_size(s: Seq<u8>, p: int) -> Result<(int, int), DecodeError> {
    match parse_integer(s, p) {
        Ok((v, q)) => if v < 0 {
            protocol(ProtocolError::NegativeSize)
        } else if v > usize::MAX {
            protocol(ProtocolError::TooLargeInteger)
        } else {
            Ok((v, q))
        },
        Err(e) => Err(e),
    }
}

/// The result of an executable integer read, as the model states it.
pub open spec fn int_model(r: Result<(i64, usize), DecodeError>) -> Result<(int, int), DecodeError> {
    match r {
        Ok((v, q)) => Ok((v as int, q as int)),
        Err(e) => Err(e),
    }
}

/// The result of an executable size read, as the model states it.
pub open spec fn size_model(r: Result<(usize, usize), DecodeError>) -> Result<(int, int), DecodeError> {
    match r {
        Ok((v, q)) => Ok((v as int, q as int)),
        Err(e) => Err(e),
    }
}

/// Reads a signed decimal integer that starts at `pos` and ends with `\r\n`.
pub fn read_integer(input: &[u8], pos: usize) -> (r: Result<(i64, usize), DecodeError>)
    ensures
        int_model(r) == parse_integer(input@, pos as int),
        r is Ok ==> pos < r->Ok_0.1 <= input@.len(),
{
    if pos >= input.len() {
        return Err(DecodeError::ConnectionClosed);
    }
    let c = input[pos];
    let mut sign: i64 = 1;
    let mut value: i64 = 0;
    if c == MINUS {
        sign = -1;
    } else if ZERO <= c && c <= NINE {
        value = (c - ZERO) as i64;
    }
    let ghost start_value = value as int;
    let mut p: usize = pos + 1;
    let mut k: usize = 0;
    while k < 20
        invariant
            pos < p <= input@.len(),
            k <= 20,
            sign == 1 || sign == -1,
            sign == (if c == 45u8 { -1int } else { 1int }),
            parse_integer(input@, pos as int) == int_digits(input@, p as int, value as int, sign as int, (20 - k) as nat),
        decreases 20 - k,
    {
        if p >= input.len() {
            return Err(DecodeError::ConnectionClosed);
        }
        let c = input[p];
        if c == CR {
            if p + 1 >= input.len() {
                return Err(DecodeError::ConnectionClosed);
            }
            if input[p + 1] == LF {
                return Ok((value, p + 2));
            }
            return Err(DecodeError::Protocol(ProtocolError::UnexpectedLineEnding));
        }
        let m = match value.checked_mul(10) {
            Some(x) => x,
            None => return Err(DecodeError::Protocol(ProtocolError::TooLargeInteger)),
        };
        if ZERO <= c && c <= NINE {
            let d: i64 = (c - ZERO) as i64;
            value = match m.checked_add(sign * d) {
                Some(x) => x,
                None => return Err(DecodeError::Protocol(ProtocolError::TooLargeInteger)),
            };
        } else {
            return Err(DecodeError::Protocol(ProtocolError::NonDigit));
        }
        p = p + 1;
        k = k + 1;
    }
    Err(DecodeError::Protocol(ProtocolError::InvalidInteger))
}

/// Reads an integer that gives a size, which must not be negative.
pub fn read_usize(input: &[u8], pos: usize) -> (r: Result<(usize, usize), DecodeError>)
    ensures
        size_model(r) == parse_size(input@, pos as int),
        r is Ok ==> pos < r->Ok_0.1 <= input@.len(),
{
    match read_integer(input, pos) {
        Ok((v, q)) => if v < 0 {
            Err(DecodeError::Protocol(ProtocolError::NegativeSize))
        } else if v as u64 > usize::MAX as u64 {
            Err(DecodeError::Protocol(ProtocolError::TooLargeInteger))
        } else {
            Ok((v as usize, q))
        },
        Err(e) => Err(e),
    }
}

/// The byte `t` at `p`.
pub open spec fn parse_tag(s: Seq<u8>, p: int, t: u8) -> Result<int, DecodeError> {
    if p < 0 || p >= s.len() {
        Err(DecodeError::ConnectionClosed)
    } else if s[p] != t {
        protocol(ProtocolError::UnexpectedByte { expected: t, found: s[p] })
    } else {
        Ok(p + 1)
    }
}

/// A line ending `\r\n` at `p`.
pub open spec fn parse_crlf(s: Seq<u8>, p: int) -> Result<int, DecodeError> {
    match parse_tag(s, p, CR) {
        Ok(q) => parse_tag(s, q, LF),
        Err(e) => Err(e),
    }
}

/// The body of a bulk string, after its `$`: a size, that many bytes, and `\r\n`.
pub open spec fn parse_bulk_string(s: Seq<u8>, p: int) -> Result<(Seq<u8>, int), DecodeError> {
    match parse_size(s, p) {
        Ok((n, q)) => if q + n > s.len() {
            Err(DecodeError::ConnectionClosed)
        } else {
            match parse_crlf(s, q + n) {
                Ok(r) => Ok((s.subrange(q, q + n), r)),
                Err(e) => Err(e),
            }
        },
        Err(e) => Err(e),
    }
}

/// What one tagged element starts: a whole value, or an array of the given size.
pub ghost enum Item {
    Complete(Value),
    ArrayStart(nat),
}

/// One tagged element: `$` a bulk string, `:` an integer, `*` the header of an array.
pub open spec fn parse_item(s: Seq<u8>, p: int) -> Result<(Item, int), DecodeError> {
    if p < 0 || p >= s.len() {
        Err(DecodeError::ConnectionClosed)
    } else if s[p] == DOLLAR {
        match parse_bulk_string(s, p + 1) {
            Ok((b, q)) => Ok((Item::Complete(Value::String(b)), q)),
            Err(e) => Err(e),
        }
    } else if s[p] == COLON {
        match parse_integer(s, p + 1) {
            Ok((v, q)) => Ok((Item::Complete(Value::Integer(v)), q)),
            Err(e) => Err(e),
        }
    } else if s[p] == STAR {
        match parse_size(s, p + 1) {
            Ok((n, q)) => Ok((Item::ArrayStart(n as nat), q)),
            Err(e) => Err(e),
        }
    } else {
        protocol(ProtocolError::InvalidArgument)
    }
}

/// One whole value at `p`, arrays with all their elements.
pub open spec fn parse_value(s: Seq<u8>, p: int) -> Result<(Value, int), DecodeError>
    decreases s.len() - p, 0int,
{
    if p < 0 || p >= s.len() {
        Err(DecodeError::ConnectionClosed)
    } else {
        match parse_item(s, p) {
            Ok((Item::Complete(v), q)) => Ok((v, q)),
            Ok((Item::ArrayStart(n), q)) => if p < q <= s.len() {
                match parse_values(s, q, n) {
                    Ok((vs, r)) => Ok((Value::Array(vs), r)),
                    Err(e) => Err(e),
                }
            } else {
                Err(DecodeError::ConnectionClosed)
            },
            Err(e) => Err(e),
        }
    }
}

/// `n` whole values, one after the other, from `p`.
pub open spec fn parse_values(s: Seq<u8>, p: int, n: nat) -> Result<(Seq<Value>, int), DecodeError>
    decreases s.len() - p, 1int,
{
    if n == 0 {
        Ok((Seq::empty(), p))
    } else if p < 0 || p >= s.len() {
        Err(DecodeError::ConnectionClosed)
    } else {
        match parse_value(s, p) {
            Ok((v, q)) => if p < q <= s.len() {
                match parse_values(s, q, (n - 1) as nat) {
                    Ok((vs, r)) => Ok((seq![v] + vs, r)),
                    Err(e) => Err(e),
                }
            } else {
                Err(DecodeError::ConnectionClosed)
            },
            Err(e) => Err(e),
        }
    }
}

/// The result of an executable read that gives only a position, as the model states it.
pub open spec fn pos_model(r: Result<usize, DecodeError>) -> Result<int, DecodeError> {
    match r {
        Ok(q) => Ok(q as int),
        Err(e) => Err(e),
    }
}

/// The result of an executable bulk-string read, as the model states it.
pub open spec fn bytes_model(r: Result<(StringVec, usize), DecodeError>) -> Result<(Seq<u8>, int), DecodeError> {
    match r {
        Ok((b, q)) => Ok((string_bytes(b), q as int)),
        Err(e) => Err(e),
    }
}

/// Reads the byte `expected` at `pos`.
pub fn read_tag(input: &[u8], pos: usize, expected: u8) -> (r: Result<usize, DecodeError>)
    ensures
        pos_model(r) == parse_tag(input@, pos as int, expected),
        r is Ok ==> r->Ok_0 == pos + 1 <= input@.len(),
{
    if pos >= input.len() {
        return Err(DecodeError::ConnectionClosed);
    }
    let tag = input[pos];
    if tag != expected {
        return Err(DecodeError::Protocol(ProtocolError::UnexpectedByte { expected, found: tag }));
    }
    Ok(pos + 1)
}

/// Reads `\r\n` at `pos`.
pub fn read_crlf(input: &[u8], pos: usize) -> (r: Result<usize, DecodeError>)
    ensures
        pos_model(r) == parse_crlf(input@, pos as int),
        r is Ok ==> r->Ok_0 == pos + 2 <= input@.len(),
{
    let q = read_tag(input, pos, CR)?;
    read_tag(input, q, LF)
}

/// Reads the body of a bulk string that follows its `$` tag.
pub fn read_bulk_string(input: &[u8], pos: usize) -> (r: Result<(StringVec, usize), DecodeError>)
    ensures
        bytes_model(r) == parse_bulk_string(input@, pos as int),
        r is Ok ==> pos < r->Ok_0.1 <= input@.len(),
{
    let (length, q) = read_usize(input, pos)?;
    if length > input.len() - q {
        return Err(DecodeError::ConnectionClosed);
    }
    let mut buf: Vec<u8> = Vec::new();
    let end = q + length;
    let mut i: usize = q;
    while i < end
        invariant
            end == q + length,
            q <= i <= end <= input@.len(),
            buf@ == input@.subrange(q as int, i as int),
        decreases end - i,
    {
        buf.push(input[i]);
        i = i + 1;
        assert(buf@ =~= input@.subrange(q as int, i as int));
    }
    let r = read_crlf(input, end)?;
    Ok((StringVec::from_vec(buf), r))
}

/// The rest of a decode with a stack of arrays in progress, each given by its size and
/// the elements read so far: the innermost is finished from `p`, then put into the one
/// around it, until the outermost is finished.
pub open spec fn complete(s: Seq<u8>, p: int, frames: Seq<(nat, Seq<Value>)>) -> Result<
    (Seq<Value>, int),
    DecodeError,
>
    decreases frames.len(),
{
    if frames.len() == 0 {
        Ok((Seq::empty(), p))
    } else {
        let top = frames.last();
        match parse_values(s, p, (top.0 - top.1.len()) as nat) {
            Ok((vs, q)) => {
                let done = top.1 + vs;
                if frames.len() == 1 {
                    Ok((done, q))
                } else {
                    let rest = frames.drop_last();
                    let below = rest.last();
                    complete(s, q, rest.update(rest.len() - 1, (below.0, below.1.push(Value::Array(done)))))
                }
            },
            Err(e) => Err(e),
        }
    }
}

pub(crate) proof fn lemma_int_digits_pos(s: Seq<u8>, p: int, value: int, sign: int, k: nat)
    ensures
        int_digits(s, p, value, sign, k) is Ok ==> p + 2 <= int_digits(s, p, value, sign, k)->Ok_0.1 <= s.len(),
    decreases k,
{
    if k > 0 && 0 <= p < s.len() && s[p] != CR {
        lemma_int_digits_pos(s, p + 1, value * 10 + sign * digit_value(s[p]), sign, (k - 1) as nat);
    }
}

pub(crate) proof fn lemma_item_pos(s: Seq<u8>, p: int)
    ensures
        parse_item(s, p) is Ok ==> p < parse_item(s, p)->Ok_0.1 <= s.len(),
{
    if 0 <= p < s.len() && s[p] == COLON {
        let c = s[p + 1];
        lemma_int_digits_pos(s, p + 2, if is_digit(c) { digit_value(c) } else { 0 }, if c == MINUS { -1 } else { 1 }, 20);
    }
    if 0 <= p < s.len() && (s[p] == DOLLAR || s[p] == STAR) {
        let c = s[p + 1];
        lemma_int_digits_pos(s, p + 2, if is_digit(c) { digit_value(c) } else { 0 }, if c == MINUS { -1 } else { 1 }, 20);
    }
}

pub(crate) proof fn lemma_value_pos(s: Seq<u8>, p: int)
    ensures
        parse_value(s, p) is Ok ==> p < parse_value(s, p)->Ok_0.1 <= s.len(),
    decreases s.len() - p, 0int,
{
    if 0 <= p < s.len() {
        lemma_item_pos(s, p);
        match parse_item(s, p) {
            Ok((Item::ArrayStart(n), q)) => {
                if p < q <= s.len() {
                    lemma_values_pos(s, q, n);
                }
            },
            _ => {},
        }
    }
}

pub(crate) proof fn lemma_values_pos(s: Seq<u8>, p: int, n: nat)
    requires
        0 <= p <= s.len(),
    ensures
        parse_values(s, p, n) is Ok ==> p <= parse_values(s, p, n)->Ok_0.1 <= s.len(),
    decreases s.len() - p, 1int,
{
    if n > 0 && p < s.len() {
        match parse_value(s, p) {
            Ok((v, q)) => {
                if p < q <= s.len() {
                    lemma_values_pos(s, q, (n - 1) as nat);
                }
            },
            _ => {},
        }
    }
}

proof fn lemma_complete_value(s: Seq<u8>, p: int, frames: Seq<(nat, Seq<Value>)>, v: Value, q: int)
    requires
        frames.len() >= 1,
        frames.last().1.len() < frames.last().0,
        0 <= p < q <= s.len(),
        parse_value(s, p) == Ok::<(Value, int), DecodeError>((v, q)),
    ensures
        complete(s, p, frames) == complete(
            s,
            q,
            frames.update(frames.len() - 1, (frames.last().0, frames.last().1.push(v))),
        ),
{
    let top = frames.last();
    let k = (top.0 - top.1.len()) as nat;
    let nf = frames.update(frames.len() - 1, (top.0, top.1.push(v)));
    assert(nf.drop_last() =~= frames.drop_last());
    assert(nf.last() == (top.0, top.1.push(v)));
    match parse_values(s, q, (k - 1) as nat) {
        Ok((vs, r)) => {
            assert(top.1 + (seq![v] + vs) =~= top.1.push(v) + vs);
        },
        Err(e) => {},
    }
}

proof fn lemma_complete_open(s: Seq<u8>, p: int, frames: Seq<(nat, Seq<Value>)>, m: nat, q: int)
    requires
        frames.len() >= 1,
        frames.last().1.len() < frames.last().0,
        0 <= p < q <= s.len(),
        parse_item(s, p) == Ok::<(Item, int), DecodeError>((Item::ArrayStart(m), q)),
    ensures
        complete(s, p, frames) == complete(s, q, frames.push((m, Seq::<Value>::empty()))),
{
    let nf = frames.push((m, Seq::<Value>::empty()));
    assert(nf.drop_last() =~= frames);
    assert(nf.last() == (m, Seq::<Value>::empty()));
    lemma_values_pos(s, q, m);
    match parse_values(s, q, m) {
        Ok((vs, r)) => {
            assert(Seq::<Value>::empty() + vs =~= vs);
            lemma_complete_value(s, p, frames, Value::Array(vs), r);
        },
        Err(e) => {},
    }
}

proof fn lemma_complete_close(s: Seq<u8>, p: int, frames: Seq<(nat, Seq<Value>)>)
    requires
        frames.len() >= 2,
        frames.last().1.len() == frames.last().0,
    ensures
        complete(s, p, frames) == ({
            let rest = frames.drop_last();
            let below = rest.last();
            complete(s, p, rest.update(rest.len() - 1, (below.0, below.1.push(Value::Array(frames.last().1)))))
        }),
{
    assert(frames.last().1 + Seq::<Value>::empty() =~= frames.last().1);
}

proof fn lemma_complete_err(s: Seq<u8>, p: int, frames: Seq<(nat, Seq<Value>)>, e: DecodeError)
    requires
        frames.len() >= 1,
        frames.last().1.len() < frames.last().0,
        0 <= p,
        parse_item(s, p) == Err::<(Item, int), DecodeError>(e),
    ensures
        complete(s, p, frames) == Err::<(Seq<Value>, int), DecodeError>(e),
{
    let k = (frames.last().0 - frames.last().1.len()) as nat;
    if p < s.len() {
        assert(parse_value(s, p) == Err::<(Value, int), DecodeError>(e));
    }
    assert(parse_values(s, p, k) == Err::<(Seq<Value>, int), DecodeError>(e));
}

/// An array in progress: its declared size and the elements read so far.
struct PartialArray {
    length: usize,
    items: Vec<RedisValue>,
}

/// What one tagged element started.
enum ReadValue {
    Complete(RedisValue),
    Partial(PartialArray),
}

spec fn item_model(r: Result<(ReadValue, usize), DecodeError>) -> Result<(Item, int), DecodeError> {
    match r {
        Ok((ReadValue::Complete(v), q)) => Ok((Item::Complete(v.view()), q as int)),
        Ok((ReadValue::Partial(a), q)) => Ok((Item::ArrayStart(a.length as nat), q as int)),
        Err(e) => Err(e),
    }
}

spec fn frames_view(st: Seq<PartialArray>) -> Seq<(nat, Seq<Value>)> {
    Seq::new(st.len(), |i: int| (st[i].length as nat, values_view(st[i].items@)))
}

/// The result of an executable read of several values, as the model states it.
pub open spec fn values_model(r: Result<(Vec<RedisValue>, usize), DecodeError>) -> Result<
    (Seq<Value>, int),
    DecodeError,
> {
    match r {
        Ok((v, q)) => Ok((values_view(v@), q as int)),
        Err(e) => Err(e),
    }
}

/// Reads one tagged element: a whole bulk string or integer, or the header of an array.
fn read_redis_value(input: &[u8], pos: usize) -> (r: Result<(ReadValue, usize), DecodeError>)
    ensures
        item_model(r) == parse_item(input@, pos as int),
        r is Ok ==> pos < r->Ok_0.1 <= input@.len(),
        r matches Ok((ReadValue::Partial(a), _)) ==> a.items@.len() == 0,
{
    if pos >= input.len() {
        return Err(DecodeError::ConnectionClosed);
    }
    let tag = input[pos];
    if tag == DOLLAR {
        let (b, q) = read_bulk_string(input, pos + 1)?;
        Ok((ReadValue::Complete(RedisValue::String(b)), q))
    } else if tag == COLON {
        let (v, q) = read_integer(input, pos + 1)?;
        Ok((ReadValue::Complete(RedisValue::Integer(v)), q))
    } else if tag == STAR {
        let (length, q) = read_usize(input, pos + 1)?;
        Ok((ReadValue::Partial(PartialArray { length, items: Vec::new() }), q))
    } else {
        Err(DecodeError::Protocol(ProtocolError::InvalidArgument))
    }
}

proof fn lemma_frames_push(st: Seq<PartialArray>, a: PartialArray)
    ensures
        frames_view(st.push(a)) == frames_view(st).push((a.length as nat, values_view(a.items@))),
{
    assert(frames_view(st.push(a)) =~= frames_view(st).push((a.length as nat, values_view(a.items@))));
}

proof fn lemma_frames_drop(st: Seq<PartialArray>)
    requires
        st.len() >= 1,
    ensures
        frames_view(st.drop_last()) == frames_view(st).drop_last(),
        frames_view(st).last() == (st.last().length as nat, values_view(st.last().items@)),
{
    assert(frames_view(st.drop_last()) =~= frames_view(st).drop_last());
}

proof fn lemma_values_push(items: Seq<RedisValue>, v: RedisValue)
    ensures
        values_view(items.push(v)) == values_view(items).push(v.view()),
{
    assert(values_view(items.push(v)) =~= values_view(items).push(v.view()));
}

/// Reads `length` whole values from `pos`, nested arrays included, with a stack of
/// arrays in progress in place of recursion.
fn read_bulk_array(input: &[u8], pos: usize, length: usize) -> (r: Result<
    (Vec<RedisValue>, usize),
    DecodeError,
>)
    requires
        pos <= input@.len(),
    ensures
        values_model(r) == parse_values(input@, pos as int, length as nat),
        r is Ok ==> pos <= r->Ok_0.1 <= input@.len(),
{
    let ghost s = input@;
    let mut stack: Vec<PartialArray> = Vec::new();
    stack.push(PartialArray { length, items: Vec::new() });
    let mut p: usize = pos;
    proof {
        let fr = frames_view(stack@);
        assert(values_view(stack@[0].items@) =~= Seq::<Value>::empty());
        assert(fr =~= seq![(length as nat, Seq::<Value>::empty())]);
        match parse_values(s, pos as int, length as nat) {
            Ok((vs, q)) => {
                assert(Seq::<Value>::empty() + vs =~= vs);
            },
            Err(e) => {},
        }
        lemma_values_pos(s, pos as int, length as nat);
    }
    loop
        invariant
            stack@.len() >= 1,
            pos <= p <= s.len(),
            s == input@,
            forall|i: int| 0 <= i < stack@.len() ==> #[trigger] stack@[i].items@.len() <= stack@[i].length,
            forall|i: int| 0 <= i < stack@.len() - 1 ==> #[trigger] stack@[i].items@.len() < stack@[i].length,
            complete(s, p as int, frames_view(stack@)) == parse_values(s, pos as int, length as nat),
            parse_values(s, pos as int, length as nat) is Ok ==> pos <= parse_values(s, pos as int, length as nat)->Ok_0.1 <= s.len(),
        decreases s.len() - p, stack@.len(),
    {
        let ghost st0 = stack@;
        proof {
            lemma_frames_drop(st0);
        }
        let top = stack.pop().unwrap();
        if top.items.len() == top.length {
            if stack.len() == 0 {
                proof {
                    assert(values_view(top.items@) + Seq::<Value>::empty() =~= values_view(top.items@));
                }
                return Ok((top.items, p));
            }
            let ghost st1 = stack@;
            proof {
                lemma_frames_drop(st1);
                lemma_complete_close(s, p as int, frames_view(st0));
            }
            let below = stack.pop().unwrap();
            let mut items = below.items;
            let ghost old_items = items@;
            let finished = top.items;
            proof {
                RedisValue::lemma_array_view(finished);
            }
            items.push(RedisValue::Array(finished));
            proof {
                lemma_values_push(old_items, RedisValue::Array(finished));
            }
            let a = PartialArray { length: below.length, items };
            stack.push(a);
            proof {
                lemma_frames_push(st1.drop_last(), a);
                assert(frames_view(stack@) =~= frames_view(st1).update(st1.len() - 1, (below.length as nat, values_view(old_items).push(Value::Array(values_view(finished@))))));
            }
        } else {
            match read_redis_value(input, p) {
                Err(e) => {
                    proof {
                        lemma_complete_err(s, p as int, frames_view(st0), e);
                    }
                    return Err(e);
                },
                Ok((ReadValue::Complete(v), q)) => {
                    proof {
                        lemma_complete_value(s, p as int, frames_view(st0), v.view(), q as int);
                    }
                    let mut items = top.items;
                    let ghost old_items = items@;
                    items.push(v);
                    proof {
                        lemma_values_push(old_items, v);
                    }
                    let a = PartialArray { length: top.length, items };
                    stack.push(a);
                    proof {
                        lemma_frames_push(st0.drop_last(), a);
                        assert(frames_view(stack@) =~= frames_view(st0).update(st0.len() - 1, (top.length as nat, values_view(old_items).push(v.view()))));
                    }
                    p = q;
                },
                Ok((ReadValue::Partial(a), q)) => {
                    proof {
                        lemma_complete_open(s, p as int, frames_view(st0), a.length as nat, q as int);
                        assert(values_view(a.items@) =~= Seq::<Value>::empty());
                    }
                    stack.push(top);
                    proof {
                        lemma_frames_push(st0.drop_last(), top);
                        assert(st0.drop_last().push(top) =~= st0);
                    }
                    let ghost st2 = stack@;
                    stack.push(a);
                    proof {
                        lemma_frames_push(st2, a);
                    }
                    p = q;
                },
            }
        }
    }
}

/// A multi-bulk command after its `*`: the element count, which must be at least one, then the
/// command's name as a bulk string, then the other elements as its arguments.
pub open spec fn parse_bulk_command(s: Seq<u8>, p: int) -> Result<(Request, int), DecodeError> {
    match parse_integer(s, p) {
        Ok((n, q)) => if n < 1 {
            protocol(ProtocolError::NoCommand)
        } else if n > usize::MAX {
            protocol(ProtocolError::TooLargeInteger)
        } else {
            match parse_tag(s, q, DOLLAR) {
                Ok(q2) => match parse_bulk_string(s, q2) {
                    Ok((command, q3)) => match parse_values(s, q3, (n - 1) as nat) {
                        Ok((args, r)) => Ok((Request { command, args }, r)),
                        Err(e) => Err(e),
                    },
                    Err(e) => Err(e),
                },
                Err(e) => Err(e),
            }
        },
        Err(e) => Err(e),
    }
}

/// One token of an inline command from `p`: the bytes up to a space (more tokens
/// follow) or up to `\r\n` (the last token). A linefeed alone is refused.
pub open spec fn inline_token(s: Seq<u8>, p: int) -> Result<(Seq<u8>, bool, int), DecodeError>
    decreases s.len() - p,
{
    if p < 0 || p >= s.len() {
        Err(DecodeError::ConnectionClosed)
    } else if s[p] == SPACE {
        Ok((Seq::empty(), false, p + 1))
    } else if s[p] == LF {
        protocol(ProtocolError::UnexpectedLinefeed)
    } else if s[p] == CR {
        match parse_tag(s, p + 1, LF) {
            Ok(q) => Ok((Seq::empty(), true, q)),
            Err(e) => Err(e),
        }
    } else {
        match inline_token(s, p + 1) {
            Ok((t, last, q)) => Ok((seq![s[p]] + t, last, q)),
            Err(e) => Err(e),
        }
    }
}

/// The argument tokens of an inline command from `p`, up to and including the last one.
pub open spec fn inline_args(s: Seq<u8>, p: int) -> Result<(Seq<Value>, int), DecodeError>
    decreases s.len() - p,
{
    match inline_token(s, p) {
        Ok((t, last, q)) => if last {
            Ok((seq![Value::String(t)], q))
        } else if p < q <= s.len() {
            match inline_args(s, q) {
                Ok((args, r)) => Ok((seq![Value::String(t)] + args, r)),
                Err(e) => Err(e),
            }
        } else {
            Err(DecodeError::ConnectionClosed)
        },
        Err(e) => Err(e),
    }
}

/// An inline command whose first byte `first` was read already and whose rest starts at
/// `p`: the first token, after `first`, names the command; the others are its arguments.
pub open spec fn parse_inline_command(s: Seq<u8>, p: int, first: u8) -> Result<(Request, int), DecodeError> {
    if first == CR || first == LF {
        protocol(ProtocolError::EmptyCommand)
    } else {
        match inline_token(s, p) {
            Ok((t, last, q)) => {
                let command = seq![first] + t;
                if last {
                    Ok((Request { command, args: Seq::empty() }, q))
                } else {
                    match inline_args(s, q) {
                        Ok((args, r)) => Ok((Request { command, args }, r)),
                        Err(e) => Err(e),
                    }
                }
            },
            Err(e) => Err(e),
        }
    }
}

/// A whole request at the start of `s`: multi-bulk if it starts with `*`, inline otherwise.
pub open spec fn parse_command(s: Seq<u8>) -> Result<(Request, int), DecodeError> {
    if s.len() == 0 {
        Err(DecodeError::ConnectionClosed)
    } else if s[0] == STAR {
        parse_bulk_command(s, 1)
    } else {
        parse_inline_command(s, 1, s[0])
    }
}

/// The result of an executable request read, as the model states it.
pub open spec fn request_model(r: Result<(RedisRequest, usize), DecodeError>) -> Result<
    (Request, int),
    DecodeError,
> {
    match r {
        Ok((req, q)) => Ok((req.view(), q as int)),
        Err(e) => Err(e),
    }
}

/// Reads a multi-bulk command whose `*` was read already.
fn read_bulk_command(input: &[u8], pos: usize) -> (r: Result<(RedisRequest, usize), DecodeError>)
    ensures
        request_model(r) == parse_bulk_command(input@, pos as int),
        r is Ok ==> pos < r->Ok_0.1 <= input@.len(),
{
    let (count, q) = read_integer(input, pos)?;
    if count < 1 {
        return Err(DecodeError::Protocol(ProtocolError::NoCommand));
    }
    if count as u64 > usize::MAX as u64 {
        return Err(DecodeError::Protocol(ProtocolError::TooLargeInteger));
    }
    let num_args = count as usize;
    let q2 = read_tag(input, q, DOLLAR)?;
    let (command, q3) = read_bulk_string(input, q2)?;
    let (args, r) = read_bulk_array(input, q3, num_args - 1)?;
    Ok((RedisRequest { command, args: ArgsVec::from_vec(args) }, r))
}

/// One token of an inline command, and whether it ended the line.
struct InlineString {
    text: Vec<u8>,
    last: bool,
}

spec fn token_model(r: Result<(InlineString, usize), DecodeError>) -> Result<(Seq<u8>, bool, int), DecodeError> {
    match r {
        Ok((t, q)) => Ok((t.text@, t.last, q as int)),
        Err(e) => Err(e),
    }
}

spec fn prepend_token(b: Seq<u8>, r: Result<(Seq<u8>, bool, int), DecodeError>) -> Result<
    (Seq<u8>, bool, int),
    DecodeError,
> {
    match r {
        Ok((t, last, q)) => Ok((b + t, last, q)),
        Err(e) => Err(e),
    }
}

spec fn prepend_args(a: Seq<Value>, r: Result<(Seq<Value>, int), DecodeError>) -> Result<
    (Seq<Value>, int),
    DecodeError,
> {
    match r {
        Ok((args, q)) => Ok((a + args, q)),
        Err(e) => Err(e),
    }
}

/// Reads one token of an inline command.
fn read_inline_string(input: &[u8], pos: usize) -> (r: Result<(InlineString, usize), DecodeError>)
    ensures
        token_model(r) == inline_token(input@, pos as int),
        r is Ok ==> pos < r->Ok_0.1 <= input@.len(),
{
    let ghost s = input@;
    if pos >= input.len() {
        return Err(DecodeError::ConnectionClosed);
    }
    let mut buf: Vec<u8> = Vec::new();
    let mut p: usize = pos;
    proof {
        assert(s.subrange(pos as int, pos as int) =~= Seq::<u8>::empty());
        match inline_token(s, pos as int) {
            Ok((t, l, q)) => {
                assert(Seq::<u8>::empty() + t =~= t);
            },
            Err(e) => {},
        }
    }
    loop
        invariant
            s == input@,
            pos <= p,
            buf@ == s.subrange(pos as int, p as int),
            p <= s.len(),
            inline_token(s, pos as int) == prepend_token(buf@, inline_token(s, p as int)),
        decreases s.len() - p,
    {
        if p >= input.len() {
            return Err(DecodeError::ConnectionClosed);
        }
        let c = input[p];
        if c == SPACE {
            proof {
                assert(buf@ + Seq::<u8>::empty() =~= buf@);
            }
            return Ok((InlineString { text: buf, last: false }, p + 1));
        } else if c == LF {
            return Err(DecodeError::Protocol(ProtocolError::UnexpectedLinefeed));
        } else if c == CR {
            let q = read_tag(input, p + 1, LF)?;
            proof {
                assert(buf@ + Seq::<u8>::empty() =~= buf@);
            }
            return Ok((InlineString { text: buf, last: true }, q));
        } else {
            proof {
                match inline_token(s, p + 1) {
                    Ok((t, l, q)) => {
                        assert(buf@ + (seq![c] + t) =~= buf@.push(c) + t);
                    },
                    Err(e) => {},
                }
            }
            buf.push(c);
            p = p + 1;
            proof {
                assert(buf@ =~= s.subrange(pos as int, p as int));
            }
        }
    }
}

/// Reads an inline command whose first byte, `first_byte`, was read already.
fn read_inline_command(input: &[u8], pos: usize, first_byte: u8) -> (r: Result<(RedisRequest, usize), DecodeError>)
    ensures
        request_model(r) == parse_inline_command(input@, pos as int, first_byte),
        r is Ok ==> pos < r->Ok_0.1 <= input@.len(),
{
    let ghost s = input@;
    if first_byte == CR || first_byte == LF {
        return Err(DecodeError::Protocol(ProtocolError::EmptyCommand));
    }
    let (token, q) = read_inline_string(input, pos)?;
    let mut command = token.text;
    let ghost text = command@;
    command.insert(0, first_byte);
    proof {
        assert(command@ =~= seq![first_byte] + text);
    }
    let mut args: Vec<RedisValue> = Vec::new();
    if token.last {
        proof {
            assert(values_view(args@) =~= Seq::<Value>::empty());
        }
        return Ok((RedisRequest { command: StringVec::from_vec(command), args: ArgsVec::from_vec(args) }, q));
    }
    let mut p: usize = q;
    proof {
        assert(values_view(args@) =~= Seq::<Value>::empty());
        match inline_args(s, q as int) {
            Ok((a, r)) => {
                assert(Seq::<Value>::empty() + a =~= a);
            },
            Err(e) => {},
        }
    }
    loop
        invariant
            s == input@,
            pos < q <= p <= s.len(),
            command@ == seq![first_byte] + text,
            first_byte != CR && first_byte != LF,
            inline_token(s, pos as int) == Ok::<(Seq<u8>, bool, int), DecodeError>((text, false, q as int)),
            inline_args(s, q as int) == prepend_args(values_view(args@), inline_args(s, p as int)),
        decreases s.len() - p,
    {
        let (arg, r) = match read_inline_string(input, p) {
            Ok(x) => x,
            Err(e) => {
                proof {
                    assert(inline_args(s, p as int) == Err::<(Seq<Value>, int), DecodeError>(e));
                }
                return Err(e);
            },
        };
        let ghost before = args@;
        let ghost t = arg.text@;
        let last = arg.last;
        let value = RedisValue::String(StringVec::from_vec(arg.text));
        args.push(value);
        proof {
            lemma_values_push(before, value);
        }
        if last {
            proof {
                assert(values_view(before) + seq![Value::String(t)] =~= values_view(args@));
            }
            return Ok((RedisRequest { command: StringVec::from_vec(command), args: ArgsVec::from_vec(args) }, r));
        }
        proof {
            match inline_args(s, r as int) {
                Ok((a, r2)) => {
                    assert(values_view(before) + (seq![Value::String(t)] + a) =~= values_view(args@) + a);
                },
                Err(e) => {},
            }
        }
        p = r;
    }
}

/// Decodes one request from the start of `input`, and tells how many bytes it took.
/// `ConnectionClosed` means that `input` ends before the request does.
pub fn read_command(input: &[u8]) -> (r: Result<(RedisRequest, usize), DecodeError>)
    ensures
        request_model(r) == parse_command(input@),
        r is Ok ==> 0 < r->Ok_0.1 <= input@.len(),
{
    if input.len() == 0 {
        return Err(DecodeError::ConnectionClosed);
    }
    let tag = input[0];
    if tag == STAR {
        read_bulk_command(input, 1)
    } else {
        read_inline_command(input, 1, tag)
    }
}

/// The result of an executable value read, as the model states it.
pub open spec fn value_model(r: Result<(RedisValue, usize), DecodeError>) -> Result<(Value, int), DecodeError> {
    match r {
        Ok((v, q)) => Ok((v.view(), q as int)),
        Err(e) => Err(e),
    }
}

/// Decodes one whole value from the start of `input` (a bulk string, an integer, or an
/// array of them, nested to any depth), and tells how many bytes it took.
pub fn read_value(input: &[u8]) -> (r: Result<(RedisValue, usize), DecodeError>)
    ensures
        value_model(r) == parse_value(input@, 0),
        r is Ok ==> 0 < r->Ok_0.1 <= input@.len(),
{
    let ghost s = input@;
    proof {
        lemma_value_pos(s, 0);
        match parse_value(s, 0) {
            Ok((v, q1)) => {
                assert(parse_values(s, q1, 0) == Ok::<(Seq<Value>, int), DecodeError>((Seq::empty(), q1)));
                assert(seq![v] + Seq::<Value>::empty() =~= seq![v]);
                assert(parse_values(s, 0, 1) == Ok::<(Seq<Value>, int), DecodeError>((seq![v], q1)));
            },
            Err(e) => {
                assert(parse_values(s, 0, 1) == Err::<(Seq<Value>, int), DecodeError>(e));
            },
        }
    }
    let (mut items, q) = read_bulk_array(input, 0, 1)?;
    assert(items@.len() == 1);
    let ghost before = items@;
    let v = items.pop().unwrap();
    assert(values_view(before)[0] == v.view());
    Ok((v, q))
}

pub(crate) proof fn lemma_integer_pos(s: Seq<u8>, p: int)
    ensures
        parse_integer(s, p) is Ok ==> p < parse_integer(s, p)->Ok_0.1 <= s.len(),
        parse_size(s, p) is Ok ==> p < parse_size(s, p)->Ok_0.1 <= s.len(),
{
    if 0 <= p < s.len() {
        let c = s[p];
        lemma_int_digits_pos(s, p + 1, if is_digit(c) { digit_value(c) } else { 0 }, if c == MINUS { -1 } else { 1 }, 20);
    }
}

pub(crate) proof fn lemma_bulk_string_pos(s: Seq<u8>, p: int)
    ensures
        parse_bulk_string(s, p) is Ok ==> p < parse_bulk_string(s, p)->Ok_0.1 <= s.len(),
{
    lemma_integer_pos(s, p);
}

pub(crate) proof fn lemma_token_pos(s: Seq<u8>, p: int)
    ensures
        inline_token(s, p) is Ok ==> p < inline_token(s, p)->Ok_0.2 <= s.len(),
    decreases s.len() - p,
{
    if 0 <= p < s.len() && s[p] != SPACE && s[p] != LF && s[p] != CR {
        lemma_token_pos(s, p + 1);
    }
}

pub(crate) proof fn lemma_args_pos(s: Seq<u8>, p: int)
    ensures
        inline_args(s, p) is Ok ==> p < inline_args(s, p)->Ok_0.1 <= s.len(),
    decreases s.len() - p,
{
    lemma_token_pos(s, p);
    if inline_token(s, p) is Ok {
        let (t, last, q) = inline_token(s, p)->Ok_0;
        if !last && p < q <= s.len() {
            lemma_args_pos(s, q);
        }
    }
}

pub(crate) proof fn lemma_command_pos(s: Seq<u8>)
    ensures
        parse_command(s) is Ok ==> 0 < parse_command(s)->Ok_0.1 <= s.len(),
{
    if s.len() > 0 {
        if s[0] == STAR {
            lemma_integer_pos(s, 1);
            if parse_integer(s, 1) is Ok {
                let (n, q) = parse_integer(s, 1)->Ok_0;
                lemma_bulk_string_pos(s, q + 1);
                if parse_bulk_string(s, q + 1) is Ok {
                    let (c, q3) = parse_bulk_string(s, q + 1)->Ok_0;
                    lemma_values_pos(s, q3, (n - 1) as nat);
                }
            }
        } else {
            lemma_token_pos(s, 1);
            if inline_token(s, 1) is Ok {
                lemma_args_pos(s, inline_token(s, 1)->Ok_0.2);
            }
        }
    }
}

} // verus!
