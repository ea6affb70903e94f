//! The wire encodings of integers and requests, and what decoding them gives back.
use crate::error::{DecodeError, ProtocolError};
use crate::network::{
    digit_value, fits_i64, int_digits, is_digit, parse_bulk_string, parse_command, parse_integer,
    parse_item, parse_size, parse_value, parse_values, COLON, CR, DOLLAR, LF, MINUS, STAR,
};
use crate::value::{Request, Value};
use vstd::prelude::*;

verus! {

/// A multi-bulk request that declares zero elements is refused as having no command,
/// whatever follows its count line.
pub proof fn zero_count_has_no_command(rest: Seq<u8>)
    ensures
        parse_command(seq![STAR, 48u8, CR, LF] + rest) == Err::<(Request, int), DecodeError>(
            DecodeError::Protocol(ProtocolError::NoCommand),
        ),
{
    let s = seq![STAR, 48u8, CR, LF] + rest;
    assert(s[0] == STAR && s[1] == 48u8 && s[2] == CR && s[3] == LF);
    assert(int_digits(s, 2, 0, 1, 20) == Ok::<(int, int), DecodeError>((0, 4)));
    assert(parse_integer(s, 1) == Ok::<(int, int), DecodeError>((0, 4)));
}

/// The decimal digits of `n`, most significant first, without leading zeros.
pub open spec fn decimal(n: nat) -> Seq<u8>
    decreases n,
{
    if n < 10 {
        seq![(48 + n) as u8]
    } else {
        decimal(n / 10).push((48 + n % 10) as u8)
    }
}

/// The decimal text of `n`, with a `-` before it when it is negative.
pub open spec fn signed_decimal(n: int) -> Seq<u8> {
    if n < 0 {
        seq![MINUS] + decimal((-n) as nat)
    } else {
        decimal(n as nat)
    }
}

/// The RESP encoding of an integer: `:<n>\r\n`.
pub open spec fn encode_integer(n: int) -> Seq<u8> {
    seq![COLON] + signed_decimal(n) + seq![CR, LF]
}

/// `10` to the power `k`.
pub open spec fn pow10(k: nat) -> nat
    decreases k,
{
    if k == 0 {
        1
    } else {
        10 * pow10((k - 1) as nat)
    }
}

/// The value that folding the digits `d` into `acc` gives, one `acc * 10 + sign * digit`
/// at a time.
pub open spec fn fold_digits(d: Seq<u8>, acc: int, sign: int) -> int
    decreases d.len(),
{
    if d.len() == 0 {
        acc
    } else {
        fold_digits(d.drop_first(), acc * 10 + sign * digit_value(d[0]), sign)
    }
}

/// Every byte of `d` is an ASCII decimal digit.
pub open spec fn all_digits(d: Seq<u8>) -> bool {
    forall|i: int| 0 <= i < d.len() ==> is_digit(#[trigger] d[i])
}

proof fn lemma_sign(sign: int, x: int)
    requires
        sign == 1 || sign == -1,
    ensures
        sign == 1 ==> sign * x == x,
        sign == -1 ==> sign * x == -x,
{
    if sign == -1 {
        assert(sign * x == -x) by (nonlinear_arith)
            requires
                sign == -1,
        ;
    }
}

proof fn lemma_fold_push(a: Seq<u8>, c: u8, acc: int, sign: int)
    ensures
        fold_digits(a.push(c), acc, sign) == fold_digits(a, acc, sign) * 10 + sign * digit_value(c),
    decreases a.len(),
{
    if a.len() > 0 {
        assert(a.push(c).drop_first() =~= a.drop_first().push(c));
        assert(a.push(c)[0] == a[0]);
        assert(fold_digits(a.push(c), acc, sign) == fold_digits(a.push(c).drop_first(), acc * 10 + sign * digit_value(a[0]), sign));
        assert(fold_digits(a, acc, sign) == fold_digits(a.drop_first(), acc * 10 + sign * digit_value(a[0]), sign));
        lemma_fold_push(a.drop_first(), c, acc * 10 + sign * digit_value(a[0]), sign);
    } else {
        assert(a.push(c).drop_first() =~= Seq::<u8>::empty());
        assert(a.push(c)[0] == c);
        assert(fold_digits(a.push(c), acc, sign) == fold_digits(a.push(c).drop_first(), acc * 10 + sign * digit_value(c), sign));
    }
}

proof fn lemma_decimal(n: nat, sign: int)
    requires
        sign == 1 || sign == -1,
    ensures
        decimal(n).len() >= 1,
        all_digits(decimal(n)),
        fold_digits(decimal(n), 0, sign) == sign * n,
    decreases n,
{
    lemma_sign(sign, n as int);
    if n < 10 {
        assert(decimal(n)[0] == (48 + n) as u8);
        assert(digit_value(decimal(n)[0]) == n);
        assert(decimal(n).drop_first().len() == 0);
        assert(fold_digits(decimal(n), 0, sign) == fold_digits(decimal(n).drop_first(), 0 * 10 + sign * n, sign));
    } else {
        lemma_decimal(n / 10, sign);
        let c = (48 + n % 10) as u8;
        lemma_fold_push(decimal(n / 10), c, 0, sign);
        assert(digit_value(c) == n % 10);
        assert(all_digits(decimal(n))) by {
            assert forall|i: int| 0 <= i < decimal(n).len() implies is_digit(#[trigger] decimal(n)[i]) by {
                if i < decimal(n / 10).len() {
                    assert(decimal(n)[i] == decimal(n / 10)[i]);
                }
            }
        }
        lemma_sign(sign, (n / 10) as int);
        lemma_sign(sign, (n % 10) as int);
        assert((n / 10) * 10 + n % 10 == n);
    }
}

proof fn lemma_decimal_len(n: nat, k: nat)
    requires
        k >= 1,
        n < pow10(k),
    ensures
        decimal(n).len() <= k,
    decreases k,
{
    if n >= 10 {
        if k == 1 {
            assert(pow10(1) == 10) by {
                reveal_with_fuel(pow10, 2);
            }
        } else {
            assert(pow10(k) == 10 * pow10((k - 1) as nat));
            assert(n / 10 < pow10((k - 1) as nat));
            lemma_decimal_len(n / 10, (k - 1) as nat);
        }
    }
}

proof fn lemma_fold_grows(d: Seq<u8>, acc: int, sign: int)
    requires
        sign == 1 || sign == -1,
        all_digits(d),
        sign * acc >= 0,
    ensures
        sign * fold_digits(d, acc, sign) >= sign * acc,
        d.len() > 0 ==> sign * fold_digits(d, acc, sign) >= sign * (acc * 10 + sign * digit_value(d[0])),
    decreases d.len(),
{
    if d.len() > 0 {
        let next = acc * 10 + sign * digit_value(d[0]);
        assert(is_digit(d[0]));
        lemma_sign(sign, acc);
        lemma_sign(sign, next);
        lemma_sign(sign, digit_value(d[0]));
        lemma_sign(sign, fold_digits(d, acc, sign));
        lemma_sign(sign, acc * 10 + sign * digit_value(d[0]));
        assert(fold_digits(d, acc, sign) == fold_digits(d.drop_first(), next, sign));
        assert(all_digits(d.drop_first())) by {
            assert forall|i: int| 0 <= i < d.drop_first().len() implies is_digit(#[trigger] d.drop_first()[i]) by {
                assert(d.drop_first()[i] == d[i + 1]);
            }
        }
        lemma_fold_grows(d.drop_first(), next, sign);
    }
}

/// The digits `d` followed by `\r\n` stand at `p` in `s`.
pub open spec fn digits_at(s: Seq<u8>, p: int, d: Seq<u8>) -> bool {
    &&& 0 <= p
    &&& p + d.len() + 2 <= s.len()
    &&& s.subrange(p, p + d.len()) == d
    &&& s[p + d.len()] == CR
    &&& s[p + d.len() + 1] == LF
    &&& all_digits(d)
}

proof fn lemma_int_digits_run(s: Seq<u8>, p: int, d: Seq<u8>, acc: int, sign: int, k: nat)
    requires
        digits_at(s, p, d),
        sign == 1 || sign == -1,
        sign * acc >= 0,
        fits_i64(acc),
    ensures
        int_digits(s, p, acc, sign, k) matches Err(DecodeError::Protocol(_))
            || int_digits(s, p, acc, sign, k) == Ok::<(int, int), DecodeError>(
            (fold_digits(d, acc, sign), p + d.len() + 2),
        ),
        int_digits(s, p, acc, sign, k) is Ok ==> fits_i64(fold_digits(d, acc, sign)),
        fits_i64(fold_digits(d, acc, sign)) && d.len() < k ==> int_digits(s, p, acc, sign, k)
            == Ok::<(int, int), DecodeError>((fold_digits(d, acc, sign), p + d.len() + 2)),
    decreases k,
{
    if k > 0 && d.len() > 0 {
        assert(s[p] == s.subrange(p, p + d.len())[0]);
        assert(is_digit(d[0]));
        let next = acc * 10 + sign * digit_value(d[0]);
        let rest = d.drop_first();
        assert(digits_at(s, p + 1, rest)) by {
            assert(s.subrange(p + 1, p + 1 + rest.len()) =~= rest) by {
                assert forall|i: int| 0 <= i < rest.len() implies s.subrange(p + 1, p + 1 + rest.len())[i] == rest[i] by {
                    assert(s.subrange(p, p + d.len())[i + 1] == d[i + 1]);
                }
            }
            assert forall|i: int| 0 <= i < rest.len() implies is_digit(#[trigger] rest[i]) by {
                assert(rest[i] == d[i + 1]);
            }
        }
        lemma_fold_grows(d, acc, sign);
        lemma_sign(sign, acc);
        lemma_sign(sign, next);
        lemma_sign(sign, digit_value(d[0]));
        lemma_sign(sign, fold_digits(d, acc, sign));
        assert(fold_digits(d, acc, sign) == fold_digits(rest, next, sign));
        if fits_i64(acc * 10) && fits_i64(next) {
            lemma_int_digits_run(s, p + 1, rest, next, sign, (k - 1) as nat);
        }
        if fits_i64(fold_digits(d, acc, sign)) {
            if sign == 1 {
                assert(0 <= acc * 10 <= next <= fold_digits(d, acc, sign));
            } else {
                assert(fold_digits(d, acc, sign) <= next <= acc * 10 <= 0);
            }
        }
    }
}

/// Decoding the encoding of an integer gives the integer back, and the whole encoding is
/// consumed, when it lies in the signed 64-bit range; one outside that range is refused
/// with a protocol error. What follows the encoding does not matter.
pub proof fn integer_round_trip(n: int, rest: Seq<u8>)
    ensures
        fits_i64(n) ==> parse_integer(encode_integer(n) + rest, 1) == Ok::<(int, int), DecodeError>(
            (n, encode_integer(n).len() as int),
        ),
        !fits_i64(n) ==> parse_integer(encode_integer(n) + rest, 1) matches Err(DecodeError::Protocol(_)),
        fits_i64(n) ==> parse_value(encode_integer(n) + rest, 0) == Ok::<(Value, int), DecodeError>(
            (Value::Integer(n), encode_integer(n).len() as int),
        ),
        !fits_i64(n) ==> parse_value(encode_integer(n) + rest, 0) matches Err(DecodeError::Protocol(_)),
{
    assert((encode_integer(n) + rest)[0] == COLON);
    let s = encode_integer(n) + rest;
    let m: nat = if n < 0 { (-n) as nat } else { n as nat };
    let sign: int = if n < 0 { -1 } else { 1 };
    let d = decimal(m);
    lemma_decimal(m, sign);
    lemma_sign(sign, m as int);
    assert(sign * m == n);
    if fits_i64(n) {
        assert(m < pow10(19)) by {
            reveal_with_fuel(pow10, 20);
        }
        lemma_decimal_len(m, 19);
    }
    if n < 0 {
        assert(encode_integer(n) =~= seq![COLON, MINUS] + d + seq![CR, LF]);
        assert(s[1] == MINUS);
        assert(digits_at(s, 2, d)) by {
            assert(s.subrange(2, 2 + d.len() as int) =~= d);
        }
        lemma_int_digits_run(s, 2, d, 0, sign, 20);
    } else {
        assert(encode_integer(n) =~= seq![COLON] + d + seq![CR, LF]);
        let tail = d.drop_first();
        assert(s[1] == d[0]);
        assert(is_digit(d[0]));
        assert(d[0] != MINUS);
        assert(digits_at(s, 2, tail)) by {
            assert(s.subrange(2, 2 + tail.len() as int) =~= tail);
            assert forall|i: int| 0 <= i < tail.len() implies is_digit(#[trigger] tail[i]) by {
                assert(tail[i] == d[i + 1]);
            }
        }
        assert(fold_digits(d, 0, 1) == fold_digits(tail, digit_value(d[0]), 1));
        lemma_int_digits_run(s, 2, tail, digit_value(d[0]), sign, 20);
    }
}

proof fn lemma_fold_neg(d: Seq<u8>, acc: int)
    ensures
        fold_digits(d, acc, -1) == -fold_digits(d, -acc, 1),
    decreases d.len(),
{
    if d.len() > 0 {
        lemma_sign(-1, digit_value(d[0]));
        lemma_sign(1, digit_value(d[0]));
        lemma_fold_neg(d.drop_first(), acc * 10 + -1 * digit_value(d[0]));
        assert(-(acc * 10 + -1 * digit_value(d[0])) == -acc * 10 + 1 * digit_value(d[0]));
    }
}

/// Any run of decimal digits, with or without a leading `-` and with any number of leading
/// zeros, whose value lies outside the signed 64-bit range is refused with a protocol
/// error, never read as a wrapped value.
pub proof fn integer_out_of_range(negative: bool, d: Seq<u8>, rest: Seq<u8>)
    requires
        d.len() >= 1,
        all_digits(d),
        !fits_i64(if negative { -fold_digits(d, 0, 1) } else { fold_digits(d, 0, 1) }),
    ensures
        ({
            let text = if negative { seq![MINUS] + d } else { d };
            parse_integer(seq![COLON] + text + seq![CR, LF] + rest, 1) matches Err(DecodeError::Protocol(_))
        }),
{
    let text = if negative { seq![MINUS] + d } else { d };
    let s = seq![COLON] + text + seq![CR, LF] + rest;
    assert(is_digit(d[0]));
    if negative {
        assert(s[1] == MINUS);
        assert(digits_at(s, 2, d)) by {
            assert(s.subrange(2, 2 + d.len() as int) =~= d);
        }
        lemma_fold_neg(d, 0);
        lemma_int_digits_run(s, 2, d, 0, -1, 20);
    } else {
        let tail = d.drop_first();
        assert(s[1] == d[0]);
        assert(digits_at(s, 2, tail)) by {
            assert(s.subrange(2, 2 + tail.len() as int) =~= tail);
            assert forall|i: int| 0 <= i < tail.len() implies is_digit(#[trigger] tail[i]) by {
                assert(tail[i] == d[i + 1]);
            }
        }
        assert(fold_digits(d, 0, 1) == fold_digits(tail, digit_value(d[0]), 1));
        lemma_int_digits_run(s, 2, tail, digit_value(d[0]), 1, 20);
    }
}

/// A length that a machine can hold and RESP can state.
pub open spec fn size_fits(n: int) -> bool {
    0 <= n <= i64::MAX && n <= usize::MAX
}

/// The RESP encoding of a bulk string: `$<len>\r\n<bytes>\r\n`.
pub open spec fn encode_bulk(b: Seq<u8>) -> Seq<u8> {
    seq![DOLLAR] + decimal(b.len()) + seq![CR, LF] + b + seq![CR, LF]
}

proof fn lemma_split(s: Seq<u8>, p: int, a: Seq<u8>, b: Seq<u8>)
    requires
        0 <= p,
        p + a.len() + b.len() <= s.len(),
        s.subrange(p, p + a.len() + b.len()) == a + b,
    ensures
        s.subrange(p, p + a.len()) == a,
        s.subrange(p + a.len(), p + a.len() + b.len()) == b,
{
    assert forall|i: int| 0 <= i < a.len() implies s.subrange(p, p + a.len())[i] == a[i] by {
        assert(s.subrange(p, p + a.len() + b.len())[i] == (a + b)[i]);
    }
    assert forall|i: int| 0 <= i < b.len() implies s.subrange(p + a.len(), p + a.len() + b.len())[i] == b[i] by {
        assert(s.subrange(p, p + a.len() + b.len())[a.len() + i] == (a + b)[a.len() + i]);
        assert(s.subrange(p, p + a.len() + b.len())[a.len() + i] == s[p + a.len() + i]);
        assert(s.subrange(p + a.len(), p + a.len() + b.len())[i] == s[p + a.len() + i]);
    }
    assert(s.subrange(p, p + a.len()) =~= a);
    assert(s.subrange(p + a.len(), p + a.len() + b.len()) =~= b);
}

/// A size written in decimal and ended by `\r\n` at `p` decodes to itself.
proof fn lemma_parse_natural(s: Seq<u8>, p: int, n: nat)
    requires
        n <= i64::MAX,
        0 <= p,
        p + decimal(n).len() + 2 <= s.len(),
        s.subrange(p, p + decimal(n).len() + 2) == decimal(n) + seq![CR, LF],
    ensures
        parse_integer(s, p) == Ok::<(int, int), DecodeError>((n as int, p + decimal(n).len() + 2)),
        n <= usize::MAX ==> parse_size(s, p) == Ok::<(int, int), DecodeError>((n as int, p + decimal(n).len() + 2)),
{
    let d = decimal(n);
    lemma_decimal(n, 1);
    assert(n < pow10(19)) by {
        reveal_with_fuel(pow10, 20);
    }
    lemma_decimal_len(n, 19);
    lemma_split(s, p, d, seq![CR, LF]);
    assert(s[p] == s.subrange(p, p + d.len())[0]);
    assert(s[p + d.len()] == s.subrange(p + d.len(), p + d.len() + 2)[0]);
    assert(s[p + d.len() + 1] == s.subrange(p + d.len(), p + d.len() + 2)[1]);
    let tail = d.drop_first();
    assert(is_digit(d[0]));
    assert(digits_at(s, p + 1, tail)) by {
        assert(s.subrange(p + 1, p + 1 + tail.len()) =~= tail) by {
            assert forall|i: int| 0 <= i < tail.len() implies s.subrange(p + 1, p + 1 + tail.len())[i] == tail[i] by {
                assert(s.subrange(p, p + d.len())[i + 1] == d[i + 1]);
            }
        }
        assert forall|i: int| 0 <= i < tail.len() implies is_digit(#[trigger] tail[i]) by {
            assert(tail[i] == d[i + 1]);
        }
    }
    assert(fold_digits(d, 0, 1) == fold_digits(tail, digit_value(d[0]), 1));
    lemma_int_digits_run(s, p + 1, tail, digit_value(d[0]), 1, 20);
}

proof fn lemma_parse_bulk(s: Seq<u8>, p: int, b: Seq<u8>)
    requires
        size_fits(b.len() as int),
        0 <= p,
        p + encode_bulk(b).len() <= s.len(),
        s.subrange(p, p + encode_bulk(b).len()) == encode_bulk(b),
    ensures
        parse_bulk_string(s, p + 1) == Ok::<(Seq<u8>, int), DecodeError>((b, p + encode_bulk(b).len())),
        parse_value(s, p) == Ok::<(Value, int), DecodeError>((Value::String(b), p + encode_bulk(b).len())),
{
    let d = decimal(b.len());
    let crlf = seq![CR, LF];
    let head = seq![DOLLAR];
    assert(encode_bulk(b) =~= head + ((d + crlf) + (b + crlf)));
    lemma_split(s, p, head, (d + crlf) + (b + crlf));
    lemma_split(s, p + 1, d + crlf, b + crlf);
    let q: int = p + 1 + d.len() + 2;
    lemma_split(s, q, b, crlf);
    lemma_parse_natural(s, p + 1, b.len());
    assert(s[p] == s.subrange(p, p + 1)[0]);
    assert(s[q + b.len()] == s.subrange(q + b.len(), q + b.len() + 2)[0]);
    assert(s[q + b.len() + 1] == s.subrange(q + b.len(), q + b.len() + 2)[1]);
    assert(parse_item(s, p) == Ok::<(crate::network::Item, int), DecodeError>(
        (crate::network::Item::Complete(Value::String(b)), p + encode_bulk(b).len()),
    ));
}

/// A value that RESP can carry in a request: a bulk string, an integer in the signed
/// 64-bit range, or an array of such values, with every length one a machine can hold.
pub open spec fn sendable(v: Value) -> bool
    decreases v,
{
    match v {
        Value::String(b) => size_fits(b.len() as int),
        Value::Integer(n) => fits_i64(n),
        Value::Array(vs) => size_fits(vs.len() as int) && all_sendable(vs),
        _ => false,
    }
}

/// Every value of `vs` is one that RESP can carry in a request.
pub open spec fn all_sendable(vs: Seq<Value>) -> bool
    decreases vs,
{
    if vs.len() == 0 {
        true
    } else {
        sendable(vs[0]) && all_sendable(vs.subrange(1, vs.len() as int))
    }
}

/// The RESP encoding of a value: a bulk string, an integer, or an array as `*<count>\r\n`
/// followed by its elements.
pub open spec fn encode_value(v: Value) -> Seq<u8>
    decreases v,
{
    match v {
        Value::String(b) => encode_bulk(b),
        Value::Integer(n) => encode_integer(n),
        Value::Array(vs) => seq![STAR] + decimal(vs.len()) + seq![CR, LF] + encode_values(vs),
        _ => Seq::empty(),
    }
}

/// The values `vs`, encoded one after the other.
pub open spec fn encode_values(vs: Seq<Value>) -> Seq<u8>
    decreases vs,
{
    if vs.len() == 0 {
        Seq::empty()
    } else {
        encode_value(vs[0]) + encode_values(vs.subrange(1, vs.len() as int))
    }
}

/// The multi-bulk encoding of a request: `*<count>\r\n`, the command's name as a bulk
/// string, then each argument.
pub open spec fn encode_request(command: Seq<u8>, args: Seq<Value>) -> Seq<u8> {
    seq![STAR] + decimal(args.len() + 1) + seq![CR, LF] + encode_bulk(command) + encode_values(args)
}

proof fn lemma_parse_signed(s: Seq<u8>, p: int, n: int)
    requires
        fits_i64(n),
        0 <= p,
        p + signed_decimal(n).len() + 2 <= s.len(),
        s.subrange(p, p + signed_decimal(n).len() + 2) == signed_decimal(n) + seq![CR, LF],
    ensures
        parse_integer(s, p) == Ok::<(int, int), DecodeError>((n, p + signed_decimal(n).len() + 2)),
{
    if n >= 0 {
        lemma_parse_natural(s, p, n as nat);
    } else {
        let m = (-n) as nat;
        let d = decimal(m);
        lemma_decimal(m, -1);
        lemma_sign(-1, m as int);
        assert(m < pow10(19)) by {
            reveal_with_fuel(pow10, 20);
        }
        lemma_decimal_len(m, 19);
        assert(signed_decimal(n) + seq![CR, LF] =~= seq![MINUS] + (d + seq![CR, LF]));
        lemma_split(s, p, seq![MINUS], d + seq![CR, LF]);
        lemma_split(s, p + 1, d, seq![CR, LF]);
        assert(s[p] == s.subrange(p, p + 1)[0]);
        assert(s[p + 1 + d.len()] == s.subrange(p + 1 + d.len(), p + 1 + d.len() + 2)[0]);
        assert(s[p + 1 + d.len() + 1] == s.subrange(p + 1 + d.len(), p + 1 + d.len() + 2)[1]);
        assert(digits_at(s, p + 1, d));
        lemma_int_digits_run(s, p + 1, d, 0, -1, 20);
    }
}

proof fn lemma_value_trip(v: Value, s: Seq<u8>, p: int)
    requires
        sendable(v),
        0 <= p,
        p + encode_value(v).len() <= s.len(),
        s.subrange(p, p + encode_value(v).len()) == encode_value(v),
    ensures
        encode_value(v).len() > 0,
        parse_value(s, p) == Ok::<(Value, int), DecodeError>((v, p + encode_value(v).len())),
    decreases v,
{
    match v {
        Value::String(b) => {
            lemma_parse_bulk(s, p, b);
        },
        Value::Integer(n) => {
            let e = encode_integer(n);
            assert(e =~= seq![COLON] + (signed_decimal(n) + seq![CR, LF]));
            lemma_split(s, p, seq![COLON], signed_decimal(n) + seq![CR, LF]);
            assert(s[p] == s.subrange(p, p + 1)[0]);
            lemma_parse_signed(s, p + 1, n);
        },
        Value::Array(vs) => {
            let d = decimal(vs.len());
            let crlf = seq![CR, LF];
            assert(encode_value(v) =~= seq![STAR] + ((d + crlf) + encode_values(vs)));
            lemma_split(s, p, seq![STAR], (d + crlf) + encode_values(vs));
            lemma_split(s, p + 1, d + crlf, encode_values(vs));
            lemma_parse_natural(s, p + 1, vs.len());
            assert(s[p] == s.subrange(p, p + 1)[0]);
            let q = p + 1 + d.len() + 2;
            lemma_values_trip(vs, s, q);
        },
        _ => {},
    }
}

proof fn lemma_values_trip(vs: Seq<Value>, s: Seq<u8>, p: int)
    requires
        all_sendable(vs),
        0 <= p,
        p + encode_values(vs).len() <= s.len(),
        s.subrange(p, p + encode_values(vs).len()) == encode_values(vs),
    ensures
        parse_values(s, p, vs.len()) == Ok::<(Seq<Value>, int), DecodeError>((vs, p + encode_values(vs).len())),
    decreases vs,
{
    if vs.len() > 0 {
        let rest = vs.subrange(1, vs.len() as int);
        lemma_split(s, p, encode_value(vs[0]), encode_values(rest));
        lemma_value_trip(vs[0], s, p);
        lemma_values_trip(rest, s, p + encode_value(vs[0]).len());
        assert(seq![vs[0]] + rest =~= vs);
    } else {
        assert(vs =~= Seq::<Value>::empty());
    }
}

/// Decoding the multi-bulk encoding of a request gives back its command and arguments
/// exactly, in order, and consumes the whole encoding, whatever follows it. The arguments
/// may be bulk strings, integers, or arrays of them nested to any depth.
pub proof fn request_round_trip(command: Seq<u8>, args: Seq<Value>, rest: Seq<u8>)
    requires
        size_fits(command.len() as int),
        size_fits(args.len() + 1int),
        all_sendable(args),
    ensures
        parse_command(encode_request(command, args) + rest) == Ok::<(Request, int), DecodeError>(
            (Request { command, args }, encode_request(command, args).len() as int),
        ),
{
    let e = encode_request(command, args);
    let s = e + rest;
    let n = (args.len() + 1) as nat;
    let d = decimal(n);
    let crlf = seq![CR, LF];
    let bulks = encode_bulk(command) + encode_values(args);
    assert(e =~= seq![STAR] + ((d + crlf) + bulks));
    assert(s.subrange(0, e.len() as int) =~= e);
    lemma_split(s, 0, seq![STAR], (d + crlf) + bulks);
    lemma_split(s, 1, d + crlf, bulks);
    let q: int = 1 + d.len() as int + 2;
    lemma_split(s, q, encode_bulk(command), encode_values(args));
    lemma_parse_natural(s, 1, n);
    lemma_parse_bulk(s, q, command);
    lemma_values_trip(args, s, q + encode_bulk(command).len() as int);
    assert(s[0] == STAR);
    assert(s[q] == s.subrange(q, q + encode_bulk(command).len() as int)[0]);
}

/// Decoding the encoding of a value gives the value back and consumes the whole encoding,
/// whatever follows it; arrays nested to any depth included.
pub proof fn value_round_trip(v: Value, rest: Seq<u8>)
    requires
        sendable(v),
    ensures
        parse_value(encode_value(v) + rest, 0) == Ok::<(Value, int), DecodeError>((v, encode_value(v).len() as int)),
{
    let s = encode_value(v) + rest;
    assert(s.subrange(0, encode_value(v).len() as int) =~= encode_value(v));
    lemma_value_trip(v, s, 0);
}

} // verus!
