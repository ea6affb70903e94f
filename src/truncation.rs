//! What decoding gives when the bytes stop early: every cut inside a request that decodes
//! is reported as a closed connection, and a cut after its end changes nothing.
use crate::error::DecodeError;
use crate::network::{
    inline_args, inline_token, int_digits, parse_bulk_command, parse_bulk_string, parse_command,
    parse_crlf, parse_inline_command, parse_integer, parse_item, parse_size, parse_tag,
    parse_value, parse_values, Item, CR, LF, STAR,
};
use crate::value::Request;
use vstd::prelude::*;

verus! {

/// What a decode that gave `full` on all the bytes gives on the first `m` of them: the
/// same where it ended within them, and a closed connection where it did not.
pub open spec fn cut<T>(full: Result<(T, int), DecodeError>, m: int) -> Result<(T, int), DecodeError> {
    match full {
        Ok((v, q)) => if m >= q {
            full
        } else {
            Err(DecodeError::ConnectionClosed)
        },
        Err(e) => Err(e),
    }
}

/// `cut` for a decode that gives only a position.
pub open spec fn cut_pos(full: Result<int, DecodeError>, m: int) -> Result<int, DecodeError> {
    match full {
        Ok(q) => if m >= q {
            full
        } else {
            Err(DecodeError::ConnectionClosed)
        },
        Err(e) => Err(e),
    }
}

/// `cut` for an inline token.
pub open spec fn cut_token(full: Result<(Seq<u8>, bool, int), DecodeError>, m: int) -> Result<
    (Seq<u8>, bool, int),
    DecodeError,
> {
    match full {
        Ok((t, last, q)) => if m >= q {
            full
        } else {
            Err(DecodeError::ConnectionClosed)
        },
        Err(e) => Err(e),
    }
}

proof fn lemma_cut_digits(s: Seq<u8>, p: int, value: int, sign: int, k: nat, m: int)
    requires
        0 <= p <= m <= s.len(),
        int_digits(s, p, value, sign, k) is Ok,
    ensures
        int_digits(s.take(m), p, value, sign, k) == cut(int_digits(s, p, value, sign, k), m),
    decreases k,
{
    let t = s.take(m);
    crate::network::lemma_int_digits_pos(s, p, value, sign, k);
    if p < m {
        assert(t[p] == s[p]);
    }
    if p + 1 < m {
        assert(t[p + 1] == s[p + 1]);
    }
    if k > 0 && p < m && s[p] != CR {
        let next = value * 10 + sign * crate::network::digit_value(s[p]);
        if int_digits(s, p + 1, next, sign, (k - 1) as nat) is Ok {
            lemma_cut_digits(s, p + 1, next, sign, (k - 1) as nat, m);
        }
    }
}

proof fn lemma_cut_integer(s: Seq<u8>, p: int, m: int)
    requires
        0 <= p <= m <= s.len(),
        parse_integer(s, p) is Ok,
    ensures
        parse_integer(s.take(m), p) == cut(parse_integer(s, p), m),
        parse_size(s, p) is Ok ==> parse_size(s.take(m), p) == cut(parse_size(s, p), m),
{
    crate::network::lemma_integer_pos(s, p);
    if p < m {
        assert(s.take(m)[p] == s[p]);
        let c = s[p];
        lemma_cut_digits(
            s,
            p + 1,
            if crate::network::is_digit(c) { crate::network::digit_value(c) } else { 0 },
            if c == crate::network::MINUS { -1 } else { 1 },
            20,
            m,
        );
    }
}

proof fn lemma_cut_tag(s: Seq<u8>, p: int, b: u8, m: int)
    requires
        0 <= p <= m <= s.len(),
        parse_tag(s, p, b) is Ok,
    ensures
        parse_tag(s.take(m), p, b) == cut_pos(parse_tag(s, p, b), m),
{
    if p < m {
        assert(s.take(m)[p] == s[p]);
    }
}

proof fn lemma_cut_crlf(s: Seq<u8>, p: int, m: int)
    requires
        0 <= p <= m <= s.len(),
        parse_crlf(s, p) is Ok,
    ensures
        parse_crlf(s.take(m), p) == cut_pos(parse_crlf(s, p), m),
{
    lemma_cut_tag(s, p, CR, m);
    if p + 1 <= m {
        lemma_cut_tag(s, p + 1, LF, m);
    }
}

proof fn lemma_cut_bulk_string(s: Seq<u8>, p: int, m: int)
    requires
        0 <= p <= m <= s.len(),
        parse_bulk_string(s, p) is Ok,
    ensures
        parse_bulk_string(s.take(m), p) == cut(parse_bulk_string(s, p), m),
{
    let t = s.take(m);
    crate::network::lemma_bulk_string_pos(s, p);
    crate::network::lemma_integer_pos(s, p);
    lemma_cut_integer(s, p, m);
    let (n, q) = parse_size(s, p)->Ok_0;
    if m >= q + n {
        lemma_cut_crlf(s, q + n, m);
        assert forall|i: int| 0 <= i < n implies #[trigger] t.subrange(q, q + n)[i] == s.subrange(q, q + n)[i] by {
            assert(t[q + i] == s[q + i]);
        }
        assert(t.subrange(q, q + n) =~= s.subrange(q, q + n));
    }
}

proof fn lemma_cut_item(s: Seq<u8>, p: int, m: int)
    requires
        0 <= p <= m <= s.len(),
        parse_item(s, p) is Ok,
    ensures
        parse_item(s.take(m), p) == cut(parse_item(s, p), m),
{
    crate::network::lemma_item_pos(s, p);
    if p < m {
        assert(s.take(m)[p] == s[p]);
        if s[p] == crate::network::DOLLAR {
            lemma_cut_bulk_string(s, p + 1, m);
        } else {
            lemma_cut_integer(s, p + 1, m);
        }
    }
}

proof fn lemma_cut_value(s: Seq<u8>, p: int, m: int)
    requires
        0 <= p <= m <= s.len(),
        parse_value(s, p) is Ok,
    ensures
        parse_value(s.take(m), p) == cut(parse_value(s, p), m),
    decreases s.len() - p, 0int,
{
    crate::network::lemma_value_pos(s, p);
    if p < m {
        lemma_cut_item(s, p, m);
        crate::network::lemma_item_pos(s, p);
        match parse_item(s, p) {
            Ok((Item::ArrayStart(n), q)) => {
                crate::network::lemma_values_pos(s, q, n);
                if m >= q {
                    lemma_cut_values(s, q, n, m);
                }
            },
            _ => {},
        }
    }
}

proof fn lemma_cut_values(s: Seq<u8>, p: int, n: nat, m: int)
    requires
        0 <= p <= m <= s.len(),
        parse_values(s, p, n) is Ok,
    ensures
        parse_values(s.take(m), p, n) == cut(parse_values(s, p, n), m),
    decreases s.len() - p, 1int,
{
    if n > 0 {
        crate::network::lemma_value_pos(s, p);
        lemma_cut_value(s, p, m);
        let (v, q) = parse_value(s, p)->Ok_0;
        crate::network::lemma_values_pos(s, q, (n - 1) as nat);
        if m >= q {
            lemma_cut_values(s, q, (n - 1) as nat, m);
        }
    }
}

proof fn lemma_cut_bulk_command(s: Seq<u8>, p: int, m: int)
    requires
        0 <= p <= m <= s.len(),
        parse_bulk_command(s, p) is Ok,
    ensures
        parse_bulk_command(s.take(m), p) == cut(parse_bulk_command(s, p), m),
{
    crate::network::lemma_integer_pos(s, p);
    lemma_cut_integer(s, p, m);
    let (n, q) = parse_integer(s, p)->Ok_0;
    let q2 = q + 1;
    crate::network::lemma_bulk_string_pos(s, q2);
    let (c, q3) = parse_bulk_string(s, q2)->Ok_0;
    crate::network::lemma_values_pos(s, q3, (n - 1) as nat);
    if m >= q {
        lemma_cut_tag(s, q, crate::network::DOLLAR, m);
        if m >= q2 {
            lemma_cut_bulk_string(s, q2, m);
            if m >= q3 {
                lemma_cut_values(s, q3, (n - 1) as nat, m);
            }
        }
    }
}

proof fn lemma_cut_token(s: Seq<u8>, p: int, m: int)
    requires
        0 <= p <= m <= s.len(),
        inline_token(s, p) is Ok,
    ensures
        inline_token(s.take(m), p) == cut_token(inline_token(s, p), m),
    decreases s.len() - p,
{
    let t = s.take(m);
    crate::network::lemma_token_pos(s, p);
    if p < m {
        assert(t[p] == s[p]);
        if s[p] == CR {
            lemma_cut_tag(s, p + 1, LF, m);
        } else if s[p] != crate::network::SPACE && s[p] != LF {
            lemma_cut_token(s, p + 1, m);
        }
    }
}

proof fn lemma_cut_args(s: Seq<u8>, p: int, m: int)
    requires
        0 <= p <= m <= s.len(),
        inline_args(s, p) is Ok,
    ensures
        inline_args(s.take(m), p) == cut(inline_args(s, p), m),
    decreases s.len() - p,
{
    lemma_cut_token(s, p, m);
    crate::network::lemma_token_pos(s, p);
    crate::network::lemma_args_pos(s, p);
    let (tok, last, q) = inline_token(s, p)->Ok_0;
    if !last {
        crate::network::lemma_args_pos(s, q);
        if m >= q {
            lemma_cut_args(s, q, m);
        }
    }
}

/// Where a request decodes from `s`, decoding it from the first `m` bytes of `s` reports a
/// closed connection when `m` falls short of its end, and gives the same request when it
/// does not: a source that stops at any point inside a request surfaces as
/// `ConnectionClosed` and nothing else.
pub proof fn truncated_request(s: Seq<u8>, m: int)
    requires
        0 <= m <= s.len(),
        parse_command(s) is Ok,
    ensures
        parse_command(s.take(m)) == cut(parse_command(s), m),
        m < parse_command(s)->Ok_0.1 ==> parse_command(s.take(m)) == Err::<(Request, int), DecodeError>(
            DecodeError::ConnectionClosed,
        ),
{
    let t = s.take(m);
    crate::network::lemma_command_pos(s);
    if m > 0 {
        assert(t[0] == s[0]);
        if s[0] == STAR {
            lemma_cut_bulk_command(s, 1, m);
        } else {
            lemma_cut_token(s, 1, m);
            crate::network::lemma_token_pos(s, 1);
            let (tok, last, q) = inline_token(s, 1)->Ok_0;
            if !last {
                crate::network::lemma_args_pos(s, q);
                if m >= q {
                    lemma_cut_args(s, q, m);
                }
            }
        }
    }
}

} // verus!
