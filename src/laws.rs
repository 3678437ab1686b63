use vstd::prelude::*;
use crate::reply::{ProtocolError, Reply};
use crate::wire::{
    crlf, decimal, digits_value, int_value, is_digit, line_end, parse, parse_at, parse_elems,
    signed_decimal, bulk_frame, encodable, has_line_break, items_bytes, reply_bytes, Parsed, ParsedSeq,
    fits_i64, COLON, CR, DIGIT_0, DOLLAR, LF, MAX_DEPTH, MINUS, PLUS, STAR,
};

verus! {

/// A line end found in some bytes stays where it is when more bytes come.
pub proof fn lemma_line_end_extend(b: Seq<u8>, c: Seq<u8>, i: int)
    requires
        line_end(b, i) is Some,
    ensures
        line_end(b + c, i) == line_end(b, i),
    decreases b.len() - i,
{
    if i < 0 || i + 1 >= b.len() {
    } else if b[i] == 13 && b[i + 1] == 10 {
    } else {
        lemma_line_end_extend(b, c, i + 1);
    }
}

/// A reply, or an error, found in some bytes stays what it is when more
/// bytes are appended.
pub proof fn lemma_parse_at_extend(b: Seq<u8>, c: Seq<u8>, i: int, depth: int)
    requires
        !(parse_at(b, i, depth) is More),
    ensures
        parse_at(b + c, i, depth) == parse_at(b, i, depth),
    decreases MAX_DEPTH - depth, 1int, 0int,
{
    let bc = b + c;
    if i < 0 || i >= b.len() {
    } else if !crate::wire::is_tag(b[i]) {
    } else if depth >= MAX_DEPTH {
    } else {
        lemma_line_end_extend(b, c, i + 1);
        let e = line_end(b, i + 1)->Some_0;
        crate::wire::lemma_line_end(b, i + 1);
        assert(bc.subrange(i + 1, e) =~= b.subrange(i + 1, e));
        let next = e + 2;
        let line = b.subrange(i + 1, e);
        if b[i] == crate::wire::DOLLAR {
            if let Some(n) = crate::wire::int_value(line) {
                if n >= 0 && b.len() >= next + n + 2 {
                    assert(bc.subrange(next, next + n) =~= b.subrange(next, next + n));
                }
            }
        } else if b[i] == crate::wire::STAR {
            if let Some(n) = crate::wire::int_value(line) {
                if n > 0 && crate::wire::fits_i64(n) {
                    lemma_parse_elems_extend(b, c, next, n, depth);
                }
            }
        }
    }
}

/// A run of array elements found in some bytes stays what it is when more
/// bytes are appended.
pub proof fn lemma_parse_elems_extend(b: Seq<u8>, c: Seq<u8>, i: int, count: int, depth: int)
    requires
        !(parse_elems(b, i, count, depth) is More),
    ensures
        parse_elems(b + c, i, count, depth) == parse_elems(b, i, count, depth),
    decreases MAX_DEPTH - depth, 0int, count,
{
    if count <= 0 || depth >= MAX_DEPTH {
    } else {
        lemma_parse_at_extend(b, c, i, depth + 1);
        if let Parsed::Done(v, k) = parse_at(b, i, depth + 1) {
            lemma_parse_elems_extend(b, c, k, count - 1, depth);
        }
    }
}

} // verus!

verus! {

proof fn lemma_parse_at_end(b: Seq<u8>, i: int, depth: int)
    ensures
        parse_at(b, i, depth) matches Parsed::Done(_, n) ==> i < n <= b.len(),
    decreases MAX_DEPTH - depth, 1int, 0int,
{
    if i < 0 || i >= b.len() || !crate::wire::is_tag(b[i]) || depth >= MAX_DEPTH {
    } else {
        crate::wire::lemma_line_end(b, i + 1);
        if let Some(e) = line_end(b, i + 1) {
            if let Some(n) = crate::wire::int_value(b.subrange(i + 1, e)) {
                if n > 0 && crate::wire::fits_i64(n) {
                    lemma_parse_elems_end(b, e + 2, n, depth);
                }
            }
        }
    }
}

proof fn lemma_parse_elems_end(b: Seq<u8>, i: int, count: int, depth: int)
    ensures
        parse_elems(b, i, count, depth) matches ParsedSeq::Done(_, n) ==> i <= n && (count > 0
            ==> n <= b.len()),
    decreases MAX_DEPTH - depth, 0int, count,
{
    if count <= 0 || depth >= MAX_DEPTH {
    } else {
        lemma_parse_at_end(b, i, depth + 1);
        if let Parsed::Done(v, k) = parse_at(b, i, depth + 1) {
            lemma_parse_elems_end(b, k, count - 1, depth);
        }
    }
}

/// Feeding the bytes of one reply in chunks, with a decode attempt after
/// each, ends as feeding them at once does: a decoder holding any proper
/// prefix of the bytes needs more of them, and one holding all of them finds
/// the reply. Nothing is consumed while more bytes are needed, so after each
/// chunk the decoder holds the prefix fed so far; what comes after the
/// reply does not change it.
pub proof fn law_feed_chunking(b: Seq<u8>, j: int, rest: Seq<u8>)
    requires
        parse(b) matches Parsed::Done(_, n) && n == b.len(),
        0 <= j <= b.len(),
    ensures
        parse(b.take(j)) == if j < b.len() {
            Parsed::More
        } else {
            parse(b)
        },
        parse(b + rest) == parse(b),
{
    lemma_parse_at_extend(b, rest, 0, 0);
    let p = b.take(j);
    if j == b.len() {
        assert(p =~= b);
    } else if !(parse(p) is More) {
        lemma_parse_at_extend(p, b.skip(j), 0, 0);
        assert(p + b.skip(j) =~= b);
        lemma_parse_at_end(p, 0, 0);
    }
}

} // verus!

verus! {

/// Whether `x` stands in `b` from position `i` on.
pub open spec fn window(b: Seq<u8>, i: int, x: Seq<u8>) -> bool {
    0 <= i && i + x.len() <= b.len() && b.subrange(i, i + x.len()) == x
}

proof fn lemma_window_split(b: Seq<u8>, i: int, x: Seq<u8>, y: Seq<u8>)
    requires
        window(b, i, x + y),
    ensures
        window(b, i, x),
        window(b, i + x.len(), y),
        forall|k: int| 0 <= k < x.len() ==> b[i + k] == #[trigger] x[k],
{
    assert(b.subrange(i, i + x.len()) =~= (x + y).subrange(0, x.len() as int));
    assert((x + y).subrange(0, x.len() as int) =~= x);
    assert forall|k: int| 0 <= k < y.len() implies #[trigger] b.subrange(
        i + x.len(),
        i + x.len() + y.len(),
    )[k] == y[k] by {
        assert(b.subrange(i, i + (x + y).len())[x.len() + k] == b[i + x.len() + k]);
        assert((x + y)[x.len() + k] == y[k]);
    }
    assert(b.subrange(i + x.len(), i + x.len() + y.len()) =~= y);
    assert forall|k: int| 0 <= k < x.len() implies b[i + k] == #[trigger] x[k] by {
        assert(b.subrange(i, i + x.len())[k] == b[i + k]);
    }
}

proof fn lemma_decimal(n: nat)
    ensures
        decimal(n).len() >= 1,
        forall|k: int| 0 <= k < decimal(n).len() ==> is_digit(#[trigger] decimal(n)[k]),
        digits_value(decimal(n)) == n,
    decreases n,
{
    let d = decimal(n);
    if n >= 10 {
        lemma_decimal(n / 10);
        assert(d.drop_last() =~= decimal(n / 10));
        assert(d.last() == (DIGIT_0 + n % 10) as u8);
        assert((n / 10) * 10 + n % 10 == n) by (nonlinear_arith);
        assert(digits_value(d) == digits_value(d.drop_last()) * 10 + (d.last() - DIGIT_0));
    } else {
        assert(d.drop_last() =~= Seq::<u8>::empty());
        assert(digits_value(d.drop_last()) == 0);
    }
}

proof fn lemma_signed_decimal(n: int)
    ensures
        int_value(signed_decimal(n)) == Some(n),
        forall|k: int| 0 <= k < signed_decimal(n).len() ==> (#[trigger] signed_decimal(n)[k] != CR
            && signed_decimal(n)[k] != LF),
{
    let s = signed_decimal(n);
    if n < 0 {
        lemma_decimal((-n) as nat);
        assert(s.skip(1) =~= decimal((-n) as nat));
        assert forall|k: int| 0 <= k < s.len() implies (#[trigger] s[k] != CR && s[k] != LF) by {
            if k > 0 {
                assert(s[k] == decimal((-n) as nat)[k - 1]);
            }
        }
    } else {
        lemma_decimal(n as nat);
        assert(is_digit(s[0]));
    }
}

proof fn lemma_line_found(b: Seq<u8>, i: int, e: int)
    requires
        0 <= i <= e,
        e + 1 < b.len(),
        b[e] == CR,
        b[e + 1] == LF,
        forall|k: int| i <= k < e ==> !(#[trigger] b[k] == CR && b[k + 1] == LF),
    ensures
        line_end(b, i) == Some(e),
    decreases e - i,
{
    if i < e {
        lemma_line_found(b, i + 1, e);
    }
}

/// A tagged line `tag`, `s`, CR LF standing at `i`.
proof fn lemma_tagged_line(b: Seq<u8>, i: int, tag: u8, s: Seq<u8>)
    requires
        window(b, i, seq![tag] + s + crlf()),
        forall|k: int| 0 <= k < s.len() - 1 ==> !(#[trigger] s[k] == CR && s[k + 1] == LF),
    ensures
        b[i] == tag,
        line_end(b, i + 1) == Some(i + 1 + s.len()),
        b.subrange(i + 1, i + 1 + s.len()) == s,
{
    lemma_window_split(b, i, seq![tag] + s, crlf());
    lemma_window_split(b, i, seq![tag], s);
    let e = i + 1 + s.len();
    assert(b[e] == crlf()[0]) by {
        assert(b.subrange(e, e + 2)[0] == b[e]);
    }
    assert(b[e + 1] == crlf()[1]) by {
        assert(b.subrange(e, e + 2)[1] == b[e + 1]);
    }
    assert forall|k: int| i + 1 <= k < e implies !(#[trigger] b[k] == CR && b[k + 1] == LF) by {
        assert(b.subrange(i + 1, e)[k - i - 1] == b[k]);
        if k + 1 < e {
            assert(b.subrange(i + 1, e)[k - i] == b[k + 1]);
            assert(!(s[k - i - 1] == CR && s[k - i] == LF));
        }
    }
    assert(b[i] == (seq![tag] + s)[0]);
    lemma_line_found(b, i + 1, e);
}

} // verus!

verus! {

proof fn lemma_no_cr(s: Seq<u8>)
    requires
        !has_line_break(s),
    ensures
        forall|k: int| 0 <= k < s.len() ==> #[trigger] s[k] != CR && s[k] != LF,
{
    assert forall|k: int| 0 <= k < s.len() implies #[trigger] s[k] != CR && s[k] != LF by {
        if s[k] == CR || s[k] == LF {
            assert(has_line_break(s));
        }
    }
}

/// The wire bytes of `v` standing at `i` decode to `v`.
pub proof fn lemma_reply_at(b: Seq<u8>, i: int, v: Reply, depth: int)
    requires
        encodable(v, depth),
        window(b, i, reply_bytes(v)),
    ensures
        parse_at(b, i, depth) == Parsed::Done(v, i + reply_bytes(v).len()),
    decreases v,
{
    match v {
        Reply::Int(n) => {
            lemma_signed_decimal(n);
            lemma_tagged_line(b, i, COLON, signed_decimal(n));
        },
        Reply::Status(s) => {
            lemma_no_cr(s);
            lemma_tagged_line(b, i, PLUS, s);
        },
        Reply::Error(s) => {
            lemma_no_cr(s);
            lemma_tagged_line(b, i, MINUS, s);
        },
        Reply::Nil => {
            lemma_signed_decimal(-1);
            lemma_tagged_line(b, i, DOLLAR, signed_decimal(-1));
        },
        Reply::Bulk(s) => {
            let n = s.len();
            let head = seq![DOLLAR] + decimal(n) + crlf();
            assert(reply_bytes(v) =~= head + s + crlf());
            lemma_window_split(b, i, head + s, crlf());
            lemma_window_split(b, i, head, s);
            lemma_signed_decimal(n as int);
            lemma_tagged_line(b, i, DOLLAR, decimal(n));
            let next = i + head.len();
            assert(b[next + n] == crlf()[0]) by {
                assert(b.subrange(next + n, next + n + 2)[0] == b[next + n]);
            }
            assert(b[next + n + 1] == crlf()[1]) by {
                assert(b.subrange(next + n, next + n + 2)[1] == b[next + n + 1]);
            }
        },
        Reply::Array(items) => {
            let head = seq![STAR] + decimal(items.len()) + crlf();
            lemma_window_split(b, i, head, items_bytes(items));
            lemma_signed_decimal(items.len() as int);
            lemma_tagged_line(b, i, STAR, decimal(items.len()));
            if items.len() > 0 {
                lemma_items_at(b, i + head.len(), items, depth);
            } else {
                assert(items =~= Seq::<Reply>::empty());
            }
        },
    }
}

/// The wire bytes of `items` standing at `i` decode to `items`.
pub proof fn lemma_items_at(b: Seq<u8>, i: int, items: Seq<Reply>, depth: int)
    requires
        depth < MAX_DEPTH,
        forall|k: int| 0 <= k < items.len() ==> encodable(#[trigger] items[k], depth + 1),
        window(b, i, items_bytes(items)),
    ensures
        parse_elems(b, i, items.len() as int, depth) == ParsedSeq::Done(items, i + items_bytes(items).len()),
    decreases items,
{
    if items.len() > 0 {
        let first = reply_bytes(items[0]);
        lemma_window_split(b, i, first, items_bytes(items.drop_first()));
        lemma_reply_at(b, i, items[0], depth + 1);
        assert forall|k: int| 0 <= k < items.drop_first().len() implies encodable(
            #[trigger] items.drop_first()[k],
            depth + 1,
        ) by {
            assert(items.drop_first()[k] == items[k + 1]);
        }
        lemma_items_at(b, i + first.len(), items.drop_first(), depth);
        assert(seq![items[0]] + items.drop_first() =~= items);
    } else {
        assert(items =~= Seq::<Reply>::empty());
    }
}

/// Round trip: the wire bytes of any reply that RESP can carry decode to
/// that very reply, whatever bytes follow them. A null array decodes to the
/// same `Nil` as a null bulk string.
pub proof fn law_round_trip(v: Reply, rest: Seq<u8>)
    requires
        encodable(v, 0),
    ensures
        parse(reply_bytes(v) + rest) == Parsed::Done(v, reply_bytes(v).len() as int),
        parse(seq![STAR] + signed_decimal(-1) + crlf() + rest) == Parsed::Done(Reply::Nil, 5),
{
    let b = reply_bytes(v) + rest;
    assert(b.subrange(0, reply_bytes(v).len() as int) =~= reply_bytes(v));
    lemma_reply_at(b, 0, v, 0);
    let nil = seq![STAR] + signed_decimal(-1) + crlf();
    let c = nil + rest;
    assert(c.subrange(0, nil.len() as int) =~= nil);
    lemma_signed_decimal(-1);
    lemma_tagged_line(c, 0, STAR, signed_decimal(-1));
}

/// Bulk strings are binary safe: any payload, CR, LF and NUL bytes
/// included, decodes to the same bytes.
pub proof fn law_bulk_binary_safe(payload: Seq<u8>, rest: Seq<u8>)
    requires
        payload.len() <= i64::MAX,
    ensures
        parse(bulk_frame(payload) + rest) == Parsed::Done(
            Reply::Bulk(payload),
            bulk_frame(payload).len() as int,
        ),
{
    assert(encodable(Reply::Bulk(payload), 0));
    law_round_trip(Reply::Bulk(payload), rest);
}

/// A status or error line that holds a CR or an LF of its own (but no CR LF
/// pair, which ends the line) is a protocol error, never a shortened line.
pub proof fn law_line_break_rejected(tag: u8, s: Seq<u8>, rest: Seq<u8>)
    requires
        tag == PLUS || tag == MINUS,
        has_line_break(s),
        forall|k: int| 0 <= k < s.len() - 1 ==> !(#[trigger] s[k] == CR && s[k + 1] == LF),
    ensures
        parse(seq![tag] + s + crlf() + rest) == Parsed::Bad(ProtocolError::MalformedTerminator),
{
    let line = seq![tag] + s + crlf();
    let b = line + rest;
    assert(b.subrange(0, line.len() as int) =~= line);
    lemma_tagged_line(b, 0, tag, s);
}

} // verus!

verus! {

/// `inner` wrapped in `k` one-element arrays.
pub open spec fn nest(k: nat, inner: Reply) -> Reply
    decreases k,
{
    if k == 0 {
        inner
    } else {
        Reply::Array(seq![nest((k - 1) as nat, inner)])
    }
}

proof fn lemma_nest_encodable(k: nat, depth: int, n: int)
    requires
        depth + k < MAX_DEPTH,
        fits_i64(n),
    ensures
        encodable(nest(k, Reply::Int(n)), depth),
    decreases k,
{
    if k > 0 {
        lemma_nest_encodable((k - 1) as nat, depth + 1, n);
        assert(seq![nest((k - 1) as nat, Reply::Int(n))][0] == nest((k - 1) as nat, Reply::Int(n)));
    }
}

proof fn lemma_nest_too_deep(b: Seq<u8>, i: int, k: nat, depth: int, n: int)
    requires
        depth + k == MAX_DEPTH,
        window(b, i, reply_bytes(nest(k, Reply::Int(n)))),
    ensures
        parse_at(b, i, depth) == Parsed::Bad(ProtocolError::NestingTooDeep),
    decreases k,
{
    if k == 0 {
        assert(reply_bytes(Reply::Int(n)) =~= seq![COLON] + (signed_decimal(n) + crlf()));
        lemma_window_split(b, i, seq![COLON], signed_decimal(n) + crlf());
        assert(b[i + 0] == seq![COLON][0]);
    } else {
        let y = nest((k - 1) as nat, Reply::Int(n));
        let items = seq![y];
        let head = seq![STAR] + decimal(1) + crlf();
        assert(items.drop_first() =~= Seq::<Reply>::empty());
        assert(items[0] == y);
        assert(items_bytes(Seq::<Reply>::empty()) == Seq::<u8>::empty());
        assert(items_bytes(items) =~= reply_bytes(y));
        lemma_window_split(b, i, head, reply_bytes(y));
        lemma_signed_decimal(1);
        lemma_tagged_line(b, i, STAR, decimal(1));
        lemma_nest_too_deep(b, i + head.len(), (k - 1) as nat, depth + 1, n);
        assert(decimal(1).len() == 1);
        assert(signed_decimal(1) == decimal(1));
        assert(parse_elems(b, i + 4, 1, depth) == ParsedSeq::Bad(ProtocolError::NestingTooDeep));
    }
}

/// Nesting is bounded: an integer inside `MAX_DEPTH - 1` arrays, which
/// keeps `MAX_DEPTH` replies under assembly at once, decodes; inside one
/// array more it is a `NestingTooDeep` protocol error.
pub proof fn law_bounded_nesting(n: int, rest: Seq<u8>)
    requires
        fits_i64(n),
    ensures
        parse(reply_bytes(nest((MAX_DEPTH - 1) as nat, Reply::Int(n))) + rest) == Parsed::Done(
            nest((MAX_DEPTH - 1) as nat, Reply::Int(n)),
            reply_bytes(nest((MAX_DEPTH - 1) as nat, Reply::Int(n))).len() as int,
        ),
        parse(reply_bytes(nest(MAX_DEPTH as nat, Reply::Int(n))) + rest) == Parsed::Bad(
            ProtocolError::NestingTooDeep,
        ),
{
    lemma_nest_encodable((MAX_DEPTH - 1) as nat, 0, n);
    law_round_trip(nest((MAX_DEPTH - 1) as nat, Reply::Int(n)), rest);
    let x = reply_bytes(nest(MAX_DEPTH as nat, Reply::Int(n)));
    let b = x + rest;
    assert(b.subrange(0, x.len() as int) =~= x);
    lemma_nest_too_deep(b, 0, MAX_DEPTH as nat, 0, n);
}

} // verus!
