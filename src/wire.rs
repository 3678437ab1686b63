use vstd::prelude::*;
use crate::reply::{ProtocolError, Reply};

verus! {

/// How many replies may be under assembly at once: a top-level reply and the
/// arrays around a value count one each.
pub const MAX_DEPTH: usize = 9;

pub const CR: u8 = 13;

pub const LF: u8 = 10;

/// The tag of a status line.
pub const PLUS: u8 = 43;

/// The tag of an error line.
pub const MINUS: u8 = 45;

/// The tag of an integer.
pub const COLON: u8 = 58;

/// The tag of a bulk string.
pub const DOLLAR: u8 = 36;

/// The tag of an array.
pub const STAR: u8 = 42;

pub const DIGIT_0: u8 = 48;

pub const DIGIT_9: u8 = 57;

/// What the bytes from some position on hold.
pub enum Parsed {
    /// A whole reply, and the position just past it.
    Done(Reply, int),
    /// A valid start of a reply that needs more bytes.
    More,
    /// Bytes that no continuation can make a valid reply.
    Bad(ProtocolError),
}

/// What the bytes from some position on hold, read as a run of array elements.
pub enum ParsedSeq {
    Done(Seq<Reply>, int),
    More,
    Bad(ProtocolError),
}

pub open spec fn is_tag(c: u8) -> bool {
    c == PLUS || c == MINUS || c == COLON || c == DOLLAR || c == STAR
}

/// The position of the first CR LF pair at or after `i`.
pub open spec fn line_end(b: Seq<u8>, i: int) -> Option<int>
    decreases b.len() - i,
{
    if i < 0 || i + 1 >= b.len() {
        None
    } else if b[i] == CR && b[i + 1] == LF {
        Some(i)
    } else {
        line_end(b, i + 1)
    }
}

pub open spec fn is_digit(c: u8) -> bool {
    DIGIT_0 <= c <= DIGIT_9
}

pub open spec fn all_digits(s: Seq<u8>) -> bool {
    s.len() > 0 && forall|k: int| 0 <= k < s.len() ==> is_digit(#[trigger] s[k])
}

/// The number that a run of decimal digits writes.
pub open spec fn digits_value(s: Seq<u8>) -> int
    decreases s.len(),
{
    if s.len() == 0 {
        0
    } else {
        digits_value(s.drop_last()) * 10 + (s.last() - DIGIT_0)
    }
}

/// The number that a line writes in base 10, with an optional leading minus.
pub open spec fn int_value(s: Seq<u8>) -> Option<int> {
    if s.len() > 0 && s[0] == MINUS && all_digits(s.skip(1)) {
        Some(-digits_value(s.skip(1)))
    } else if all_digits(s) {
        Some(digits_value(s))
    } else {
        None
    }
}

pub open spec fn fits_i64(n: int) -> bool {
    i64::MIN <= n <= i64::MAX
}

pub open spec fn has_line_break(s: Seq<u8>) -> bool {
    exists|k: int| 0 <= k < s.len() && (s[k] == CR || s[k] == LF)
}

/// The reply whose tag stands at `i`, when `depth` replies are already under
/// assembly around it.
pub open spec fn parse_at(b: Seq<u8>, i: int, depth: int) -> Parsed
    decreases MAX_DEPTH - depth, 1int, 0int,
{
    if i < 0 || i >= b.len() {
        Parsed::More
    } else if !is_tag(b[i]) {
        Parsed::Bad(ProtocolError::BadTypeTag)
    } else if depth >= MAX_DEPTH {
        Parsed::Bad(ProtocolError::NestingTooDeep)
    } else {
        match line_end(b, i + 1) {
            None => Parsed::More,
            Some(e) => {
                let line = b.subrange(i + 1, e);
                let next = e + 2;
                let tag = b[i];
                if tag == PLUS || tag == MINUS {
                    if has_line_break(line) {
                        Parsed::Bad(ProtocolError::MalformedTerminator)
                    } else if tag == PLUS {
                        Parsed::Done(Reply::Status(line), next)
                    } else {
                        Parsed::Done(Reply::Error(line), next)
                    }
                } else if tag == COLON {
                    match int_value(line) {
                        Some(n) => if fits_i64(n) {
                            Parsed::Done(Reply::Int(n), next)
                        } else {
                            Parsed::Bad(ProtocolError::BadInteger)
                        },
                        None => Parsed::Bad(ProtocolError::BadInteger),
                    }
                } else {
                    match int_value(line) {
                        None => Parsed::Bad(ProtocolError::BadLength),
                        Some(n) => if !fits_i64(n) || n < -1 {
                            Parsed::Bad(ProtocolError::BadLength)
                        } else if n == -1 {
                            Parsed::Done(Reply::Nil, next)
                        } else if tag == DOLLAR {
                            if b.len() < next + n + 2 {
                                Parsed::More
                            } else if b[next + n] != CR || b[next + n + 1] != LF {
                                Parsed::Bad(ProtocolError::MalformedTerminator)
                            } else {
                                Parsed::Done(Reply::Bulk(b.subrange(next, next + n)), next + n + 2)
                            }
                        } else {
                            match parse_elems(b, next, n, depth) {
                                ParsedSeq::Done(items, end) => Parsed::Done(Reply::Array(items), end),
                                ParsedSeq::More => Parsed::More,
                                ParsedSeq::Bad(k) => Parsed::Bad(k),
                            }
                        }
                    }
                }
            },
        }
    }
}

/// `count` replies one after the other from `i`, as the elements of an array
/// that stands at `depth`.
pub open spec fn parse_elems(b: Seq<u8>, i: int, count: int, depth: int) -> ParsedSeq
    decreases MAX_DEPTH - depth, 0int, count,
{
    if count <= 0 {
        ParsedSeq::Done(Seq::empty(), i)
    } else if depth >= MAX_DEPTH {
        ParsedSeq::Bad(ProtocolError::NestingTooDeep)
    } else {
        match parse_at(b, i, depth + 1) {
            Parsed::Done(v, k) => match parse_elems(b, k, count - 1, depth) {
                ParsedSeq::Done(rest, end) => ParsedSeq::Done(seq![v] + rest, end),
                other => other,
            },
            Parsed::More => ParsedSeq::More,
            Parsed::Bad(e) => ParsedSeq::Bad(e),
        }
    }
}

/// What a decoder holding `b` makes of it: the first reply in `b`.
pub open spec fn parse(b: Seq<u8>) -> Parsed {
    parse_at(b, 0, 0)
}

} // verus!

verus! {

pub proof fn lemma_line_end(b: Seq<u8>, i: int)
    ensures
        match line_end(b, i) {
            Some(e) => 0 <= i <= e && e + 1 < b.len() && b[e] == CR && b[e + 1] == LF
                && forall|k: int| i <= k < e ==> !(#[trigger] b[k] == CR && b[k + 1] == LF),
            None => forall|k: int| 0 <= i <= k && k + 1 < b.len() ==> !(#[trigger] b[k] == CR && b[k + 1] == LF),
        },
    decreases b.len() - i,
{
    if i < 0 || i + 1 >= b.len() {
    } else if b[i] == CR && b[i + 1] == LF {
    } else {
        lemma_line_end(b, i + 1);
    }
}

pub proof fn lemma_digits_value_nonneg(s: Seq<u8>)
    requires
        forall|k: int| 0 <= k < s.len() ==> is_digit(#[trigger] s[k]),
    ensures
        digits_value(s) >= 0,
    decreases s.len(),
{
    if s.len() > 0 {
        lemma_digits_value_nonneg(s.drop_last());
    }
}

/// A run of digits is worth at least any of its prefixes.
pub proof fn lemma_digits_value_prefix(s: Seq<u8>, j: int)
    requires
        0 <= j <= s.len(),
        forall|k: int| 0 <= k < s.len() ==> is_digit(#[trigger] s[k]),
    ensures
        digits_value(s.subrange(0, j)) <= digits_value(s),
    decreases s.len(),
{
    if j < s.len() {
        let d = s.drop_last();
        assert(d.subrange(0, j) =~= s.subrange(0, j));
        lemma_digits_value_prefix(d, j);
        lemma_digits_value_nonneg(d);
    } else {
        assert(s.subrange(0, j) =~= s);
    }
}

} // verus!

verus! {

/// The decimal digits of `n`, most significant first.
pub open spec fn decimal(n: nat) -> Seq<u8>
    decreases n,
{
    if n < 10 {
        seq![(DIGIT_0 + n) as u8]
    } else {
        decimal(n / 10).push((DIGIT_0 + n % 10) as u8)
    }
}

/// A bulk string as it stands on the wire: `$<len>\r\n<bytes>\r\n`.
pub open spec fn bulk_frame(s: Seq<u8>) -> Seq<u8> {
    seq![DOLLAR] + decimal(s.len()) + seq![CR, LF] + s + seq![CR, LF]
}

/// The bulk frames of `parts`, one after the other.
pub open spec fn bulk_frames(parts: Seq<Seq<u8>>) -> Seq<u8>
    decreases parts.len(),
{
    if parts.len() == 0 {
        Seq::empty()
    } else {
        bulk_frames(parts.drop_last()) + bulk_frame(parts.last())
    }
}

/// A command as a request: an array of bulk strings, the name first.
pub open spec fn command_bytes(name: Seq<u8>, args: Seq<Seq<u8>>) -> Seq<u8> {
    seq![STAR] + decimal(args.len() + 1) + seq![CR, LF] + bulk_frames(seq![name] + args)
}

} // verus!

verus! {

pub open spec fn crlf() -> Seq<u8> {
    seq![CR, LF]
}

/// A signed number in base 10, with a leading minus when negative.
pub open spec fn signed_decimal(n: int) -> Seq<u8> {
    if n < 0 {
        seq![MINUS] + decimal((-n) as nat)
    } else {
        decimal(n as nat)
    }
}

/// The wire bytes of a reply.
pub open spec fn reply_bytes(v: Reply) -> Seq<u8>
    decreases v,
{
    match v {
        Reply::Bulk(s) => bulk_frame(s),
        Reply::Int(n) => seq![COLON] + signed_decimal(n) + crlf(),
        Reply::Array(items) => seq![STAR] + decimal(items.len()) + crlf() + items_bytes(items),
        Reply::Nil => seq![DOLLAR] + signed_decimal(-1) + crlf(),
        Reply::Status(s) => seq![PLUS] + s + crlf(),
        Reply::Error(s) => seq![MINUS] + s + crlf(),
    }
}

/// The wire bytes of replies, one after the other.
pub open spec fn items_bytes(items: Seq<Reply>) -> Seq<u8>
    decreases items,
{
    if items.len() == 0 {
        Seq::empty()
    } else {
        reply_bytes(items[0]) + items_bytes(items.drop_first())
    }
}

/// Whether RESP can carry `v` as a reply that stands at `depth`: numbers and
/// lengths fit in 64 signed bits, lines hold no line break, and arrays nest
/// no deeper than a decoder accepts.
pub open spec fn encodable(v: Reply, depth: int) -> bool
    decreases v,
{
    depth < MAX_DEPTH && match v {
        Reply::Bulk(s) => s.len() <= i64::MAX,
        Reply::Int(n) => fits_i64(n),
        Reply::Array(items) => items.len() <= i64::MAX && forall|k: int|
            0 <= k < items.len() ==> encodable(#[trigger] items[k], depth + 1),
        Reply::Nil => true,
        Reply::Status(s) => !has_line_break(s),
        Reply::Error(s) => !has_line_break(s),
    }
}

} // verus!
