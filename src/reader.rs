use vstd::prelude::*;
use crate::laws::{lemma_line_end_extend, lemma_parse_at_extend};
use crate::reply::{ProtocolError, RedisObject, Reply};
use crate::wire::{
    all_digits, digits_value, fits_i64, has_line_break, int_value, is_digit, is_tag,
    lemma_digits_value_prefix, lemma_line_end, line_end, parse, parse_at, parse_elems, Parsed,
    ParsedSeq, COLON, CR, DIGIT_0, DIGIT_9, DOLLAR, LF, MAX_DEPTH, MINUS, PLUS, STAR,
};

verus! {

/// The result of one attempt to decode the next reply.
#[derive(Debug)]
pub enum DecodeOutcome {
    /// A whole top-level reply; its bytes have left the buffer.
    Complete(RedisObject),
    /// The buffer holds the start of a reply at most; nothing was consumed.
    Incomplete,
    /// The buffer is not valid RESP; the decoder stays failed.
    Failed(ProtocolError),
}

/// What decoding a value from one position found: the value and the
/// position just past it, a need for more bytes, or a protocol error.
pub enum Scan {
    Done(RedisObject, usize),
    More,
    Bad(ProtocolError),
}

pub open spec fn scan_is(r: Scan, p: Parsed) -> bool {
    match r {
        Scan::Done(o, n) => p == Parsed::Done(o@, n as int),
        Scan::More => p == Parsed::More,
        Scan::Bad(k) => p == Parsed::Bad(k),
    }
}

pub open spec fn outcome_is(r: DecodeOutcome, p: Parsed) -> bool {
    match r {
        DecodeOutcome::Complete(o) => p is Done && p->Done_0 == o@,
        DecodeOutcome::Incomplete => p is More,
        DecodeOutcome::Failed(k) => p == Parsed::Bad(k),
    }
}

/// The number in `s` when it is a base-10 signed 64-bit integer.
pub open spec fn i64_value(s: Seq<u8>) -> Option<int> {
    match int_value(s) {
        Some(n) => if fits_i64(n) {
            Some(n)
        } else {
            None
        },
        None => None,
    }
}

/// `items` in front of what a run of array elements holds.
pub open spec fn glue(items: Seq<Reply>, r: ParsedSeq) -> ParsedSeq {
    match r {
        ParsedSeq::Done(rest, end) => ParsedSeq::Done(items + rest, end),
        other => other,
    }
}

/// The replies that decoded values stand for.
pub open spec fn views(items: Seq<RedisObject>) -> Seq<Reply> {
    items.map_values(|o: RedisObject| o@)
}

/// What one step of decoding at a position found.
pub enum Item {
    /// A whole value, and the position just past it.
    Value(RedisObject, usize),
    /// The head of an array of this many elements (at least one), and the
    /// position where the first of them starts.
    Open(i64, usize),
    More,
    Bad(ProtocolError),
}

/// An array as `parse_at` makes it of a run of elements.
pub open spec fn as_array(r: ParsedSeq) -> Parsed {
    match r {
        ParsedSeq::Done(items, end) => Parsed::Done(Reply::Array(items), end),
        ParsedSeq::More => Parsed::More,
        ParsedSeq::Bad(k) => Parsed::Bad(k),
    }
}

pub open spec fn item_is(r: Item, b: Seq<u8>, i: int, depth: int) -> bool {
    match r {
        Item::Value(o, n) => parse_at(b, i, depth) == Parsed::Done(o@, n as int) && i < n <= b.len(),
        Item::Open(count, n) => count > 0 && depth < MAX_DEPTH && i < n <= b.len() && i + 3 <= n
            && b[i] == STAR && line_end(b, i + 1) == Some(n - 2)
            && i64_value(b.subrange(i + 1, n - 2)) == Some(count as int)
            && parse_at(b, i, depth) == as_array(parse_elems(b, n as int, count as int, depth)),
        Item::More => parse_at(b, i, depth) == Parsed::More,
        Item::Bad(k) => parse_at(b, i, depth) == Parsed::Bad(k),
    }
}

/// An array under assembly: the elements so far, and how many are still
/// to come, the one being decoded included.
pub struct Frame {
    pub items: Vec<RedisObject>,
    pub remaining: i64,
}

pub open spec fn frames_view(stack: Seq<Frame>) -> Seq<(Seq<Reply>, int)> {
    stack.map_values(|f: Frame| (views(f.items@), f.remaining as int))
}

/// What an array at `depth` holding `items`, with `remaining` elements
/// to come, turns into once the next element has come out as `p`.
pub open spec fn resume(b: Seq<u8>, items: Seq<Reply>, remaining: int, depth: int, p: Parsed) -> Parsed {
    match p {
        Parsed::Done(v, k) => as_array(glue(items + seq![v], parse_elems(b, k, remaining - 1, depth))),
        Parsed::More => Parsed::More,
        Parsed::Bad(x) => Parsed::Bad(x),
    }
}

/// What the whole reply turns into once the value being decoded inside the
/// arrays `frames` (outermost first) has come out as `p`.
pub open spec fn unwind(b: Seq<u8>, frames: Seq<(Seq<Reply>, int)>, p: Parsed) -> Parsed
    decreases frames.len(),
{
    if frames.len() == 0 {
        p
    } else {
        let f = frames.last();
        unwind(b, frames.drop_last(), resume(b, f.0, f.1, frames.len() - 1, p))
    }
}

/// An array head found in some bytes stays one when more bytes come.
proof fn lemma_open_extend(b: Seq<u8>, c: Seq<u8>, i: int, depth: int, count: int, n: int)
    requires
        0 <= i < b.len(),
        i + 3 <= n,
        b[i] == STAR,
        depth < MAX_DEPTH,
        count > 0,
        line_end(b, i + 1) == Some(n - 2),
        i64_value(b.subrange(i + 1, n - 2)) == Some(count),
    ensures
        parse_at(b + c, i, depth) == as_array(parse_elems(b + c, n, count, depth)),
{
    lemma_line_end(b, i + 1);
    lemma_line_end_extend(b, c, i + 1);
    assert((b + c).subrange(i + 1, n - 2) =~= b.subrange(i + 1, n - 2));
}

proof fn lemma_unwind_more(b: Seq<u8>, frames: Seq<(Seq<Reply>, int)>)
    ensures
        unwind(b, frames, Parsed::More) == Parsed::More,
    decreases frames.len(),
{
    if frames.len() > 0 {
        lemma_unwind_more(b, frames.drop_last());
    }
}

proof fn lemma_unwind_bad(b: Seq<u8>, frames: Seq<(Seq<Reply>, int)>, k: ProtocolError)
    ensures
        unwind(b, frames, Parsed::Bad(k)) == Parsed::Bad(k),
    decreases frames.len(),
{
    if frames.len() > 0 {
        lemma_unwind_bad(b, frames.drop_last(), k);
    }
}

/// Opening an array: its elements are what the next values come out as.
proof fn lemma_open(b: Seq<u8>, next: int, count: int, depth: int)
    requires
        count > 0,
        depth < MAX_DEPTH,
    ensures
        as_array(parse_elems(b, next, count, depth)) == resume(
            b,
            Seq::empty(),
            count,
            depth,
            parse_at(b, next, depth + 1),
        ),
{
    if let Parsed::Done(v, k) = parse_at(b, next, depth + 1) {
        if let ParsedSeq::Done(rest, e) = parse_elems(b, k, count - 1, depth) {
            assert(Seq::<Reply>::empty() + seq![v] + rest =~= seq![v] + rest);
        }
    }
}

/// The last element closes an array.
proof fn lemma_close(b: Seq<u8>, items: Seq<Reply>, v: Reply, n: int, depth: int)
    ensures
        resume(b, items, 1, depth, Parsed::Done(v, n)) == Parsed::Done(Reply::Array(items + seq![v]), n),
{
    assert(items + seq![v] + Seq::<Reply>::empty() =~= items + seq![v]);
}

/// An element that is not the last leaves the array open for the next.
proof fn lemma_continue(b: Seq<u8>, items: Seq<Reply>, remaining: int, v: Reply, n: int, depth: int)
    requires
        remaining > 1,
        depth < MAX_DEPTH,
    ensures
        resume(b, items, remaining, depth, Parsed::Done(v, n)) == resume(
            b,
            items + seq![v],
            remaining - 1,
            depth,
            parse_at(b, n, depth + 1),
        ),
{
    if let Parsed::Done(v2, k2) = parse_at(b, n, depth + 1) {
        if let ParsedSeq::Done(rest, e) = parse_elems(b, k2, remaining - 2, depth) {
            assert(items + seq![v] + (seq![v2] + rest) =~= items + seq![v] + seq![v2] + rest);
        }
    }
}

/// An incremental decoder of replies.
///
/// The decoder keeps a cursor into its buffer and a stack of the arrays
/// under assembly, so an attempt that needs more bytes resumes, after the
/// next `feed`, at the value it stopped on. Bytes leave the buffer only
/// with a complete top-level reply.
pub struct RedisReader {
    buf: Vec<u8>,
    pos: usize,
    stack: Vec<Frame>,
    err: Option<ProtocolError>,
}

/// Whether decoding can go on at `pos` inside the arrays `frames` of the
/// reply that starts `b`, however the bytes of `b` are continued.
pub open spec fn resumable(b: Seq<u8>, pos: int, frames: Seq<(Seq<Reply>, int)>) -> bool {
    forall|c: Seq<u8>|
        #[trigger] parse(b + c) == unwind(b + c, frames, parse_at(b + c, pos, frames.len() as int))
}

impl RedisReader {
    /// The bytes fed and not yet consumed by a complete reply.
    pub closed spec fn pending(&self) -> Seq<u8> {
        self.buf@
    }

    /// The protocol error this decoder stopped on, if any.
    pub closed spec fn failure(&self) -> Option<ProtocolError> {
        self.err
    }

    /// The cursor and the frames agree with the bytes held.
    pub closed spec fn wf(&self) -> bool {
        &&& self.pos <= self.buf@.len()
        &&& self.stack@.len() <= MAX_DEPTH
        &&& forall|j: int| 0 <= j < self.stack@.len() ==> (#[trigger] self.stack@[j]).remaining >= 1
        &&& resumable(self.buf@, self.pos as int, frames_view(self.stack@))
    }

    pub fn new() -> (r: RedisReader)
        ensures
            r.wf(),
            r.pending() == Seq::<u8>::empty(),
            r.failure() is None,
    {
        let r = RedisReader { buf: Vec::new(), pos: 0, stack: Vec::new(), err: None };
        assert(frames_view(r.stack@) =~= Seq::<(Seq<Reply>, int)>::empty());
        r
    }

    /// Whether `c` is the tag byte of a reply.
    fn check_reply_type(c: u8) -> (r: bool)
        ensures
            r == is_tag(c),
    {
        c == PLUS || c == MINUS || c == COLON || c == DOLLAR || c == STAR
    }

    /// The position of the first CR LF pair at or after `from`.
    fn find_newline(&self, from: usize) -> (r: Option<usize>)
        ensures
            r matches Some(e) ==> line_end(self.buf@, from as int) == Some(e as int),
            r is None ==> line_end(self.buf@, from as int) is None,
    {
        let len = self.buf.len();
        let mut i: usize = from;
        while i < len && len - i >= 2
            invariant
                from <= i,
                len == self.buf@.len(),
                line_end(self.buf@, from as int) == line_end(self.buf@, i as int),
            decreases len - i,
        {
            if self.buf[i] == CR && self.buf[i + 1] == LF {
                return Some(i);
            }
            i = i + 1;
        }
        None
    }

    /// A copy of the `len` bytes from `start`.
    fn create_string(&self, start: usize, len: usize) -> (r: Vec<u8>)
        requires
            start + len <= self.buf@.len(),
        ensures
            r@ == self.buf@.subrange(start as int, start + len),
    {
        let mut out: Vec<u8> = Vec::new();
        let mut k: usize = 0;
        while k < len
            invariant
                k <= len,
                start + len <= self.buf.len(),
                out@ == self.buf@.subrange(start as int, start + k),
            decreases len - k,
        {
            out.push(self.buf[start + k]);
            k = k + 1;
            assert(out@ =~= self.buf@.subrange(start as int, start + k));
        }
        out
    }

    /// The base-10 signed 64-bit integer written by the bytes in `[start, end)`.
    fn create_integer(&self, start: usize, end: usize) -> (r: Option<i64>)
        requires
            start <= end <= self.buf@.len(),
        ensures
            r matches Some(n) ==> i64_value(self.buf@.subrange(start as int, end as int)) == Some(n as int),
            r is None ==> i64_value(self.buf@.subrange(start as int, end as int)) is None,
    {
        let ghost line = self.buf@.subrange(start as int, end as int);
        let neg = start < end && self.buf[start] == MINUS;
        let ds: usize = if neg { start + 1 } else { start };
        let ghost digits = self.buf@.subrange(ds as int, end as int);
        proof {
            if neg {
                assert(digits =~= line.skip(1));
            } else {
                assert(digits =~= line);
            }
        }
        if ds >= end {
            return None;
        }
        let limit: u64 = if neg { 9223372036854775808u64 } else { 9223372036854775807u64 };
        let mut acc: u64 = 0;
        let mut k: usize = ds;
        while k < end
            invariant
                ds <= k <= end <= self.buf@.len(),
                digits == self.buf@.subrange(ds as int, end as int),
                line == self.buf@.subrange(start as int, end as int),
                neg ==> line.len() > 0 && line[0] == MINUS && digits == line.skip(1),
                !neg ==> digits == line && line[0] != MINUS,
                start <= ds,
                limit == if neg { 9223372036854775808u64 } else { 9223372036854775807u64 },
                acc <= limit,
                acc == digits_value(digits.subrange(0, k - ds)),
                forall|j: int| 0 <= j < k - ds ==> is_digit(#[trigger] digits[j]),
            decreases end - k,
        {
            let c = self.buf[k];
            if c < DIGIT_0 || c > DIGIT_9 {
                assert(!is_digit(digits[k - ds]));
                assert(neg ==> !is_digit(line[0]));
                return None;
            }
            let d = (c - DIGIT_0) as u64;
            assert(d <= 9);
            assert(digits.subrange(0, k + 1 - ds).drop_last() =~= digits.subrange(0, k - ds));
            if acc > (limit - d) / 10 {
                assert(acc * 10 + d > limit) by (nonlinear_arith)
                    requires acc > (limit - d) / 10, d <= 9, d <= limit;
                proof {
                    if all_digits(digits) {
                        lemma_digits_value_prefix(digits, k + 1 - ds);
                    }
                }
                return None;
            }
            assert(acc * 10 + d <= limit) by (nonlinear_arith)
                requires acc <= (limit - d) / 10, d <= 9, d <= limit;
            acc = acc * 10 + d;
            k = k + 1;
        }
        assert(digits.subrange(0, k - ds) =~= digits);
        if neg {
            if acc == 9223372036854775808u64 {
                Some(-9223372036854775807i64 - 1)
            } else {
                Some(-(acc as i64))
            }
        } else {
            Some(acc as i64)
        }
    }

    /// Whether the bytes in `[start, end)` hold no CR and no LF.
    fn line_is_clean(&self, start: usize, end: usize) -> (r: bool)
        requires
            start <= end <= self.buf@.len(),
        ensures
            r == !has_line_break(self.buf@.subrange(start as int, end as int)),
    {
        let ghost line = self.buf@.subrange(start as int, end as int);
        let mut k: usize = start;
        while k < end
            invariant
                start <= k <= end <= self.buf@.len(),
                line == self.buf@.subrange(start as int, end as int),
                forall|j: int| 0 <= j < k - start ==> !(#[trigger] line[j] == CR || line[j] == LF),
            decreases end - k,
        {
            if self.buf[k] == CR || self.buf[k] == LF {
                assert(line[k - start] == CR || line[k - start] == LF);
                return false;
            }
            k = k + 1;
        }
        true
    }

    /// A status, error or integer reply whose tag stands at `i` and whose
    /// line ends at `e`.
    fn process_line_item(&self, i: usize, e: usize, depth: usize) -> (r: Scan)
        requires
            i < self.buf@.len(),
            self.buf@[i as int] == PLUS || self.buf@[i as int] == MINUS || self.buf@[i as int] == COLON,
            depth < MAX_DEPTH,
            line_end(self.buf@, i + 1) == Some(e as int),
        ensures
            scan_is(r, parse_at(self.buf@, i as int, depth as int)),
            r matches Scan::Done(_, n) ==> i < n <= self.buf@.len(),
    {
        let len = self.buf.len();
        proof {
            lemma_line_end(self.buf@, i + 1);
        }
        let tag = self.buf[i];
        if tag == COLON {
            match self.create_integer(i + 1, e) {
                Some(n) => Scan::Done(RedisObject::RedisInteger(n), e + 2),
                None => Scan::Bad(ProtocolError::BadInteger),
            }
        } else if !self.line_is_clean(i + 1, e) {
            Scan::Bad(ProtocolError::MalformedTerminator)
        } else if tag == PLUS {
            Scan::Done(RedisObject::RedisStatus(self.create_string(i + 1, e - (i + 1))), e + 2)
        } else {
            Scan::Done(RedisObject::RedisError(self.create_string(i + 1, e - (i + 1))), e + 2)
        }
    }

    /// A bulk string whose tag stands at `i` and whose length line ends at `e`.
    fn process_bulk_item(&self, i: usize, e: usize, depth: usize) -> (r: Scan)
        requires
            i < self.buf@.len(),
            self.buf@[i as int] == DOLLAR,
            depth < MAX_DEPTH,
            line_end(self.buf@, i + 1) == Some(e as int),
        ensures
            scan_is(r, parse_at(self.buf@, i as int, depth as int)),
            r matches Scan::Done(_, n) ==> i < n <= self.buf@.len(),
    {
        let len = self.buf.len();
        proof {
            lemma_line_end(self.buf@, i + 1);
        }
        let next = e + 2;
        match self.create_integer(i + 1, e) {
            None => Scan::Bad(ProtocolError::BadLength),
            Some(n) => {
                if n < -1 {
                    Scan::Bad(ProtocolError::BadLength)
                } else if n == -1 {
                    Scan::Done(RedisObject::RedisNil, next)
                } else {
                    let avail = self.buf.len() - next;
                    if avail < 2 || (n as u64) > ((avail - 2) as u64) {
                        Scan::More
                    } else {
                        let m = n as usize;
                        if self.buf[next + m] != CR || self.buf[next + m + 1] != LF {
                            Scan::Bad(ProtocolError::MalformedTerminator)
                        } else {
                            Scan::Done(RedisObject::RedisString(self.create_string(next, m)), next + m + 2)
                        }
                    }
                }
            },
        }
    }

    /// The start of an array whose tag stands at `i` and whose count line
    /// ends at `e`: a whole value when the count is -1 or 0, else the count
    /// and where its first element starts.
    fn process_multi_bulk_item(&self, i: usize, e: usize, depth: usize) -> (r: Item)
        requires
            i < self.buf@.len(),
            self.buf@[i as int] == STAR,
            depth < MAX_DEPTH,
            line_end(self.buf@, i + 1) == Some(e as int),
        ensures
            item_is(r, self.buf@, i as int, depth as int),
    {
        let len = self.buf.len();
        proof {
            lemma_line_end(self.buf@, i + 1);
        }
        let next = e + 2;
        match self.create_integer(i + 1, e) {
            None => Item::Bad(ProtocolError::BadLength),
            Some(count) => {
                if count < -1 {
                    Item::Bad(ProtocolError::BadLength)
                } else if count == -1 {
                    Item::Value(RedisObject::RedisNil, next)
                } else if count == 0 {
                    let r = RedisObject::RedisArray(Vec::new());
                    assert(r@ == Reply::Array(Seq::empty())) by {
                        assert(r@->Array_0 =~= Seq::<Reply>::empty());
                    }
                    Item::Value(r, next)
                } else {
                    Item::Open(count, next)
                }
            },
        }
    }

    /// One step of decoding at `i`, with `depth` arrays open around it.
    fn process_item(&self, i: usize, depth: usize) -> (r: Item)
        ensures
            item_is(r, self.buf@, i as int, depth as int),
    {
        if i >= self.buf.len() {
            return Item::More;
        }
        let tag = self.buf[i];
        if !Self::check_reply_type(tag) {
            return Item::Bad(ProtocolError::BadTypeTag);
        }
        if depth >= MAX_DEPTH {
            return Item::Bad(ProtocolError::NestingTooDeep);
        }
        proof {
            lemma_line_end(self.buf@, i + 1);
        }
        match self.find_newline(i + 1) {
            None => Item::More,
            Some(e) => {
                if tag == STAR {
                    self.process_multi_bulk_item(i, e, depth)
                } else {
                    let s = if tag == DOLLAR {
                        self.process_bulk_item(i, e, depth)
                    } else {
                        self.process_line_item(i, e, depth)
                    };
                    match s {
                        Scan::Done(o, n) => Item::Value(o, n),
                        Scan::More => Item::More,
                        Scan::Bad(k) => Item::Bad(k),
                    }
                }
            },
        }
    }

    /// Decodes from the cursor on. Arrays under assembly wait on the frame
    /// stack, at most `MAX_DEPTH` deep; a finished value goes into the frame
    /// below it, and finishes that array in turn when it was the last
    /// element. When more bytes are needed the cursor and the frames stay
    /// where the next attempt resumes.
    fn decode(&mut self) -> (r: Scan)
        requires
            old(self).wf(),
        ensures
            !(r is Done) ==> final(self).wf(),
            final(self).buf@ == old(self).buf@,
            final(self).err == old(self).err,
            scan_is(r, parse(old(self).buf@)),
            r matches Scan::Done(_, n) ==> n <= old(self).buf@.len() && final(self).stack@.len() == 0,
    {
        let ghost b = self.buf@;
        proof {
            assert(b + Seq::<u8>::empty() =~= b);
        }
        loop
            invariant
                self.wf(),
                b == self.buf@,
                b == old(self).buf@,
                self.err == old(self).err,
                b + Seq::<u8>::empty() == b,
            decreases b.len() - self.pos,
        {
            let ghost frames = frames_view(self.stack@);
            let ghost d = self.stack@.len() as int;
            let ghost pos0 = self.pos as int;
            match self.process_item(self.pos, self.stack.len()) {
                Item::More => {
                    proof {
                        lemma_unwind_more(b, frames);
                        assert(parse(b + Seq::<u8>::empty()) == unwind(
                            b + Seq::<u8>::empty(),
                            frames,
                            parse_at(b + Seq::<u8>::empty(), pos0, d),
                        ));
                    }
                    return Scan::More;
                },
                Item::Bad(k) => {
                    proof {
                        lemma_unwind_bad(b, frames, k);
                        assert(parse(b + Seq::<u8>::empty()) == unwind(
                            b + Seq::<u8>::empty(),
                            frames,
                            parse_at(b + Seq::<u8>::empty(), pos0, d),
                        ));
                    }
                    return Scan::Bad(k);
                },
                Item::Open(count, next) => {
                    self.stack.push(Frame { items: Vec::new(), remaining: count });
                    self.pos = next;
                    proof {
                        assert(views(Seq::<RedisObject>::empty()) =~= Seq::<Reply>::empty());
                        assert(frames_view(self.stack@) =~= frames.push((Seq::<Reply>::empty(), count as int)));
                        assert(frames_view(self.stack@).drop_last() =~= frames);
                        assert forall|c: Seq<u8>| #[trigger] parse(b + c) == unwind(
                            b + c,
                            frames_view(self.stack@),
                            parse_at(b + c, next as int, d + 1),
                        ) by {
                            lemma_open_extend(b, c, pos0, d, count as int, next as int);
                            lemma_open(b + c, next as int, count as int, d);
                        }
                    }
                },
                Item::Value(v, end) => {
                    let mut value = v;
                    let ghost n = end as int;
                    proof {
                        assert forall|c: Seq<u8>| #[trigger] parse(b + c) == unwind(
                            b + c,
                            frames,
                            Parsed::Done(value@, n),
                        ) by {
                            lemma_parse_at_extend(b, c, pos0, d);
                        }
                    }
                    loop
                        invariant_except_break
                            forall|c: Seq<u8>| #[trigger] parse(b + c) == unwind(
                                b + c,
                                frames_view(self.stack@),
                                Parsed::Done(value@, n),
                            ),
                            self.pos == pos0,
                        invariant
                            b == self.buf@,
                            b == old(self).buf@,
                            self.err == old(self).err,
                            b + Seq::<u8>::empty() == b,
                            pos0 < end <= b.len(),
                            self.stack@.len() <= MAX_DEPTH,
                            forall|j: int| 0 <= j < self.stack@.len() ==> (#[trigger] self.stack@[j]).remaining >= 1,
                            n == end,
                        ensures
                            self.wf(),
                            self.pos == end,
                        decreases self.stack@.len(),
                    {
                        let ghost before = frames_view(self.stack@);
                        match self.stack.pop() {
                            None => {
                                assert(frames_view(self.stack@) =~= Seq::<(Seq<Reply>, int)>::empty());
                                assert(parse(b + Seq::<u8>::empty()) == Parsed::Done(value@, n));
                                return Scan::Done(value, end);
                            },
                            Some(top) => {
                                let ghost dd = self.stack@.len() as int;
                                let ghost items = views(top.items@);
                                let ghost vv = value@;
                                proof {
                                    assert(before.drop_last() =~= frames_view(self.stack@));
                                    assert(before.last() == (items, top.remaining as int));
                                }
                                let Frame { items: mut its, remaining } = top;
                                its.push(value);
                                proof {
                                    assert(views(its@) =~= items + seq![vv]);
                                }
                                if remaining == 1 {
                                    proof {
                                        assert forall|c: Seq<u8>| #[trigger] parse(b + c) == unwind(
                                            b + c,
                                            frames_view(self.stack@),
                                            Parsed::Done(Reply::Array(items + seq![vv]), n),
                                        ) by {
                                            lemma_close(b + c, items, vv, n, dd);
                                        }
                                    }
                                    let arr = RedisObject::RedisArray(its);
                                    assert(arr@ == Reply::Array(items + seq![vv])) by {
                                        assert(arr@->Array_0 =~= items + seq![vv]);
                                    }
                                    value = arr;
                                } else {
                                    let ghost rest = frames_view(self.stack@);
                                    self.stack.push(Frame { items: its, remaining: remaining - 1 });
                                    self.pos = end;
                                    proof {
                                        assert(frames_view(self.stack@).drop_last() =~= rest);
                                        assert(frames_view(self.stack@).last() == (items + seq![vv], remaining - 1));
                                        assert forall|c: Seq<u8>| #[trigger] parse(b + c) == unwind(
                                            b + c,
                                            frames_view(self.stack@),
                                            parse_at(b + c, n, dd + 1),
                                        ) by {
                                            lemma_continue(b + c, items, remaining as int, vv, n, dd);
                                        }
                                    }
                                    break;
                                }
                            },
                        }
                    }
                },
            }
        }
    }

    /// Appends bytes received from the transport; nothing is parsed here.
    pub fn feed(&mut self, data: &[u8])
        requires
            old(self).wf(),
        ensures
            final(self).wf(),
            final(self).pending() == old(self).pending() + data@,
            final(self).failure() == old(self).failure(),
    {
        let mut k: usize = 0;
        while k < data.len()
            invariant
                k <= data@.len(),
                self.err == old(self).err,
                self.pos == old(self).pos,
                self.stack == old(self).stack,
                self.buf@ == old(self).buf@ + data@.subrange(0, k as int),
            decreases data.len() - k,
        {
            self.buf.push(data[k]);
            k = k + 1;
            assert(self.buf@ =~= old(self).buf@ + data@.subrange(0, k as int));
        }
        assert(data@.subrange(0, k as int) =~= data@);
        proof {
            let ob = old(self).buf@;
            assert forall|c: Seq<u8>| #[trigger] parse(self.buf@ + c) == unwind(
                self.buf@ + c,
                frames_view(self.stack@),
                parse_at(self.buf@ + c, self.pos as int, frames_view(self.stack@).len() as int),
            ) by {
                assert(self.buf@ + c =~= ob + (data@ + c));
                assert(parse(ob + (data@ + c)) == unwind(
                    ob + (data@ + c),
                    frames_view(self.stack@),
                    parse_at(ob + (data@ + c), self.pos as int, frames_view(self.stack@).len() as int),
                ));
            }
        }
    }

    /// Marks this decoder as stopped on `err`.
    fn set_error(&mut self, err: ProtocolError)
        requires
            old(self).wf(),
        ensures
            final(self).wf(),
            final(self).failure() == Some(err),
            final(self).pending() == old(self).pending(),
    {
        self.err = Some(err);
    }

    /// Tries to decode the next top-level reply from the bytes fed so far.
    ///
    /// On a complete reply its bytes leave the buffer; when more bytes are
    /// needed nothing changes; on a protocol error the decoder keeps that
    /// error and answers it to every later call.
    pub fn process_reply(&mut self) -> (r: DecodeOutcome)
        requires
            old(self).wf(),
        ensures
            final(self).wf(),
            old(self).failure() matches Some(k) ==> r == DecodeOutcome::Failed(k)
                && final(self).failure() == old(self).failure()
                && final(self).pending() == old(self).pending(),
            old(self).failure() is None ==> outcome_is(r, parse(old(self).pending())),
            old(self).failure() is None ==> match parse(old(self).pending()) {
                Parsed::Done(_, n) => final(self).pending() == old(self).pending().skip(n)
                    && final(self).failure() is None,
                Parsed::More => final(self).pending() == old(self).pending()
                    && final(self).failure() is None,
                Parsed::Bad(k) => final(self).pending() == old(self).pending()
                    && final(self).failure() == Some(k),
            },
    {
        if let Some(k) = self.err {
            return DecodeOutcome::Failed(k);
        }
        match self.decode() {
            Scan::Done(o, n) => {
                let rest = self.create_string(n, self.buf.len() - n);
                self.buf = rest;
                self.pos = 0;
                proof {
                    assert(frames_view(self.stack@) =~= Seq::<(Seq<Reply>, int)>::empty());
                }
                DecodeOutcome::Complete(o)
            },
            Scan::More => DecodeOutcome::Incomplete,
            Scan::Bad(k) => {
                self.set_error(k);
                DecodeOutcome::Failed(k)
            },
        }
    }
}

} // verus!
