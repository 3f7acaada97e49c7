//! The framing layer: incoming bytes are cut into command lines, outgoing
//! responses are appended to the write buffer.

use vstd::prelude::*;
use vstd::slice::slice_subrange;
use bytes::BytesMut;
use crate::command::{Command, CommandView, ParseError, parsed_view, parse_spec, trim, trim_bytes};
use crate::response::{Response, encode_spec};
use crate::text::{line_end, find_line_end, lemma_line_end_at, lemma_line_end_bounds};

verus! {

/// The byte buffer of the `bytes` crate. Verus sees nothing inside it; what
/// it holds is named by `buffered`.
#[verifier::external_type_specification]
#[verifier::external_body]
pub struct ExBytesMut(bytes::BytesMut);

/// The bytes that a buffer holds, first to last.
pub uninterp spec fn buffered(b: BytesMut) -> Seq<u8>;

/// `BytesMut::as_ref`: the buffer's contents as a slice. Trusted: the slice
/// holds exactly the buffered bytes, in order.
#[verifier::external_body]
fn buffer_bytes(b: &BytesMut) -> (r: &[u8])
    ensures
        r@ == buffered(*b),
{
    b.as_ref()
}

/// `BytesMut::split_to`: cuts the first `at` bytes off the buffer. Trusted:
/// the result holds bytes `[0, at)` and the buffer keeps bytes `[at, len)`;
/// the call panics where `at` exceeds the length, which `requires` excludes.
#[verifier::external_body]
fn buffer_split_to(b: &mut BytesMut, at: usize) -> (head: BytesMut)
    requires
        at <= buffered(*old(b)).len(),
    ensures
        buffered(head) == buffered(*old(b)).subrange(0, at as int),
        buffered(*final(b)) == buffered(*old(b)).subrange(
            at as int,
            buffered(*old(b)).len() as int,
        ),
{
    b.split_to(at)
}

/// `BytesMut::extend_from_slice`: appends `data` to the buffer, growing it
/// where needed. Trusted: the buffer then holds what it held, followed by
/// `data`. Like every growing buffer it gives up where memory runs out.
#[verifier::external_body]
fn buffer_extend(b: &mut BytesMut, data: &[u8])
    ensures
        buffered(*final(b)) == buffered(*old(b)) + data@,
{
    b.extend_from_slice(data)
}

/// One command line as received: the command it spells, or why it spells none.
#[derive(Debug, PartialEq, Eq)]
pub struct Request {
    pub command: Result<Command, ParseError>,
}

impl View for Request {
    type V = Result<CommandView, ParseError>;

    open spec fn view(&self) -> Result<CommandView, ParseError> {
        parsed_view(self.command)
    }
}

/// The models of the requests held in a vector.
pub open spec fn requests_view(v: Seq<Request>) -> Seq<Result<CommandView, ParseError>> {
    Seq::new(v.len(), |i: int| v[i]@)
}

/// The position after the last complete line of `s` at or after `from`:
/// what follows it is a partial line, kept for the next read.
pub open spec fn consumed(s: Seq<u8>, from: int) -> int
    decreases s.len() - from,
{
    let e = line_end(s, from);
    if 0 <= from <= e < s.len() {
        consumed(s, e + 1)
    } else {
        from
    }
}

/// The requests that the complete lines of `s` at or after `from` spell, in
/// order. A line ends at a line feed, with or without a carriage return
/// before it; a blank line gives no request.
pub open spec fn requests_from(s: Seq<u8>, from: int) -> Seq<Result<CommandView, ParseError>>
    decreases s.len() - from,
{
    let e = line_end(s, from);
    if 0 <= from <= e < s.len() {
        let line = s.subrange(from, e);
        if trim(line).len() == 0 {
            requests_from(s, e + 1)
        } else {
            seq![parse_spec(line)] + requests_from(s, e + 1)
        }
    } else {
        Seq::empty()
    }
}

/// Cuts `data` into lines and parses each: the requests of the complete
/// lines, and how many bytes they take.
pub fn scan_requests(data: &[u8]) -> (r: (Vec<Request>, usize))
    ensures
        requests_view(r.0@) == requests_from(data@, 0),
        r.1 == consumed(data@, 0),
        r.1 <= data@.len(),
{
    let mut out: Vec<Request> = Vec::new();
    let mut pos: usize = 0;
    assert(requests_view(out@) =~= Seq::<Result<CommandView, ParseError>>::empty());
    loop
        invariant
            pos <= data@.len(),
            requests_from(data@, 0) == requests_view(out@) + requests_from(data@, pos as int),
            consumed(data@, 0) == consumed(data@, pos as int),
        decreases data@.len() - pos,
    {
        let e = find_line_end(data, pos);
        if e >= data.len() {
            assert(requests_from(data@, pos as int) =~= Seq::<
                Result<CommandView, ParseError>,
            >::empty());
            assert(requests_view(out@) + requests_from(data@, pos as int) =~= requests_view(
                out@,
            ));
            assert(consumed(data@, pos as int) == pos);
            return (out, pos);
        }
        let line = slice_subrange(data, pos, e);
        assert(consumed(data@, pos as int) == consumed(data@, e + 1));
        if trim_bytes(line).len() > 0 {
            let request = Request { command: Command::parse(line) };
            let ghost before = out@;
            out.push(request);
            assert(requests_view(out@) =~= requests_view(before).push(request@));
            assert(requests_from(data@, pos as int) == seq![request@] + requests_from(
                data@,
                e + 1,
            ));
            assert(requests_view(before) + (seq![request@] + requests_from(data@, e + 1))
                =~= requests_view(out@) + requests_from(data@, e + 1));
        } else {
            assert(requests_from(data@, pos as int) == requests_from(data@, e + 1));
        }
        pos = e + 1;
    }
}

/// The POP3 line codec.
#[derive(Debug)]
pub struct Pop;

impl Pop {
    /// Takes every complete line out of `src` and parses it; a partial last
    /// line stays in `src` for the next read. `None` where no request is
    /// complete yet.
    pub fn decode(&mut self, src: &mut BytesMut) -> (r: Option<Vec<Request>>)
        ensures
            buffered(*final(src)) == buffered(*old(src)).subrange(
                consumed(buffered(*old(src)), 0),
                buffered(*old(src)).len() as int,
            ),
            match r {
                Some(requests) => requests@.len() > 0 && requests_view(requests@)
                    == requests_from(buffered(*old(src)), 0),
                None => requests_from(buffered(*old(src)), 0).len() == 0,
            },
    {
        let (requests, used) = scan_requests(buffer_bytes(src));
        let _ = buffer_split_to(src, used);
        if requests.len() == 0 {
            None
        } else {
            Some(requests)
        }
    }

    /// Appends the wire form of `item` to `dst`.
    pub fn encode(&mut self, item: Response, dst: &mut BytesMut)
        ensures
            buffered(*final(dst)) == buffered(*old(dst)) + encode_spec(item@),
    {
        let bytes = item.respond();
        buffer_extend(dst, bytes.as_slice());
    }
}

proof fn lemma_scan_shift(s: Seq<u8>, p: int, i: int)
    requires
        0 <= p <= s.len(),
        0 <= i <= s.len() - p,
    ensures
        requests_from(s, p + i) == requests_from(s.subrange(p, s.len() as int), i),
        consumed(s, p + i) == p + consumed(s.subrange(p, s.len() as int), i),
    decreases s.len() - p - i,
{
    let t = s.subrange(p, s.len() as int);
    lemma_line_end_bounds(s, p + i);
    lemma_line_end_bounds(t, i);
    let es = line_end(s, p + i);
    let et = line_end(t, i);
    if es < p + et {
        assert(t[es - p] == s[es]);
    }
    if es > p + et {
        assert(t[et] == s[p + et]);
    }
    assert(es == p + et);
    if et < t.len() {
        assert(s.subrange(p + i, es) =~= t.subrange(i, et));
        lemma_scan_shift(s, p, et + 1);
    }
}

proof fn lemma_scan_prefix(a: Seq<u8>, b: Seq<u8>, pos: int)
    requires
        0 <= pos <= a.len(),
    ensures
        pos <= consumed(a, pos) <= a.len(),
        requests_from(a + b, pos) == requests_from(a, pos) + requests_from(
            a + b,
            consumed(a, pos),
        ),
        consumed(a + b, pos) == consumed(a + b, consumed(a, pos)),
    decreases a.len() - pos,
{
    lemma_line_end_bounds(a, pos);
    let e = line_end(a, pos);
    if e < a.len() {
        assert forall|j: int| pos <= j < e implies (a + b)[j] != 10 by {
            assert((a + b)[j] == a[j]);
        }
        assert((a + b)[e] == a[e]);
        lemma_line_end_at(a + b, pos, e);
        assert((a + b).subrange(pos, e) =~= a.subrange(pos, e));
        lemma_scan_prefix(a, b, e + 1);
        let line = a.subrange(pos, e);
        if trim(line).len() != 0 {
            assert(seq![parse_spec(line)] + (requests_from(a, e + 1) + requests_from(
                a + b,
                consumed(a, pos),
            )) =~= (seq![parse_spec(line)] + requests_from(a, e + 1)) + requests_from(
                a + b,
                consumed(a, pos),
            ));
        }
    } else {
        assert(requests_from(a, pos) + requests_from(a + b, pos) =~= requests_from(a + b, pos));
    }
}

/// Where the input is cut does not matter. Decoding `a`, then decoding what
/// that left together with `b`, gives the requests of decoding `a + b` in
/// one go, in the same order, and leaves the same bytes behind.
pub proof fn law_chunking(a: Seq<u8>, b: Seq<u8>)
    ensures
        ({
            let whole = a + b;
            let rest = a.subrange(consumed(a, 0), a.len() as int) + b;
            &&& 0 <= consumed(a, 0) <= a.len()
            &&& requests_from(whole, 0) == requests_from(a, 0) + requests_from(rest, 0)
            &&& whole.subrange(consumed(whole, 0), whole.len() as int) == rest.subrange(
                consumed(rest, 0),
                rest.len() as int,
            )
        }),
{
    let whole = a + b;
    let c = consumed(a, 0);
    lemma_scan_prefix(a, b, 0);
    let rest = a.subrange(c, a.len() as int) + b;
    assert(whole.subrange(c, whole.len() as int) =~= rest);
    lemma_scan_shift(whole, c, 0);
    lemma_scan_prefix(rest, Seq::<u8>::empty(), 0);
    assert(rest + Seq::<u8>::empty() =~= rest);
    assert(whole.subrange(consumed(whole, 0), whole.len() as int) =~= rest.subrange(
        consumed(rest, 0),
        rest.len() as int,
    ));
}

} // verus!
