//! The response encoder: status line, multi-line payload, byte-stuffing.

use vstd::prelude::*;
use vstd::slice::slice_subrange;
use crate::text::{
    chomp, content_lines, line_end, lines_view, lemma_line_end_at, lemma_line_end_bounds,
};

verus! {

/// The outcome of one command, before it is put on the wire.
#[derive(Clone, Debug, PartialEq, Eq)]
pub struct Response {
    /// Success (`+OK`) or failure (`-ERR`).
    pub ok: bool,
    /// The text after the status indicator.
    pub status: Vec<u8>,
    /// The lines of a multi-line payload, unescaped; `None` for a single-line response.
    pub body: Option<Vec<Vec<u8>>>,
}

/// The mathematical model of a response.
pub struct ResponseView {
    pub ok: bool,
    pub status: Seq<u8>,
    pub body: Option<Seq<Seq<u8>>>,
}

impl View for Response {
    type V = ResponseView;

    open spec fn view(&self) -> ResponseView {
        ResponseView {
            ok: self.ok,
            status: self.status@,
            body: match self.body {
                Some(lines) => Some(lines_view(lines@)),
                None => None,
            },
        }
    }
}

/// A payload line as sent: one more `.` in front of a line that begins with `.`.
pub open spec fn stuff_line(l: Seq<u8>) -> Seq<u8> {
    if l.len() > 0 && l[0] == 46 {
        seq![46u8] + l
    } else {
        l
    }
}

/// A payload line as received: without one leading `.`, if it has one.
pub open spec fn unstuff_line(l: Seq<u8>) -> Seq<u8> {
    if l.len() > 0 && l[0] == 46 {
        l.drop_first()
    } else {
        l
    }
}

/// `+OK ` or `-ERR `.
pub open spec fn indicator(ok: bool) -> Seq<u8> {
    if ok {
        seq![43u8, 79u8, 75u8, 32u8]
    } else {
        seq![45u8, 69u8, 82u8, 82u8, 32u8]
    }
}

/// Carriage return, line feed.
pub open spec fn crlf() -> Seq<u8> {
    seq![13u8, 10u8]
}

/// The first `n` payload lines on the wire: each escaped and ended by CRLF.
pub open spec fn encode_lines(lines: Seq<Seq<u8>>, n: int) -> Seq<u8>
    decreases n,
{
    if n <= 0 {
        Seq::empty()
    } else {
        encode_lines(lines, n - 1) + stuff_line(lines[n - 1]) + crlf()
    }
}

/// The response on the wire: the status line, then for a multi-line response
/// the payload lines and the terminator line, a lone `.`.
pub open spec fn encode_spec(r: ResponseView) -> Seq<u8> {
    let head = indicator(r.ok) + r.status + crlf();
    match r.body {
        None => head,
        Some(lines) => head + encode_lines(lines, lines.len() as int) + seq![46u8] + crlf(),
    }
}

/// The escaped form of a payload line.
pub fn stuff(line: &[u8]) -> (r: Vec<u8>)
    ensures
        r@ == stuff_line(line@),
{
    let mut r: Vec<u8> = Vec::new();
    if line.len() > 0 && line[0] == 46 {
        r.push(46);
    }
    r.extend_from_slice(line);
    assert(r@ =~= stuff_line(line@));
    r
}

/// The payload line that an escaped line stands for.
pub fn unstuff(line: &[u8]) -> (r: &[u8])
    ensures
        r@ == unstuff_line(line@),
{
    if line.len() > 0 && line[0] == 46 {
        slice_subrange(line, 1, line.len())
    } else {
        line
    }
}

impl Response {
    /// A single-line success.
    pub fn ok(status: Vec<u8>) -> (r: Response)
        ensures
            r@ == (ResponseView { ok: true, status: status@, body: None }),
    {
        Response { ok: true, status, body: None }
    }

    /// A single-line failure.
    pub fn err(status: Vec<u8>) -> (r: Response)
        ensures
            r@ == (ResponseView { ok: false, status: status@, body: None }),
    {
        Response { ok: false, status, body: None }
    }

    /// A multi-line success.
    pub fn multi(status: Vec<u8>, lines: Vec<Vec<u8>>) -> (r: Response)
        ensures
            r@ == (ResponseView { ok: true, status: status@, body: Some(lines_view(lines@)) }),
    {
        Response { ok: true, status, body: Some(lines) }
    }

    /// The bytes to send for this response.
    pub fn respond(&self) -> (out: Vec<u8>)
        ensures
            out@ == encode_spec(self@),
    {
        let mut out: Vec<u8> = Vec::new();
        if self.ok {
            out.push(43);
            out.push(79);
            out.push(75);
            out.push(32);
        } else {
            out.push(45);
            out.push(69);
            out.push(82);
            out.push(82);
            out.push(32);
        }
        assert(out@ =~= indicator(self.ok));
        out.extend_from_slice(self.status.as_slice());
        out.push(13);
        out.push(10);
        let ghost head = indicator(self.ok) + self.status@ + crlf();
        assert(out@ =~= head);
        match &self.body {
            None => {},
            Some(lines) => {
                let mut i: usize = 0;
                while i < lines.len()
                    invariant
                        i <= lines@.len(),
                        out@ == head + encode_lines(lines_view(lines@), i as int),
                    decreases lines@.len() - i,
                {
                    let ghost before = out@;
                    let line = lines[i].as_slice();
                    if line.len() > 0 && line[0] == 46 {
                        out.push(46);
                    }
                    out.extend_from_slice(line);
                    out.push(13);
                    out.push(10);
                    assert(out@ =~= before + stuff_line(line@) + crlf());
                    assert(lines_view(lines@)[i as int] == line@);
                    assert(out@ =~= head + encode_lines(lines_view(lines@), i + 1));
                    i += 1;
                }
                out.push(46);
                out.push(13);
                out.push(10);
                assert(out@ =~= head + encode_lines(lines_view(lines@), lines@.len() as int)
                    + seq![46u8] + crlf());
            },
        }
        out
    }
}

/// Escaping a payload line and undoing the escape gives the line back, and an
/// escaped line is never the terminator line, a lone `.`.
pub proof fn law_stuffing_round_trip(line: Seq<u8>)
    ensures
        unstuff_line(stuff_line(line)) == line,
        stuff_line(line) != seq![46u8],
{
    if line.len() > 0 && line[0] == 46 {
        assert((seq![46u8] + line).drop_first() =~= line);
        assert((seq![46u8] + line).len() != seq![46u8].len());
    } else {
        if line.len() > 0 {
            assert(line[0] != seq![46u8][0]);
        } else {
            assert(line.len() != seq![46u8].len());
        }
    }
}

/// A multi-line payload as a client reads it from position `from` of the
/// wire bytes: line by line up to the terminator line, each line without its
/// line end and without one leading `.`. `None` where the terminator is missing.
pub open spec fn decode_payload(w: Seq<u8>, from: int) -> Option<Seq<Seq<u8>>>
    decreases w.len() - from,
{
    let e = line_end(w, from);
    if 0 <= from <= e < w.len() {
        let l = chomp(w.subrange(from, e));
        if l == seq![46u8] {
            Some(Seq::empty())
        } else {
            match decode_payload(w, e + 1) {
                Some(rest) => Some(seq![unstuff_line(l)] + rest),
                None => None,
            }
        }
    } else {
        None
    }
}

/// A payload line holds no line feed.
pub open spec fn single_line(l: Seq<u8>) -> bool {
    forall|i: int| 0 <= i < l.len() ==> l[i] != 10
}

proof fn lemma_encode_prefix(lines: Seq<Seq<u8>>, k: int, n: int)
    requires
        0 <= k <= n,
    ensures
        encode_lines(lines, k).len() <= encode_lines(lines, n).len(),
        encode_lines(lines, n).subrange(0, encode_lines(lines, k).len() as int) == encode_lines(
            lines,
            k,
        ),
    decreases n - k,
{
    let short = encode_lines(lines, k);
    if k < n {
        lemma_encode_prefix(lines, k, n - 1);
        assert(encode_lines(lines, n).subrange(0, short.len() as int) =~= encode_lines(
            lines,
            n - 1,
        ).subrange(0, short.len() as int));
    } else {
        assert(short.subrange(0, short.len() as int) =~= short);
    }
}

proof fn lemma_decode_suffix(lines: Seq<Seq<u8>>, k: int)
    requires
        0 <= k <= lines.len(),
        forall|i: int| 0 <= i < lines.len() ==> single_line(#[trigger] lines[i]),
    ensures
        decode_payload(
            encode_lines(lines, lines.len() as int) + seq![46u8] + crlf(),
            encode_lines(lines, k).len() as int,
        ) == Some(lines.subrange(k, lines.len() as int)),
    decreases lines.len() - k,
{
    let n = lines.len() as int;
    let body = encode_lines(lines, n);
    let w = body + seq![46u8] + crlf();
    let off = encode_lines(lines, k).len() as int;
    lemma_encode_prefix(lines, k, n);
    if k == n {
        lemma_line_end_at(w, off, off + 2);
        assert(w.subrange(off, off + 2) =~= seq![46u8, 13u8]);
        assert(chomp(seq![46u8, 13u8]) =~= seq![46u8]);
        assert(lines.subrange(n, n) =~= Seq::<Seq<u8>>::empty());
    } else {
        lemma_encode_prefix(lines, k + 1, n);
        let line = lines[k];
        let sent = stuff_line(line);
        let next = encode_lines(lines, k + 1);
        let e = off + sent.len() + 1;
        assert(next =~= encode_lines(lines, k) + sent + crlf());
        assert(single_line(line));
        assert forall|j: int| off <= j <= e implies w[j] == next[j] by {
            assert(body.subrange(0, next.len() as int)[j] == body[j]);
        }
        assert forall|j: int| off <= j < e implies w[j] != 10 by {
            if j < e - 1 {
                assert(next[j] == sent[j - off]);
            }
        }
        lemma_line_end_at(w, off, e);
        assert(w.subrange(off, e) =~= sent + seq![13u8]);
        assert(chomp(sent + seq![13u8]) =~= sent);
        law_stuffing_round_trip(line);
        lemma_decode_suffix(lines, k + 1);
        assert(seq![line] + lines.subrange(k + 1, n) =~= lines.subrange(k, n));
    }
}

/// What is sent for a payload reads back as the payload: every line comes
/// back unchanged, a line that begins with `.` included, and reading stops
/// at the terminator line and nowhere before it.
pub proof fn law_payload_round_trip(lines: Seq<Seq<u8>>)
    requires
        forall|i: int| 0 <= i < lines.len() ==> single_line(#[trigger] lines[i]),
    ensures
        decode_payload(encode_lines(lines, lines.len() as int) + seq![46u8] + crlf(), 0) == Some(
            lines,
        ),
{
    lemma_decode_suffix(lines, 0);
    assert(lines.subrange(0, lines.len() as int) =~= lines);
}

proof fn lemma_decode_shift(w: Seq<u8>, p: int, i: int)
    requires
        0 <= p <= w.len(),
        0 <= i <= w.len() - p,
    ensures
        decode_payload(w, p + i) == decode_payload(w.subrange(p, w.len() as int), i),
    decreases w.len() - p - i,
{
    let t = w.subrange(p, w.len() as int);
    lemma_line_end_bounds(w, p + i);
    lemma_line_end_bounds(t, i);
    let ew = line_end(w, p + i);
    let et = line_end(t, i);
    if ew < p + et {
        assert(t[ew - p] == w[ew]);
    }
    if ew > p + et {
        assert(t[et] == w[p + et]);
    }
    assert(ew == p + et);
    if et < t.len() {
        assert(w.subrange(p + i, ew) =~= t.subrange(i, et));
        lemma_decode_shift(w, p, et + 1);
    }
}

proof fn lemma_lines_single(s: Seq<u8>, from: int)
    requires
        0 <= from <= s.len(),
    ensures
        forall|i: int|
            0 <= i < content_lines(s, from).len() ==> single_line(
                #[trigger] content_lines(s, from)[i],
            ),
    decreases s.len() - from,
{
    lemma_line_end_bounds(s, from);
    let e = line_end(s, from);
    if from < s.len() {
        let l = chomp(s.subrange(from, e));
        assert forall|j: int| 0 <= j < l.len() implies l[j] != 10 by {
            assert(l[j] == s[from + j]);
        }
        assert(single_line(l));
        if e < s.len() {
            lemma_lines_single(s, e + 1);
            let rest = content_lines(s, e + 1);
            assert forall|i: int| 0 <= i < content_lines(s, from).len() implies single_line(
                #[trigger] content_lines(s, from)[i],
            ) by {
                if i > 0 {
                    assert(content_lines(s, from)[i] == rest[i - 1]);
                }
            }
        }
    }
}

/// Whatever bytes a message holds, the lines it is sent as hold no line
/// feed, so a retrieved message always reads back line by line.
pub proof fn law_message_reads_back(ok: bool, status: Seq<u8>, content: Seq<u8>)
    ensures
        ({
            let r = ResponseView { ok, status, body: Some(content_lines(content, 0)) };
            decode_payload(encode_spec(r), (indicator(ok) + status + crlf()).len() as int) == Some(
                content_lines(content, 0),
            )
        }),
{
    lemma_lines_single(content, 0);
    law_response_round_trip(ResponseView { ok, status, body: Some(content_lines(content, 0)) });
}

/// A multi-line response reads back: what follows the status line of the
/// encoded response is read as the payload that the response holds.
pub proof fn law_response_round_trip(r: ResponseView)
    requires
        r.body is Some,
        forall|i: int| 0 <= i < r.body->Some_0.len() ==> single_line(#[trigger] r.body->Some_0[i]),
    ensures
        decode_payload(encode_spec(r), (indicator(r.ok) + r.status + crlf()).len() as int)
            == r.body,
{
    let lines = r.body->Some_0;
    let head = indicator(r.ok) + r.status + crlf();
    let tail = encode_lines(lines, lines.len() as int) + seq![46u8] + crlf();
    let w = encode_spec(r);
    assert(w.subrange(head.len() as int, w.len() as int) =~= tail);
    lemma_decode_shift(w, head.len() as int, 0);
    law_payload_round_trip(lines);
}

} // verus!
