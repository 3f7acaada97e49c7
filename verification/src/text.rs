//! Byte-level text helpers: literals, decimal numbers and line splitting.

use vstd::prelude::*;
use vstd::slice::slice_subrange;
use vstd::string::StringSliceAdditionalSpecFns;

verus! {

/// The decimal digits of `n`, most significant first, without leading zeros.
pub open spec fn decimal_digits(n: nat) -> Seq<u8>
    decreases n,
{
    if n < 10 {
        seq![(48 + n) as u8]
    } else {
        decimal_digits(n / 10).push((48 + n % 10) as u8)
    }
}

/// The models of the lines held in a vector of lines.
pub open spec fn lines_view(v: Seq<Vec<u8>>) -> Seq<Seq<u8>> {
    Seq::new(v.len(), |i: int| v[i]@)
}

/// The first position at or after `from` that holds a line feed, or the length.
pub open spec fn line_end(s: Seq<u8>, from: int) -> int
    decreases s.len() - from,
{
    if 0 <= from < s.len() && s[from] != 10 {
        line_end(s, from + 1)
    } else {
        from
    }
}

/// The line without one trailing carriage return.
pub open spec fn chomp(l: Seq<u8>) -> Seq<u8> {
    if l.len() > 0 && l.last() == 13 {
        l.drop_last()
    } else {
        l
    }
}

/// The lines of `s` from position `from` on: each ends at a line feed, with
/// or without a carriage return before it; a last line needs no terminator.
pub open spec fn content_lines(s: Seq<u8>, from: int) -> Seq<Seq<u8>>
    decreases s.len() - from,
{
    let e = line_end(s, from);
    if 0 <= from <= e < s.len() {
        seq![chomp(s.subrange(from, e))] + content_lines(s, e + 1)
    } else if 0 <= from < s.len() {
        seq![chomp(s.subrange(from, s.len() as int))]
    } else {
        Seq::empty()
    }
}

/// `line_end` stays in range, stops on a line feed and passes none.
pub proof fn lemma_line_end_bounds(s: Seq<u8>, from: int)
    requires
        0 <= from <= s.len(),
    ensures
        from <= line_end(s, from) <= s.len(),
        line_end(s, from) < s.len() ==> s[line_end(s, from)] == 10,
        forall|k: int| from <= k < line_end(s, from) ==> s[k] != 10,
    decreases s.len() - from,
{
    if from < s.len() && s[from] != 10 {
        lemma_line_end_bounds(s, from + 1);
    }
}

/// The first line feed at or after `from` is where `line_end` stops.
pub proof fn lemma_line_end_at(s: Seq<u8>, from: int, e: int)
    requires
        0 <= from <= e < s.len(),
        forall|j: int| from <= j < e ==> s[j] != 10,
        s[e] == 10,
    ensures
        line_end(s, from) == e,
    decreases e - from,
{
    if from < e {
        lemma_line_end_at(s, from + 1, e);
    }
}

/// A fresh vector with the bytes of `s`.
pub fn copy_bytes(s: &[u8]) -> (v: Vec<u8>)
    ensures
        v@ == s@,
{
    let mut v: Vec<u8> = Vec::new();
    v.extend_from_slice(s);
    v
}

/// Appends the bytes of `s`.
pub fn append_str(out: &mut Vec<u8>, s: &str)
    ensures
        final(out)@ == old(out)@ + s.spec_bytes(),
{
    out.extend_from_slice(s.as_bytes());
}

/// Appends `n` in decimal.
pub fn append_decimal(out: &mut Vec<u8>, n: u128)
    ensures
        final(out)@ == old(out)@ + decimal_digits(n as nat),
    decreases n,
{
    if n >= 10 {
        append_decimal(out, n / 10);
    }
    out.push(48 + (n % 10) as u8);
    assert(final(out)@ =~= old(out)@ + decimal_digits(n as nat));
}

/// The position of the first line feed at or after `from`, or the length.
pub fn find_line_end(s: &[u8], from: usize) -> (e: usize)
    requires
        from <= s@.len(),
    ensures
        e == line_end(s@, from as int),
        from <= e <= s@.len(),
{
    let mut e: usize = from;
    while e < s.len() && s[e] != 10
        invariant
            from <= e <= s@.len(),
            line_end(s@, from as int) == line_end(s@, e as int),
        decreases s@.len() - e,
    {
        e += 1;
    }
    e
}

/// The slice without one trailing carriage return.
pub fn chomp_bytes(l: &[u8]) -> (r: &[u8])
    ensures
        r@ == chomp(l@),
{
    if l.len() > 0 && l[l.len() - 1] == 13 {
        slice_subrange(l, 0, l.len() - 1)
    } else {
        l
    }
}

/// Splits a message into its lines.
pub fn split_lines(s: &[u8]) -> (lines: Vec<Vec<u8>>)
    ensures
        lines_view(lines@) == content_lines(s@, 0),
{
    let mut lines: Vec<Vec<u8>> = Vec::new();
    let mut pos: usize = 0;
    assert(lines_view(lines@) =~= Seq::<Seq<u8>>::empty());
    while pos < s.len()
        invariant
            pos <= s@.len(),
            content_lines(s@, 0) == lines_view(lines@) + content_lines(s@, pos as int),
        decreases s@.len() - pos,
    {
        let e = find_line_end(s, pos);
        let line = chomp_bytes(slice_subrange(s, pos, e));
        let owned = copy_bytes(line);
        let ghost before = lines@;
        lines.push(owned);
        assert(lines_view(lines@) =~= lines_view(before).push(owned@));
        assert(owned@ == chomp(s@.subrange(pos as int, e as int)));
        if e >= s.len() {
            assert(content_lines(s@, pos as int) == seq![owned@]);
            assert(lines_view(before) + seq![owned@] =~= lines_view(lines@));
            return lines;
        }
        assert(content_lines(s@, pos as int) == seq![owned@] + content_lines(s@, e + 1));
        assert(lines_view(before) + (seq![owned@] + content_lines(s@, e + 1)) =~= lines_view(
            lines@,
        ) + content_lines(s@, e + 1));
        pos = e + 1;
    }
    assert(content_lines(s@, pos as int) =~= Seq::<Seq<u8>>::empty());
    assert(lines_view(lines@) + Seq::<Seq<u8>>::empty() =~= lines_view(lines@));
    lines
}

} // verus!
