//! The command parser: one text line in, one typed command or a parse failure out.

use vstd::prelude::*;
use vstd::slice::slice_subrange;
use vstd::string::StringSliceAdditionalSpecFns;
use crate::text::{copy_bytes, decimal_digits};

verus! {

/// Why a line is not a command.
#[derive(Clone, Copy, Debug, PartialEq, Eq, Structural)]
pub enum ParseError {
    /// The first word is none of the known verbs (or the line is blank).
    UnrecognizedVerb,
    /// The verb needs an argument and the line holds none.
    MissingArgument,
    /// The argument is not a positive decimal number that fits an index.
    InvalidArgument,
}

/// One client command. Message indices are 1-based, as transmitted.
#[derive(Clone, Debug, PartialEq, Eq)]
pub enum Command {
    User(Vec<u8>),
    Pass(Vec<u8>),
    Stat,
    List(Option<usize>),
    Retr(usize),
    Dele(usize),
    Noop,
    Rset,
    Quit,
    Uidl(Option<usize>),
    Capa,
    Auth,
    Unknown(Vec<u8>),
}

/// The mathematical model of a command.
pub enum CommandView {
    User(Seq<u8>),
    Pass(Seq<u8>),
    Stat,
    List(Option<usize>),
    Retr(usize),
    Dele(usize),
    Noop,
    Rset,
    Quit,
    Uidl(Option<usize>),
    Capa,
    Auth,
    Unknown(Seq<u8>),
}

impl View for Command {
    type V = CommandView;

    open spec fn view(&self) -> CommandView {
        match self {
            Command::User(name) => CommandView::User(name@),
            Command::Pass(secret) => CommandView::Pass(secret@),
            Command::Stat => CommandView::Stat,
            Command::List(i) => CommandView::List(*i),
            Command::Retr(i) => CommandView::Retr(*i),
            Command::Dele(i) => CommandView::Dele(*i),
            Command::Noop => CommandView::Noop,
            Command::Rset => CommandView::Rset,
            Command::Quit => CommandView::Quit,
            Command::Uidl(i) => CommandView::Uidl(*i),
            Command::Capa => CommandView::Capa,
            Command::Auth => CommandView::Auth,
            Command::Unknown(raw) => CommandView::Unknown(raw@),
        }
    }
}

/// The model of a parser result.
pub open spec fn parsed_view(r: Result<Command, ParseError>) -> Result<CommandView, ParseError> {
    match r {
        Ok(c) => Ok(c@),
        Err(e) => Err(e),
    }
}

/// Space, tab, carriage return or line feed.
pub open spec fn is_space(b: u8) -> bool {
    b == 32 || b == 9 || b == 13 || b == 10
}

/// The first position at or after `from` that holds no whitespace.
pub open spec fn skip_spaces(s: Seq<u8>, from: int) -> int
    decreases s.len() - from,
{
    if 0 <= from < s.len() && is_space(s[from]) {
        skip_spaces(s, from + 1)
    } else {
        from
    }
}

/// The length of the longest prefix of the first `to` bytes that does not end in whitespace.
pub open spec fn trim_end(s: Seq<u8>, to: int) -> int
    decreases to,
{
    if 0 < to <= s.len() && is_space(s[to - 1]) {
        trim_end(s, to - 1)
    } else {
        to
    }
}

/// The line without leading and trailing whitespace.
pub open spec fn trim(s: Seq<u8>) -> Seq<u8> {
    let a = skip_spaces(s, 0);
    let b = trim_end(s, s.len() as int);
    if a < b {
        s.subrange(a, b)
    } else {
        Seq::empty()
    }
}

/// The first position at or after `from` that holds whitespace, or the length.
pub open spec fn word_end(s: Seq<u8>, from: int) -> int
    decreases s.len() - from,
{
    if 0 <= from < s.len() && !is_space(s[from]) {
        word_end(s, from + 1)
    } else {
        from
    }
}

/// The upper-case form of an ASCII letter; any other byte unchanged.
pub open spec fn upper(b: u8) -> u8 {
    if 97 <= b <= 122 {
        (b - 32) as u8
    } else {
        b
    }
}

/// Whether `word` spells the four-letter verb `a b c d`, in either case.
pub open spec fn is_verb(word: Seq<u8>, a: u8, b: u8, c: u8, d: u8) -> bool {
    word.len() == 4 && upper(word[0]) == a && upper(word[1]) == b && upper(word[2]) == c && upper(
        word[3],
    ) == d
}

/// An ASCII decimal digit.
pub open spec fn is_digit(b: u8) -> bool {
    48 <= b <= 57
}

/// Every byte is a decimal digit.
pub open spec fn all_digits(s: Seq<u8>) -> bool {
    forall|i: int| 0 <= i < s.len() ==> is_digit(#[trigger] s[i])
}

/// The number that the first `n` decimal digits of `s` spell.
pub open spec fn decimal_value(s: Seq<u8>, n: int) -> nat
    decreases n,
{
    if n <= 0 {
        0
    } else {
        10 * decimal_value(s, n - 1) + (s[n - 1] - 48) as nat
    }
}

/// The message index that `arg` spells: a positive decimal number that fits `usize`.
pub open spec fn index_of(arg: Seq<u8>) -> Option<usize> {
    if arg.len() > 0 && all_digits(arg) && 1 <= decimal_value(arg, arg.len() as int)
        <= usize::MAX {
        Some(decimal_value(arg, arg.len() as int) as usize)
    } else {
        None
    }
}

/// A mandatory index argument.
pub open spec fn required_index(arg: Seq<u8>) -> Result<usize, ParseError> {
    if arg.len() == 0 {
        Err(ParseError::MissingArgument)
    } else {
        match index_of(arg) {
            Some(i) => Ok(i),
            None => Err(ParseError::InvalidArgument),
        }
    }
}

/// An optional index argument.
pub open spec fn optional_index(arg: Seq<u8>) -> Result<Option<usize>, ParseError> {
    if arg.len() == 0 {
        Ok(None)
    } else {
        match index_of(arg) {
            Some(i) => Ok(Some(i)),
            None => Err(ParseError::InvalidArgument),
        }
    }
}

/// What a trimmed line means. The verb is the first word, in either case;
/// the argument is all that follows the whitespace after it.
pub open spec fn parse_trimmed(t: Seq<u8>) -> Result<CommandView, ParseError> {
    let v = word_end(t, 0);
    let word = t.subrange(0, v);
    let arg = trim(t.subrange(v, t.len() as int));
    if is_verb(word, 85, 83, 69, 82) {
        if arg.len() == 0 {
            Err(ParseError::MissingArgument)
        } else {
            Ok(CommandView::User(arg))
        }
    } else if is_verb(word, 80, 65, 83, 83) {
        if arg.len() == 0 {
            Err(ParseError::MissingArgument)
        } else {
            Ok(CommandView::Pass(arg))
        }
    } else if is_verb(word, 83, 84, 65, 84) {
        Ok(CommandView::Stat)
    } else if is_verb(word, 76, 73, 83, 84) {
        match optional_index(arg) {
            Ok(i) => Ok(CommandView::List(i)),
            Err(e) => Err(e),
        }
    } else if is_verb(word, 82, 69, 84, 82) {
        match required_index(arg) {
            Ok(i) => Ok(CommandView::Retr(i)),
            Err(e) => Err(e),
        }
    } else if is_verb(word, 68, 69, 76, 69) {
        match required_index(arg) {
            Ok(i) => Ok(CommandView::Dele(i)),
            Err(e) => Err(e),
        }
    } else if is_verb(word, 78, 79, 79, 80) {
        Ok(CommandView::Noop)
    } else if is_verb(word, 82, 83, 69, 84) {
        Ok(CommandView::Rset)
    } else if is_verb(word, 81, 85, 73, 84) {
        Ok(CommandView::Quit)
    } else if is_verb(word, 85, 73, 68, 76) {
        match optional_index(arg) {
            Ok(i) => Ok(CommandView::Uidl(i)),
            Err(e) => Err(e),
        }
    } else if is_verb(word, 67, 65, 80, 65) {
        Ok(CommandView::Capa)
    } else if is_verb(word, 65, 85, 84, 72) {
        Ok(CommandView::Auth)
    } else {
        Err(ParseError::UnrecognizedVerb)
    }
}

/// What a line means: the meaning of the line without its surrounding whitespace.
pub open spec fn parse_spec(line: Seq<u8>) -> Result<CommandView, ParseError> {
    parse_trimmed(trim(line))
}

proof fn lemma_decimal_grows(s: Seq<u8>, i: int, n: int)
    requires
        all_digits(s),
        0 <= i <= n <= s.len(),
    ensures
        decimal_value(s, i) <= decimal_value(s, n),
    decreases n - i,
{
    if i < n {
        lemma_decimal_grows(s, i + 1, n);
        assert(is_digit(s[i]));
    }
}

/// No byte of the word is whitespace.
pub open spec fn is_word(w: Seq<u8>) -> bool {
    forall|i: int| 0 <= i < w.len() ==> !is_space(#[trigger] w[i])
}

/// The two words spell the same letters, whatever their case.
pub open spec fn same_up_to_case(a: Seq<u8>, b: Seq<u8>) -> bool {
    a.len() == b.len() && forall|i: int| 0 <= i < a.len() ==> upper(#[trigger] a[i]) == upper(b[i])
}

proof fn lemma_word_end_at(s: Seq<u8>, from: int, e: int)
    requires
        0 <= from <= e <= s.len(),
        forall|j: int| from <= j < e ==> !is_space(#[trigger] s[j]),
        e == s.len() || is_space(s[e]),
    ensures
        word_end(s, from) == e,
    decreases e - from,
{
    if from < e {
        lemma_word_end_at(s, from + 1, e);
    }
}

proof fn lemma_skip_spaces(s: Seq<u8>, from: int)
    requires
        0 <= from <= s.len(),
    ensures
        from <= skip_spaces(s, from) <= s.len(),
        forall|j: int| from <= j < skip_spaces(s, from) ==> is_space(#[trigger] s[j]),
        skip_spaces(s, from) < s.len() ==> !is_space(s[skip_spaces(s, from)]),
    decreases s.len() - from,
{
    if from < s.len() && is_space(s[from]) {
        lemma_skip_spaces(s, from + 1);
    }
}

proof fn lemma_trim_end(s: Seq<u8>, to: int)
    requires
        0 <= to <= s.len(),
    ensures
        0 <= trim_end(s, to) <= to,
        forall|j: int| trim_end(s, to) <= j < to ==> is_space(#[trigger] s[j]),
        trim_end(s, to) > 0 ==> !is_space(s[trim_end(s, to) - 1]),
    decreases to,
{
    if 0 < to && is_space(s[to - 1]) {
        lemma_trim_end(s, to - 1);
    }
}

/// Trimming takes away whitespace and nothing else: the line is whitespace,
/// then the trimmed line, then whitespace, and the trimmed line neither
/// begins nor ends with whitespace. Trimming twice changes nothing more.
pub proof fn law_trim_is_tight(s: Seq<u8>)
    ensures
        trim(s).len() > 0 ==> !is_space(trim(s)[0]) && !is_space(trim(s).last()),
        exists|a: int, b: int|
            0 <= a <= b <= s.len() && s.subrange(a, b) == trim(s) && (forall|j: int|
                0 <= j < a ==> is_space(#[trigger] s[j])) && (forall|j: int|
                b <= j < s.len() ==> is_space(#[trigger] s[j])),
        trim(trim(s)) == trim(s),
{
    lemma_skip_spaces(s, 0);
    lemma_trim_end(s, s.len() as int);
    let a = skip_spaces(s, 0);
    let b = trim_end(s, s.len() as int);
    let t = trim(s);
    if a < b {
        assert(t[0] == s[a]);
        assert(t.last() == s[b - 1]);
        assert(0 <= a <= b <= s.len() && s.subrange(a, b) == trim(s));
        assert(skip_spaces(t, 0) == 0);
        assert(trim_end(t, t.len() as int) == t.len());
        assert(t.subrange(0, t.len() as int) =~= t);
    } else {
        if a < s.len() {
            assert(!is_space(s[a]));
            assert(b > a);
        }
        assert(a == s.len());
        assert(s.subrange(a, a) =~= Seq::<u8>::empty());
        assert(0 <= a <= a <= s.len() && s.subrange(a, a) == trim(s));
    }
}

/// The case of the verb does not matter: two lines that differ only in the
/// case of the letters of their first word mean the same.
pub proof fn law_verb_case_is_ignored(verb: Seq<u8>, other: Seq<u8>, rest: Seq<u8>)
    requires
        is_word(verb),
        is_word(other),
        same_up_to_case(verb, other),
        rest.len() == 0 || is_space(rest[0]),
    ensures
        parse_trimmed(verb + rest) == parse_trimmed(other + rest),
{
    let s1 = verb + rest;
    let s2 = other + rest;
    let v = verb.len() as int;
    assert forall|j: int| 0 <= j < v implies !is_space(#[trigger] s1[j]) by {
        assert(s1[j] == verb[j]);
    }
    assert forall|j: int| 0 <= j < v implies !is_space(#[trigger] s2[j]) by {
        assert(s2[j] == other[j]);
    }
    if rest.len() > 0 {
        assert(s1[v] == rest[0]);
        assert(s2[v] == rest[0]);
    }
    lemma_word_end_at(s1, 0, v);
    lemma_word_end_at(s2, 0, v);
    assert(s1.subrange(0, v) =~= verb);
    assert(s2.subrange(0, v) =~= other);
    assert(s1.subrange(v, s1.len() as int) =~= rest);
    assert(s2.subrange(v, s2.len() as int) =~= rest);
    if verb.len() == 4 {
        assert(upper(verb[0]) == upper(other[0]));
        assert(upper(verb[1]) == upper(other[1]));
        assert(upper(verb[2]) == upper(other[2]));
        assert(upper(verb[3]) == upper(other[3]));
    }
}

proof fn lemma_decimal_agrees(a: Seq<u8>, b: Seq<u8>, n: int)
    requires
        n <= a.len(),
        n <= b.len(),
        forall|i: int| 0 <= i < n ==> a[i] == b[i],
    ensures
        decimal_value(a, n) == decimal_value(b, n),
    decreases n,
{
    if n > 0 {
        lemma_decimal_agrees(a, b, n - 1);
    }
}

proof fn lemma_digits_spell(n: nat)
    ensures
        decimal_digits(n).len() > 0,
        all_digits(decimal_digits(n)),
        decimal_value(decimal_digits(n), decimal_digits(n).len() as int) == n,
    decreases n,
{
    let d = decimal_digits(n);
    if n < 10 {
        assert(decimal_value(d, 0) == 0);
    } else {
        let front = decimal_digits(n / 10);
        lemma_digits_spell(n / 10);
        lemma_decimal_agrees(d, front, front.len() as int);
        assert(d[front.len() as int] == (48 + n % 10) as u8);
        assert forall|i: int| 0 <= i < d.len() implies is_digit(#[trigger] d[i]) by {
            if i < front.len() {
                assert(d[i] == front[i]);
            }
        }
    }
}

/// A message index written in decimal reads back as the same index.
pub proof fn law_index_round_trip(index: usize)
    requires
        index >= 1,
    ensures
        index_of(decimal_digits(index as nat)) == Some(index),
{
    lemma_digits_spell(index as nat);
}

fn byte_is_space(b: u8) -> (r: bool)
    ensures
        r == is_space(b),
{
    b == 32 || b == 9 || b == 13 || b == 10
}

fn to_upper(b: u8) -> (r: u8)
    ensures
        r == upper(b),
{
    if 97 <= b && b <= 122 {
        b - 32
    } else {
        b
    }
}

fn has_verb(word: &[u8], a: u8, b: u8, c: u8, d: u8) -> (r: bool)
    ensures
        r == is_verb(word@, a, b, c, d),
{
    word.len() == 4 && to_upper(word[0]) == a && to_upper(word[1]) == b && to_upper(word[2]) == c
        && to_upper(word[3]) == d
}

/// The slice without leading and trailing whitespace.
pub fn trim_bytes(s: &[u8]) -> (r: &[u8])
    ensures
        r@ == trim(s@),
{
    let mut a: usize = 0;
    while a < s.len() && byte_is_space(s[a])
        invariant
            a <= s@.len(),
            skip_spaces(s@, 0) == skip_spaces(s@, a as int),
        decreases s@.len() - a,
    {
        a += 1;
    }
    let mut b: usize = s.len();
    while b > 0 && byte_is_space(s[b - 1])
        invariant
            b <= s@.len(),
            trim_end(s@, s@.len() as int) == trim_end(s@, b as int),
        decreases b,
    {
        b -= 1;
    }
    if a < b {
        slice_subrange(s, a, b)
    } else {
        let r = slice_subrange(s, 0, 0);
        assert(r@ =~= Seq::<u8>::empty());
        r
    }
}

fn find_word_end(s: &[u8]) -> (v: usize)
    ensures
        v == word_end(s@, 0),
        v <= s@.len(),
{
    let mut v: usize = 0;
    while v < s.len() && !byte_is_space(s[v])
        invariant
            v <= s@.len(),
            word_end(s@, 0) == word_end(s@, v as int),
        decreases s@.len() - v,
    {
        v += 1;
    }
    v
}

/// Reads a message index: a positive decimal number that fits `usize`.
pub fn parse_index(arg: &[u8]) -> (r: Option<usize>)
    ensures
        r == index_of(arg@),
{
    if arg.len() == 0 {
        return None;
    }
    let mut acc: usize = 0;
    let mut i: usize = 0;
    while i < arg.len()
        invariant
            i <= arg@.len(),
            acc == decimal_value(arg@, i as int),
            forall|k: int| 0 <= k < i ==> is_digit(#[trigger] arg@[k]),
        decreases arg@.len() - i,
    {
        let b = arg[i];
        if b < 48 || b > 57 {
            return None;
        }
        let d: usize = (b - 48) as usize;
        if acc > (usize::MAX - d) / 10 {
            proof {
                assert(decimal_value(arg@, i + 1) > usize::MAX);
                if all_digits(arg@) {
                    lemma_decimal_grows(arg@, i + 1, arg@.len() as int);
                }
            }
            return None;
        }
        acc = acc * 10 + d;
        i += 1;
    }
    if acc == 0 {
        None
    } else {
        Some(acc)
    }
}

fn index_required(arg: &[u8]) -> (r: Result<usize, ParseError>)
    ensures
        r == required_index(arg@),
{
    if arg.len() == 0 {
        Err(ParseError::MissingArgument)
    } else {
        match parse_index(arg) {
            Some(i) => Ok(i),
            None => Err(ParseError::InvalidArgument),
        }
    }
}

fn index_optional(arg: &[u8]) -> (r: Result<Option<usize>, ParseError>)
    ensures
        r == optional_index(arg@),
{
    if arg.len() == 0 {
        Ok(None)
    } else {
        match parse_index(arg) {
            Some(i) => Ok(Some(i)),
            None => Err(ParseError::InvalidArgument),
        }
    }
}

impl Command {
    /// Parses one line given as bytes.
    pub fn parse(line: &[u8]) -> (r: Result<Command, ParseError>)
        ensures
            parsed_view(r) == parse_spec(line@),
    {
        let t = trim_bytes(line);
        let v = find_word_end(t);
        let word = slice_subrange(t, 0, v);
        let arg = trim_bytes(slice_subrange(t, v, t.len()));
        if has_verb(word, 85, 83, 69, 82) {
            if arg.len() == 0 {
                Err(ParseError::MissingArgument)
            } else {
                Ok(Command::User(copy_bytes(arg)))
            }
        } else if has_verb(word, 80, 65, 83, 83) {
            if arg.len() == 0 {
                Err(ParseError::MissingArgument)
            } else {
                Ok(Command::Pass(copy_bytes(arg)))
            }
        } else if has_verb(word, 83, 84, 65, 84) {
            Ok(Command::Stat)
        } else if has_verb(word, 76, 73, 83, 84) {
            match index_optional(arg) {
                Ok(i) => Ok(Command::List(i)),
                Err(e) => Err(e),
            }
        } else if has_verb(word, 82, 69, 84, 82) {
            match index_required(arg) {
                Ok(i) => Ok(Command::Retr(i)),
                Err(e) => Err(e),
            }
        } else if has_verb(word, 68, 69, 76, 69) {
            match index_required(arg) {
                Ok(i) => Ok(Command::Dele(i)),
                Err(e) => Err(e),
            }
        } else if has_verb(word, 78, 79, 79, 80) {
            Ok(Command::Noop)
        } else if has_verb(word, 82, 83, 69, 84) {
            Ok(Command::Rset)
        } else if has_verb(word, 81, 85, 73, 84) {
            Ok(Command::Quit)
        } else if has_verb(word, 85, 73, 68, 76) {
            match index_optional(arg) {
                Ok(i) => Ok(Command::Uidl(i)),
                Err(e) => Err(e),
            }
        } else if has_verb(word, 67, 65, 80, 65) {
            Ok(Command::Capa)
        } else if has_verb(word, 65, 85, 84, 72) {
            Ok(Command::Auth)
        } else {
            Err(ParseError::UnrecognizedVerb)
        }
    }

    /// Parses one line of text. The verb is matched in either case; `USER`
    /// and `PASS` take the whole remainder of the line as their argument;
    /// `RETR` and `DELE` need a positive index, `LIST` and `UIDL` accept one.
    pub fn from_str(s: &str) -> (r: Result<Command, ParseError>)
        ensures
            parsed_view(r) == parse_spec(s.spec_bytes()),
    {
        Command::parse(s.as_bytes())
    }
}

} // verus!
