//! The session state machine: which command is legal in which state, what it
//! changes, and what is answered. Work that only the mailbox provider can do
//! (checking credentials, removing messages) is handed out as a `Reaction`;
//! its outcome comes back through `authenticated` and `committed`.

use vstd::prelude::*;
use vstd::string::StringSliceAdditionalSpecFns;
use crate::command::{Command, CommandView, ParseError};
use crate::mailbox::{
    MailboxError, MailboxSnapshot, MessageView, list_spec, live_count, live_octets, locate,
    mark_spec, marked_ordinals, reset_spec,
};
use crate::request::{Request, requests_view};
use crate::response::{Response, ResponseView};
use crate::text::{
    append_decimal, append_str, content_lines, copy_bytes, decimal_digits, lines_view, split_lines,
};

verus! {

/// A failure of the mailbox provider.
#[derive(Clone, Copy, Debug, PartialEq, Eq, Structural)]
pub enum ProviderError {
    /// The provider could not be reached or could not answer.
    Unavailable,
    /// The provider found the mailbox changed by someone else.
    Conflict,
}

/// Where a session stands.
#[derive(Clone, Debug, PartialEq, Eq)]
pub enum SessionState {
    /// Before login; `user` is the name given by `USER`, if any.
    Authorization { user: Option<Vec<u8>> },
    /// Logged in, working on a frozen view of the mailbox.
    Transaction { mailbox: MailboxSnapshot },
    /// `QUIT` was received; the provider is removing the marked messages.
    Update,
    /// The session is over.
    Closed,
}

/// The mathematical model of a session state.
pub enum StateView {
    Authorization { user: Option<Seq<u8>> },
    Transaction { owner: Seq<u8>, mailbox: Seq<MessageView> },
    Update,
    Closed,
}

impl View for SessionState {
    type V = StateView;

    open spec fn view(&self) -> StateView {
        match self {
            SessionState::Authorization { user } => StateView::Authorization {
                user: match user {
                    Some(u) => Some(u@),
                    None => None,
                },
            },
            SessionState::Transaction { mailbox } => StateView::Transaction {
                owner: mailbox.owner@,
                mailbox: mailbox@,
            },
            SessionState::Update => StateView::Update,
            SessionState::Closed => StateView::Closed,
        }
    }
}

/// What the session asks of its driver after a command.
#[derive(Clone, Debug, PartialEq, Eq)]
pub enum Reaction {
    /// Send this response.
    Reply(Response),
    /// Ask the provider whether `secret` is the password of `user`, then call `authenticated`.
    Authenticate { user: Vec<u8>, secret: Vec<u8> },
    /// Ask the provider to remove these messages of `user`, then call `committed`.
    Commit { user: Vec<u8>, indices: Vec<usize> },
}

/// The mathematical model of a reaction.
pub enum ReactionView {
    Reply(ResponseView),
    Authenticate { user: Seq<u8>, secret: Seq<u8> },
    Commit { user: Seq<u8>, indices: Seq<usize> },
}

impl View for Reaction {
    type V = ReactionView;

    open spec fn view(&self) -> ReactionView {
        match self {
            Reaction::Reply(r) => ReactionView::Reply(r@),
            Reaction::Authenticate { user, secret } => ReactionView::Authenticate {
                user: user@,
                secret: secret@,
            },
            Reaction::Commit { user, indices } => ReactionView::Commit {
                user: user@,
                indices: indices@,
            },
        }
    }
}

/// The bytes of a text.
pub open spec fn lit(s: &str) -> Seq<u8> {
    s.spec_bytes()
}

/// A single-line success.
pub open spec fn ok_view(status: Seq<u8>) -> ResponseView {
    ResponseView { ok: true, status, body: None }
}

/// A single-line failure.
pub open spec fn err_view(status: Seq<u8>) -> ResponseView {
    ResponseView { ok: false, status, body: None }
}

/// A multi-line success.
pub open spec fn multi_view(status: Seq<u8>, lines: Seq<Seq<u8>>) -> ResponseView {
    ResponseView { ok: true, status, body: Some(lines) }
}

/// The verb by which a refusal names a command.
pub open spec fn command_word(c: CommandView) -> &'static str {
    match c {
        CommandView::User(_) => "USER",
        CommandView::Pass(_) => "PASS",
        CommandView::Stat => "STAT",
        CommandView::List(_) => "LIST",
        CommandView::Retr(_) => "RETR",
        CommandView::Dele(_) => "DELE",
        CommandView::Noop => "NOOP",
        CommandView::Rset => "RSET",
        CommandView::Quit => "QUIT",
        CommandView::Uidl(_) => "UIDL",
        CommandView::Capa => "CAPA",
        CommandView::Auth => "AUTH",
        CommandView::Unknown(_) => "command",
    }
}

/// The name by which a refusal names a state.
pub open spec fn state_word(s: StateView) -> &'static str {
    match s {
        StateView::Authorization { .. } => "AUTHORIZATION",
        StateView::Transaction { .. } => "TRANSACTION",
        StateView::Update => "UPDATE",
        StateView::Closed => "CLOSED",
    }
}

/// The answer to a command that the state does not allow.
pub open spec fn refusal(c: CommandView, s: StateView) -> ResponseView {
    err_view(
        lit(command_word(c)) + lit(" not allowed in ") + lit(state_word(s)) + lit(" state"),
    )
}

/// The answer to a line that is no command.
pub open spec fn parse_error_reply(e: ParseError) -> ResponseView {
    match e {
        ParseError::UnrecognizedVerb => err_view(lit("Invalid command")),
        ParseError::MissingArgument => err_view(lit("missing argument")),
        ParseError::InvalidArgument => err_view(lit("invalid argument")),
    }
}

/// The answer to a command on a message that cannot be reached.
pub open spec fn mailbox_error_reply(e: MailboxError) -> ResponseView {
    match e {
        MailboxError::OutOfRange => err_view(lit("no such message")),
        MailboxError::AlreadyDeleted => err_view(lit("message already deleted")),
    }
}

/// `STAT`: count and total length of the messages without a deletion mark.
pub open spec fn stat_reply(m: Seq<MessageView>) -> ResponseView {
    ok_view(
        decimal_digits(live_count(m, m.len() as int)) + lit(" ") + decimal_digits(
            live_octets(m, m.len() as int),
        ),
    )
}

/// One line of a scan listing: index, space, length.
pub open spec fn entry_line(e: (usize, usize)) -> Seq<u8> {
    decimal_digits(e.0 as nat) + lit(" ") + decimal_digits(e.1 as nat)
}

/// One line of a unique-id listing: index, space, the id `msg` and the index.
pub open spec fn uid_line(e: (usize, usize)) -> Seq<u8> {
    decimal_digits(e.0 as nat) + lit(" msg") + decimal_digits(e.0 as nat)
}

/// The lines of a scan listing.
pub open spec fn entry_lines(es: Seq<(usize, usize)>) -> Seq<Seq<u8>> {
    Seq::new(es.len(), |i: int| entry_line(es[i]))
}

/// The lines of a unique-id listing.
pub open spec fn uid_lines(es: Seq<(usize, usize)>) -> Seq<Seq<u8>> {
    Seq::new(es.len(), |i: int| uid_line(es[i]))
}

/// The status line of an unrestricted listing.
pub open spec fn summary(m: Seq<MessageView>) -> Seq<u8> {
    decimal_digits(live_count(m, m.len() as int)) + lit(" messages (") + decimal_digits(
        live_octets(m, m.len() as int),
    ) + lit(" octets)")
}

/// `LIST`.
pub open spec fn list_reply(m: Seq<MessageView>, index: Option<usize>) -> ResponseView {
    match list_spec(m, index) {
        Err(e) => mailbox_error_reply(e),
        Ok(es) => match index {
            Some(_) => ok_view(entry_line(es[0])),
            None => multi_view(summary(m), entry_lines(es)),
        },
    }
}

/// `UIDL`.
pub open spec fn uidl_reply(m: Seq<MessageView>, index: Option<usize>) -> ResponseView {
    match list_spec(m, index) {
        Err(e) => mailbox_error_reply(e),
        Ok(es) => match index {
            Some(_) => ok_view(uid_line(es[0])),
            None => multi_view(summary(m), uid_lines(es)),
        },
    }
}

/// `RETR`: the length, then the message line by line.
pub open spec fn retr_reply(m: Seq<MessageView>, index: usize) -> ResponseView {
    match locate(m, index) {
        Err(e) => mailbox_error_reply(e),
        Ok(p) => multi_view(
            decimal_digits(m[p].content.len()) + lit(" octets"),
            content_lines(m[p].content, 0),
        ),
    }
}

/// `DELE`.
pub open spec fn dele_reply(m: Seq<MessageView>, index: usize) -> ResponseView {
    match locate(m, index) {
        Err(e) => mailbox_error_reply(e),
        Ok(_) => ok_view(lit("message ") + decimal_digits(index as nat) + lit(" deleted")),
    }
}

/// `RSET`.
pub open spec fn rset_reply(m: Seq<MessageView>) -> ResponseView {
    ok_view(lit("maildrop has ") + decimal_digits(m.len()) + lit(" messages"))
}

/// The state machine: the state after command `c` in state `s`, and the reaction.
pub open spec fn step(s: StateView, c: CommandView) -> (StateView, ReactionView) {
    match s {
        StateView::Authorization { user } => match c {
            CommandView::User(name) => (
                StateView::Authorization { user: Some(name) },
                ReactionView::Reply(ok_view(lit("user accepted"))),
            ),
            CommandView::Pass(secret) => match user {
                Some(u) => (s, ReactionView::Authenticate { user: u, secret }),
                None => (s, ReactionView::Reply(err_view(lit("USER first")))),
            },
            CommandView::Quit => (StateView::Closed, ReactionView::Reply(ok_view(lit("bye")))),
            CommandView::Noop => (s, ReactionView::Reply(ok_view(Seq::empty()))),
            CommandView::Capa => (
                s,
                ReactionView::Reply(multi_view(Seq::empty(), seq![lit("PLAIN")])),
            ),
            CommandView::Auth => (
                s,
                ReactionView::Reply(multi_view(Seq::empty(), seq![lit("PLAIN"), lit("ANONYMOUS")])),
            ),
            _ => (s, ReactionView::Reply(refusal(c, s))),
        },
        StateView::Transaction { owner, mailbox } => match c {
            CommandView::Stat => (s, ReactionView::Reply(stat_reply(mailbox))),
            CommandView::List(i) => (s, ReactionView::Reply(list_reply(mailbox, i))),
            CommandView::Uidl(i) => (s, ReactionView::Reply(uidl_reply(mailbox, i))),
            CommandView::Retr(i) => (s, ReactionView::Reply(retr_reply(mailbox, i))),
            CommandView::Dele(i) => (
                StateView::Transaction { owner, mailbox: mark_spec(mailbox, i) },
                ReactionView::Reply(dele_reply(mailbox, i)),
            ),
            CommandView::Noop => (s, ReactionView::Reply(ok_view(Seq::empty()))),
            CommandView::Rset => (
                StateView::Transaction { owner, mailbox: reset_spec(mailbox) },
                ReactionView::Reply(rset_reply(mailbox)),
            ),
            CommandView::Quit => (
                StateView::Update,
                ReactionView::Commit {
                    user: owner,
                    indices: marked_ordinals(mailbox, mailbox.len() as int),
                },
            ),
            _ => (s, ReactionView::Reply(refusal(c, s))),
        },
        _ => (s, ReactionView::Reply(refusal(c, s))),
    }
}

/// The state machine on a received line: a line that is no command is
/// answered with an error and changes nothing.
pub open spec fn serve_spec(s: StateView, r: Result<CommandView, ParseError>) -> (
    StateView,
    ReactionView,
) {
    match r {
        Ok(c) => step(s, c),
        Err(e) => (s, ReactionView::Reply(parse_error_reply(e))),
    }
}

/// The mailbox as the provider lists it: no message marked.
pub open spec fn fresh(contents: Seq<Seq<u8>>) -> Seq<MessageView> {
    Seq::new(contents.len(), |i: int| MessageView { content: contents[i], deleted: false })
}

/// The models of the message contents that the provider listed.
pub open spec fn contents_view(v: Seq<Vec<u8>>) -> Seq<Seq<u8>> {
    lines_view(v)
}

/// The state and the answer after the provider has judged a `PASS`.
pub open spec fn after_auth(
    s: StateView,
    verdict: Result<bool, ProviderError>,
    contents: Seq<Seq<u8>>,
) -> (StateView, ResponseView) {
    match s {
        StateView::Authorization { user: Some(u) } => match verdict {
            Ok(true) => (
                StateView::Transaction { owner: u, mailbox: fresh(contents) },
                ok_view(lit("maildrop ready")),
            ),
            Ok(false) => (
                StateView::Authorization { user: None },
                err_view(lit("invalid credentials")),
            ),
            Err(_) => (
                StateView::Authorization { user: None },
                err_view(lit("authentication unavailable")),
            ),
        },
        _ => (s, err_view(lit("no login pending"))),
    }
}

/// The state and the answer after the provider has handled a commit: the
/// session closes either way, and a failure is reported.
pub open spec fn after_commit(s: StateView, result: Result<(), ProviderError>) -> (
    StateView,
    ResponseView,
) {
    match s {
        StateView::Update => match result {
            Ok(_) => (StateView::Closed, ok_view(lit("bye"))),
            Err(_) => (StateView::Closed, err_view(lit("some deleted messages not removed"))),
        },
        _ => (s, err_view(lit("no commit pending"))),
    }
}

/// The models of the responses held in a vector.
pub open spec fn responses_view(v: Seq<Response>) -> Seq<ResponseView> {
    Seq::new(v.len(), |i: int| v[i]@)
}

/// The model of what the provider answered when asked for the user's messages.
pub open spec fn listing_view(listing: Option<Result<Vec<Vec<u8>>, ProviderError>>) -> Option<
    Result<Seq<Seq<u8>>, ProviderError>,
> {
    match listing {
        Some(Ok(contents)) => Some(Ok(contents_view(contents@))),
        Some(Err(e)) => Some(Err(e)),
        None => None,
    }
}

/// What a login comes to, given the provider's verdict on the password and,
/// where it was asked, its listing of the user's messages. The messages
/// count only after an accepting verdict; an accepted login whose listing
/// failed or is missing is a failed login.
pub open spec fn login_spec(
    verdict: Result<bool, ProviderError>,
    listing: Option<Result<Seq<Seq<u8>>, ProviderError>>,
) -> (Result<bool, ProviderError>, Seq<Seq<u8>>) {
    match verdict {
        Ok(true) => match listing {
            Some(Ok(contents)) => (Ok(true), contents),
            Some(Err(e)) => (Err(e), Seq::empty()),
            None => (Err(ProviderError::Unavailable), Seq::empty()),
        },
        Ok(false) => (Ok(false), Seq::empty()),
        Err(e) => (Err(e), Seq::empty()),
    }
}

/// The outcome of serving a run of requests.
pub struct BatchView {
    pub state: StateView,
    pub replies: Seq<ResponseView>,
    pub pending: Option<ReactionView>,
    pub next: int,
}

/// Serving the requests from position `from` on, in order, starting in state
/// `s`: each reply is collected; serving pauses at the first request that
/// needs the provider, which becomes `pending`; and once the session is
/// closed the remaining requests are dropped unanswered. `next` is the
/// position of the first request that was neither served nor dropped.
#[verifier::opaque]
pub open spec fn run_spec(
    s: StateView,
    requests: Seq<Result<CommandView, ParseError>>,
    from: int,
) -> BatchView
    decreases requests.len() - from,
{
    if from < 0 || from >= requests.len() {
        BatchView { state: s, replies: Seq::empty(), pending: None, next: from }
    } else if s == StateView::Closed {
        BatchView { state: s, replies: Seq::empty(), pending: None, next: requests.len() as int }
    } else {
        let (after, reaction) = serve_spec(s, requests[from]);
        match reaction {
            ReactionView::Reply(reply) => {
                let rest = run_spec(after, requests, from + 1);
                BatchView {
                    state: rest.state,
                    replies: seq![reply] + rest.replies,
                    pending: rest.pending,
                    next: rest.next,
                }
            },
            _ => BatchView {
                state: after,
                replies: Seq::empty(),
                pending: Some(reaction),
                next: from + 1,
            },
        }
    }
}

/// The outcome `b` with the replies `sent` in front of its own.
pub open spec fn after(sent: Seq<ResponseView>, b: BatchView) -> BatchView {
    BatchView { state: b.state, replies: sent + b.replies, pending: b.pending, next: b.next }
}

proof fn lemma_after_none(b: BatchView)
    ensures
        after(Seq::<ResponseView>::empty(), b) == b,
{
    assert(Seq::<ResponseView>::empty() + b.replies =~= b.replies);
}

proof fn lemma_after_push(sent: Seq<ResponseView>, reply: ResponseView, rest: BatchView)
    ensures
        after(sent, after(seq![reply], rest)) == after(sent.push(reply), rest),
{
    assert(sent + (seq![reply] + rest.replies) =~= sent.push(reply) + rest.replies);
}

proof fn lemma_responses_push(sent: Seq<Response>, reply: Response)
    ensures
        responses_view(sent.push(reply)) == responses_view(sent).push(reply@),
{
    assert(responses_view(sent.push(reply)) =~= responses_view(sent).push(reply@));
}

proof fn lemma_run_end(s: StateView, requests: Seq<Result<CommandView, ParseError>>, from: int)
    requires
        from >= requests.len() || s == StateView::Closed,
        0 <= from,
    ensures
        run_spec(s, requests, from) == (BatchView {
            state: s,
            replies: Seq::empty(),
            pending: None,
            next: if from >= requests.len() {
                from
            } else {
                requests.len() as int
            },
        }),
{
    reveal(run_spec);
}

proof fn lemma_run_step(
    s: StateView,
    requests: Seq<Result<CommandView, ParseError>>,
    from: int,
    next: StateView,
    reaction: ReactionView,
)
    requires
        0 <= from < requests.len(),
        s != StateView::Closed,
        serve_spec(s, requests[from]) == (next, reaction),
    ensures
        run_spec(s, requests, from) == match reaction {
            ReactionView::Reply(reply) => after(seq![reply], run_spec(next, requests, from + 1)),
            _ => BatchView {
                state: next,
                replies: Seq::empty(),
                pending: Some(reaction),
                next: from + 1,
            },
        },
{
    reveal(run_spec);
}

fn text(s: &str) -> (v: Vec<u8>)
    ensures
        v@ == lit(s),
{
    let mut v: Vec<u8> = Vec::new();
    append_str(&mut v, s);
    assert(v@ =~= lit(s));
    v
}

fn refuse(command: &str, state: &str) -> (r: Response)
    ensures
        r@ == err_view(lit(command) + lit(" not allowed in ") + lit(state) + lit(" state")),
{
    let mut v: Vec<u8> = Vec::new();
    append_str(&mut v, command);
    append_str(&mut v, " not allowed in ");
    append_str(&mut v, state);
    append_str(&mut v, " state");
    assert(v@ =~= lit(command) + lit(" not allowed in ") + lit(state) + lit(" state"));
    Response::err(v)
}

fn parse_error_response(e: ParseError) -> (r: Response)
    ensures
        r@ == parse_error_reply(e),
{
    match e {
        ParseError::UnrecognizedVerb => Response::err(text("Invalid command")),
        ParseError::MissingArgument => Response::err(text("missing argument")),
        ParseError::InvalidArgument => Response::err(text("invalid argument")),
    }
}

fn mailbox_error_response(e: MailboxError) -> (r: Response)
    ensures
        r@ == mailbox_error_reply(e),
{
    match e {
        MailboxError::OutOfRange => Response::err(text("no such message")),
        MailboxError::AlreadyDeleted => Response::err(text("message already deleted")),
    }
}

fn stat_response(mailbox: &MailboxSnapshot) -> (r: Response)
    requires
        mailbox.wf(),
    ensures
        r@ == stat_reply(mailbox@),
{
    let (count, octets) = mailbox.stat();
    let mut v: Vec<u8> = Vec::new();
    append_decimal(&mut v, count as u128);
    append_str(&mut v, " ");
    append_decimal(&mut v, octets);
    assert(v@ =~= stat_reply(mailbox@).status);
    Response::ok(v)
}

fn summary_text(mailbox: &MailboxSnapshot) -> (v: Vec<u8>)
    requires
        mailbox.wf(),
    ensures
        v@ == summary(mailbox@),
{
    let (count, octets) = mailbox.stat();
    let mut v: Vec<u8> = Vec::new();
    append_decimal(&mut v, count as u128);
    append_str(&mut v, " messages (");
    append_decimal(&mut v, octets);
    append_str(&mut v, " octets)");
    assert(v@ =~= summary(mailbox@));
    v
}

fn entry_text(e: (usize, usize), uids: bool) -> (v: Vec<u8>)
    ensures
        v@ == if uids {
            uid_line(e)
        } else {
            entry_line(e)
        },
{
    let mut v: Vec<u8> = Vec::new();
    append_decimal(&mut v, e.0 as u128);
    if uids {
        append_str(&mut v, " msg");
        append_decimal(&mut v, e.0 as u128);
        assert(v@ =~= uid_line(e));
    } else {
        append_str(&mut v, " ");
        append_decimal(&mut v, e.1 as u128);
        assert(v@ =~= entry_line(e));
    }
    v
}

fn listing_response(mailbox: &MailboxSnapshot, index: Option<usize>, uids: bool) -> (r: Response)
    requires
        mailbox.wf(),
    ensures
        r@ == if uids {
            uidl_reply(mailbox@, index)
        } else {
            list_reply(mailbox@, index)
        },
{
    match mailbox.list(index) {
        Err(e) => mailbox_error_response(e),
        Ok(es) => match index {
            Some(_) => Response::ok(entry_text(es[0], uids)),
            None => {
                let mut lines: Vec<Vec<u8>> = Vec::new();
                let mut k: usize = 0;
                while k < es.len()
                    invariant
                        k <= es@.len(),
                        lines@.len() == k,
                        forall|j: int|
                            0 <= j < k ==> (#[trigger] lines@[j])@ == if uids {
                                uid_line(es@[j])
                            } else {
                                entry_line(es@[j])
                            },
                    decreases es@.len() - k,
                {
                    lines.push(entry_text(es[k], uids));
                    k += 1;
                }
                proof {
                    if uids {
                        assert(lines_view(lines@) =~= uid_lines(es@));
                    } else {
                        assert(lines_view(lines@) =~= entry_lines(es@));
                    }
                }
                Response::multi(summary_text(mailbox), lines)
            },
        },
    }
}

fn retr_response(mailbox: &MailboxSnapshot, index: usize) -> (r: Response)
    requires
        mailbox.wf(),
    ensures
        r@ == retr_reply(mailbox@, index),
{
    match mailbox.retrieve(index) {
        Err(e) => mailbox_error_response(e),
        Ok(content) => {
            let mut v: Vec<u8> = Vec::new();
            append_decimal(&mut v, content.len() as u128);
            append_str(&mut v, " octets");
            assert(v@ =~= decimal_digits(content@.len()) + lit(" octets"));
            Response::multi(v, split_lines(content.as_slice()))
        },
    }
}

fn dele_response(index: usize) -> (r: Response)
    ensures
        r@ == ok_view(lit("message ") + decimal_digits(index as nat) + lit(" deleted")),
{
    let mut v: Vec<u8> = Vec::new();
    append_str(&mut v, "message ");
    append_decimal(&mut v, index as u128);
    append_str(&mut v, " deleted");
    assert(v@ =~= lit("message ") + decimal_digits(index as nat) + lit(" deleted"));
    Response::ok(v)
}

fn rset_response(total: usize) -> (r: Response)
    ensures
        r@ == ok_view(lit("maildrop has ") + decimal_digits(total as nat) + lit(" messages")),
{
    let mut v: Vec<u8> = Vec::new();
    append_str(&mut v, "maildrop has ");
    append_decimal(&mut v, total as u128);
    append_str(&mut v, " messages");
    assert(v@ =~= lit("maildrop has ") + decimal_digits(total as nat) + lit(" messages"));
    Response::ok(v)
}

fn one_line(a: &str) -> (lines: Vec<Vec<u8>>)
    ensures
        lines_view(lines@) == seq![lit(a)],
{
    let mut lines: Vec<Vec<u8>> = Vec::new();
    lines.push(text(a));
    assert(lines_view(lines@) =~= seq![lit(a)]);
    lines
}

fn two_lines(a: &str, b: &str) -> (lines: Vec<Vec<u8>>)
    ensures
        lines_view(lines@) == seq![lit(a), lit(b)],
{
    let mut lines: Vec<Vec<u8>> = Vec::new();
    lines.push(text(a));
    lines.push(text(b));
    assert(lines_view(lines@) =~= seq![lit(a), lit(b)]);
    lines
}

impl SessionState {
    /// A transaction state holds a well-formed snapshot.
    pub open spec fn wf(&self) -> bool {
        match self {
            SessionState::Transaction { mailbox } => mailbox.wf(),
            _ => true,
        }
    }

    /// The name of the state, as refusals spell it.
    pub fn word(&self) -> (w: &'static str)
        ensures
            w@ == state_word(self@)@,
    {
        match self {
            SessionState::Authorization { .. } => "AUTHORIZATION",
            SessionState::Transaction { .. } => "TRANSACTION",
            SessionState::Update => "UPDATE",
            SessionState::Closed => "CLOSED",
        }
    }
}

/// What serving a run of requests gave.
#[derive(Debug, PartialEq, Eq)]
pub struct Batch {
    /// The responses to send, in order.
    pub replies: Vec<Response>,
    /// The provider work to do before serving goes on, if any.
    pub pending: Option<Reaction>,
    /// The position of the first request that was neither served nor dropped.
    pub next: usize,
}

impl View for Batch {
    type V = (Seq<ResponseView>, Option<ReactionView>, int);

    open spec fn view(&self) -> (Seq<ResponseView>, Option<ReactionView>, int) {
        (
            responses_view(self.replies@),
            match self.pending {
                Some(r) => Some(r@),
                None => None,
            },
            self.next as int,
        )
    }
}

/// Whether the provider is to be asked for the user's messages: only after
/// it has accepted the password.
pub fn wants_listing(verdict: &Result<bool, ProviderError>) -> (r: bool)
    ensures
        r == (*verdict == Ok::<bool, ProviderError>(true)),
{
    match verdict {
        Ok(accepted) => *accepted,
        Err(_) => false,
    }
}

/// Puts the provider's two answers together into what `authenticated` takes.
pub fn login_outcome(
    verdict: Result<bool, ProviderError>,
    listing: Option<Result<Vec<Vec<u8>>, ProviderError>>,
) -> (r: (Result<bool, ProviderError>, Vec<Vec<u8>>))
    ensures
        (r.0, contents_view(r.1@)) == login_spec(verdict, listing_view(listing)),
{
    let none: Vec<Vec<u8>> = Vec::new();
    assert(contents_view(none@) =~= Seq::<Seq<u8>>::empty());
    match verdict {
        Ok(true) => match listing {
            Some(Ok(contents)) => (Ok(true), contents),
            Some(Err(e)) => (Err(e), none),
            None => (Err(ProviderError::Unavailable), none),
        },
        Ok(false) => (Ok(false), none),
        Err(e) => (Err(e), none),
    }
}

/// One client session.
#[derive(Clone, Debug, PartialEq, Eq)]
pub struct Session {
    pub state: SessionState,
}

impl View for Session {
    type V = StateView;

    open spec fn view(&self) -> StateView {
        self.state@
    }
}

impl Command {
    /// The verb of the command, as refusals spell it.
    pub fn word(&self) -> (w: &'static str)
        ensures
            w@ == command_word(self@)@,
    {
        match self {
            Command::User(_) => "USER",
            Command::Pass(_) => "PASS",
            Command::Stat => "STAT",
            Command::List(_) => "LIST",
            Command::Retr(_) => "RETR",
            Command::Dele(_) => "DELE",
            Command::Noop => "NOOP",
            Command::Rset => "RSET",
            Command::Quit => "QUIT",
            Command::Uidl(_) => "UIDL",
            Command::Capa => "CAPA",
            Command::Auth => "AUTH",
            Command::Unknown(_) => "command",
        }
    }

    /// Runs the command against the session: the state moves as the state
    /// machine says, and the reaction is the one it gives. A command that the
    /// state does not allow is answered with an error and changes nothing.
    pub fn respond(&self, session: &mut Session) -> (r: Reaction)
        requires
            old(session).wf(),
        ensures
            final(session).wf(),
            (final(session)@, r@) == step(old(session)@, self@),
    {
        // The two commands that change deletion marks work on the snapshot in place.
        match self {
            Command::Dele(i) => {
                match &mut session.state {
                    SessionState::Transaction { mailbox } => {
                        return match mailbox.mark_deleted(*i) {
                            Ok(_) => Reaction::Reply(dele_response(*i)),
                            Err(e) => Reaction::Reply(mailbox_error_response(e)),
                        };
                    },
                    _ => {},
                }
            },
            Command::Rset => {
                match &mut session.state {
                    SessionState::Transaction { mailbox } => {
                        mailbox.reset_deletions();
                        return Reaction::Reply(rset_response(mailbox.len()));
                    },
                    _ => {},
                }
            },
            _ => {},
        }
        // Every other command only reads the state, and may replace it as a whole.
        let (next, reaction): (Option<SessionState>, Reaction) = match &session.state {
            SessionState::Authorization { user } => match self {
                Command::User(name) => (
                    Some(SessionState::Authorization { user: Some(copy_bytes(name.as_slice())) }),
                    Reaction::Reply(Response::ok(text("user accepted"))),
                ),
                Command::Pass(secret) => match user {
                    Some(u) => (
                        None,
                        Reaction::Authenticate {
                            user: copy_bytes(u.as_slice()),
                            secret: copy_bytes(secret.as_slice()),
                        },
                    ),
                    None => (None, Reaction::Reply(Response::err(text("USER first")))),
                },
                Command::Quit => (
                    Some(SessionState::Closed),
                    Reaction::Reply(Response::ok(text("bye"))),
                ),
                Command::Noop => (None, Reaction::Reply(Response::ok(Vec::new()))),
                Command::Capa => (
                    None,
                    Reaction::Reply(Response::multi(Vec::new(), one_line("PLAIN"))),
                ),
                Command::Auth => (
                    None,
                    Reaction::Reply(Response::multi(Vec::new(), two_lines("PLAIN", "ANONYMOUS"))),
                ),
                _ => (None, Reaction::Reply(refuse(self.word(), session.state.word()))),
            },
            SessionState::Transaction { mailbox } => match self {
                Command::Stat => (None, Reaction::Reply(stat_response(mailbox))),
                Command::List(i) => (None, Reaction::Reply(listing_response(mailbox, *i, false))),
                Command::Uidl(i) => (None, Reaction::Reply(listing_response(mailbox, *i, true))),
                Command::Retr(i) => (None, Reaction::Reply(retr_response(mailbox, *i))),
                Command::Noop => (None, Reaction::Reply(Response::ok(Vec::new()))),
                Command::Quit => (
                    Some(SessionState::Update),
                    Reaction::Commit {
                        user: copy_bytes(mailbox.owner.as_slice()),
                        indices: mailbox.marked(),
                    },
                ),
                _ => (None, Reaction::Reply(refuse(self.word(), session.state.word()))),
            },
            _ => (None, Reaction::Reply(refuse(self.word(), session.state.word()))),
        };
        match next {
            Some(state) => {
                session.state = state;
            },
            None => {},
        }
        reaction
    }
}

impl Session {
    /// A transaction state holds a well-formed snapshot.
    pub open spec fn wf(&self) -> bool {
        self.state.wf()
    }

    /// A session that waits for a login.
    pub fn new() -> (s: Session)
        ensures
            s.wf(),
            s@ == (StateView::Authorization { user: None }),
    {
        Session { state: SessionState::Authorization { user: None } }
    }

    /// The greeting, sent once when the connection is made.
    pub fn greeting() -> (r: Response)
        ensures
            r@ == ok_view(lit("Welcome to mock-pop")),
    {
        Response::ok(text("Welcome to mock-pop"))
    }

    /// Handles one received line: a command runs against the session, a line
    /// that is no command is answered with an error and changes nothing.
    pub fn serve(&mut self, request: &Request) -> (r: Reaction)
        requires
            old(self).wf(),
        ensures
            final(self).wf(),
            (final(self)@, r@) == serve_spec(old(self)@, request@),
    {
        match &request.command {
            Ok(command) => command.respond(self),
            Err(e) => Reaction::Reply(parse_error_response(*e)),
        }
    }

    /// Serves the requests from position `from` on, in order. Replies are
    /// collected; serving pauses at the first request that needs the
    /// provider; and once the session is closed the remaining requests are
    /// dropped: they get no reply and cause no provider work.
    pub fn run(&mut self, requests: &Vec<Request>, from: usize) -> (b: Batch)
        requires
            old(self).wf(),
        ensures
            final(self).wf(),
            run_spec(old(self)@, requests_view(requests@), from as int) == (BatchView {
                state: final(self)@,
                replies: b@.0,
                pending: b@.1,
                next: b@.2,
            }),
    {
        let ghost reqs = requests_view(requests@);
        let ghost start = self@;
        let mut replies: Vec<Response> = Vec::new();
        let mut i: usize = from;
        proof {
            lemma_after_none(run_spec(start, reqs, from as int));
            assert(responses_view(replies@) =~= Seq::<ResponseView>::empty());
        }
        loop
            invariant
                self.wf(),
                reqs == requests_view(requests@),
                start == old(self)@,
                run_spec(start, reqs, from as int) == after(
                    responses_view(replies@),
                    run_spec(self@, reqs, i as int),
                ),
            decreases requests@.len() - i,
        {
            let ghost sent = replies@;
            let outcome = self.advance(requests, i);
            match outcome {
                Ok(reply) => {
                    proof {
                        lemma_responses_push(sent, reply);
                        lemma_after_push(
                            responses_view(sent),
                            reply@,
                            run_spec(self@, reqs, i + 1),
                        );
                    }
                    replies.push(reply);
                    i += 1;
                },
                Err(stop) => {
                    proof {
                        assert(responses_view(sent) + Seq::<ResponseView>::empty()
                            =~= responses_view(sent));
                    }
                    return Batch { replies, pending: stop.0, next: stop.1 };
                },
            }
        }
    }

    /// Serves the request at position `at`, if the session is open and there
    /// is one. `Ok` where it was answered: serving goes on behind it.
    /// Otherwise serving stops, with the provider work that is due and the
    /// position to take up at.
    fn advance(&mut self, requests: &Vec<Request>, at: usize) -> (r: Result<
        Response,
        (Option<Reaction>, usize),
    >)
        requires
            old(self).wf(),
        ensures
            final(self).wf(),
            r is Ok ==> at < requests@.len() <= usize::MAX,
            r is Ok ==> run_spec(old(self)@, requests_view(requests@), at as int) == after(
                seq![r->Ok_0@],
                run_spec(final(self)@, requests_view(requests@), at + 1),
            ),
            r is Err ==> run_spec(old(self)@, requests_view(requests@), at as int) == (BatchView {
                state: final(self)@,
                replies: Seq::empty(),
                pending: match r->Err_0.0 {
                    Some(reaction) => Some(reaction@),
                    None => None,
                },
                next: r->Err_0.1 as int,
            }),
    {
        let ghost reqs = requests_view(requests@);
        if at >= requests.len() {
            proof {
                lemma_run_end(self@, reqs, at as int);
            }
            return Err((None, at));
        }
        if self.is_closed() {
            proof {
                lemma_run_end(self@, reqs, at as int);
            }
            return Err((None, requests.len()));
        }
        let ghost before = self@;
        let reaction = self.serve(&requests[at]);
        proof {
            lemma_run_step(before, reqs, at as int, self@, reaction@);
        }
        match reaction {
            Reaction::Reply(reply) => Ok(reply),
            other => Err((Some(other), at + 1)),
        }
    }

    /// Takes the provider's judgement of a `PASS`. Accepted, the session
    /// enters the transaction state on a snapshot of `contents`, the user's
    /// messages as the provider lists them; refused or failed, it stays in
    /// the authorization state and forgets the user name.
    pub fn authenticated(
        &mut self,
        verdict: Result<bool, ProviderError>,
        contents: &Vec<Vec<u8>>,
    ) -> (r: Response)
        requires
            old(self).wf(),
        ensures
            final(self).wf(),
            (final(self)@, r@) == after_auth(old(self)@, verdict, contents_view(contents@)),
    {
        let owner: Vec<u8> = match &self.state {
            SessionState::Authorization { user: Some(u) } => copy_bytes(u.as_slice()),
            _ => {
                return Response::err(text("no login pending"));
            },
        };
        match verdict {
            Ok(true) => {
                let mailbox = MailboxSnapshot::snapshot(owner, contents);
                assert(mailbox@ =~= fresh(contents_view(contents@)));
                self.state = SessionState::Transaction { mailbox };
                Response::ok(text("maildrop ready"))
            },
            Ok(false) => {
                self.state = SessionState::Authorization { user: None };
                Response::err(text("invalid credentials"))
            },
            Err(_) => {
                self.state = SessionState::Authorization { user: None };
                Response::err(text("authentication unavailable"))
            },
        }
    }

    /// Takes the provider's result of a commit. The session closes either
    /// way; a failed commit is answered with an error.
    pub fn committed(&mut self, result: Result<(), ProviderError>) -> (r: Response)
        requires
            old(self).wf(),
        ensures
            final(self).wf(),
            (final(self)@, r@) == after_commit(old(self)@, result),
    {
        match &self.state {
            SessionState::Update => {},
            _ => {
                return Response::err(text("no commit pending"));
            },
        }
        self.state = SessionState::Closed;
        match result {
            Ok(_) => Response::ok(text("bye")),
            Err(_) => Response::err(text("some deleted messages not removed")),
        }
    }

    /// The transport is gone: the session is over, and marks that were never
    /// committed are dropped with it.
    pub fn on_close(&mut self)
        ensures
            final(self).wf(),
            final(self)@ == StateView::Closed,
    {
        self.state = SessionState::Closed;
    }

    /// Whether the session is over.
    pub fn is_closed(&self) -> (r: bool)
        ensures
            r == (self@ == StateView::Closed),
    {
        match &self.state {
            SessionState::Closed => true,
            _ => false,
        }
    }
}

/// A closed session is silent: whatever lines follow, none is answered,
/// none causes provider work, and the session stays closed.
pub proof fn law_closed_session_is_silent(
    requests: Seq<Result<CommandView, ParseError>>,
    from: int,
)
    ensures
        run_spec(StateView::Closed, requests, from).state == StateView::Closed,
        run_spec(StateView::Closed, requests, from).replies == Seq::<ResponseView>::empty(),
        run_spec(StateView::Closed, requests, from).pending == None::<ReactionView>,
{
    reveal(run_spec);
}

/// Nothing follows a `QUIT` in the transaction state. Serving stops at the
/// `QUIT` with the commit of exactly the marked messages as the only work;
/// once the provider's result is taken the session is closed, whatever the
/// result, and the lines after the `QUIT` get no reply and cause no
/// provider work.
pub proof fn law_nothing_follows_quit(
    s: StateView,
    requests: Seq<Result<CommandView, ParseError>>,
    from: int,
    result: Result<(), ProviderError>,
)
    requires
        s is Transaction,
        0 <= from < requests.len(),
        requests[from] == Ok::<CommandView, ParseError>(CommandView::Quit),
    ensures
        ({
            let stop = run_spec(s, requests, from);
            let closed = after_commit(stop.state, result).0;
            let rest = run_spec(closed, requests, stop.next);
            &&& stop.replies == Seq::<ResponseView>::empty()
            &&& stop.pending == Some(
                ReactionView::Commit {
                    user: s->owner,
                    indices: marked_ordinals(s->mailbox, s->mailbox.len() as int),
                },
            )
            &&& stop.next == from + 1
            &&& closed == StateView::Closed
            &&& rest.state == StateView::Closed
            &&& rest.replies == Seq::<ResponseView>::empty()
            &&& rest.pending == None::<ReactionView>
        }),
{
    reveal(run_spec);
}

/// A `QUIT` before login is answered once and closes the session; the
/// lines after it get no reply and cause no provider work.
pub proof fn law_quit_before_login_is_last(
    s: StateView,
    requests: Seq<Result<CommandView, ParseError>>,
    from: int,
)
    requires
        s is Authorization,
        0 <= from < requests.len(),
        requests[from] == Ok::<CommandView, ParseError>(CommandView::Quit),
    ensures
        run_spec(s, requests, from).state == StateView::Closed,
        run_spec(s, requests, from).replies == seq![ok_view(lit("bye"))],
        run_spec(s, requests, from).pending == None::<ReactionView>,
{
    reveal(run_spec);
    let rest = run_spec(StateView::Closed, requests, from + 1);
    assert(seq![ok_view(lit("bye"))] + rest.replies =~= seq![ok_view(lit("bye"))]);
}

/// After a `DELE` that succeeded, `RETR`, `LIST` and `DELE` of the same
/// message are each answered with the already-deleted error and leave the
/// state as it is.
pub proof fn law_deleted_message_is_refused(s: StateView, index: usize)
    requires
        s is Transaction,
        locate(s->mailbox, index) is Ok,
    ensures
        ({
            let marked = step(s, CommandView::Dele(index)).0;
            let refused = ReactionView::Reply(mailbox_error_reply(MailboxError::AlreadyDeleted));
            &&& step(marked, CommandView::Retr(index)) == (marked, refused)
            &&& step(marked, CommandView::List(Some(index))) == (marked, refused)
            &&& step(marked, CommandView::Dele(index)) == (marked, refused)
        }),
{
    let m = s->mailbox;
    crate::mailbox::law_marked_message_is_hidden(m, index);
}

/// A deletion mark stays through every command but `RSET` and `QUIT`: the
/// session is still in the transaction state and the message is still
/// refused as already deleted.
pub proof fn law_marks_survive(s: StateView, c: CommandView, index: usize)
    requires
        s is Transaction,
        locate(s->mailbox, index) == Err::<int, MailboxError>(MailboxError::AlreadyDeleted),
        !(c is Rset),
        !(c is Quit),
    ensures
        step(s, c).0 is Transaction,
        locate(step(s, c).0->mailbox, index) == Err::<int, MailboxError>(
            MailboxError::AlreadyDeleted,
        ),
{
}

/// `RSET` brings the count that `STAT` reports back to the number of
/// messages in the snapshot, whatever was marked before.
pub proof fn law_rset_restores_count(s: StateView)
    requires
        s is Transaction,
    ensures
        ({
            let after = step(s, CommandView::Rset).0;
            &&& after is Transaction
            &&& after->mailbox.len() == s->mailbox.len()
            &&& live_count(after->mailbox, after->mailbox.len() as int) == s->mailbox.len()
            &&& step(after, CommandView::Stat).1 == ReactionView::Reply(
                ok_view(
                    decimal_digits(s->mailbox.len()) + lit(" ") + decimal_digits(
                        live_octets(after->mailbox, after->mailbox.len() as int),
                    ),
                ),
            )
        }),
{
    crate::mailbox::law_reset_restores_all(s->mailbox);
}

/// The snapshot is frozen: whatever command runs in the transaction state,
/// the mailbox keeps its owner, its length and the content of every message
/// at its position. Only deletion marks change.
pub proof fn law_snapshot_is_frozen(s: StateView, c: CommandView)
    requires
        s is Transaction,
        step(s, c).0 is Transaction,
    ensures
        step(s, c).0->owner == s->owner,
        step(s, c).0->mailbox.len() == s->mailbox.len(),
        forall|i: int|
            0 <= i < s->mailbox.len() ==> (#[trigger] step(s, c).0->mailbox[i]).content
                == s->mailbox[i].content,
{
}

/// A command that is answered with an error leaves the state as it was.
pub proof fn law_error_changes_nothing(s: StateView, c: CommandView)
    ensures
        (step(s, c).1 is Reply && !step(s, c).1->Reply_0.ok) ==> step(s, c).0 == s,
{
}

/// Only `QUIT` ends a session, and only the transaction state's `QUIT` hands
/// deletions to the provider: exactly the marked messages, in ascending order.
pub proof fn law_quit_commits_marks(s: StateView, c: CommandView)
    ensures
        step(s, c).1 is Commit <==> (s is Transaction && c is Quit),
        step(s, c).1 is Commit ==> step(s, c).0 == StateView::Update && step(
            s,
            c,
        ).1->indices == marked_ordinals(s->mailbox, s->mailbox.len() as int),
        (step(s, c).0 == StateView::Closed && s != StateView::Closed) ==> c is Quit,
{
}

} // verus!
