use mock_pop::command::Command;
use mock_pop::mailbox::{MailboxError, MailboxSnapshot};
use mock_pop::request::Request;
use mock_pop::response::Response;
use mock_pop::session::{
    login_outcome, wants_listing, ProviderError, Reaction, Session, SessionState,
};

fn line(text: &str) -> Request {
    Request { command: Command::from_str(text) }
}

fn reply(reaction: Reaction) -> Vec<u8> {
    match reaction {
        Reaction::Reply(response) => response.respond(),
        other => panic!("expected a reply, got {:?}", other),
    }
}

fn send(session: &mut Session, text: &str) -> Vec<u8> {
    reply(session.serve(&line(text)))
}

fn logged_in(contents: Vec<Vec<u8>>) -> Session {
    let mut session = Session::new();
    send(&mut session, "USER alice");
    match session.serve(&line("PASS secret")) {
        Reaction::Authenticate { .. } => {}
        other => panic!("expected a credential check, got {:?}", other),
    }
    session.authenticated(Ok(true), &contents);
    session
}

fn two_messages() -> Vec<Vec<u8>> {
    vec![b"abcd".to_vec(), b"sixsix".to_vec()]
}

fn in_transaction(session: &Session) -> bool {
    matches!(session.state, SessionState::Transaction { .. })
}

#[test]
fn login_enters_transaction() {
    let mut session = Session::new();
    assert_eq!(send(&mut session, "USER alice"), b"+OK user accepted\r\n".to_vec());
    let reaction = session.serve(&line("PASS secret"));
    assert_eq!(
        reaction,
        Reaction::Authenticate { user: b"alice".to_vec(), secret: b"secret".to_vec() }
    );
    let response = session.authenticated(Ok(true), &two_messages());
    assert_eq!(response.respond(), b"+OK maildrop ready\r\n".to_vec());
    assert!(in_transaction(&session));
    match &session.state {
        SessionState::Transaction { mailbox } => {
            assert_eq!(mailbox.owner, b"alice".to_vec());
            assert_eq!(mailbox.len(), 2);
        }
        other => panic!("unexpected state {:?}", other),
    }
}

#[test]
fn stat_counts_messages_and_octets() {
    let mut session = logged_in(two_messages());
    assert_eq!(send(&mut session, "STAT"), b"+OK 2 10\r\n".to_vec());
}

#[test]
fn second_delete_is_refused() {
    let mut session = logged_in(two_messages());
    assert_eq!(send(&mut session, "DELE 1"), b"+OK message 1 deleted\r\n".to_vec());
    assert_eq!(send(&mut session, "DELE 1"), b"-ERR message already deleted\r\n".to_vec());
    assert_eq!(send(&mut session, "STAT"), b"+OK 1 6\r\n".to_vec());
}

#[test]
fn retrieve_out_of_range_changes_nothing() {
    let mut session = logged_in(two_messages());
    let before = session.clone();
    assert_eq!(send(&mut session, "RETR 5"), b"-ERR no such message\r\n".to_vec());
    assert_eq!(session, before);
    assert_eq!(send(&mut session, "STAT"), b"+OK 2 10\r\n".to_vec());
}

#[test]
fn quit_commits_marked_messages() {
    let mut session = logged_in(two_messages());
    send(&mut session, "DELE 1");
    let reaction = session.serve(&line("QUIT"));
    assert_eq!(reaction, Reaction::Commit { user: b"alice".to_vec(), indices: vec![1] });
    assert_eq!(session.state, SessionState::Update);
    let goodbye = session.committed(Ok(()));
    assert_eq!(goodbye.respond(), b"+OK bye\r\n".to_vec());
    assert!(session.is_closed());
}

#[test]
fn failed_commit_closes_with_an_error() {
    let mut session = logged_in(two_messages());
    send(&mut session, "DELE 2");
    let reaction = session.serve(&line("QUIT"));
    assert_eq!(reaction, Reaction::Commit { user: b"alice".to_vec(), indices: vec![2] });
    let goodbye = session.committed(Err(ProviderError::Conflict));
    assert_eq!(goodbye.respond(), b"-ERR some deleted messages not removed\r\n".to_vec());
    assert!(session.is_closed());
}

#[test]
fn commit_without_quit_is_refused() {
    let mut session = logged_in(two_messages());
    let response = session.committed(Ok(()));
    assert_eq!(response.respond(), b"-ERR no commit pending\r\n".to_vec());
    assert!(in_transaction(&session));
}

#[test]
fn rejected_password_stays_in_authorization() {
    let mut session = Session::new();
    send(&mut session, "USER alice");
    session.serve(&line("PASS wrong"));
    let response = session.authenticated(Ok(false), &vec![]);
    assert_eq!(response.respond(), b"-ERR invalid credentials\r\n".to_vec());
    assert_eq!(session.state, SessionState::Authorization { user: None });
    send(&mut session, "USER alice");
    session.serve(&line("PASS wrong"));
    let response = session.authenticated(Err(ProviderError::Unavailable), &vec![]);
    assert_eq!(response.respond(), b"-ERR authentication unavailable\r\n".to_vec());
    assert_eq!(session.state, SessionState::Authorization { user: None });
}

#[test]
fn password_needs_a_user() {
    let mut session = Session::new();
    assert_eq!(send(&mut session, "PASS secret"), b"-ERR USER first\r\n".to_vec());
    let response = session.authenticated(Ok(true), &two_messages());
    assert_eq!(response.respond(), b"-ERR no login pending\r\n".to_vec());
    assert_eq!(session.state, SessionState::Authorization { user: None });
}

#[test]
fn quit_before_login_closes_at_once() {
    let mut session = Session::new();
    assert_eq!(send(&mut session, "QUIT"), b"+OK bye\r\n".to_vec());
    assert!(session.is_closed());
}

#[test]
fn commands_out_of_state_are_refused() {
    let mut session = Session::new();
    assert_eq!(
        send(&mut session, "STAT"),
        b"-ERR STAT not allowed in AUTHORIZATION state\r\n".to_vec()
    );
    assert_eq!(
        send(&mut session, "DELE 1"),
        b"-ERR DELE not allowed in AUTHORIZATION state\r\n".to_vec()
    );
    assert_eq!(
        send(&mut session, "RSET"),
        b"-ERR RSET not allowed in AUTHORIZATION state\r\n".to_vec()
    );
    assert_eq!(session.state, SessionState::Authorization { user: None });
    let mut session = logged_in(two_messages());
    assert_eq!(
        send(&mut session, "USER bob"),
        b"-ERR USER not allowed in TRANSACTION state\r\n".to_vec()
    );
    assert_eq!(
        send(&mut session, "CAPA"),
        b"-ERR CAPA not allowed in TRANSACTION state\r\n".to_vec()
    );
    assert!(in_transaction(&session));
    session.on_close();
    assert_eq!(send(&mut session, "NOOP"), b"-ERR NOOP not allowed in CLOSED state\r\n".to_vec());
    let unknown = Command::Unknown(b"XYZZY".to_vec());
    assert_eq!(
        reply(unknown.respond(&mut session)),
        b"-ERR command not allowed in CLOSED state\r\n".to_vec()
    );
}

#[test]
fn lines_that_are_no_command_get_an_error() {
    let mut session = logged_in(two_messages());
    assert_eq!(send(&mut session, "FROB"), b"-ERR Invalid command\r\n".to_vec());
    assert_eq!(send(&mut session, "RETR"), b"-ERR missing argument\r\n".to_vec());
    assert_eq!(send(&mut session, "RETR zero"), b"-ERR invalid argument\r\n".to_vec());
    assert_eq!(send(&mut session, "STAT"), b"+OK 2 10\r\n".to_vec());
}

#[test]
fn info_commands_before_login() {
    let mut session = Session::new();
    assert_eq!(send(&mut session, "NOOP"), b"+OK \r\n".to_vec());
    assert_eq!(send(&mut session, "CAPA"), b"+OK \r\nPLAIN\r\n.\r\n".to_vec());
    assert_eq!(send(&mut session, "AUTH"), b"+OK \r\nPLAIN\r\nANONYMOUS\r\n.\r\n".to_vec());
    assert_eq!(session.state, SessionState::Authorization { user: None });
}

#[test]
fn greeting_line() {
    assert_eq!(Session::greeting().respond(), b"+OK Welcome to mock-pop\r\n".to_vec());
}

#[test]
fn list_and_uidl() {
    let mut session = logged_in(vec![b"abcd".to_vec(), b"sixsix".to_vec(), b"0123456789ab".to_vec()]);
    assert_eq!(
        send(&mut session, "LIST"),
        b"+OK 3 messages (22 octets)\r\n1 4\r\n2 6\r\n3 12\r\n.\r\n".to_vec()
    );
    assert_eq!(send(&mut session, "LIST 2"), b"+OK 2 6\r\n".to_vec());
    assert_eq!(send(&mut session, "DELE 2"), b"+OK message 2 deleted\r\n".to_vec());
    assert_eq!(
        send(&mut session, "LIST"),
        b"+OK 2 messages (16 octets)\r\n1 4\r\n3 12\r\n.\r\n".to_vec()
    );
    assert_eq!(send(&mut session, "LIST 2"), b"-ERR message already deleted\r\n".to_vec());
    assert_eq!(send(&mut session, "LIST 4"), b"-ERR no such message\r\n".to_vec());
    assert_eq!(
        send(&mut session, "UIDL"),
        b"+OK 2 messages (16 octets)\r\n1 msg1\r\n3 msg3\r\n.\r\n".to_vec()
    );
    assert_eq!(send(&mut session, "UIDL 3"), b"+OK 3 msg3\r\n".to_vec());
    assert_eq!(send(&mut session, "UIDL 2"), b"-ERR message already deleted\r\n".to_vec());
}

#[test]
fn retrieve_sends_the_message_stuffed() {
    let mut session = logged_in(vec![b"Subject: hi\r\n\r\n.dot first\r\n.\r\nlast".to_vec()]);
    assert_eq!(
        send(&mut session, "RETR 1"),
        b"+OK 34 octets\r\nSubject: hi\r\n\r\n..dot first\r\n..\r\nlast\r\n.\r\n".to_vec()
    );
}

#[test]
fn deleted_messages_stay_hidden_until_reset() {
    let mut session = logged_in(two_messages());
    send(&mut session, "DELE 1");
    assert_eq!(send(&mut session, "RETR 1"), b"-ERR message already deleted\r\n".to_vec());
    assert_eq!(send(&mut session, "LIST 1"), b"-ERR message already deleted\r\n".to_vec());
    send(&mut session, "NOOP");
    send(&mut session, "DELE 2");
    assert_eq!(send(&mut session, "RETR 1"), b"-ERR message already deleted\r\n".to_vec());
    assert_eq!(send(&mut session, "STAT"), b"+OK 0 0\r\n".to_vec());
    assert_eq!(send(&mut session, "RSET"), b"+OK maildrop has 2 messages\r\n".to_vec());
    assert_eq!(send(&mut session, "STAT"), b"+OK 2 10\r\n".to_vec());
    assert_eq!(send(&mut session, "RETR 1"), b"+OK 4 octets\r\nabcd\r\n.\r\n".to_vec());
}

#[test]
fn reset_without_marks_succeeds() {
    let mut session = logged_in(two_messages());
    assert_eq!(send(&mut session, "RSET"), b"+OK maildrop has 2 messages\r\n".to_vec());
    assert_eq!(send(&mut session, "STAT"), b"+OK 2 10\r\n".to_vec());
}

#[test]
fn quit_without_marks_commits_nothing() {
    let mut session = logged_in(two_messages());
    let reaction = session.serve(&line("QUIT"));
    assert_eq!(reaction, Reaction::Commit { user: b"alice".to_vec(), indices: vec![] });
}

#[test]
fn closing_drops_staged_deletions() {
    let mut session = logged_in(two_messages());
    send(&mut session, "DELE 1");
    session.on_close();
    assert!(session.is_closed());
    assert_eq!(session.state, SessionState::Closed);
}

#[test]
fn mailbox_listing_adds_up_to_stat() {
    let mut mailbox = MailboxSnapshot::snapshot(
        b"bob".to_vec(),
        &vec![b"a".to_vec(), b"bcd".to_vec(), b"".to_vec(), b"efghij".to_vec()],
    );
    assert_eq!(mailbox.stat(), (4, 10));
    assert_eq!(mailbox.mark_deleted(2), Ok(()));
    let entries = mailbox.list(None).unwrap();
    assert_eq!(entries, vec![(1, 1), (3, 0), (4, 6)]);
    let (count, octets) = mailbox.stat();
    assert_eq!(count, entries.len());
    assert_eq!(octets, entries.iter().map(|e| e.1 as u128).sum::<u128>());
    assert_eq!((count, octets), (3, 7));
}

#[test]
fn mailbox_errors() {
    let mut mailbox = MailboxSnapshot::snapshot(b"bob".to_vec(), &two_messages());
    assert_eq!(mailbox.mark_deleted(0), Err(MailboxError::OutOfRange));
    assert_eq!(mailbox.mark_deleted(3), Err(MailboxError::OutOfRange));
    assert_eq!(mailbox.retrieve(3), Err(MailboxError::OutOfRange));
    assert_eq!(mailbox.list(Some(0)), Err(MailboxError::OutOfRange));
    assert_eq!(mailbox.mark_deleted(2), Ok(()));
    assert_eq!(mailbox.mark_deleted(2), Err(MailboxError::AlreadyDeleted));
    assert_eq!(mailbox.retrieve(2), Err(MailboxError::AlreadyDeleted));
    assert_eq!(mailbox.list(Some(2)), Err(MailboxError::AlreadyDeleted));
    assert_eq!(mailbox.retrieve(1), Ok(&b"abcd".to_vec()));
    assert_eq!(mailbox.list(Some(1)), Ok(vec![(1, 4)]));
    assert_eq!(mailbox.marked(), vec![2]);
    mailbox.reset_deletions();
    assert_eq!(mailbox.marked(), Vec::<usize>::new());
    assert_eq!(mailbox.stat(), (2, 10));
    assert_eq!(mailbox.messages[1].ordinal, 2);
    assert_eq!(mailbox.messages[1].size, 6);
}

#[test]
fn snapshot_is_frozen_while_marks_change() {
    let mut session = logged_in(two_messages());
    send(&mut session, "DELE 1");
    send(&mut session, "LIST");
    send(&mut session, "RSET");
    send(&mut session, "DELE 2");
    match &session.state {
        SessionState::Transaction { mailbox } => {
            assert_eq!(mailbox.owner, b"alice".to_vec());
            assert_eq!(mailbox.len(), 2);
            assert_eq!(mailbox.messages[0].content, b"abcd".to_vec());
            assert_eq!(mailbox.messages[1].content, b"sixsix".to_vec());
            assert!(!mailbox.messages[0].deleted);
            assert!(mailbox.messages[1].deleted);
        }
        other => panic!("unexpected state {:?}", other),
    }
}

#[test]
fn later_provider_changes_are_not_seen() {
    let mut listed = two_messages();
    let mut session = Session::new();
    send(&mut session, "USER alice");
    session.serve(&line("PASS secret"));
    session.authenticated(Ok(true), &listed);
    listed.push(b"late arrival".to_vec());
    listed[0] = b"changed".to_vec();
    assert_eq!(send(&mut session, "STAT"), b"+OK 2 10\r\n".to_vec());
    assert_eq!(send(&mut session, "RETR 1"), b"+OK 4 octets\r\nabcd\r\n.\r\n".to_vec());
}

#[test]
fn large_totals_are_written_in_full() {
    let mut session = logged_in(vec![vec![b'x'; 70000], vec![b'y'; 65536]]);
    assert_eq!(send(&mut session, "STAT"), b"+OK 2 135536\r\n".to_vec());
    assert_eq!(send(&mut session, "LIST 1"), b"+OK 1 70000\r\n".to_vec());
}

fn wire(replies: &[Response]) -> Vec<Vec<u8>> {
    replies.iter().map(|r| r.respond()).collect()
}

#[test]
fn nothing_is_answered_after_quit() {
    let mut session = logged_in(two_messages());
    let requests = vec![line("DELE 1"), line("QUIT"), line("STAT"), line("DELE 2"), line("NOOP")];
    let batch = session.run(&requests, 0);
    assert_eq!(wire(&batch.replies), vec![b"+OK message 1 deleted\r\n".to_vec()]);
    assert_eq!(
        batch.pending,
        Some(Reaction::Commit { user: b"alice".to_vec(), indices: vec![1] })
    );
    assert_eq!(batch.next, 2);
    assert_eq!(session.state, SessionState::Update);
    assert_eq!(session.committed(Ok(())).respond(), b"+OK bye\r\n".to_vec());
    let rest = session.run(&requests, batch.next);
    assert!(rest.replies.is_empty());
    assert_eq!(rest.pending, None);
    assert_eq!(rest.next, 5);
    assert!(session.is_closed());
}

#[test]
fn nothing_is_answered_after_quit_before_login() {
    let mut session = Session::new();
    let requests = vec![line("NOOP"), line("QUIT"), line("USER alice"), line("PASS secret")];
    let batch = session.run(&requests, 0);
    assert_eq!(wire(&batch.replies), vec![b"+OK \r\n".to_vec(), b"+OK bye\r\n".to_vec()]);
    assert_eq!(batch.pending, None);
    assert_eq!(batch.next, 4);
    assert!(session.is_closed());
}

#[test]
fn serving_pauses_for_the_provider_and_goes_on() {
    let mut session = Session::new();
    let requests =
        vec![line("USER alice"), line("PASS secret"), line("STAT"), line("BOGUS"), line("LIST 2")];
    let batch = session.run(&requests, 0);
    assert_eq!(wire(&batch.replies), vec![b"+OK user accepted\r\n".to_vec()]);
    assert_eq!(
        batch.pending,
        Some(Reaction::Authenticate { user: b"alice".to_vec(), secret: b"secret".to_vec() })
    );
    assert_eq!(batch.next, 2);
    session.authenticated(Ok(true), &two_messages());
    let rest = session.run(&requests, batch.next);
    assert_eq!(
        wire(&rest.replies),
        vec![
            b"+OK 2 10\r\n".to_vec(),
            b"-ERR Invalid command\r\n".to_vec(),
            b"+OK 2 6\r\n".to_vec(),
        ]
    );
    assert_eq!(rest.pending, None);
    assert_eq!(rest.next, 5);
    let nothing = session.run(&requests, 7);
    assert!(nothing.replies.is_empty());
    assert_eq!(nothing.pending, None);
    assert_eq!(nothing.next, 7);
    assert!(in_transaction(&session));
}

#[test]
fn messages_are_listed_only_after_an_accepting_verdict() {
    assert!(wants_listing(&Ok(true)));
    assert!(!wants_listing(&Ok(false)));
    assert!(!wants_listing(&Err(ProviderError::Unavailable)));
    assert!(!wants_listing(&Err(ProviderError::Conflict)));
}

#[test]
fn login_outcomes() {
    let none: Vec<Vec<u8>> = vec![];
    assert_eq!(login_outcome(Ok(true), Some(Ok(two_messages()))), (Ok(true), two_messages()));
    assert_eq!(
        login_outcome(Ok(true), Some(Err(ProviderError::Conflict))),
        (Err(ProviderError::Conflict), none.clone())
    );
    assert_eq!(login_outcome(Ok(true), None), (Err(ProviderError::Unavailable), none.clone()));
    assert_eq!(login_outcome(Ok(false), Some(Ok(two_messages()))), (Ok(false), none.clone()));
    assert_eq!(login_outcome(Ok(false), None), (Ok(false), none.clone()));
    assert_eq!(
        login_outcome(Err(ProviderError::Unavailable), Some(Ok(two_messages()))),
        (Err(ProviderError::Unavailable), none.clone())
    );
    assert_eq!(
        login_outcome(Err(ProviderError::Conflict), None),
        (Err(ProviderError::Conflict), none)
    );
}

#[test]
fn failed_listing_fails_the_login() {
    let mut session = Session::new();
    send(&mut session, "USER alice");
    session.serve(&line("PASS secret"));
    let (verdict, contents) = login_outcome(Ok(true), Some(Err(ProviderError::Unavailable)));
    let response = session.authenticated(verdict, &contents);
    assert_eq!(response.respond(), b"-ERR authentication unavailable\r\n".to_vec());
    assert_eq!(session.state, SessionState::Authorization { user: None });
}
