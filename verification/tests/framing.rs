use bytes::BytesMut;
use mock_pop::command::{Command, ParseError};
use mock_pop::request::{scan_requests, Pop, Request};
use mock_pop::response::{stuff, unstuff, Response};
use mock_pop::text::split_lines;

fn commands(requests: Vec<Request>) -> Vec<Result<Command, ParseError>> {
    requests.into_iter().map(|r| r.command).collect()
}

#[test]
fn decode_takes_complete_lines_and_keeps_the_rest() {
    let mut pop = Pop;
    let mut buf = BytesMut::from(&b"STAT\r\nLIST 2\r\nRET"[..]);
    let got = pop.decode(&mut buf).expect("two complete lines");
    assert_eq!(commands(got), vec![Ok(Command::Stat), Ok(Command::List(Some(2)))]);
    assert_eq!(&buf[..], b"RET");
}

#[test]
fn decode_waits_for_the_line_end() {
    let mut pop = Pop;
    let mut buf = BytesMut::new();
    buf.extend_from_slice(b"US");
    assert_eq!(pop.decode(&mut buf), None);
    assert_eq!(&buf[..], b"US");
    buf.extend_from_slice(b"ER al");
    assert_eq!(pop.decode(&mut buf), None);
    buf.extend_from_slice(b"ice\r");
    assert_eq!(pop.decode(&mut buf), None);
    assert_eq!(&buf[..], b"USER alice\r");
    buf.extend_from_slice(b"\nNOOP");
    let got = pop.decode(&mut buf).expect("one complete line");
    assert_eq!(commands(got), vec![Ok(Command::User(b"alice".to_vec()))]);
    assert_eq!(&buf[..], b"NOOP");
}

#[test]
fn decode_accepts_a_bare_line_feed() {
    let mut pop = Pop;
    let mut buf = BytesMut::from(&b"NOOP\nQUIT\n"[..]);
    let got = pop.decode(&mut buf).expect("two complete lines");
    assert_eq!(commands(got), vec![Ok(Command::Noop), Ok(Command::Quit)]);
    assert!(buf.is_empty());
}

#[test]
fn decode_skips_blank_lines() {
    let mut pop = Pop;
    let mut buf = BytesMut::from(&b"\r\n  \r\n\n"[..]);
    assert_eq!(pop.decode(&mut buf), None);
    assert!(buf.is_empty());
    let mut buf = BytesMut::from(&b"\r\nSTAT\r\n\r\n"[..]);
    let got = pop.decode(&mut buf).expect("one command");
    assert_eq!(commands(got), vec![Ok(Command::Stat)]);
    assert!(buf.is_empty());
}

#[test]
fn decode_keeps_parse_failures_in_order() {
    let mut pop = Pop;
    let mut buf = BytesMut::from(&b"BOGUS\r\nRETR x\r\nDELE\r\nSTAT\r\n"[..]);
    let got = pop.decode(&mut buf).expect("four lines");
    assert_eq!(
        commands(got),
        vec![
            Err(ParseError::UnrecognizedVerb),
            Err(ParseError::InvalidArgument),
            Err(ParseError::MissingArgument),
            Ok(Command::Stat),
        ]
    );
}

#[test]
fn decode_of_an_empty_buffer_is_none() {
    let mut pop = Pop;
    let mut buf = BytesMut::new();
    assert_eq!(pop.decode(&mut buf), None);
    assert!(buf.is_empty());
}

#[test]
fn scan_reports_the_bytes_used() {
    let (requests, used) = scan_requests(b"STAT\r\nNO");
    assert_eq!(commands(requests), vec![Ok(Command::Stat)]);
    assert_eq!(used, 6);
    let (requests, used) = scan_requests(b"no line end");
    assert!(requests.is_empty());
    assert_eq!(used, 0);
}

#[test]
fn encode_appends_to_the_buffer() {
    let mut pop = Pop;
    let mut buf = BytesMut::from(&b"+OK first\r\n"[..]);
    pop.encode(Response::err(b"no such message".to_vec()), &mut buf);
    assert_eq!(&buf[..], b"+OK first\r\n-ERR no such message\r\n");
}

#[test]
fn single_line_responses() {
    assert_eq!(Response::ok(b"2 10".to_vec()).respond(), b"+OK 2 10\r\n".to_vec());
    assert_eq!(Response::err(b"bad".to_vec()).respond(), b"-ERR bad\r\n".to_vec());
}

#[test]
fn multi_line_response_ends_with_a_lone_dot() {
    let r = Response::multi(b"2 lines".to_vec(), vec![b"one".to_vec(), b"two".to_vec()]);
    assert_eq!(r.respond(), b"+OK 2 lines\r\none\r\ntwo\r\n.\r\n".to_vec());
    let empty = Response::multi(b"0 lines".to_vec(), vec![]);
    assert_eq!(empty.respond(), b"+OK 0 lines\r\n.\r\n".to_vec());
}

#[test]
fn leading_dots_are_stuffed() {
    let r = Response::multi(
        b"body".to_vec(),
        vec![b".".to_vec(), b"..two".to_vec(), b"a.b".to_vec(), b"".to_vec()],
    );
    assert_eq!(r.respond(), b"+OK body\r\n..\r\n...two\r\na.b\r\n\r\n.\r\n".to_vec());
}

#[test]
fn stuffing_round_trip() {
    let lines: Vec<&[u8]> = vec![b".", b"..", b".hidden", b"plain", b"", b"a.b", b". "];
    for line in lines {
        let sent = stuff(line);
        assert_ne!(sent, b".".to_vec());
        assert_eq!(unstuff(&sent), line);
    }
    assert_eq!(stuff(b".hidden"), b"..hidden".to_vec());
    assert_eq!(stuff(b"plain"), b"plain".to_vec());
    assert_eq!(unstuff(b"plain"), b"plain");
}

#[test]
fn encoded_payload_parses_back() {
    let payload: Vec<Vec<u8>> = vec![b".signature".to_vec(), b"text".to_vec(), b".".to_vec()];
    let wire = Response::multi(b"3 lines".to_vec(), payload.clone()).respond();
    let received = split_lines(&wire);
    assert_eq!(received[0], b"+OK 3 lines".to_vec());
    assert_eq!(received[received.len() - 1], b".".to_vec());
    let body: Vec<Vec<u8>> =
        received[1..received.len() - 1].iter().map(|l| unstuff(l).to_vec()).collect();
    assert_eq!(body, payload);
}

#[test]
fn messages_split_into_lines() {
    assert_eq!(split_lines(b"a\r\nb\nc"), vec![b"a".to_vec(), b"b".to_vec(), b"c".to_vec()]);
    assert_eq!(split_lines(b"a\r\n\r\nb\r\n"), vec![b"a".to_vec(), b"".to_vec(), b"b".to_vec()]);
    assert_eq!(split_lines(b""), Vec::<Vec<u8>>::new());
    assert_eq!(split_lines(b"\n"), vec![b"".to_vec()]);
}

#[test]
fn any_chunking_gives_the_same_requests() {
    let input: &[u8] = b"USER a b\r\n\r\npass x\nRETR 1\r\nBOGUS\r\nDELE 0\r\nQUI";
    let mut whole = BytesMut::from(input);
    let expected = Pop.decode(&mut whole).map(commands).unwrap_or_default();
    assert_eq!(expected.len(), 5);
    for cut in 0..=input.len() {
        let mut pop = Pop;
        let mut buf = BytesMut::new();
        buf.extend_from_slice(&input[..cut]);
        let mut got = pop.decode(&mut buf).map(commands).unwrap_or_default();
        buf.extend_from_slice(&input[cut..]);
        got.extend(pop.decode(&mut buf).map(commands).unwrap_or_default());
        assert_eq!(got, expected);
        assert_eq!(&buf[..], &whole[..]);
        assert_eq!(&buf[..], b"QUI");
    }
}
