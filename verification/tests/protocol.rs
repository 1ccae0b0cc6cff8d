use linekv::command::{Command, CommandPoll, CommandStream, ErrorKind};
use linekv::connection::{connection_step, error_response, process_commands, response_bytes, ConnStep};
use linekv::db::{Db, DbResult};

#[test]
fn written_reply_encodes_as_one() {
    assert_eq!(response_bytes(&DbResult::Written), b"1\n".to_vec());
}

#[test]
fn not_written_reply_encodes_as_zero() {
    assert_eq!(response_bytes(&DbResult::NotWritten), b"0\n".to_vec());
}

#[test]
fn found_reply_is_value_then_newline() {
    let r = DbResult::Found(b"world yessss".to_vec());
    assert_eq!(response_bytes(&r), b"world yessss\n".to_vec());
}

#[test]
fn not_found_reply_is_an_empty_line() {
    assert_eq!(response_bytes(&DbResult::NotFound), b"\n".to_vec());
}

#[test]
fn error_responses_name_the_kind() {
    assert_eq!(
        error_response(&ErrorKind::CommandNotFound),
        b"ERR CommandNotFound\n".to_vec()
    );
    assert_eq!(error_response(&ErrorKind::InvalidKey), b"ERR InvalidKey\n".to_vec());
    assert_eq!(error_response(&ErrorKind::KeyNotFound), b"ERR KeyNotFound\n".to_vec());
    assert_eq!(
        error_response(&ErrorKind::ValueNotFound),
        b"ERR ValueNotFound\n".to_vec()
    );
}

#[test]
fn step_dispatches_a_parsed_command() {
    let p = CommandPoll::Item(Ok(Command::Get(b"k".to_vec())));
    match connection_step(p) {
        ConnStep::Dispatch(Command::Get(k)) => assert_eq!(k, b"k".to_vec()),
        _ => panic!("expected a dispatch"),
    }
}

#[test]
fn step_answers_a_parse_error_inline() {
    let p = CommandPoll::Item(Err(ErrorKind::InvalidKey));
    match connection_step(p) {
        ConnStep::Reply(out) => assert_eq!(out, b"ERR InvalidKey\n".to_vec()),
        _ => panic!("expected an inline reply"),
    }
}

#[test]
fn step_closes_and_suspends() {
    assert!(matches!(connection_step(CommandPoll::Closed), ConnStep::Close));
    assert!(matches!(connection_step(CommandPoll::Pending), ConnStep::Idle));
}

#[test]
fn replies_come_back_in_command_order() {
    let mut db = Db::new();
    let cmds = vec![
        Command::Put(b"a".to_vec(), b"1".to_vec()),
        Command::Get(b"a".to_vec()),
        Command::Get(b"b".to_vec()),
        Command::Put(b"a".to_vec(), b"2".to_vec()),
        Command::Get(b"a".to_vec()),
    ];
    let replies = process_commands(&mut db, &cmds);
    assert_eq!(
        replies,
        vec![
            DbResult::Written,
            DbResult::Found(b"1".to_vec()),
            DbResult::NotFound,
            DbResult::Written,
            DbResult::Found(b"2".to_vec()),
        ]
    );
}

#[test]
fn a_full_session_over_the_wire() {
    // frames arrive in chunks, commands run in order, responses are encoded
    let mut stream = CommandStream::new();
    let mut db = Db::new();
    let mut out: Vec<u8> = Vec::new();
    for chunk in [
        &b"set hello world\nget h"[..],
        &b"ello\nget gone\nbad\n"[..],
    ] {
        stream.fill(&chunk.to_vec());
        loop {
            match stream.poll(false) {
                CommandPoll::Item(Ok(cmd)) => {
                    let reply = db.apply(cmd);
                    out.extend(response_bytes(&reply));
                }
                CommandPoll::Item(Err(kind)) => out.extend(error_response(&kind)),
                CommandPoll::Closed => break,
                CommandPoll::Pending => break,
            }
        }
    }
    assert_eq!(out, b"1\nworld\n\nERR CommandNotFound\n".to_vec());
}
