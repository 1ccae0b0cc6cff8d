use linekv::command::{Command, CommandPoll, CommandStream};

fn drain(stream: &mut CommandStream) -> Vec<Vec<u8>> {
    let mut frames = Vec::new();
    while let Some(f) = stream.next_frame() {
        frames.push(f);
    }
    frames
}

#[test]
fn frames_from_one_chunk() {
    let mut stream = CommandStream::new();
    stream.fill(&b"set a 1\nget a\n".to_vec());
    let frames = drain(&mut stream);
    assert_eq!(frames, vec![b"set a 1".to_vec(), b"get a".to_vec()]);
}

#[test]
fn byte_at_a_time_yields_the_same_frames() {
    let input = b"set a 1\nget a\nget missing\n".to_vec();

    let mut whole = CommandStream::new();
    whole.fill(&input);
    let expected = drain(&mut whole);

    let mut trickled = CommandStream::new();
    let mut frames = Vec::new();
    for b in input {
        trickled.fill(&vec![b]);
        frames.extend(drain(&mut trickled));
    }
    assert_eq!(frames, expected);
    assert_eq!(frames.len(), 3);
}

#[test]
fn frame_split_across_chunks() {
    let mut stream = CommandStream::new();
    stream.fill(&b"set he".to_vec());
    assert_eq!(stream.next_frame(), None);
    stream.fill(&b"llo wor".to_vec());
    assert_eq!(stream.next_frame(), None);
    stream.fill(&b"ld\nget".to_vec());
    assert_eq!(stream.next_frame(), Some(b"set hello world".to_vec()));
    assert_eq!(stream.next_frame(), None);
    stream.fill(&b" hello\n".to_vec());
    assert_eq!(stream.next_frame(), Some(b"get hello".to_vec()));
}

#[test]
fn empty_frame_is_emitted() {
    let mut stream = CommandStream::new();
    stream.fill(&b"\n".to_vec());
    assert_eq!(stream.next_frame(), Some(Vec::new()));
    assert_eq!(stream.next_frame(), None);
}

#[test]
fn poll_parses_pending_frame() {
    let mut stream = CommandStream::new();
    stream.fill(&b"get hello\n".to_vec());
    match stream.poll(false) {
        CommandPoll::Item(Ok(Command::Get(k))) => assert_eq!(k, b"hello".to_vec()),
        _ => panic!("expected a parsed get"),
    }
    assert!(matches!(stream.poll(false), CommandPoll::Pending));
}

#[test]
fn poll_reports_closed_only_at_eof() {
    let mut stream = CommandStream::new();
    stream.fill(&b"no newline yet".to_vec());
    assert!(matches!(stream.poll(false), CommandPoll::Pending));
    assert!(matches!(stream.poll(true), CommandPoll::Closed));
}
