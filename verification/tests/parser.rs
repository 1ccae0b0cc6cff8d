use linekv::command::{Command, ErrorKind};

#[test]
fn it_can_parse_to_set() {
    let bytes = b"set hello world yessss".to_vec();
    assert_eq!(
        Command::from(bytes),
        Ok(Command::Put(b"hello".to_vec(), b"world yessss".to_vec()))
    );
}

#[test]
fn it_can_parse_to_get() {
    let bytes = b"get hello".to_vec();
    assert_eq!(Command::from(bytes), Ok(Command::Get(b"hello".to_vec())));
}

#[test]
fn it_can_detect_no_command() {
    let bytes = b"hello world".to_vec();
    assert_eq!(Command::from(bytes), Err(ErrorKind::CommandNotFound));
}

#[test]
fn it_can_detect_invalid_key() {
    let bytes = b"get invalid key".to_vec();
    assert_eq!(Command::from(bytes), Err(ErrorKind::InvalidKey));
}

#[test]
fn it_can_detect_no_key_for_get() {
    let bytes = b"get ".to_vec();
    assert_eq!(Command::from(bytes), Err(ErrorKind::KeyNotFound));
}

#[test]
fn it_can_detect_no_key_for_set() {
    let bytes = b"set  ".to_vec();
    assert_eq!(Command::from(bytes), Err(ErrorKind::KeyNotFound));
    let bytes = b"set ".to_vec();
    assert_eq!(Command::from(bytes), Err(ErrorKind::KeyNotFound));
}

#[test]
fn it_can_detect_no_value_for_set() {
    let bytes = b"set hello ".to_vec();
    assert_eq!(Command::from(bytes), Err(ErrorKind::ValueNotFound));
}

#[test]
fn empty_input_has_no_command() {
    assert_eq!(Command::from(Vec::new()), Err(ErrorKind::CommandNotFound));
}

#[test]
fn verb_without_space_has_no_command() {
    assert_eq!(Command::from(b"get".to_vec()), Err(ErrorKind::CommandNotFound));
}

#[test]
fn unknown_verb_with_key_has_no_command() {
    assert_eq!(Command::from(b"del hello".to_vec()), Err(ErrorKind::CommandNotFound));
}

#[test]
fn set_value_keeps_every_space() {
    let bytes = b"set k  a b  c ".to_vec();
    assert_eq!(
        Command::from(bytes),
        Ok(Command::Put(b"k".to_vec(), b" a b  c ".to_vec()))
    );
}
