use minikv::commands::{encode_request, Command, CommandError};

fn generate_command_payload(args: Vec<String>) -> Vec<u8> {
    let byte_args: Vec<Vec<u8>> = args.iter().map(|a| a.as_bytes().to_vec()).collect();
    encode_request(&byte_args)
}

#[test]
fn test_generate_command_payload() {
    let args = vec!["GET".to_string(), "key".to_string()];
    let request = generate_command_payload(args);
    let argc = u32::from_le_bytes([request[0], request[1], request[2], request[3]]);
    assert_eq!(2, argc);
    assert_eq!("GET", std::str::from_utf8(&request[8..11]).unwrap());
}

#[test]
fn test_parse_request() {
    let args = vec!["GET".to_string(), "name".to_string()];
    let request = generate_command_payload(args);
    let command = Command::parse_request(&request);
    assert!(command.is_ok());
    let command = command.unwrap();
    assert_eq!(command, Command::Get(b"name".to_vec()));

    let args = vec!["SET".to_string(), "age".to_string(), "32".to_string()];
    let request = generate_command_payload(args);
    let command = Command::parse_request(&request);
    assert!(command.is_ok());
    let command = command.unwrap();
    assert_eq!(command, Command::Put(b"age".to_vec(), b"32".to_vec()));

    let args = vec!["DEL".to_string(), "name".to_string()];
    let request = generate_command_payload(args);
    let command = Command::parse_request(&request);
    assert!(command.is_ok());
    let command = command.unwrap();
    assert_eq!(command, Command::Del(b"name".to_vec()));
}

#[test]
fn parse_rejects_malformed_frames() {
    // shorter than the argument count
    assert_eq!(
        Command::parse_request(&[0, 0, 0]),
        Err(CommandError::Framing)
    );
    // argc out of range
    let one_arg = encode_request(&vec![b"GET".to_vec()]);
    assert_eq!(Command::parse_request(&one_arg), Err(CommandError::Framing));
    let five = encode_request(&vec![
        b"GET".to_vec(),
        b"a".to_vec(),
        b"b".to_vec(),
        b"c".to_vec(),
        b"d".to_vec(),
    ]);
    assert_eq!(Command::parse_request(&five), Err(CommandError::Framing));
    // truncated argument: the length field runs past the input
    let mut bad = Vec::new();
    bad.extend_from_slice(&2u32.to_le_bytes());
    bad.extend_from_slice(&3u32.to_le_bytes());
    bad.extend_from_slice(b"GET");
    bad.extend_from_slice(&5u32.to_le_bytes());
    bad.extend_from_slice(b"key");
    assert_eq!(Command::parse_request(&bad), Err(CommandError::Framing));
    // unknown command name
    let unknown = encode_request(&vec![b"PUT".to_vec(), b"key".to_vec()]);
    assert_eq!(
        Command::parse_request(&unknown),
        Err(CommandError::UnknownCommand)
    );
    // SET must carry three arguments
    let set_two = encode_request(&vec![b"SET".to_vec(), b"key".to_vec()]);
    assert_eq!(Command::parse_request(&set_two), Err(CommandError::Framing));
}

#[test]
fn parse_ignores_trailing_bytes() {
    // a frame at the head of a zero-padded buffer still parses
    let mut buffer = encode_request(&vec![b"GET".to_vec(), b"name".to_vec()]);
    buffer.resize(4100, 0);
    let command = Command::parse_request(&buffer).unwrap();
    assert_eq!(command, Command::Get(b"name".to_vec()));
}

#[test]
fn encode_parse_round_trip() {
    // parse(encode(cmd)) == cmd, for each command kind
    for key in [b"k".to_vec(), b"a longer key".to_vec(), Vec::new()] {
        let get = encode_request(&vec![b"GET".to_vec(), key.clone()]);
        assert_eq!(Command::parse_request(&get), Ok(Command::Get(key.clone())));
        let del = encode_request(&vec![b"DEL".to_vec(), key.clone()]);
        assert_eq!(Command::parse_request(&del), Ok(Command::Del(key.clone())));
        let set = encode_request(&vec![b"SET".to_vec(), key.clone(), b"value".to_vec()]);
        assert_eq!(
            Command::parse_request(&set),
            Ok(Command::Put(key.clone(), b"value".to_vec()))
        );
    }
}

#[test]
fn parse_rejects_oversized_frames() {
    let big = vec![0u8; 5000];
    let frame = encode_request(&vec![b"SET".to_vec(), b"k".to_vec(), big]);
    assert_eq!(Command::parse_request(&frame), Err(CommandError::Framing));
}

#[test]
fn parse_rejects_empty_frame() {
    let frame = encode_request(&Vec::new());
    assert_eq!(Command::parse_request(&frame), Err(CommandError::Framing));
}
