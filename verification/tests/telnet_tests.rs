use mudnet::telnet::{parse, send, Command, OtherCommand};

#[test]
fn parse_will_yields_one_command() {
    let mut buffer: Vec<u8> = vec![255, 251, 7];
    let commands = parse(&mut buffer);
    assert_eq!(commands, vec![Command::Will(7)]);
    assert_eq!(buffer, vec![0, 0, 0]);
}

#[test]
fn parse_do_yields_one_command() {
    let mut buffer: Vec<u8> = vec![255, 253, 1];
    let commands = parse(&mut buffer);
    assert_eq!(commands, vec![Command::Do(1)]);
    assert_eq!(buffer, vec![0, 0, 0]);
}

#[test]
fn parse_wont_and_dont() {
    let mut buffer: Vec<u8> = vec![255, 252, 40, 255, 254, 41];
    let commands = parse(&mut buffer);
    assert_eq!(commands, vec![Command::Wont(40), Command::Dont(41)]);
    assert_eq!(buffer, vec![0, 0, 0, 0, 0, 0]);
}

#[test]
fn parse_other_control_byte() {
    let mut buffer: Vec<u8> = vec![255, 249];
    let commands = parse(&mut buffer);
    assert_eq!(commands, vec![Command::Other(249)]);
    assert_eq!(buffer, vec![0, 0]);
}

#[test]
fn parse_bad_escape_is_malformed() {
    let mut buffer: Vec<u8> = vec![255, 99];
    let commands = parse(&mut buffer);
    assert_eq!(commands, vec![Command::Malformed]);
}

#[test]
fn parse_malformed_discards_earlier_commands() {
    let mut buffer: Vec<u8> = vec![255, 251, 7, 255, 99];
    let commands = parse(&mut buffer);
    assert_eq!(commands, vec![Command::Malformed]);
}

#[test]
fn parse_escaped_iac_yields_no_command() {
    let mut buffer: Vec<u8> = vec![255, 255];
    let commands = parse(&mut buffer);
    assert_eq!(commands, Vec::<Command>::new());
    assert_eq!(buffer, vec![0, 255]);
}

#[test]
fn parse_leaves_payload_in_place() {
    let mut buffer: Vec<u8> = vec![104, 105, 33];
    let commands = parse(&mut buffer);
    assert!(commands.is_empty());
    assert_eq!(buffer, vec![104, 105, 33]);
}

#[test]
fn parse_zeroes_only_control_bytes() {
    let mut buffer: Vec<u8> = vec![104, 255, 251, 3, 105];
    let original_len = buffer.len();
    let commands = parse(&mut buffer);
    assert_eq!(commands, vec![Command::Will(3)]);
    assert_eq!(buffer, vec![104, 0, 0, 0, 105]);
    assert_eq!(buffer.len(), original_len);
}

#[test]
fn parse_negotiate_option_can_be_any_byte() {
    let mut buffer: Vec<u8> = vec![255, 251, 255];
    let commands = parse(&mut buffer);
    assert_eq!(commands, vec![Command::Will(255)]);
    assert_eq!(buffer, vec![0, 0, 0]);
}

#[test]
fn send_negotiation_verbs() {
    assert_eq!(send(Command::Will(3)), vec![255, 251, 3]);
    assert_eq!(send(Command::Wont(3)), vec![255, 252, 3]);
    assert_eq!(send(Command::Do(3)), vec![255, 253, 3]);
    assert_eq!(send(Command::Dont(3)), vec![255, 254, 3]);
}

#[test]
fn send_other_control_byte() {
    assert_eq!(send(Command::Other(249)), vec![255, 249]);
}

#[test]
fn round_trip_pure_control_buffer() {
    let commands = vec![
        Command::Will(1),
        Command::Dont(2),
        Command::Other(249),
        Command::Wont(255),
        Command::Do(0),
    ];
    let mut buffer: Vec<u8> = Vec::new();
    for c in &commands {
        buffer.extend(send(*c));
    }
    let original = buffer.clone();
    let parsed = parse(&mut buffer);
    assert_eq!(parsed, commands);
    let mut reencoded: Vec<u8> = Vec::new();
    for c in &parsed {
        reencoded.extend(send(*c));
    }
    assert_eq!(reencoded, original);
}

#[test]
fn control_byte_names() {
    assert_eq!(OtherCommand::SE.code(), 240);
    assert_eq!(OtherCommand::GA.code(), 249);
    assert_eq!(OtherCommand::SB.code(), 250);
    assert_eq!(OtherCommand::WILL.code(), 251);
    assert_eq!(OtherCommand::WONT.code(), 252);
    assert_eq!(OtherCommand::DO.code(), 253);
    assert_eq!(OtherCommand::DONT.code(), 254);
    assert_eq!(OtherCommand::IAC.code(), 255);
}
