//! Telnet control-sequence codec.
//!
//! `parse` strips telnet control sequences out of a byte buffer (zeroing the
//! consumed bytes in place) and returns the commands it found; `send`
//! serializes a command back into its `IAC, code, [option]` byte form.

use vstd::prelude::*;

verus! {

/// A decoded telnet control sequence.
///
/// `Will`/`Wont`/`Do`/`Dont` carry the option number under negotiation;
/// `Other` carries a plain control byte in the 240..=250 range (or, when
/// being sent, any byte to emit after an IAC); `Malformed` marks a buffer
/// whose escape sequences did not follow the protocol.
#[derive(Clone, Copy, PartialEq, Eq, Structural, Debug)]
pub enum Command {
    Will(u8),
    Wont(u8),
    Do(u8),
    Dont(u8),
    Other(u8),
    Malformed,
}

/// The named telnet control bytes, 240 (SE) through 255 (IAC).
#[derive(Clone, Copy, PartialEq, Eq, Structural, Debug)]
pub enum OtherCommand {
    SE,
    NOP,
    DM,
    BRK,
    IP,
    AO,
    AYT,
    EC,
    EL,
    GA,
    SB,
    WILL,
    WONT,
    DO,
    DONT,
    IAC,
}

impl OtherCommand {
    /// The byte this control name stands for on the wire.
    pub open spec fn code_spec(self) -> u8 {
        match self {
            OtherCommand::SE => 240,
            OtherCommand::NOP => 241,
            OtherCommand::DM => 242,
            OtherCommand::BRK => 243,
            OtherCommand::IP => 244,
            OtherCommand::AO => 245,
            OtherCommand::AYT => 246,
            OtherCommand::EC => 247,
            OtherCommand::EL => 248,
            OtherCommand::GA => 249,
            OtherCommand::SB => 250,
            OtherCommand::WILL => 251,
            OtherCommand::WONT => 252,
            OtherCommand::DO => 253,
            OtherCommand::DONT => 254,
            OtherCommand::IAC => 255,
        }
    }

    pub fn code(&self) -> (b: u8)
        ensures
            b == self.code_spec(),
    {
        match self {
            OtherCommand::SE => 240,
            OtherCommand::NOP => 241,
            OtherCommand::DM => 242,
            OtherCommand::BRK => 243,
            OtherCommand::IP => 244,
            OtherCommand::AO => 245,
            OtherCommand::AYT => 246,
            OtherCommand::EC => 247,
            OtherCommand::EL => 248,
            OtherCommand::GA => 249,
            OtherCommand::SB => 250,
            OtherCommand::WILL => 251,
            OtherCommand::WONT => 252,
            OtherCommand::DO => 253,
            OtherCommand::DONT => 254,
            OtherCommand::IAC => 255,
        }
    }
}

/// Where the parser stands between bytes: `Normal` outside any control
/// sequence, `InCommand` after an IAC (255), `InNegotiate(verb)` after
/// IAC and one of the negotiation verbs 251..=254, awaiting the option byte.
#[derive(Clone, Copy, PartialEq, Eq, Structural, Debug)]
pub enum ParsingState {
    Normal,
    InCommand,
    InNegotiate(u8),
}

/// The negotiation command a verb byte (251..=254) builds once its option
/// byte arrives.
pub open spec fn negotiated(verb: u8, option: u8) -> Command {
    if verb == 251 {
        Command::Will(option)
    } else if verb == 252 {
        Command::Wont(option)
    } else if verb == 253 {
        Command::Do(option)
    } else {
        Command::Dont(option)
    }
}

/// What one pass of the parser leaves behind: the commands found, the
/// buffer with consumed control bytes zeroed in place, the state the loop
/// ended in, and whether the pass failed on a malformed escape sequence.
pub struct ParseOut {
    pub commands: Seq<Command>,
    pub buffer: Seq<u8>,
    pub state: ParsingState,
    pub malformed: bool,
}

/// The parser's loop, one byte per step, starting at index `i` in `state`
/// with the commands `acc` already found.
///
/// - Normal: 255 starts a control sequence (byte zeroed); anything else is
///   payload and is left in place.
/// - InCommand: 240..=250 emits `Other` (byte zeroed); 251..=254 awaits an
///   option byte (byte zeroed); 255 is an escaped literal IAC, left in
///   place and not emitted; anything else fails the whole pass, the result
///   becoming exactly `[Malformed]` with commands already found discarded.
/// - InNegotiate: the byte is the option number (zeroed), emitting the
///   pending Will/Wont/Do/Dont.
pub open spec fn parse_loop(bytes: Seq<u8>, i: int, state: ParsingState, acc: Seq<Command>) -> ParseOut
    decreases bytes.len() - i,
{
    if i < 0 || i >= bytes.len() {
        ParseOut { commands: acc, buffer: bytes, state, malformed: false }
    } else {
        let b = bytes[i];
        match state {
            ParsingState::Normal => {
                if b == 255 {
                    parse_loop(bytes.update(i, 0), i + 1, ParsingState::InCommand, acc)
                } else {
                    parse_loop(bytes, i + 1, ParsingState::Normal, acc)
                }
            }
            ParsingState::InCommand => {
                if 240 <= b && b <= 250 {
                    parse_loop(bytes.update(i, 0), i + 1, ParsingState::Normal, acc.push(Command::Other(b)))
                } else if 251 <= b && b <= 254 {
                    parse_loop(bytes.update(i, 0), i + 1, ParsingState::InNegotiate(b), acc)
                } else if b == 255 {
                    parse_loop(bytes, i + 1, ParsingState::Normal, acc)
                } else {
                    ParseOut {
                        commands: seq![Command::Malformed],
                        buffer: bytes,
                        state: ParsingState::InCommand,
                        malformed: true,
                    }
                }
            }
            ParsingState::InNegotiate(verb) => {
                parse_loop(bytes.update(i, 0), i + 1, ParsingState::Normal, acc.push(negotiated(verb, b)))
            }
        }
    }
}

/// One whole pass of the parser over `bytes`, from the start, in `Normal`
/// state with nothing found yet.
pub open spec fn parse_spec(bytes: Seq<u8>) -> ParseOut {
    parse_loop(bytes, 0, ParsingState::Normal, Seq::empty())
}

/// The parser never changes the buffer's length: consumed bytes are zeroed
/// in place, not removed.
pub proof fn lemma_parse_loop_len(bytes: Seq<u8>, i: int, state: ParsingState, acc: Seq<Command>)
    ensures
        parse_loop(bytes, i, state, acc).buffer.len() == bytes.len(),
    decreases bytes.len() - i,
{
    if 0 <= i < bytes.len() {
        let b = bytes[i];
        match state {
            ParsingState::Normal => {
                if b == 255 {
                    lemma_parse_loop_len(bytes.update(i, 0), i + 1, ParsingState::InCommand, acc);
                } else {
                    lemma_parse_loop_len(bytes, i + 1, ParsingState::Normal, acc);
                }
            }
            ParsingState::InCommand => {
                if 240 <= b && b <= 250 {
                    lemma_parse_loop_len(bytes.update(i, 0), i + 1, ParsingState::Normal, acc.push(Command::Other(b)));
                } else if 251 <= b && b <= 254 {
                    lemma_parse_loop_len(bytes.update(i, 0), i + 1, ParsingState::InNegotiate(b), acc);
                } else if b == 255 {
                    lemma_parse_loop_len(bytes, i + 1, ParsingState::Normal, acc);
                }
            }
            ParsingState::InNegotiate(verb) => {
                lemma_parse_loop_len(bytes.update(i, 0), i + 1, ParsingState::Normal, acc.push(negotiated(verb, b)));
            }
        }
    }
}

/// Run the telnet state machine over `buffer`, zeroing each consumed
/// control byte in place, and return the commands found.
///
/// On a malformed escape sequence the whole call yields exactly
/// `[Malformed]`: commands already found in the same call are discarded
/// (all-or-nothing per invocation), and the bytes zeroed before the
/// failure stay zeroed.
pub fn parse(buffer: &mut Vec<u8>) -> (commands: Vec<Command>)
    ensures
        commands@ == parse_spec(old(buffer)@).commands,
        final(buffer)@ == parse_spec(old(buffer)@).buffer,
        final(buffer)@.len() == old(buffer)@.len(),
{
    proof {
        lemma_parse_loop_len(old(buffer)@, 0, ParsingState::Normal, Seq::empty());
    }
    let mut commands: Vec<Command> = Vec::new();
    let mut state: ParsingState = ParsingState::Normal;
    let mut i: usize = 0;
    while i < buffer.len()
        invariant
            i <= buffer@.len(),
            buffer@.len() == old(buffer)@.len(),
            parse_spec(old(buffer)@) == parse_loop(buffer@, i as int, state, commands@),
        decreases buffer@.len() - i,
    {
        let b = buffer[i];
        match state {
            ParsingState::Normal => {
                if b == 255 {
                    buffer.set(i, 0);
                    state = ParsingState::InCommand;
                }
            }
            ParsingState::InCommand => {
                if 240 <= b && b <= 250 {
                    buffer.set(i, 0);
                    state = ParsingState::Normal;
                    commands.push(Command::Other(b));
                } else if 251 <= b && b <= 254 {
                    buffer.set(i, 0);
                    state = ParsingState::InNegotiate(b);
                } else if b == 255 {
                    state = ParsingState::Normal;
                } else {
                    let mut failed: Vec<Command> = Vec::new();
                    failed.push(Command::Malformed);
                    assert(failed@ =~= seq![Command::Malformed]);
                    return failed;
                }
            }
            ParsingState::InNegotiate(verb) => {
                buffer.set(i, 0);
                state = ParsingState::Normal;
                let built: Command = if verb == 251 {
                    Command::Will(b)
                } else if verb == 252 {
                    Command::Wont(b)
                } else if verb == 253 {
                    Command::Do(b)
                } else {
                    Command::Dont(b)
                };
                commands.push(built);
            }
        }
        i = i + 1;
    }
    commands
}

/// The wire form of a command: `IAC, verb, option` for the four negotiation
/// verbs, `IAC, code` for `Other`. `Malformed` has no wire form.
pub open spec fn encode(c: Command) -> Seq<u8> {
    match c {
        Command::Will(option) => seq![255u8, 251u8, option],
        Command::Wont(option) => seq![255u8, 252u8, option],
        Command::Do(option) => seq![255u8, 253u8, option],
        Command::Dont(option) => seq![255u8, 254u8, option],
        Command::Other(code) => seq![255u8, code],
        Command::Malformed => seq![],
    }
}

/// A command that both has a wire form and parses back as itself: the four
/// negotiation verbs with any option byte, and `Other` with a control byte
/// in 240..=250 (outside that range the encoding would not re-parse as the
/// same `Other` command).
pub open spec fn pure_control(c: Command) -> bool {
    match c {
        Command::Will(_) => true,
        Command::Wont(_) => true,
        Command::Do(_) => true,
        Command::Dont(_) => true,
        Command::Other(code) => 240 <= code && code <= 250,
        Command::Malformed => false,
    }
}

/// The wire form of a whole command sequence, one encoding after another
/// with no interleaved payload.
pub open spec fn encode_all(cs: Seq<Command>) -> Seq<u8>
    decreases cs.len(),
{
    if cs.len() == 0 {
        Seq::empty()
    } else {
        encode(cs.first()) + encode_all(cs.drop_first())
    }
}

/// Parsing a region that holds exactly the encodings of pure control
/// commands finds exactly those commands, appended to whatever was found
/// before, never fails, and ends back in `Normal` state.
pub proof fn lemma_parse_encode_all(bytes: Seq<u8>, i: int, acc: Seq<Command>, cs: Seq<Command>)
    requires
        0 <= i <= bytes.len(),
        bytes.subrange(i, bytes.len() as int) == encode_all(cs),
        forall|k: int| 0 <= k < cs.len() ==> pure_control(#[trigger] cs[k]),
    ensures
        parse_loop(bytes, i, ParsingState::Normal, acc).commands == acc + cs,
        !parse_loop(bytes, i, ParsingState::Normal, acc).malformed,
        parse_loop(bytes, i, ParsingState::Normal, acc).state is Normal,
    decreases cs.len(),
{
    let sub = bytes.subrange(i, bytes.len() as int);
    if cs.len() == 0 {
        assert(bytes.len() - i == sub.len());
        assert(acc + cs =~= acc);
    } else {
        let c = cs.first();
        let rest = cs.drop_first();
        assert(pure_control(c));
        assert(sub == encode(c) + encode_all(rest));
        assert(forall|k: int| 0 <= k < rest.len() ==> #[trigger] rest[k] == cs[k + 1]);
        let n: int = encode(c).len() as int;
        assert(sub.len() == n + encode_all(rest).len());
        assert(forall|k: int| 0 <= k < sub.len() ==> #[trigger] sub[k] == bytes[i + k]);
        assert(forall|k: int| 0 <= k < n ==> #[trigger] sub[k] == encode(c)[k]);
        assert(forall|k: int| n <= k < sub.len() ==> #[trigger] sub[k] == encode_all(rest)[k - n]);
        match c {
            Command::Other(code) => {
                assert(sub[0] == 255 && sub[1] == code);
                assert(bytes[i] == 255 && bytes[i + 1] == code);
                let b1 = bytes.update(i, 0);
                let b2 = b1.update(i + 1, 0);
                assert(parse_loop(bytes, i, ParsingState::Normal, acc) == parse_loop(
                    b1,
                    i + 1,
                    ParsingState::InCommand,
                    acc,
                ));
                assert(b1[i + 1] == code && 240 <= code && code <= 250);
                assert(parse_loop(b1, i + 1, ParsingState::InCommand, acc) == parse_loop(
                    b2,
                    i + 2,
                    ParsingState::Normal,
                    acc.push(c),
                ));
                assert forall|j: int|
                    0 <= j < encode_all(rest).len() implies #[trigger] b2.subrange(
                    i + 2,
                    b2.len() as int,
                )[j] == encode_all(rest)[j] by {
                    assert(b2[i + 2 + j] == bytes[i + 2 + j]);
                    assert(sub[2 + j] == bytes[i + 2 + j]);
                    assert(sub[2 + j] == encode_all(rest)[j]);
                }
                assert(b2.subrange(i + 2, b2.len() as int) =~= encode_all(rest));
                lemma_parse_encode_all(b2, i + 2, acc.push(c), rest);
                assert(acc.push(c) + rest =~= acc + cs);
            }
            Command::Malformed => {
                assert(false);
            }
            _ => {
                let verb: u8 = encode(c)[1];
                let option: u8 = encode(c)[2];
                assert(251 <= verb && verb <= 254);
                assert(negotiated(verb, option) == c);
                assert(sub[0] == 255 && sub[1] == verb && sub[2] == option);
                assert(bytes[i] == 255 && bytes[i + 1] == verb && bytes[i + 2] == option);
                let b1 = bytes.update(i, 0);
                let b2 = b1.update(i + 1, 0);
                let b3 = b2.update(i + 2, 0);
                assert(parse_loop(bytes, i, ParsingState::Normal, acc) == parse_loop(
                    b1,
                    i + 1,
                    ParsingState::InCommand,
                    acc,
                ));
                assert(b1[i + 1] == verb);
                assert(parse_loop(b1, i + 1, ParsingState::InCommand, acc) == parse_loop(
                    b2,
                    i + 2,
                    ParsingState::InNegotiate(verb),
                    acc,
                ));
                assert(b2[i + 2] == option);
                assert(parse_loop(b2, i + 2, ParsingState::InNegotiate(verb), acc) == parse_loop(
                    b3,
                    i + 3,
                    ParsingState::Normal,
                    acc.push(c),
                ));
                assert forall|j: int|
                    0 <= j < encode_all(rest).len() implies #[trigger] b3.subrange(
                    i + 3,
                    b3.len() as int,
                )[j] == encode_all(rest)[j] by {
                    assert(b3[i + 3 + j] == bytes[i + 3 + j]);
                    assert(sub[3 + j] == bytes[i + 3 + j]);
                    assert(sub[3 + j] == encode_all(rest)[j]);
                }
                assert(b3.subrange(i + 3, b3.len() as int) =~= encode_all(rest));
                lemma_parse_encode_all(b3, i + 3, acc.push(c), rest);
                assert(acc.push(c) + rest =~= acc + cs);
            }
        }
    }
}

/// Round trip: a buffer built purely from valid control sequences parses
/// back to exactly the commands it encodes, and re-encoding what was
/// parsed reproduces the original bytes.
pub proof fn lemma_round_trip(cs: Seq<Command>)
    requires
        forall|k: int| 0 <= k < cs.len() ==> pure_control(#[trigger] cs[k]),
    ensures
        parse_spec(encode_all(cs)).commands == cs,
        !parse_spec(encode_all(cs)).malformed,
        parse_spec(encode_all(cs)).state is Normal,
        encode_all(parse_spec(encode_all(cs)).commands) == encode_all(cs),
{
    let bytes = encode_all(cs);
    assert(bytes.subrange(0, bytes.len() as int) =~= bytes);
    lemma_parse_encode_all(bytes, 0, Seq::empty(), cs);
    assert(Seq::<Command>::empty() + cs =~= cs);
}

/// Serialize one command into the bytes to put on the wire.
///
/// `Malformed` is not a sendable command: asking to send it is a
/// programming-contract violation, so it is excluded up front.
pub fn send(command: Command) -> (bytes: Vec<u8>)
    requires
        !(command is Malformed),
    ensures
        bytes@ == encode(command),
{
    let mut bytes: Vec<u8> = Vec::new();
    bytes.push(255u8);
    match command {
        Command::Will(option) => {
            bytes.push(251u8);
            bytes.push(option);
        }
        Command::Wont(option) => {
            bytes.push(252u8);
            bytes.push(option);
        }
        Command::Do(option) => {
            bytes.push(253u8);
            bytes.push(option);
        }
        Command::Dont(option) => {
            bytes.push(254u8);
            bytes.push(option);
        }
        Command::Other(code) => {
            bytes.push(code);
        }
        Command::Malformed => {
            assert(false);
        }
    }
    assert(bytes@ =~= encode(command));
    bytes
}

} // verus!
