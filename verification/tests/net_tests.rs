use mudnet::net::{
    checkIoResult, doSelect, handleResponse, handleTelnetCommands, Command, Connection, IoErrorKind,
    Outbound, Response, SelectEvent, ID,
};
use mudnet::telnet;

fn connect(table: &mut Vec<Option<Connection>>) {
    let (cmd, out) = handleResponse(Response::NewConnection(Connection::new()), table);
    assert!(cmd.is_none());
    assert!(out.is_empty());
}

fn slot_id(table: &Vec<Option<Connection>>, slot: usize) -> ID {
    table[slot].as_ref().expect("slot should be live").id
}

#[test]
fn id_get_returns_slot() {
    assert_eq!(ID::Unconnected(3).get(), 3);
    assert_eq!(ID::Connected(5).get(), 5);
}

#[test]
fn id_equality_is_state_and_slot() {
    assert_eq!(ID::Unconnected(1), ID::Unconnected(1));
    assert_ne!(ID::Unconnected(1), ID::Connected(1));
    assert_ne!(ID::Unconnected(1), ID::Unconnected(2));
    assert_ne!(ID::Unassigned, ID::Unconnected(0));
}

#[test]
fn new_connection_is_unassigned() {
    assert_eq!(Connection::new().id, ID::Unassigned);
}

#[test]
fn connections_fill_slots_in_order() {
    let mut table: Vec<Option<Connection>> = Vec::new();
    connect(&mut table);
    connect(&mut table);
    connect(&mut table);
    assert_eq!(table.len(), 3);
    assert_eq!(slot_id(&table, 0), ID::Unconnected(0));
    assert_eq!(slot_id(&table, 1), ID::Unconnected(1));
    assert_eq!(slot_id(&table, 2), ID::Unconnected(2));
}

#[test]
fn reconnect_takes_lowest_free_slot() {
    let mut table: Vec<Option<Connection>> = Vec::new();
    connect(&mut table);
    connect(&mut table);
    connect(&mut table);
    let (_, out) = handleResponse(Response::Disconnect(ID::Unconnected(1)), &mut table);
    assert!(table[1].is_none());
    assert!(matches!(out[..], [Outbound::Close(1)]));
    connect(&mut table);
    assert_eq!(table.len(), 3);
    assert_eq!(slot_id(&table, 1), ID::Unconnected(1));
}

#[test]
fn disconnect_unknown_identity_is_noop() {
    let mut table: Vec<Option<Connection>> = Vec::new();
    connect(&mut table);
    connect(&mut table);
    let (cmd, out) = handleResponse(Response::Disconnect(ID::Unconnected(7)), &mut table);
    assert!(cmd.is_none());
    assert!(out.is_empty());
    assert_eq!(table.len(), 2);
    assert_eq!(slot_id(&table, 0), ID::Unconnected(0));
    assert_eq!(slot_id(&table, 1), ID::Unconnected(1));
}

#[test]
fn disconnect_matches_state_and_slot() {
    let mut table: Vec<Option<Connection>> = Vec::new();
    connect(&mut table);
    let (_, out) = handleResponse(Response::Disconnect(ID::Connected(0)), &mut table);
    assert!(out.is_empty());
    assert!(table[0].is_some());
}

#[test]
fn broadcast_reaches_every_live_connection_once() {
    let mut table: Vec<Option<Connection>> = Vec::new();
    connect(&mut table);
    connect(&mut table);
    connect(&mut table);
    handleResponse(Response::Disconnect(ID::Unconnected(1)), &mut table);
    let (cmd, out) = handleResponse(Response::BroadCast(String::from("hey")), &mut table);
    assert!(cmd.is_none());
    assert_eq!(out.len(), 2);
    match (&out[0], &out[1]) {
        (Outbound::Deliver(a, s0), Outbound::Deliver(b, s1)) => {
            assert_eq!((*a, *b), (0, 2));
            assert_eq!(s0, "hey");
            assert_eq!(s1, "hey");
        }
        _ => panic!("expected two deliveries"),
    }
}

#[test]
fn multicast_ignores_identity_with_no_live_connection() {
    let mut table: Vec<Option<Connection>> = Vec::new();
    connect(&mut table);
    connect(&mut table);
    let targets = vec![ID::Unconnected(0), ID::Unconnected(9)];
    let (cmd, out) = handleResponse(
        Response::MultiCast(targets, String::from("psst")),
        &mut table,
    );
    assert!(cmd.is_none());
    assert_eq!(out.len(), 1);
    match &out[0] {
        Outbound::Deliver(slot, s) => {
            assert_eq!(*slot, 0);
            assert_eq!(s, "psst");
        }
        _ => panic!("expected a delivery"),
    }
}

#[test]
fn multicast_follows_list_order() {
    let mut table: Vec<Option<Connection>> = Vec::new();
    connect(&mut table);
    connect(&mut table);
    let targets = vec![ID::Unconnected(1), ID::Unconnected(0)];
    let (_, out) = handleResponse(Response::MultiCast(targets, String::from("x")), &mut table);
    assert_eq!(out.len(), 2);
    assert!(matches!(out[0], Outbound::Deliver(1, _)));
    assert!(matches!(out[1], Outbound::Deliver(0, _)));
}

#[test]
fn unicast_reaches_only_its_target() {
    let mut table: Vec<Option<Connection>> = Vec::new();
    connect(&mut table);
    connect(&mut table);
    let (cmd, out) = handleResponse(
        Response::UniCast(ID::Unconnected(1), String::from("you")),
        &mut table,
    );
    assert!(cmd.is_none());
    assert_eq!(out.len(), 1);
    match &out[0] {
        Outbound::Deliver(slot, s) => {
            assert_eq!(*slot, 1);
            assert_eq!(s, "you");
        }
        _ => panic!("expected a delivery"),
    }
}

#[test]
fn unicast_to_dead_identity_is_noop() {
    let mut table: Vec<Option<Connection>> = Vec::new();
    connect(&mut table);
    let (_, out) = handleResponse(
        Response::UniCast(ID::Unconnected(4), String::from("you")),
        &mut table,
    );
    assert!(out.is_empty());
}

#[test]
fn shutdown_clears_all_slots_and_acknowledges_once() {
    let mut table: Vec<Option<Connection>> = Vec::new();
    connect(&mut table);
    connect(&mut table);
    connect(&mut table);
    handleResponse(Response::Disconnect(ID::Unconnected(1)), &mut table);
    let (cmd, out) = handleResponse(Response::ShutDown, &mut table);
    assert!(matches!(cmd, Some(Command::ShutDownComplete)));
    assert_eq!(table.len(), 3);
    assert!(table.iter().all(|slot| slot.is_none()));
    assert!(matches!(out[..], [Outbound::Close(0), Outbound::Close(2)]));
}

#[test]
fn nothing_does_nothing() {
    let mut table: Vec<Option<Connection>> = Vec::new();
    connect(&mut table);
    let (cmd, out) = handleResponse(Response::Nothing, &mut table);
    assert!(cmd.is_none());
    assert!(out.is_empty());
    assert_eq!(table.len(), 1);
    assert!(table[0].is_some());
}

#[test]
fn select_listener_event_makes_unassigned_connection() {
    let table: Vec<Option<Connection>> = Vec::new();
    let (resp, cmd) = doSelect(SelectEvent::FromListener, &table);
    assert!(cmd.is_none());
    match resp {
        Response::NewConnection(c) => assert_eq!(c.id, ID::Unassigned),
        _ => panic!("expected a new connection"),
    }
}

#[test]
fn select_client_text_becomes_player_string() {
    let mut table: Vec<Option<Connection>> = Vec::new();
    connect(&mut table);
    connect(&mut table);
    let (resp, cmd) = doSelect(
        SelectEvent::FromClient(1, Some(String::from("hello"))),
        &table,
    );
    assert!(matches!(resp, Response::Nothing));
    match cmd {
        Some(Command::PlayerString(id, text)) => {
            assert_eq!(id, ID::Unconnected(1));
            assert_eq!(text, "hello");
        }
        _ => panic!("expected a player string"),
    }
}

#[test]
fn select_client_close_becomes_disconnect() {
    let mut table: Vec<Option<Connection>> = Vec::new();
    connect(&mut table);
    let (resp, cmd) = doSelect(SelectEvent::FromClient(0, None), &table);
    assert!(cmd.is_none());
    match resp {
        Response::Disconnect(id) => assert_eq!(id, ID::Unconnected(0)),
        _ => panic!("expected a disconnect"),
    }
}

#[test]
fn select_main_response_passes_through() {
    let table: Vec<Option<Connection>> = Vec::new();
    let (resp, cmd) = doSelect(SelectEvent::FromMain(Response::ShutDown), &table);
    assert!(cmd.is_none());
    assert!(matches!(resp, Response::ShutDown));
}

#[test]
fn check_io_result_keeps_success() {
    let kinds = vec![IoErrorKind::EndOfFile];
    assert_eq!(checkIoResult(Ok::<u32, IoErrorKind>(5), &kinds), Some(5));
}

#[test]
fn check_io_result_recovers_listed_kind() {
    let kinds = vec![IoErrorKind::EndOfFile];
    assert_eq!(
        checkIoResult(Err::<u32, IoErrorKind>(IoErrorKind::EndOfFile), &kinds),
        None
    );
}

#[test]
fn negotiations_are_refused() {
    let commands = vec![
        telnet::Command::Will(5),
        telnet::Command::Wont(9),
        telnet::Command::Do(3),
        telnet::Command::Dont(2),
        telnet::Command::Other(249),
    ];
    let (replies, close) = handleTelnetCommands(&commands);
    assert!(!close);
    assert_eq!(
        replies,
        vec![telnet::Command::Dont(5), telnet::Command::Wont(3)]
    );
}

#[test]
fn malformed_command_closes_connection() {
    let commands = vec![telnet::Command::Malformed];
    let (replies, close) = handleTelnetCommands(&commands);
    assert!(close);
    assert!(replies.is_empty());
}

#[test]
fn malformed_command_stops_the_scan() {
    let commands = vec![
        telnet::Command::Will(1),
        telnet::Command::Malformed,
        telnet::Command::Do(2),
    ];
    let (replies, close) = handleTelnetCommands(&commands);
    assert!(close);
    assert_eq!(replies, vec![telnet::Command::Dont(1)]);
}
