use holdem::message_utils::{kind_of, select, DeserializeError, MessageKind};
use holdem::messages::{
    Handshake, HandshakeOk, JoinTable, JoinTableOk, MessageType, QueryTables, StartNewTable,
    StartNewTableOk, TablesInfo,
};
use holdem::utils::{dashes, decimal, format_next_to_each_other, get_dashes_for_longest_string};

fn strings(texts: &[&str]) -> Vec<String> {
    let mut out = Vec::new();
    for text in texts {
        out.push(String::from(*text));
    }
    out
}

#[test]
fn dashes_are_as_many_as_asked() {
    assert_eq!(dashes(0), "");
    assert_eq!(dashes(6), "------");
}

#[test]
fn dashes_for_the_longest_string() {
    let line = get_dashes_for_longest_string(&strings(&["short", "medium length",
        "very long string"]));
    assert_eq!(line, "----------------");
    assert_eq!(get_dashes_for_longest_string(&strings(&[""])), "");
}

#[test]
fn columns_side_by_side() {
    let columns = vec![strings(&["Hello", "World"]), strings(&["Foo", "Bar"])];
    assert_eq!(format_next_to_each_other(&columns), "Hello | Foo\nWorld | Bar\n");
}

#[test]
fn short_columns_are_filled_with_blanks() {
    let columns = vec![strings(&["a", "long"]), strings(&["x"]), strings(&["1", "2", "3"])];
    assert_eq!(
        format_next_to_each_other(&columns),
        "a    | x | 1\nlong |   | 2\n     |   | 3\n"
    );
    let one = vec![strings(&["only"])];
    assert_eq!(format_next_to_each_other(&one), "only\n");
}

#[test]
fn numbers_in_decimal() {
    assert_eq!(decimal(0), "0");
    assert_eq!(decimal(7), "7");
    assert_eq!(decimal(10), "10");
    assert_eq!(decimal(1652), "1652");
    assert_eq!(decimal(-40), "-40");
    assert_eq!(decimal(i32::MAX), "2147483647");
    assert_eq!(decimal(i32::MIN), "-2147483648");
}

#[test]
fn kinds_by_name() {
    assert_eq!(kind_of("Handshake"), Some(MessageKind::Handshake));
    assert_eq!(kind_of("HandshakeOk"), Some(MessageKind::HandshakeOk));
    assert_eq!(kind_of("StartNewTable"), Some(MessageKind::StartNewTable));
    assert_eq!(kind_of("StartNewTableOk"), Some(MessageKind::StartNewTableOk));
    assert_eq!(kind_of("QueryTables"), Some(MessageKind::QueryTables));
    assert_eq!(kind_of("TablesInfo"), Some(MessageKind::TablesInfo));
    assert_eq!(kind_of("JoinTable"), Some(MessageKind::JoinTable));
    assert_eq!(kind_of("JoinTableOk"), Some(MessageKind::JoinTableOk));
    assert_eq!(kind_of("handshake"), None);
    assert_eq!(kind_of(""), None);
    assert_eq!(MessageKind::JoinTable.name(), "JoinTable");
}

#[test]
fn selecting_the_expected_kind() {
    assert_eq!(select(None, MessageKind::Handshake), Err(DeserializeError::MissingType));
    assert_eq!(select(Some(None), MessageKind::Handshake), Err(DeserializeError::InvalidType));
    assert_eq!(
        select(Some(Some("Nonsense")), MessageKind::Handshake),
        Err(DeserializeError::UnknownType)
    );
    assert_eq!(
        select(Some(Some("JoinTable")), MessageKind::Handshake),
        Err(DeserializeError::Mismatch)
    );
    assert_eq!(select(Some(Some("JoinTable")), MessageKind::JoinTable), Ok(MessageKind::JoinTable));
}

#[test]
fn errors_in_words() {
    assert_eq!(DeserializeError::InvalidJson.message(), "Failed to deserialize JSON");
    assert_eq!(DeserializeError::MissingType.message(), "Missing 'type' field in JSON");
    assert_eq!(DeserializeError::InvalidType.message(), "Invalid 'type' field in JSON");
    assert_eq!(DeserializeError::UnknownType.message(), "Unknown message type");
    assert_eq!(
        DeserializeError::Malformed(MessageKind::TablesInfo).message(),
        "Failed to deserialize TablesInfo"
    );
    assert_eq!(
        DeserializeError::Mismatch.message(),
        "Deserialized message type does not match expected type"
    );
}

#[test]
fn messages_hold_what_they_are_given() {
    let _ = Handshake::new();
    assert_eq!(*HandshakeOk::new(7).client_id(), 7);
    assert_eq!(*StartNewTable::new(8).client_id(), 8);
    let started = StartNewTableOk::new(1, 2);
    assert_eq!((*started.client_id(), *started.table_id()), (1, 2));
    assert_eq!(*QueryTables::new(3).client_id(), 3);
    assert_eq!(*TablesInfo::new(vec![4, 5]).tables(), vec![4, 5]);
    let join = JoinTable::new(6, 7);
    assert_eq!((*join.client_id(), *join.table_id()), (6, 7));
    let joined = JoinTableOk::new(8, 9);
    assert_eq!((*joined.client_id(), *joined.table_id()), (8, 9));
}

#[test]
fn messages_are_wrapped_by_kind() {
    assert_eq!(MessageType::from(Handshake::new()).to_string(), "Handshake");
    assert_eq!(MessageType::from(HandshakeOk::new(1)).to_string(), "HandshakeOk");
    assert_eq!(MessageType::from(StartNewTable::new(1)).to_string(), "StartNewTable");
    assert_eq!(MessageType::from(StartNewTableOk::new(1, 2)).to_string(), "StartNewTableOk");
    assert_eq!(MessageType::from(QueryTables::new(1)).to_string(), "QueryTables");
    assert_eq!(MessageType::from(TablesInfo::new(vec![])).to_string(), "TablesInfo");
    assert_eq!(MessageType::from(JoinTable::new(1, 2)).to_string(), "JoinTable");
    let wrapped: MessageType = JoinTableOk::new(1, 2).into();
    assert_eq!(wrapped.to_string(), "JoinTableOk");
    assert!(matches!(wrapped, MessageType::JoinTableOk(_)));
}

#[test]
fn lobby_player() {
    let player = holdem::types::Player::new(4, String::from("Ann"), 250);
    assert_eq!(player.get_player_id(), 4);
    assert_eq!(player.get_name(), "Ann");
    assert_eq!(player.get_money(), 250);
    let copy = player.clone();
    assert_eq!(copy.get_name(), "Ann");
    assert_eq!(copy.get_money(), 250);
}

#[test]
fn client_numbers_are_taken_once() {
    let mut ids = std::collections::HashSet::new();
    assert!(holdem::utils::claim_client_id(&mut ids, 7));
    assert!(holdem::utils::claim_client_id(&mut ids, 8));
    assert!(!holdem::utils::claim_client_id(&mut ids, 7));
    assert_eq!(ids.len(), 2);
    assert!(ids.contains(&7) && ids.contains(&8));
}

#[test]
fn tables_are_opened_once() {
    let mut games = std::collections::HashMap::new();
    assert!(holdem::utils::open_table(&mut games, 42));
    assert!(!holdem::utils::open_table(&mut games, 42));
    assert!(holdem::utils::open_table(&mut games, 43));
    assert_eq!(games.len(), 2);
    let game = games.get(&42).unwrap();
    assert_eq!(game.get_game_id(), 42);
    assert_eq!(game.get_big_blind(), holdem::utils::DEFAULT_BIG_BLIND);
    assert_eq!(game.get_big_blind(), 2);
    assert_eq!(holdem::utils::DEFAULT_INITIAL_MONEY, 1000);
    assert_eq!(game.get_num_players(), 0);
}
