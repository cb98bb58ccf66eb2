//! The messages that a client and the server exchange about tables.

use vstd::prelude::*;
use vstd::std_specs::convert::FromSpecImpl;

verus! {

/// A client says hello.
#[derive(Debug)]
pub struct Handshake {}

/// The server answers a hello with the number that it gives the client.
#[derive(Debug)]
pub struct HandshakeOk {
    pub client_id: u128,
}

/// A client asks for a new table.
#[derive(Debug)]
pub struct StartNewTable {
    pub client_id: u128,
}

/// The server has opened a table for the client.
#[derive(Debug)]
pub struct StartNewTableOk {
    pub client_id: u128,
    pub table_id: u128,
}

/// A client asks which tables there are.
#[derive(Debug)]
pub struct QueryTables {
    pub client_id: u128,
}

/// The tables that there are.
#[derive(Debug)]
pub struct TablesInfo {
    pub tables: Vec<u128>,
}

/// A client asks to sit down at a table.
#[derive(Debug)]
pub struct JoinTable {
    pub client_id: u128,
    pub table_id: u128,
}

/// The client sits at the table.
#[derive(Debug)]
pub struct JoinTableOk {
    pub client_id: u128,
    pub table_id: u128,
}

/// Any of the messages.
#[derive(Debug)]
pub enum MessageType {
    Handshake(Handshake),
    HandshakeOk(HandshakeOk),
    StartNewTable(StartNewTable),
    StartNewTableOk(StartNewTableOk),
    QueryTables(QueryTables),
    TablesInfo(TablesInfo),
    JoinTable(JoinTable),
    JoinTableOk(JoinTableOk),
}

impl MessageType {
    /// The name that tells the kind of the message.
    pub open spec fn tag(&self) -> Seq<char> {
        match self {
            MessageType::Handshake(_) => "Handshake"@,
            MessageType::HandshakeOk(_) => "HandshakeOk"@,
            MessageType::StartNewTable(_) => "StartNewTable"@,
            MessageType::StartNewTableOk(_) => "StartNewTableOk"@,
            MessageType::QueryTables(_) => "QueryTables"@,
            MessageType::TablesInfo(_) => "TablesInfo"@,
            MessageType::JoinTable(_) => "JoinTable"@,
            MessageType::JoinTableOk(_) => "JoinTableOk"@,
        }
    }

    /// The name that tells the kind of the message.
    pub fn to_string(&self) -> (name: String)
        ensures
            name@ == self.tag(),
    {
        match self {
            MessageType::Handshake(_) => String::from_str("Handshake"),
            MessageType::HandshakeOk(_) => String::from_str("HandshakeOk"),
            MessageType::StartNewTable(_) => String::from_str("StartNewTable"),
            MessageType::StartNewTableOk(_) => String::from_str("StartNewTableOk"),
            MessageType::QueryTables(_) => String::from_str("QueryTables"),
            MessageType::TablesInfo(_) => String::from_str("TablesInfo"),
            MessageType::JoinTable(_) => String::from_str("JoinTable"),
            MessageType::JoinTableOk(_) => String::from_str("JoinTableOk"),
        }
    }
}

impl Handshake {
    pub fn new() -> (msg: Handshake) {
        Handshake {  }
    }
}

impl From<Handshake> for MessageType {
    fn from(msg: Handshake) -> (wrapped: Self) {
        MessageType::Handshake(msg)
    }
}

impl FromSpecImpl<Handshake> for MessageType {
    open spec fn obeys_from_spec() -> bool {
        true
    }

    open spec fn from_spec(msg: Handshake) -> Self {
        MessageType::Handshake(msg)
    }
}

impl HandshakeOk {
    pub fn new(client_id: u128) -> (msg: HandshakeOk)
        ensures
            msg.client_id == client_id,
    {
        HandshakeOk { client_id }
    }

    pub fn client_id(&self) -> (id: &u128)
        ensures
            *id == self.client_id,
    {
        &self.client_id
    }
}

impl From<HandshakeOk> for MessageType {
    fn from(msg: HandshakeOk) -> (wrapped: Self) {
        MessageType::HandshakeOk(msg)
    }
}

impl FromSpecImpl<HandshakeOk> for MessageType {
    open spec fn obeys_from_spec() -> bool {
        true
    }

    open spec fn from_spec(msg: HandshakeOk) -> Self {
        MessageType::HandshakeOk(msg)
    }
}

impl StartNewTable {
    pub fn new(unique_id: u128) -> (msg: StartNewTable)
        ensures
            msg.client_id == unique_id,
    {
        StartNewTable { client_id: unique_id }
    }

    pub fn client_id(&self) -> (id: &u128)
        ensures
            *id == self.client_id,
    {
        &self.client_id
    }
}

impl From<StartNewTable> for MessageType {
    fn from(msg: StartNewTable) -> (wrapped: Self) {
        MessageType::StartNewTable(msg)
    }
}

impl FromSpecImpl<StartNewTable> for MessageType {
    open spec fn obeys_from_spec() -> bool {
        true
    }

    open spec fn from_spec(msg: StartNewTable) -> Self {
        MessageType::StartNewTable(msg)
    }
}

impl StartNewTableOk {
    pub fn new(client_id: u128, table_id: u128) -> (msg: StartNewTableOk)
        ensures
            msg.client_id == client_id,
            msg.table_id == table_id,
    {
        StartNewTableOk { client_id, table_id }
    }

    pub fn client_id(&self) -> (id: &u128)
        ensures
            *id == self.client_id,
    {
        &self.client_id
    }

    pub fn table_id(&self) -> (id: &u128)
        ensures
            *id == self.table_id,
    {
        &self.table_id
    }
}

impl From<StartNewTableOk> for MessageType {
    fn from(msg: StartNewTableOk) -> (wrapped: Self) {
        MessageType::StartNewTableOk(msg)
    }
}

impl FromSpecImpl<StartNewTableOk> for MessageType {
    open spec fn obeys_from_spec() -> bool {
        true
    }

    open spec fn from_spec(msg: StartNewTableOk) -> Self {
        MessageType::StartNewTableOk(msg)
    }
}

impl QueryTables {
    pub fn new(client_id: u128) -> (msg: QueryTables)
        ensures
            msg.client_id == client_id,
    {
        QueryTables { client_id }
    }

    pub fn client_id(&self) -> (id: &u128)
        ensures
            *id == self.client_id,
    {
        &self.client_id
    }
}

impl From<QueryTables> for MessageType {
    fn from(msg: QueryTables) -> (wrapped: Self) {
        MessageType::QueryTables(msg)
    }
}

impl FromSpecImpl<QueryTables> for MessageType {
    open spec fn obeys_from_spec() -> bool {
        true
    }

    open spec fn from_spec(msg: QueryTables) -> Self {
        MessageType::QueryTables(msg)
    }
}

impl TablesInfo {
    pub fn new(tables: Vec<u128>) -> (msg: TablesInfo)
        ensures
            msg.tables == tables,
    {
        TablesInfo { tables }
    }

    pub fn tables(&self) -> (tables: &Vec<u128>)
        ensures
            *tables == self.tables,
    {
        &self.tables
    }
}

impl From<TablesInfo> for MessageType {
    fn from(msg: TablesInfo) -> (wrapped: Self) {
        MessageType::TablesInfo(msg)
    }
}

impl FromSpecImpl<TablesInfo> for MessageType {
    open spec fn obeys_from_spec() -> bool {
        true
    }

    open spec fn from_spec(msg: TablesInfo) -> Self {
        MessageType::TablesInfo(msg)
    }
}

impl JoinTable {
    pub fn new(client_id: u128, table_id: u128) -> (msg: JoinTable)
        ensures
            msg.client_id == client_id,
            msg.table_id == table_id,
    {
        JoinTable { client_id, table_id }
    }

    pub fn client_id(&self) -> (id: &u128)
        ensures
            *id == self.client_id,
    {
        &self.client_id
    }

    pub fn table_id(&self) -> (id: &u128)
        ensures
            *id == self.table_id,
    {
        &self.table_id
    }
}

impl From<JoinTable> for MessageType {
    fn from(msg: JoinTable) -> (wrapped: Self) {
        MessageType::JoinTable(msg)
    }
}

impl FromSpecImpl<JoinTable> for MessageType {
    open spec fn obeys_from_spec() -> bool {
        true
    }

    open spec fn from_spec(msg: JoinTable) -> Self {
        MessageType::JoinTable(msg)
    }
}

impl JoinTableOk {
    pub fn new(client_id: u128, table_id: u128) -> (msg: JoinTableOk)
        ensures
            msg.client_id == client_id,
            msg.table_id == table_id,
    {
        JoinTableOk { client_id, table_id }
    }

    pub fn client_id(&self) -> (id: &u128)
        ensures
            *id == self.client_id,
    {
        &self.client_id
    }

    pub fn table_id(&self) -> (id: &u128)
        ensures
            *id == self.table_id,
    {
        &self.table_id
    }
}

impl From<JoinTableOk> for MessageType {
    fn from(msg: JoinTableOk) -> (wrapped: Self) {
        MessageType::JoinTableOk(msg)
    }
}

impl FromSpecImpl<JoinTableOk> for MessageType {
    open spec fn obeys_from_spec() -> bool {
        true
    }

    open spec fn from_spec(msg: JoinTableOk) -> Self {
        MessageType::JoinTableOk(msg)
    }
}

} // verus!
