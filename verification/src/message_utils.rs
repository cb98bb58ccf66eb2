//! Telling the kind of a message from the name that it carries.

use vstd::prelude::*;

verus! {

/// The kinds of messages.
#[derive(Clone, Copy, Debug, PartialEq, Eq, Structural)]
pub enum MessageKind {
    Handshake,
    HandshakeOk,
    StartNewTable,
    StartNewTableOk,
    QueryTables,
    TablesInfo,
    JoinTable,
    JoinTableOk,
}

/// Why a text was not read as the message that was expected.
#[derive(Clone, Copy, Debug, PartialEq, Eq, Structural)]
pub enum DeserializeError {
    /// The text is no JSON.
    InvalidJson,
    /// The text names no kind of message.
    MissingType,
    /// What stands where the kind is named is no text.
    InvalidType,
    /// No kind of message has the name.
    UnknownType,
    /// The text names the kind but does not hold a message of it.
    Malformed(MessageKind),
    /// The message is of another kind than the one expected.
    Mismatch,
}

impl MessageKind {
    /// The name of the kind.
    pub open spec fn tag(self) -> Seq<char> {
        match self {
            MessageKind::Handshake => "Handshake"@,
            MessageKind::HandshakeOk => "HandshakeOk"@,
            MessageKind::StartNewTable => "StartNewTable"@,
            MessageKind::StartNewTableOk => "StartNewTableOk"@,
            MessageKind::QueryTables => "QueryTables"@,
            MessageKind::TablesInfo => "TablesInfo"@,
            MessageKind::JoinTable => "JoinTable"@,
            MessageKind::JoinTableOk => "JoinTableOk"@,
        }
    }

    /// The name of the kind.
    pub fn name(&self) -> (name: &'static str)
        ensures
            name@ == self.tag(),
    {
        match self {
            MessageKind::Handshake => "Handshake",
            MessageKind::HandshakeOk => "HandshakeOk",
            MessageKind::StartNewTable => "StartNewTable",
            MessageKind::StartNewTableOk => "StartNewTableOk",
            MessageKind::QueryTables => "QueryTables",
            MessageKind::TablesInfo => "TablesInfo",
            MessageKind::JoinTable => "JoinTable",
            MessageKind::JoinTableOk => "JoinTableOk",
        }
    }

    /// The kind at the given place among the eight.
    pub open spec fn at(i: int) -> MessageKind {
        if i == 0 {
            MessageKind::Handshake
        } else if i == 1 {
            MessageKind::HandshakeOk
        } else if i == 2 {
            MessageKind::StartNewTable
        } else if i == 3 {
            MessageKind::StartNewTableOk
        } else if i == 4 {
            MessageKind::QueryTables
        } else if i == 5 {
            MessageKind::TablesInfo
        } else if i == 6 {
            MessageKind::JoinTable
        } else {
            MessageKind::JoinTableOk
        }
    }

    /// The kind at the given place among the eight.
    fn nth(i: usize) -> (kind: MessageKind)
        ensures
            kind == MessageKind::at(i as int),
    {
        if i == 0 {
            MessageKind::Handshake
        } else if i == 1 {
            MessageKind::HandshakeOk
        } else if i == 2 {
            MessageKind::StartNewTable
        } else if i == 3 {
            MessageKind::StartNewTableOk
        } else if i == 4 {
            MessageKind::QueryTables
        } else if i == 5 {
            MessageKind::TablesInfo
        } else if i == 6 {
            MessageKind::JoinTable
        } else {
            MessageKind::JoinTableOk
        }
    }
}

/// The first kind of message that has the given name.
pub open spec fn kind_named(tag: Seq<char>, from: int) -> Option<MessageKind>
    decreases 8 - from,
{
    if from >= 8 || from < 0 {
        None
    } else if MessageKind::at(from).tag() == tag {
        Some(MessageKind::at(from))
    } else {
        kind_named(tag, from + 1)
    }
}

/// What reading a text as a message of the kind `expected` comes to, from the
/// name that the text carries: `tag` is nothing where the text names no kind,
/// and holds nothing where what stands there is no text.
pub open spec fn selected(tag: Option<Option<Seq<char>>>, expected: MessageKind) -> Result<
    MessageKind,
    DeserializeError,
> {
    match tag {
        None => Err(DeserializeError::MissingType),
        Some(None) => Err(DeserializeError::InvalidType),
        Some(Some(name)) => match kind_named(name, 0) {
            None => Err(DeserializeError::UnknownType),
            Some(kind) => if kind == expected {
                Ok(kind)
            } else {
                Err(DeserializeError::Mismatch)
            },
        },
    }
}

/// The kind of message that has the given name, if there is one.
pub fn kind_of(tag: &str) -> (kind: Option<MessageKind>)
    ensures
        kind == kind_named(tag@, 0),
{
    let wanted = String::from_str(tag);
    let mut i: usize = 0;
    while i < 8
        invariant
            i <= 8,
            wanted@ == tag@,
            kind_named(tag@, 0) == kind_named(tag@, i as int),
        decreases 8 - i,
    {
        let kind = MessageKind::nth(i);
        let name = String::from_str(kind.name());
        if name == wanted {
            return Some(kind);
        }
        i += 1;
    }
    None
}

/// Decides, from the name that a text carries, whether the text is to be
/// read as a message of the kind `expected`.
pub fn select(tag: Option<Option<&str>>, expected: MessageKind) -> (res: Result<
    MessageKind,
    DeserializeError,
>)
    ensures
        res == selected(
            match tag {
                None => None,
                Some(None) => Some(None),
                Some(Some(name)) => Some(Some(name@)),
            },
            expected,
        ),
{
    match tag {
        None => Err(DeserializeError::MissingType),
        Some(None) => Err(DeserializeError::InvalidType),
        Some(Some(name)) => match kind_of(name) {
            None => Err(DeserializeError::UnknownType),
            Some(kind) => if kind == expected {
                Ok(kind)
            } else {
                Err(DeserializeError::Mismatch)
            },
        },
    }
}

impl DeserializeError {
    /// The error in words.
    pub open spec fn text(self) -> Seq<char> {
        match self {
            DeserializeError::InvalidJson => "Failed to deserialize JSON"@,
            DeserializeError::MissingType => "Missing 'type' field in JSON"@,
            DeserializeError::InvalidType => "Invalid 'type' field in JSON"@,
            DeserializeError::UnknownType => "Unknown message type"@,
            DeserializeError::Malformed(kind) => "Failed to deserialize "@ + kind.tag(),
            DeserializeError::Mismatch => "Deserialized message type does not match expected type"@,
        }
    }

    /// The error in words.
    pub fn message(&self) -> (line: String)
        ensures
            line@ == self.text(),
    {
        match self {
            DeserializeError::InvalidJson => String::from_str("Failed to deserialize JSON"),
            DeserializeError::MissingType => String::from_str("Missing 'type' field in JSON"),
            DeserializeError::InvalidType => String::from_str("Invalid 'type' field in JSON"),
            DeserializeError::UnknownType => String::from_str("Unknown message type"),
            DeserializeError::Malformed(kind) => {
                let mut line = String::from_str("Failed to deserialize ");
                line.append(kind.name());
                line
            },
            DeserializeError::Mismatch => String::from_str(
                "Deserialized message type does not match expected type",
            ),
        }
    }
}

} // verus!
