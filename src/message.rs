//! Protocol messages: the two tag namespaces and the framing of one message.
use vstd::prelude::*;
use crate::cursor::Cursor;
use crate::error::DemoError;
use crate::pb::{decode_send_table, decode_table};
use crate::send_table::{SendTable, SendTableModel};
use crate::cursor::{bytes_from, varint_decode};

verus! {

/// Network-layer message kinds.
#[derive(Debug, Clone, Copy, PartialEq, Eq, Structural)]
pub enum NetMessages {
    NetNop,
    NetDisconnect,
    NetFile,
    NetSplitScreenUser,
    NetTick,
    NetStringCmd,
    NetSetConVar,
    NetSignonState,
    NetPlayerAvatarData,
}

/// The network-layer kind of a message tag.
pub open spec fn net_message_of(tag: i32) -> Option<NetMessages> {
    if tag == 0 {
        Some(NetMessages::NetNop)
    } else if tag == 1 {
        Some(NetMessages::NetDisconnect)
    } else if tag == 2 {
        Some(NetMessages::NetFile)
    } else if tag == 3 {
        Some(NetMessages::NetSplitScreenUser)
    } else if tag == 4 {
        Some(NetMessages::NetTick)
    } else if tag == 5 {
        Some(NetMessages::NetStringCmd)
    } else if tag == 6 {
        Some(NetMessages::NetSetConVar)
    } else if tag == 7 {
        Some(NetMessages::NetSignonState)
    } else if tag == 100 {
        Some(NetMessages::NetPlayerAvatarData)
    } else {
        None
    }
}

impl NetMessages {
    /// The tag of this kind.
    pub fn tag(&self) -> (r: i32)
        ensures
            net_message_of(r) == Some(*self),
    {
        match self {
            NetMessages::NetNop => 0,
            NetMessages::NetDisconnect => 1,
            NetMessages::NetFile => 2,
            NetMessages::NetSplitScreenUser => 3,
            NetMessages::NetTick => 4,
            NetMessages::NetStringCmd => 5,
            NetMessages::NetSetConVar => 6,
            NetMessages::NetSignonState => 7,
            NetMessages::NetPlayerAvatarData => 100,
        }
    }

    /// The message kind that `tag` stands for in this namespace, if any.
    pub fn from_i32(tag: i32) -> (r: Option<NetMessages>)
        ensures
            r == net_message_of(tag),
    {
        match tag {
            0 => Some(NetMessages::NetNop),
            1 => Some(NetMessages::NetDisconnect),
            2 => Some(NetMessages::NetFile),
            3 => Some(NetMessages::NetSplitScreenUser),
            4 => Some(NetMessages::NetTick),
            5 => Some(NetMessages::NetStringCmd),
            6 => Some(NetMessages::NetSetConVar),
            7 => Some(NetMessages::NetSignonState),
            100 => Some(NetMessages::NetPlayerAvatarData),
            _ => None,
        }
    }
}

/// Server-layer message kinds.
#[derive(Debug, Clone, Copy, PartialEq, Eq, Structural)]
pub enum SvcMessages {
    SvcServerInfo,
    SvcSendTable,
    SvcClassInfo,
    SvcSetPause,
    SvcCreateStringTable,
    SvcUpdateStringTable,
    SvcVoiceInit,
    SvcVoiceData,
    SvcPrint,
    SvcSounds,
    SvcSetView,
    SvcFixAngle,
    SvcCrosshairAngle,
    SvcBspDecal,
    SvcSplitScreen,
    SvcUserMessage,
    SvcEntityMessage,
    SvcGameEvent,
    SvcPacketEntities,
    SvcTempEntities,
    SvcPrefetch,
    SvcMenu,
    SvcGameEventList,
    SvcGetCvarValue,
    SvcPaintmapData,
    SvcCmdKeyValues,
    SvcEncryptedData,
    SvcHltvReplay,
    SvcBroadcastCommand,
}

/// The server-layer kind of a message tag.
pub open spec fn svc_message_of(tag: i32) -> Option<SvcMessages> {
    if tag == 8 {
        Some(SvcMessages::SvcServerInfo)
    } else if tag == 9 {
        Some(SvcMessages::SvcSendTable)
    } else if tag == 10 {
        Some(SvcMessages::SvcClassInfo)
    } else if tag == 11 {
        Some(SvcMessages::SvcSetPause)
    } else if tag == 12 {
        Some(SvcMessages::SvcCreateStringTable)
    } else if tag == 13 {
        Some(SvcMessages::SvcUpdateStringTable)
    } else if tag == 14 {
        Some(SvcMessages::SvcVoiceInit)
    } else if tag == 15 {
        Some(SvcMessages::SvcVoiceData)
    } else if tag == 16 {
        Some(SvcMessages::SvcPrint)
    } else if tag == 17 {
        Some(SvcMessages::SvcSounds)
    } else if tag == 18 {
        Some(SvcMessages::SvcSetView)
    } else if tag == 19 {
        Some(SvcMessages::SvcFixAngle)
    } else if tag == 20 {
        Some(SvcMessages::SvcCrosshairAngle)
    } else if tag == 21 {
        Some(SvcMessages::SvcBspDecal)
    } else if tag == 22 {
        Some(SvcMessages::SvcSplitScreen)
    } else if tag == 23 {
        Some(SvcMessages::SvcUserMessage)
    } else if tag == 24 {
        Some(SvcMessages::SvcEntityMessage)
    } else if tag == 25 {
        Some(SvcMessages::SvcGameEvent)
    } else if tag == 26 {
        Some(SvcMessages::SvcPacketEntities)
    } else if tag == 27 {
        Some(SvcMessages::SvcTempEntities)
    } else if tag == 28 {
        Some(SvcMessages::SvcPrefetch)
    } else if tag == 29 {
        Some(SvcMessages::SvcMenu)
    } else if tag == 30 {
        Some(SvcMessages::SvcGameEventList)
    } else if tag == 31 {
        Some(SvcMessages::SvcGetCvarValue)
    } else if tag == 33 {
        Some(SvcMessages::SvcPaintmapData)
    } else if tag == 34 {
        Some(SvcMessages::SvcCmdKeyValues)
    } else if tag == 35 {
        Some(SvcMessages::SvcEncryptedData)
    } else if tag == 36 {
        Some(SvcMessages::SvcHltvReplay)
    } else if tag == 38 {
        Some(SvcMessages::SvcBroadcastCommand)
    } else {
        None
    }
}

impl SvcMessages {
    /// The tag of this kind.
    pub fn tag(&self) -> (r: i32)
        ensures
            svc_message_of(r) == Some(*self),
    {
        match self {
            SvcMessages::SvcServerInfo => 8,
            SvcMessages::SvcSendTable => 9,
            SvcMessages::SvcClassInfo => 10,
            SvcMessages::SvcSetPause => 11,
            SvcMessages::SvcCreateStringTable => 12,
            SvcMessages::SvcUpdateStringTable => 13,
            SvcMessages::SvcVoiceInit => 14,
            SvcMessages::SvcVoiceData => 15,
            SvcMessages::SvcPrint => 16,
            SvcMessages::SvcSounds => 17,
            SvcMessages::SvcSetView => 18,
            SvcMessages::SvcFixAngle => 19,
            SvcMessages::SvcCrosshairAngle => 20,
            SvcMessages::SvcBspDecal => 21,
            SvcMessages::SvcSplitScreen => 22,
            SvcMessages::SvcUserMessage => 23,
            SvcMessages::SvcEntityMessage => 24,
            SvcMessages::SvcGameEvent => 25,
            SvcMessages::SvcPacketEntities => 26,
            SvcMessages::SvcTempEntities => 27,
            SvcMessages::SvcPrefetch => 28,
            SvcMessages::SvcMenu => 29,
            SvcMessages::SvcGameEventList => 30,
            SvcMessages::SvcGetCvarValue => 31,
            SvcMessages::SvcPaintmapData => 33,
            SvcMessages::SvcCmdKeyValues => 34,
            SvcMessages::SvcEncryptedData => 35,
            SvcMessages::SvcHltvReplay => 36,
            SvcMessages::SvcBroadcastCommand => 38,
        }
    }

    /// The message kind that `tag` stands for in this namespace, if any.
    pub fn from_i32(tag: i32) -> (r: Option<SvcMessages>)
        ensures
            r == svc_message_of(tag),
    {
        match tag {
            8 => Some(SvcMessages::SvcServerInfo),
            9 => Some(SvcMessages::SvcSendTable),
            10 => Some(SvcMessages::SvcClassInfo),
            11 => Some(SvcMessages::SvcSetPause),
            12 => Some(SvcMessages::SvcCreateStringTable),
            13 => Some(SvcMessages::SvcUpdateStringTable),
            14 => Some(SvcMessages::SvcVoiceInit),
            15 => Some(SvcMessages::SvcVoiceData),
            16 => Some(SvcMessages::SvcPrint),
            17 => Some(SvcMessages::SvcSounds),
            18 => Some(SvcMessages::SvcSetView),
            19 => Some(SvcMessages::SvcFixAngle),
            20 => Some(SvcMessages::SvcCrosshairAngle),
            21 => Some(SvcMessages::SvcBspDecal),
            22 => Some(SvcMessages::SvcSplitScreen),
            23 => Some(SvcMessages::SvcUserMessage),
            24 => Some(SvcMessages::SvcEntityMessage),
            25 => Some(SvcMessages::SvcGameEvent),
            26 => Some(SvcMessages::SvcPacketEntities),
            27 => Some(SvcMessages::SvcTempEntities),
            28 => Some(SvcMessages::SvcPrefetch),
            29 => Some(SvcMessages::SvcMenu),
            30 => Some(SvcMessages::SvcGameEventList),
            31 => Some(SvcMessages::SvcGetCvarValue),
            33 => Some(SvcMessages::SvcPaintmapData),
            34 => Some(SvcMessages::SvcCmdKeyValues),
            35 => Some(SvcMessages::SvcEncryptedData),
            36 => Some(SvcMessages::SvcHltvReplay),
            38 => Some(SvcMessages::SvcBroadcastCommand),
            _ => None,
        }
    }
}

/// One decoded protocol message. Schema tables are decoded into their
/// fields, since the class schema is built from them; every other message
/// keeps its kind and its encoded body.
pub enum Message {
    Net(NetMessages, Vec<u8>),
    Svc(SvcMessages, Vec<u8>),
    SendTable(SendTable),
}

/// What a decoded message holds: its kind and body, or a schema table's
/// fields.
pub enum MessageModel {
    Net(NetMessages, Seq<u8>),
    Svc(SvcMessages, Seq<u8>),
    SendTable(SendTableModel),
}

/// What the body `body` of a message with tag `tag` decodes to.
pub open spec fn message_outcome(tag: i32, body: Seq<u8>) -> Result<MessageModel, DemoError> {
    match net_message_of(tag) {
        Some(k) => Ok(MessageModel::Net(k, body)),
        None => match svc_message_of(tag) {
            None => Err(DemoError::UnknownMessage(tag)),
            Some(SvcMessages::SvcSendTable) => match decode_table(body) {
                Some(t) => Ok(MessageModel::SendTable(t)),
                None => Err(DemoError::BadMessage),
            },
            Some(k) => Ok(MessageModel::Svc(k, body)),
        },
    }
}

/// Whether a decoded message is the one described.
pub open spec fn message_matches(m: Message, mm: MessageModel) -> bool {
    match (m, mm) {
        (Message::Net(k, b), MessageModel::Net(k2, b2)) => k == k2 && b@ == b2,
        (Message::Svc(k, b), MessageModel::Svc(k2, b2)) => k == k2 && b@ == b2,
        (Message::SendTable(t), MessageModel::SendTable(t2)) => t@ == t2,
        _ => false,
    }
}

/// What reading one framed message at bit `p` gives: the message and the bit
/// after its body.
#[verifier::opaque]
pub open spec fn framed_at(buf: Seq<u8>, p: int) -> Result<(MessageModel, int), DemoError> {
    match varint_decode(bytes_from(buf, p)) {
        Err(e) => Err(e),
        Ok((tag, n1)) => {
            let p1 = p + 8 * n1;
            match varint_decode(bytes_from(buf, p1)) {
                Err(e) => Err(e),
                Ok((len, n2)) => {
                    let p2 = p1 + 8 * n2;
                    let l = len as i32;
                    if l < 0 {
                        Err(DemoError::BadLength)
                    } else if p2 + 8 * l > buf.len() * 8 {
                        Err(DemoError::OutOfBounds)
                    } else {
                        match message_outcome(tag as i32, bytes_from(buf, p2).take(l as int)) {
                            Err(e) => Err(e),
                            Ok(m) => Ok((m, p2 + 8 * l)),
                        }
                    }
                },
            }
        },
    }
}

/// The framed messages from bit `p` to the end of `buf`.
pub open spec fn framed_list(buf: Seq<u8>, p: int) -> Result<Seq<MessageModel>, DemoError>
    decreases buf.len() * 8 - p,
{
    if p >= buf.len() * 8 {
        Ok(Seq::empty())
    } else {
        match framed_at(buf, p) {
            Err(e) => Err(e),
            Ok((m, e)) => if e <= p || e > buf.len() * 8 {
                Err(DemoError::OutOfBounds)
            } else {
                match framed_list(buf, e) {
                    Err(err) => Err(err),
                    Ok(ms) => Ok(seq![m] + ms),
                }
            },
        }
    }
}

/// Whether each message is the one described.
pub open spec fn messages_match(ms: Seq<Message>, mms: Seq<MessageModel>) -> bool {
    ms.len() == mms.len() && forall|i: int| 0 <= i < ms.len() ==> message_matches(#[trigger] ms[i], mms[i])
}

impl Message {
    /// The kind of message this is, as a tag of its namespace.
    pub open spec fn is_kind(&self, tag: i32) -> bool {
        match self {
            Message::Net(k, _) => net_message_of(tag) == Some(*k),
            Message::Svc(k, _) => svc_message_of(tag) == Some(*k) && *k != SvcMessages::SvcSendTable,
            Message::SendTable(_) => svc_message_of(tag) == Some(SvcMessages::SvcSendTable),
        }
    }

    /// Decodes one message of kind `message_type` from the next `length`
    /// bytes of `data`. The network namespace is consulted first, then the
    /// server namespace; a tag in neither is an error.
    pub fn parse(data: &mut Cursor, message_type: i32, length: u32) -> (r: Result<Message, DemoError>)
        requires
            old(data).wf(),
        ensures
            final(data).wf(),
            net_message_of(message_type).is_none() && svc_message_of(message_type).is_none() ==> r
                == Err::<Message, DemoError>(DemoError::UnknownMessage(message_type)),
            (net_message_of(message_type).is_some() || svc_message_of(message_type).is_some())
                && !old(data).can_read(8 * length as nat) ==> r == Err::<Message, DemoError>(
                DemoError::OutOfBounds,
            ),
            r matches Ok(m) ==> m.is_kind(message_type) && old(data).advanced(
                &*final(data),
                8 * length as nat,
            ),
            r matches Ok(Message::Net(k, b)) ==> b@ == old(data).rest().take(length as int),
            r matches Ok(Message::Svc(k, b)) ==> b@ == old(data).rest().take(length as int),
            svc_message_of(message_type) != Some(SvcMessages::SvcSendTable) && (net_message_of(
                message_type,
            ).is_some() || svc_message_of(message_type).is_some()) && old(data).can_read(
                8 * length as nat,
            ) ==> r.is_ok(),
            old(data).can_read(8 * length as nat) ==> match message_outcome(
                message_type,
                old(data).rest().take(length as int),
            ) {
                Ok(mm) => (r matches Ok(m) && message_matches(m, mm)),
                Err(e) => r == Err::<Message, DemoError>(e),
            },
            net_message_of(message_type).is_none() && svc_message_of(message_type) == Some(
                SvcMessages::SvcSendTable,
            ) && old(data).can_read(8 * length as nat) ==> match decode_table(
                old(data).rest().take(length as int),
            ) {
                Some(m) => (r matches Ok(Message::SendTable(t)) && t@ == m),
                None => r == Err::<Message, DemoError>(DemoError::BadMessage),
            },
    {
        if let Some(nm) = NetMessages::from_i32(message_type) {
            let body = data.read_bytes(length as usize)?;
            Ok(Message::Net(nm, body))
        } else if let Some(sm) = SvcMessages::from_i32(message_type) {
            let body = data.read_bytes(length as usize)?;
            match sm {
                SvcMessages::SvcSendTable => {
                    let table = decode_send_table(&body)?;
                    Ok(Message::SendTable(table))
                },
                _ => Ok(Message::Svc(sm, body)),
            }
        } else {
            Err(DemoError::UnknownMessage(message_type))
        }
    }
}

/// Reads one framed message: a varint kind tag, a varint byte length, and
/// that many bytes, which are decoded on their own.
pub fn parse_message(chunk: &mut Cursor) -> (r: Result<Message, DemoError>)
    requires
        old(chunk).wf(),
    ensures
        final(chunk).wf(),
        match framed_at(old(chunk).buf(), old(chunk).pos() as int) {
            Ok((mm, e)) => (r matches Ok(m) && message_matches(m, mm)) && final(chunk).pos() == e,
            Err(err) => r == Err::<Message, DemoError>(err),
        },
        r.is_ok() ==> final(chunk).pos() > old(chunk).pos() && final(chunk).buf() == old(chunk).buf(),
        r.is_err() ==> final(chunk).buf() == old(chunk).buf(),
{
    reveal(framed_at);
    let cmd = chunk.read_protobuf_var_int()?;
    let length = chunk.read_protobuf_var_int()?;
    if length < 0 {
        return Err(DemoError::BadLength);
    }
    let mut inner = chunk.chunk_bytes(length as usize)?;
    proof {
        crate::cursor::lemma_bytes_from_start(inner.buf());
        assert(inner.rest().take(length as int) =~= inner.buf());
    }
    let msg = Message::parse(&mut inner, cmd, length as u32)?;
    Ok(msg)
}

} // verus!
