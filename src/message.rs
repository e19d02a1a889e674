//! SSH messages: the registry of message type codes, and the payload layouts of
//! the messages that are implemented.
use vstd::prelude::*;
use vstd::utf8::{
    decode_utf8, encode_utf8, is_char_boundary, length_of_first_scalar, pop_first_scalar, valid_utf8,
};

use crate::wire::{append_bytes, be_u32_at, copy_range, push_u32_be, read_u32_be, u32_be};

verus! {

/// Why a payload is not a message.
#[derive(Debug, Clone, Copy, PartialEq, Eq)]
pub enum ParseError {
    /// A name-list is not UTF-8.
    InvalidNameList,
    /// The payload ends before its fields do, or goes on after them.
    InvalidLength,
    /// The message type is known but not implemented.
    UnsupportedMessage(MessageType),
    /// The type code belongs to no known message.
    UnknownMessageType(u8),
    /// A string field is not UTF-8.
    InvalidString,
    /// A disconnect reason code that has no meaning.
    InvalidReasonCode(u32),
}

/// The message types of the transport, authentication and connection protocols.
#[derive(Debug, Clone, Copy, PartialEq, Eq)]
pub enum MessageType {
    Disconnect,
    Ignore,
    Unimplemented,
    Debug,
    ServiceRequest,
    ServiceAccept,
    Kexinit,
    Newkeys,
    UserauthRequest,
    UserauthFailure,
    UserauthSuccess,
    UserauthBanner,
    GlobalRequest,
    RequestSuccess,
    RequestFailure,
    ChannelOpen,
    ChannelOpenConfirmation,
    ChannelOpenFailure,
    ChannelWindowAdjust,
    ChannelData,
    ChannelExtendedData,
    ChannelEof,
    ChannelClose,
    ChannelRequest,
    ChannelSuccess,
    ChannelFailure,
}

/// The message type that a wire code stands for, if any.
pub open spec fn type_of_code(code: u8) -> Option<MessageType> {
    match code {
        1u8 => Some(MessageType::Disconnect),
        2u8 => Some(MessageType::Ignore),
        3u8 => Some(MessageType::Unimplemented),
        4u8 => Some(MessageType::Debug),
        5u8 => Some(MessageType::ServiceRequest),
        6u8 => Some(MessageType::ServiceAccept),
        20u8 => Some(MessageType::Kexinit),
        21u8 => Some(MessageType::Newkeys),
        50u8 => Some(MessageType::UserauthRequest),
        51u8 => Some(MessageType::UserauthFailure),
        52u8 => Some(MessageType::UserauthSuccess),
        53u8 => Some(MessageType::UserauthBanner),
        80u8 => Some(MessageType::GlobalRequest),
        81u8 => Some(MessageType::RequestSuccess),
        82u8 => Some(MessageType::RequestFailure),
        90u8 => Some(MessageType::ChannelOpen),
        91u8 => Some(MessageType::ChannelOpenConfirmation),
        92u8 => Some(MessageType::ChannelOpenFailure),
        93u8 => Some(MessageType::ChannelWindowAdjust),
        94u8 => Some(MessageType::ChannelData),
        95u8 => Some(MessageType::ChannelExtendedData),
        96u8 => Some(MessageType::ChannelEof),
        97u8 => Some(MessageType::ChannelClose),
        98u8 => Some(MessageType::ChannelRequest),
        99u8 => Some(MessageType::ChannelSuccess),
        100u8 => Some(MessageType::ChannelFailure),
        _ => None,
    }
}

impl MessageType {
    /// The wire code of this message type.
    pub open spec fn spec_code(self) -> u8 {
        match self {
            MessageType::Disconnect => 1u8,
            MessageType::Ignore => 2u8,
            MessageType::Unimplemented => 3u8,
            MessageType::Debug => 4u8,
            MessageType::ServiceRequest => 5u8,
            MessageType::ServiceAccept => 6u8,
            MessageType::Kexinit => 20u8,
            MessageType::Newkeys => 21u8,
            MessageType::UserauthRequest => 50u8,
            MessageType::UserauthFailure => 51u8,
            MessageType::UserauthSuccess => 52u8,
            MessageType::UserauthBanner => 53u8,
            MessageType::GlobalRequest => 80u8,
            MessageType::RequestSuccess => 81u8,
            MessageType::RequestFailure => 82u8,
            MessageType::ChannelOpen => 90u8,
            MessageType::ChannelOpenConfirmation => 91u8,
            MessageType::ChannelOpenFailure => 92u8,
            MessageType::ChannelWindowAdjust => 93u8,
            MessageType::ChannelData => 94u8,
            MessageType::ChannelExtendedData => 95u8,
            MessageType::ChannelEof => 96u8,
            MessageType::ChannelClose => 97u8,
            MessageType::ChannelRequest => 98u8,
            MessageType::ChannelSuccess => 99u8,
            MessageType::ChannelFailure => 100u8,
        }
    }

    /// The name of this message type in the protocol's documents.
    pub open spec fn spec_name(self) -> Seq<char> {
        match self {
            MessageType::Disconnect => "SSH_MSG_DISCONNECT"@,
            MessageType::Ignore => "SSH_MSG_IGNORE"@,
            MessageType::Unimplemented => "SSH_MSG_UNIMPLEMENTED"@,
            MessageType::Debug => "SSH_MSG_DEBUG"@,
            MessageType::ServiceRequest => "SSH_MSG_SERVICE_REQUEST"@,
            MessageType::ServiceAccept => "SSH_MSG_SERVICE_ACCEPT"@,
            MessageType::Kexinit => "SSH_MSG_KEXINIT"@,
            MessageType::Newkeys => "SSH_MSG_NEWKEYS"@,
            MessageType::UserauthRequest => "SSH_MSG_USERAUTH_REQUEST"@,
            MessageType::UserauthFailure => "SSH_MSG_USERAUTH_FAILURE"@,
            MessageType::UserauthSuccess => "SSH_MSG_USERAUTH_SUCCESS"@,
            MessageType::UserauthBanner => "SSH_MSG_USERAUTH_BANNER"@,
            MessageType::GlobalRequest => "SSH_MSG_GLOBAL_REQUEST"@,
            MessageType::RequestSuccess => "SSH_MSG_REQUEST_SUCCESS"@,
            MessageType::RequestFailure => "SSH_MSG_REQUEST_FAILURE"@,
            MessageType::ChannelOpen => "SSH_MSG_CHANNEL_OPEN"@,
            MessageType::ChannelOpenConfirmation => "SSH_MSG_CHANNEL_OPEN_CONFIRMATION"@,
            MessageType::ChannelOpenFailure => "SSH_MSG_CHANNEL_OPEN_FAILURE"@,
            MessageType::ChannelWindowAdjust => "SSH_MSG_CHANNEL_WINDOW_ADJUST"@,
            MessageType::ChannelData => "SSH_MSG_CHANNEL_DATA"@,
            MessageType::ChannelExtendedData => "SSH_MSG_CHANNEL_EXTENDED_DATA"@,
            MessageType::ChannelEof => "SSH_MSG_CHANNEL_EOF"@,
            MessageType::ChannelClose => "SSH_MSG_CHANNEL_CLOSE"@,
            MessageType::ChannelRequest => "SSH_MSG_CHANNEL_REQUEST"@,
            MessageType::ChannelSuccess => "SSH_MSG_CHANNEL_SUCCESS"@,
            MessageType::ChannelFailure => "SSH_MSG_CHANNEL_FAILURE"@,
        }
    }

    /// The wire code of this message type.
    pub fn code(&self) -> (r: u8)
        ensures
            r == self.spec_code(),
    {
        match self {
            MessageType::Disconnect => 1,
            MessageType::Ignore => 2,
            MessageType::Unimplemented => 3,
            MessageType::Debug => 4,
            MessageType::ServiceRequest => 5,
            MessageType::ServiceAccept => 6,
            MessageType::Kexinit => 20,
            MessageType::Newkeys => 21,
            MessageType::UserauthRequest => 50,
            MessageType::UserauthFailure => 51,
            MessageType::UserauthSuccess => 52,
            MessageType::UserauthBanner => 53,
            MessageType::GlobalRequest => 80,
            MessageType::RequestSuccess => 81,
            MessageType::RequestFailure => 82,
            MessageType::ChannelOpen => 90,
            MessageType::ChannelOpenConfirmation => 91,
            MessageType::ChannelOpenFailure => 92,
            MessageType::ChannelWindowAdjust => 93,
            MessageType::ChannelData => 94,
            MessageType::ChannelExtendedData => 95,
            MessageType::ChannelEof => 96,
            MessageType::ChannelClose => 97,
            MessageType::ChannelRequest => 98,
            MessageType::ChannelSuccess => 99,
            MessageType::ChannelFailure => 100,
        }
    }

    /// The name of this message type, for diagnostics.
    pub fn name(&self) -> (r: &'static str)
        ensures
            r@ == self.spec_name(),
    {
        match self {
            MessageType::Disconnect => "SSH_MSG_DISCONNECT",
            MessageType::Ignore => "SSH_MSG_IGNORE",
            MessageType::Unimplemented => "SSH_MSG_UNIMPLEMENTED",
            MessageType::Debug => "SSH_MSG_DEBUG",
            MessageType::ServiceRequest => "SSH_MSG_SERVICE_REQUEST",
            MessageType::ServiceAccept => "SSH_MSG_SERVICE_ACCEPT",
            MessageType::Kexinit => "SSH_MSG_KEXINIT",
            MessageType::Newkeys => "SSH_MSG_NEWKEYS",
            MessageType::UserauthRequest => "SSH_MSG_USERAUTH_REQUEST",
            MessageType::UserauthFailure => "SSH_MSG_USERAUTH_FAILURE",
            MessageType::UserauthSuccess => "SSH_MSG_USERAUTH_SUCCESS",
            MessageType::UserauthBanner => "SSH_MSG_USERAUTH_BANNER",
            MessageType::GlobalRequest => "SSH_MSG_GLOBAL_REQUEST",
            MessageType::RequestSuccess => "SSH_MSG_REQUEST_SUCCESS",
            MessageType::RequestFailure => "SSH_MSG_REQUEST_FAILURE",
            MessageType::ChannelOpen => "SSH_MSG_CHANNEL_OPEN",
            MessageType::ChannelOpenConfirmation => "SSH_MSG_CHANNEL_OPEN_CONFIRMATION",
            MessageType::ChannelOpenFailure => "SSH_MSG_CHANNEL_OPEN_FAILURE",
            MessageType::ChannelWindowAdjust => "SSH_MSG_CHANNEL_WINDOW_ADJUST",
            MessageType::ChannelData => "SSH_MSG_CHANNEL_DATA",
            MessageType::ChannelExtendedData => "SSH_MSG_CHANNEL_EXTENDED_DATA",
            MessageType::ChannelEof => "SSH_MSG_CHANNEL_EOF",
            MessageType::ChannelClose => "SSH_MSG_CHANNEL_CLOSE",
            MessageType::ChannelRequest => "SSH_MSG_CHANNEL_REQUEST",
            MessageType::ChannelSuccess => "SSH_MSG_CHANNEL_SUCCESS",
            MessageType::ChannelFailure => "SSH_MSG_CHANNEL_FAILURE",
        }
    }

    /// The message type of a wire code.
    pub fn try_from(value: u8) -> (r: Result<MessageType, ParseError>)
        ensures
            r == (match type_of_code(value) {
                Some(t) => Ok::<MessageType, ParseError>(t),
                None => Err(ParseError::UnknownMessageType(value)),
            }),
    {
        match value {
            1 => Ok(MessageType::Disconnect),
            2 => Ok(MessageType::Ignore),
            3 => Ok(MessageType::Unimplemented),
            4 => Ok(MessageType::Debug),
            5 => Ok(MessageType::ServiceRequest),
            6 => Ok(MessageType::ServiceAccept),
            20 => Ok(MessageType::Kexinit),
            21 => Ok(MessageType::Newkeys),
            50 => Ok(MessageType::UserauthRequest),
            51 => Ok(MessageType::UserauthFailure),
            52 => Ok(MessageType::UserauthSuccess),
            53 => Ok(MessageType::UserauthBanner),
            80 => Ok(MessageType::GlobalRequest),
            81 => Ok(MessageType::RequestSuccess),
            82 => Ok(MessageType::RequestFailure),
            90 => Ok(MessageType::ChannelOpen),
            91 => Ok(MessageType::ChannelOpenConfirmation),
            92 => Ok(MessageType::ChannelOpenFailure),
            93 => Ok(MessageType::ChannelWindowAdjust),
            94 => Ok(MessageType::ChannelData),
            95 => Ok(MessageType::ChannelExtendedData),
            96 => Ok(MessageType::ChannelEof),
            97 => Ok(MessageType::ChannelClose),
            98 => Ok(MessageType::ChannelRequest),
            99 => Ok(MessageType::ChannelSuccess),
            100 => Ok(MessageType::ChannelFailure),
            _ => Err(ParseError::UnknownMessageType(value)),
        }
    }
}

/// The registry maps each message type to its code and back, and no two types
/// share a code.
pub proof fn lemma_registry_bijective(t: MessageType, code: u8)
    ensures
        type_of_code(t.spec_code()) == Some(t),
        type_of_code(code) matches Some(u) ==> u.spec_code() == code,
{
}

/// Why a connection is closed.
#[derive(Debug, Clone, Copy, PartialEq, Eq)]
pub enum ReasonCode {
    HostNotAllowedToConnect,
    ProtocolError,
    KeyExchangeFailed,
    Reserved,
    MacError,
    CompressionError,
    ServiceNotAvailable,
    ProtocolVersionNotSupported,
    HostKeyNotVerifiable,
    ConnectionLost,
    ByApplication,
    TooManyConnections,
    AuthCancelledByUser,
    NoMoreAuthMethodsAvailable,
    IllegalUserName,
}

/// The reason that a wire value stands for, if any.
pub open spec fn reason_of_code(code: int) -> Option<ReasonCode> {
    if code == 1 {
        Some(ReasonCode::HostNotAllowedToConnect)
    } else if code == 2 {
        Some(ReasonCode::ProtocolError)
    } else if code == 3 {
        Some(ReasonCode::KeyExchangeFailed)
    } else if code == 4 {
        Some(ReasonCode::Reserved)
    } else if code == 5 {
        Some(ReasonCode::MacError)
    } else if code == 6 {
        Some(ReasonCode::CompressionError)
    } else if code == 7 {
        Some(ReasonCode::ServiceNotAvailable)
    } else if code == 8 {
        Some(ReasonCode::ProtocolVersionNotSupported)
    } else if code == 9 {
        Some(ReasonCode::HostKeyNotVerifiable)
    } else if code == 10 {
        Some(ReasonCode::ConnectionLost)
    } else if code == 11 {
        Some(ReasonCode::ByApplication)
    } else if code == 12 {
        Some(ReasonCode::TooManyConnections)
    } else if code == 13 {
        Some(ReasonCode::AuthCancelledByUser)
    } else if code == 14 {
        Some(ReasonCode::NoMoreAuthMethodsAvailable)
    } else if code == 15 {
        Some(ReasonCode::IllegalUserName)
    } else {
        None
    }
}

impl ReasonCode {
    /// The wire value of this reason.
    pub open spec fn spec_code(self) -> u32 {
        match self {
            ReasonCode::HostNotAllowedToConnect => 1u32,
            ReasonCode::ProtocolError => 2u32,
            ReasonCode::KeyExchangeFailed => 3u32,
            ReasonCode::Reserved => 4u32,
            ReasonCode::MacError => 5u32,
            ReasonCode::CompressionError => 6u32,
            ReasonCode::ServiceNotAvailable => 7u32,
            ReasonCode::ProtocolVersionNotSupported => 8u32,
            ReasonCode::HostKeyNotVerifiable => 9u32,
            ReasonCode::ConnectionLost => 10u32,
            ReasonCode::ByApplication => 11u32,
            ReasonCode::TooManyConnections => 12u32,
            ReasonCode::AuthCancelledByUser => 13u32,
            ReasonCode::NoMoreAuthMethodsAvailable => 14u32,
            ReasonCode::IllegalUserName => 15u32,
        }
    }

    /// The wire value of this reason.
    pub fn code(&self) -> (r: u32)
        ensures
            r == self.spec_code(),
    {
        match self {
            ReasonCode::HostNotAllowedToConnect => 1,
            ReasonCode::ProtocolError => 2,
            ReasonCode::KeyExchangeFailed => 3,
            ReasonCode::Reserved => 4,
            ReasonCode::MacError => 5,
            ReasonCode::CompressionError => 6,
            ReasonCode::ServiceNotAvailable => 7,
            ReasonCode::ProtocolVersionNotSupported => 8,
            ReasonCode::HostKeyNotVerifiable => 9,
            ReasonCode::ConnectionLost => 10,
            ReasonCode::ByApplication => 11,
            ReasonCode::TooManyConnections => 12,
            ReasonCode::AuthCancelledByUser => 13,
            ReasonCode::NoMoreAuthMethodsAvailable => 14,
            ReasonCode::IllegalUserName => 15,
        }
    }

    /// The reason of a wire value, if it has one.
    pub fn from_code(value: u32) -> (r: Option<ReasonCode>)
        ensures
            r == reason_of_code(value as int),
    {
        match value {
            1 => Some(ReasonCode::HostNotAllowedToConnect),
            2 => Some(ReasonCode::ProtocolError),
            3 => Some(ReasonCode::KeyExchangeFailed),
            4 => Some(ReasonCode::Reserved),
            5 => Some(ReasonCode::MacError),
            6 => Some(ReasonCode::CompressionError),
            7 => Some(ReasonCode::ServiceNotAvailable),
            8 => Some(ReasonCode::ProtocolVersionNotSupported),
            9 => Some(ReasonCode::HostKeyNotVerifiable),
            10 => Some(ReasonCode::ConnectionLost),
            11 => Some(ReasonCode::ByApplication),
            12 => Some(ReasonCode::TooManyConnections),
            13 => Some(ReasonCode::AuthCancelledByUser),
            14 => Some(ReasonCode::NoMoreAuthMethodsAvailable),
            15 => Some(ReasonCode::IllegalUserName),
            _ => None,
        }
    }
}

/// A message whose payload layout is implemented.
#[derive(Debug, Clone, PartialEq, Eq)]
pub enum Message {
    Disconnect(Disconnect),
    Kexinit(Kexinit),
}

/// The notice that the sender closes the connection.
#[derive(Debug, Clone, PartialEq, Eq)]
pub struct Disconnect {
    pub reason_code: ReasonCode,
    pub description: String,
    pub language_tag: String,
}

/// The algorithm offer that opens a key exchange. The name-lists stand in the
/// order of the wire layout.
#[derive(Debug, Clone, PartialEq, Eq)]
pub struct Kexinit {
    pub cookie: [u8; 16],
    pub kex_algorithms: Vec<String>,
    pub server_host_key_algorithms: Vec<String>,
    pub encryption_algorithms_client_to_server: Vec<String>,
    pub encryption_algorithms_server_to_client: Vec<String>,
    pub mac_algorithms_client_to_server: Vec<String>,
    pub mac_algorithms_server_to_client: Vec<String>,
    pub compression_algorithms_client_to_server: Vec<String>,
    pub compression_algorithms_server_to_client: Vec<String>,
    pub languages_client_to_server: Vec<String>,
    pub languages_server_to_client: Vec<String>,
    pub first_kex_packet_follows: bool,
    pub reserved: u32,
}

/// The number of name-lists in a key exchange offer.
pub const KEXINIT_NAME_LISTS: usize = 10;

/// What a `Kexinit` holds, as mathematical values.
pub struct KexinitModel {
    pub cookie: Seq<u8>,
    pub name_lists: Seq<Seq<Seq<char>>>,
    pub first_kex_packet_follows: bool,
    pub reserved: u32,
}

/// What a `Message` holds, as mathematical values.
pub enum MessageModel {
    Disconnect { reason_code: ReasonCode, description: Seq<char>, language_tag: Seq<char> },
    Kexinit(KexinitModel),
}

impl View for Kexinit {
    type V = KexinitModel;

    open spec fn view(&self) -> KexinitModel {
        KexinitModel {
            cookie: self.cookie@,
            name_lists: seq![
                self.kex_algorithms.deep_view(),
                self.server_host_key_algorithms.deep_view(),
                self.encryption_algorithms_client_to_server.deep_view(),
                self.encryption_algorithms_server_to_client.deep_view(),
                self.mac_algorithms_client_to_server.deep_view(),
                self.mac_algorithms_server_to_client.deep_view(),
                self.compression_algorithms_client_to_server.deep_view(),
                self.compression_algorithms_server_to_client.deep_view(),
                self.languages_client_to_server.deep_view(),
                self.languages_server_to_client.deep_view(),
            ],
            first_kex_packet_follows: self.first_kex_packet_follows,
            reserved: self.reserved,
        }
    }
}

impl View for Message {
    type V = MessageModel;

    open spec fn view(&self) -> MessageModel {
        match self {
            Message::Disconnect(d) => MessageModel::Disconnect {
                reason_code: d.reason_code,
                description: d.description@,
                language_tag: d.language_tag@,
            },
            Message::Kexinit(k) => MessageModel::Kexinit(k@),
        }
    }
}

/// The byte for `,`, which separates the names of a name-list.
pub const NAME_SEPARATOR: u8 = 44;

/// `names` joined with the separator between each two.
pub open spec fn join_names(names: Seq<Seq<u8>>) -> Seq<u8>
    decreases names.len(),
{
    if names.len() == 0 {
        Seq::empty()
    } else if names.len() == 1 {
        names[0]
    } else {
        join_names(names.drop_last()) + seq![NAME_SEPARATOR] + names.last()
    }
}

/// The pieces of `c` between separators. There is always at least one.
pub open spec fn split_names(c: Seq<u8>) -> Seq<Seq<u8>>
    decreases c.len(),
{
    if c.len() == 0 {
        seq![Seq::empty()]
    } else {
        let init = split_names(c.drop_last());
        if c.last() == NAME_SEPARATOR {
            init.push(Seq::empty())
        } else {
            init.update(init.len() - 1, init.last().push(c.last()))
        }
    }
}

/// The content of a name-list field: the UTF-8 of each name, joined.
pub open spec fn name_list_content(names: Seq<Seq<char>>) -> Seq<u8> {
    join_names(names.map_values(|n: Seq<char>| encode_utf8(n)))
}

/// A length-prefixed field holding `content`.
pub open spec fn string_field(content: Seq<u8>) -> Seq<u8> {
    u32_be(content.len() as u32) + content
}

/// Whether every piece of a name-list's content is UTF-8.
spec fn names_valid(c: Seq<u8>) -> bool {
    forall|i: int| 0 <= i < split_names(c).len() ==> valid_utf8(#[trigger] split_names(c)[i])
}

/// The name-list field at `pos` of `s`, and where the next field starts.
pub open spec fn name_list_at(s: Seq<u8>, pos: int) -> Result<(Seq<Seq<char>>, int), ParseError> {
    if pos + 4 > s.len() {
        Err(ParseError::InvalidLength)
    } else {
        let end = pos + 4 + be_u32_at(s, pos);
        if end > s.len() {
            Err(ParseError::InvalidLength)
        } else {
            let c = s.subrange(pos + 4, end);
            if !valid_utf8(c) {
                Err(ParseError::InvalidNameList)
            } else {
                Ok((split_names(c).map_values(|b: Seq<u8>| decode_utf8(b)), end))
            }
        }
    }
}

/// The string field at `pos` of `s`, and where the next field starts.
pub open spec fn string_at(s: Seq<u8>, pos: int) -> Result<(Seq<char>, int), ParseError> {
    if pos + 4 > s.len() {
        Err(ParseError::InvalidLength)
    } else {
        let end = pos + 4 + be_u32_at(s, pos);
        if end > s.len() {
            Err(ParseError::InvalidLength)
        } else if !valid_utf8(s.subrange(pos + 4, end)) {
            Err(ParseError::InvalidString)
        } else {
            Ok((decode_utf8(s.subrange(pos + 4, end)), end))
        }
    }
}

/// The first `k` name-list fields from `pos` of `s`, and where the next field starts.
pub open spec fn name_lists_at(s: Seq<u8>, pos: int, k: nat) -> Result<
    (Seq<Seq<Seq<char>>>, int),
    ParseError,
>
    decreases k,
{
    if k == 0 {
        Ok((Seq::empty(), pos))
    } else {
        match name_lists_at(s, pos, (k - 1) as nat) {
            Err(e) => Err(e),
            Ok((lists, next)) => match name_list_at(s, next) {
                Err(e) => Err(e),
                Ok((list, end)) => Ok((lists.push(list), end)),
            },
        }
    }
}

proof fn lemma_split_nonempty(c: Seq<u8>)
    ensures
        split_names(c).len() >= 1,
    decreases c.len(),
{
    if c.len() > 0 {
        lemma_split_nonempty(c.drop_last());
    }
}

proof fn lemma_split_no_separator(c: Seq<u8>)
    requires
        forall|i: int| 0 <= i < c.len() ==> c[i] != NAME_SEPARATOR,
    ensures
        split_names(c) == seq![c],
    decreases c.len(),
{
    if c.len() == 0 {
        assert(c =~= Seq::<u8>::empty());
        assert(split_names(c) =~= seq![c]);
    } else {
        lemma_split_no_separator(c.drop_last());
        assert(c[c.len() - 1] != NAME_SEPARATOR);
        assert(c.drop_last().push(c.last()) =~= c);
        assert(split_names(c) =~= seq![c]);
    }
}

proof fn lemma_split_concat(a: Seq<u8>, b: Seq<u8>)
    ensures
        split_names(a + seq![NAME_SEPARATOR] + b) == split_names(a) + split_names(b),
    decreases b.len(),
{
    let x = a + seq![NAME_SEPARATOR] + b;
    if b.len() == 0 {
        assert(x.drop_last() =~= a);
        assert(split_names(x) =~= split_names(a) + split_names(b));
    } else {
        let b0 = b.drop_last();
        lemma_split_concat(a, b0);
        lemma_split_nonempty(b0);
        assert(x.drop_last() =~= a + seq![NAME_SEPARATOR] + b0);
        assert(split_names(x) =~= split_names(a) + split_names(b));
    }
}

proof fn lemma_separator_is_boundary(c: Seq<u8>, p: int)
    requires
        valid_utf8(c),
        0 <= p < c.len(),
        c[p] == NAME_SEPARATOR,
    ensures
        is_char_boundary(c, p),
    decreases c.len(),
{
    if p > 0 {
        let k = length_of_first_scalar(c);
        let t = pop_first_scalar(c);
        assert(p >= k);
        assert(t[p - k] == c[p]);
        lemma_separator_is_boundary(t, p - k);
    }
}

/// A name-list's content is UTF-8 exactly when each of its names is: the
/// separator is a one-byte character and never part of another.
proof fn lemma_names_valid_iff(c: Seq<u8>)
    ensures
        names_valid(c) == valid_utf8(c),
    decreases c.len(),
{
    if exists|p: int| 0 <= p < c.len() && c[p] == NAME_SEPARATOR {
        let p = choose|p: int| 0 <= p < c.len() && c[p] == NAME_SEPARATOR;
        let a = c.subrange(0, p);
        let b = c.subrange(p + 1, c.len() as int);
        assert(c =~= a + seq![NAME_SEPARATOR] + b);
        lemma_split_concat(a, b);
        lemma_names_valid_iff(a);
        lemma_names_valid_iff(b);
        let sa = split_names(a);
        let sb = split_names(b);
        assert(names_valid(c) == (names_valid(a) && names_valid(b))) by {
            if names_valid(a) && names_valid(b) {
                assert forall|i: int| 0 <= i < split_names(c).len() implies valid_utf8(
                    #[trigger] split_names(c)[i],
                ) by {
                    if i < sa.len() {
                        assert(split_names(c)[i] == sa[i]);
                    } else {
                        assert(split_names(c)[i] == sb[i - sa.len()]);
                    }
                }
            }
            if names_valid(c) {
                assert forall|i: int| 0 <= i < sa.len() implies valid_utf8(#[trigger] sa[i]) by {
                    assert(split_names(c)[i] == sa[i]);
                }
                assert forall|i: int| 0 <= i < sb.len() implies valid_utf8(#[trigger] sb[i]) by {
                    assert(split_names(c)[sa.len() + i] == sb[i]);
                }
            }
        }
        let sep = seq![NAME_SEPARATOR];
        assert(valid_utf8(sep)) by {
            reveal_with_fuel(valid_utf8, 2);
            assert(pop_first_scalar(sep) =~= Seq::<u8>::empty());
        }
        if valid_utf8(c) {
            lemma_separator_is_boundary(c, p);
            vstd::utf8::valid_utf8_split(c, p);
            let rest = c.subrange(p, c.len() as int);
            assert(pop_first_scalar(rest) =~= b);
        }
        if valid_utf8(a) && valid_utf8(b) {
            vstd::utf8::valid_utf8_concat(a, sep);
            vstd::utf8::valid_utf8_concat(a + sep, b);
        }
    } else {
        lemma_split_no_separator(c);
        assert(names_valid(c) == valid_utf8(c)) by {
            if valid_utf8(c) {
                assert forall|i: int| 0 <= i < split_names(c).len() implies valid_utf8(
                    #[trigger] split_names(c)[i],
                ) by {
                    assert(split_names(c)[i] == c);
                }
            }
            if names_valid(c) {
                assert(split_names(c)[0] == c);
            }
        }
    }
}

/// Whether no name holds the separator character.
pub open spec fn name_has_no_separator(n: Seq<char>) -> bool {
    forall|i: int| 0 <= i < n.len() ==> #[trigger] n[i] != ','
}

proof fn lemma_encoding_has_no_separator(n: Seq<char>)
    requires
        name_has_no_separator(n),
    ensures
        forall|p: int| 0 <= p < encode_utf8(n).len() ==> #[trigger] encode_utf8(n)[p] != NAME_SEPARATOR,
{
    let e = encode_utf8(n);
    assert forall|p: int| 0 <= p < e.len() implies #[trigger] e[p] != NAME_SEPARATOR by {
        if e[p] == NAME_SEPARATOR {
            vstd::utf8::encode_utf8_valid_utf8(n);
            vstd::utf8::encode_utf8_decode_utf8(n);
            lemma_separator_is_boundary(e, p);
            vstd::utf8::valid_utf8_split(e, p);
            vstd::utf8::decode_utf8_split(e, p);
            let front = e.subrange(0, p);
            let rest = e.subrange(p, e.len() as int);
            assert(rest[0] == NAME_SEPARATOR);
            assert((44u8 & 0x7Fu8) as u32 == 44u32) by (bit_vector);
            assert(vstd::utf8::decode_first_scalar(rest) == 44u32);
            assert(decode_utf8(rest)[0] == (44u32 as char));
            assert(n[decode_utf8(front).len() as int] == decode_utf8(rest)[0]);
            assert((44u32 as char) == ',');
        }
    }
}

proof fn lemma_split_join(pieces: Seq<Seq<u8>>)
    requires
        pieces.len() >= 1,
        forall|i: int, p: int|
            0 <= i < pieces.len() && 0 <= p < pieces[i].len() ==> #[trigger] pieces[i][p]
                != NAME_SEPARATOR,
    ensures
        split_names(join_names(pieces)) == pieces,
    decreases pieces.len(),
{
    if pieces.len() == 1 {
        assert forall|p: int| 0 <= p < pieces[0].len() implies pieces[0][p] != NAME_SEPARATOR by {
            assert(pieces[0][p] != NAME_SEPARATOR);
        }
        lemma_split_no_separator(pieces[0]);
        assert(split_names(join_names(pieces)) =~= pieces);
    } else {
        let init = pieces.drop_last();
        assert forall|i: int, p: int| 0 <= i < init.len() && 0 <= p < init[i].len() implies #[trigger] init[i][p]
            != NAME_SEPARATOR by {
            assert(init[i] == pieces[i]);
        }
        lemma_split_join(init);
        let last = pieces.last();
        assert forall|p: int| 0 <= p < last.len() implies last[p] != NAME_SEPARATOR by {
            assert(pieces[pieces.len() - 1][p] != NAME_SEPARATOR);
        }
        lemma_split_no_separator(last);
        lemma_split_concat(join_names(init), last);
        assert(split_names(join_names(pieces)) =~= pieces);
    }
}

/// A non-empty list of names without the separator reads back from its content.
proof fn lemma_name_list_content_reads_back(list: Seq<Seq<char>>)
    requires
        list.len() >= 1,
        forall|i: int| 0 <= i < list.len() ==> name_has_no_separator(#[trigger] list[i]),
    ensures
        valid_utf8(name_list_content(list)),
        split_names(name_list_content(list)).map_values(|b: Seq<u8>| decode_utf8(b)) == list,
{
    let pieces = list.map_values(|n: Seq<char>| encode_utf8(n));
    assert forall|i: int, p: int| 0 <= i < pieces.len() && 0 <= p < pieces[i].len() implies #[trigger] pieces[i][p]
        != NAME_SEPARATOR by {
        lemma_encoding_has_no_separator(list[i]);
    }
    lemma_split_join(pieces);
    let c = name_list_content(list);
    assert forall|i: int| 0 <= i < split_names(c).len() implies valid_utf8(#[trigger] split_names(c)[i]) by {
        vstd::utf8::encode_utf8_valid_utf8(list[i]);
    }
    lemma_names_valid_iff(c);
    assert forall|i: int| 0 <= i < list.len() implies decode_utf8(#[trigger] pieces[i]) == list[i] by {
        vstd::utf8::encode_utf8_decode_utf8(list[i]);
    }
    assert(split_names(c).map_values(|b: Seq<u8>| decode_utf8(b)) =~= list);
}

/// Whether a list of names reads back from its name-list field: it has a name,
/// and no name holds the separator.
pub open spec fn name_list_canonical(list: Seq<Seq<char>>) -> bool {
    list.len() >= 1 && forall|i: int| 0 <= i < list.len() ==> name_has_no_separator(#[trigger] list[i])
}

proof fn lemma_field_length(s: Seq<u8>, pos: int, c: Seq<u8>)
    requires
        0 <= pos,
        pos + 4 + c.len() <= s.len(),
        c.len() <= u32::MAX,
        s.subrange(pos, pos + 4 + c.len()) == string_field(c),
    ensures
        be_u32_at(s, pos) == c.len(),
        s.subrange(pos + 4, pos + 4 + c.len()) == c,
{
    crate::wire::lemma_u32_be_roundtrip(c.len() as u32);
    let f = string_field(c);
    assert(s[pos] == f[0] && s[pos + 1] == f[1] && s[pos + 2] == f[2] && s[pos + 3] == f[3]);
    assert(s.subrange(pos + 4, pos + 4 + c.len()) =~= f.subrange(4, 4 + c.len() as int));
    assert(f.subrange(4, 4 + c.len() as int) =~= c);
}

proof fn lemma_name_list_at_field(s: Seq<u8>, pos: int, list: Seq<Seq<char>>)
    requires
        0 <= pos,
        pos + 4 + name_list_content(list).len() <= s.len(),
        name_list_content(list).len() <= u32::MAX,
        s.subrange(pos, pos + 4 + name_list_content(list).len()) == string_field(
            name_list_content(list),
        ),
        name_list_canonical(list),
    ensures
        name_list_at(s, pos) == Ok::<(Seq<Seq<char>>, int), ParseError>(
            (list, pos + 4 + name_list_content(list).len()),
        ),
{
    lemma_field_length(s, pos, name_list_content(list));
    lemma_name_list_content_reads_back(list);
}

proof fn lemma_string_at_field(s: Seq<u8>, pos: int, text: Seq<char>)
    requires
        0 <= pos,
        pos + 4 + encode_utf8(text).len() <= s.len(),
        encode_utf8(text).len() <= u32::MAX,
        s.subrange(pos, pos + 4 + encode_utf8(text).len()) == string_field(encode_utf8(text)),
    ensures
        string_at(s, pos) == Ok::<(Seq<char>, int), ParseError>(
            (text, pos + 4 + encode_utf8(text).len()),
        ),
{
    lemma_field_length(s, pos, encode_utf8(text));
    vstd::utf8::encode_utf8_valid_utf8(text);
    vstd::utf8::encode_utf8_decode_utf8(text);
}

proof fn lemma_name_lists_bytes_prefix(lists: Seq<Seq<Seq<char>>>, k: int)
    requires
        0 <= k <= lists.len(),
    ensures
        name_lists_bytes(lists.take(k)).len() <= name_lists_bytes(lists).len(),
        name_lists_bytes(lists.take(k)) == name_lists_bytes(lists).subrange(
            0,
            name_lists_bytes(lists.take(k)).len() as int,
        ),
    decreases lists.len(),
{
    if k == lists.len() {
        assert(lists.take(k) =~= lists);
        assert(name_lists_bytes(lists) =~= name_lists_bytes(lists).subrange(
            0,
            name_lists_bytes(lists).len() as int,
        ));
    } else {
        let init = lists.drop_last();
        lemma_name_lists_bytes_prefix(init, k);
        assert(init.take(k) =~= lists.take(k));
        assert(name_lists_bytes(lists.take(k)) =~= name_lists_bytes(lists).subrange(
            0,
            name_lists_bytes(lists.take(k)).len() as int,
        ));
    }
}

proof fn lemma_name_lists_at_bytes(s: Seq<u8>, pos: int, lists: Seq<Seq<Seq<char>>>, k: nat)
    requires
        0 <= pos,
        k <= lists.len(),
        pos + name_lists_bytes(lists).len() <= s.len(),
        s.subrange(pos, pos + name_lists_bytes(lists).len()) == name_lists_bytes(lists),
        forall|i: int| 0 <= i < lists.len() ==> name_list_canonical(#[trigger] lists[i]),
        forall|i: int|
            0 <= i < lists.len() ==> (#[trigger] name_list_content(lists[i])).len() <= u32::MAX,
    ensures
        name_lists_at(s, pos, k) == Ok::<(Seq<Seq<Seq<char>>>, int), ParseError>(
            (lists.take(k as int), pos + name_lists_bytes(lists.take(k as int)).len()),
        ),
    decreases k,
{
    if k == 0 {
        assert(lists.take(0) =~= Seq::<Seq<Seq<char>>>::empty());
    } else {
        let j = (k - 1) as int;
        lemma_name_lists_at_bytes(s, pos, lists, (k - 1) as nat);
        lemma_name_lists_bytes_step(lists, j);
        lemma_name_lists_bytes_prefix(lists, k as int);
        let all = name_lists_bytes(lists);
        let before = name_lists_bytes(lists.take(j));
        let c = name_list_content(lists[j]);
        let q = pos + before.len();
        let f = string_field(c);
        assert(s.subrange(q, q + 4 + c.len()) =~= f) by {
            assert forall|x: int| 0 <= x < f.len() implies s.subrange(q, q + 4 + c.len())[x] == f[x] by {
                assert(name_lists_bytes(lists.take(k as int))[before.len() + x] == f[x]);
                assert(all[before.len() + x] == f[x]);
                assert(s[pos + before.len() + x] == all[before.len() + x]);
            }
        }
        lemma_name_list_at_field(s, q, lists[j]);
        assert(lists.take(j).push(lists[j]) =~= lists.take(k as int));
    }
}

/// Relies on `String::from_utf8`: it accepts exactly the UTF-8 byte strings, and
/// the string is then the characters they encode.
#[verifier::external_body]
fn utf8_to_string(b: &[u8]) -> (r: Option<String>)
    ensures
        r is Some <==> valid_utf8(b@),
        r matches Some(s) ==> s@ == decode_utf8(b@),
{
    String::from_utf8(b.to_vec()).ok()
}

/// Reads the name-list field at `pos`.
fn parse_name_list(src: &[u8], pos: usize) -> (r: Result<(Vec<String>, usize), ParseError>)
    requires
        pos <= src@.len(),
    ensures
        match r {
            Ok((names, end)) => name_list_at(src@, pos as int) == Ok::<
                (Seq<Seq<char>>, int),
                ParseError,
            >((names.deep_view(), end as int)),
            Err(e) => name_list_at(src@, pos as int) == Err::<(Seq<Seq<char>>, int), ParseError>(
                e,
            ),
        },
{
    if src.len() - pos < 4 {
        return Err(ParseError::InvalidLength);
    }
    let len = read_u32_be(src, pos) as usize;
    if src.len() - pos - 4 < len {
        return Err(ParseError::InvalidLength);
    }
    let start = pos + 4;
    let end = start + len;
    let ghost c = src@.subrange(start as int, end as int);
    let mut pieces: Vec<Vec<u8>> = Vec::new();
    let mut piece_start: usize = start;
    let mut i: usize = start;
    assert(c.subrange(0, 0) =~= Seq::<u8>::empty());
    assert(pieces@.map_values(|v: Vec<u8>| v@) =~= Seq::<Seq<u8>>::empty());
    assert(src@.subrange(start as int, start as int) =~= Seq::<u8>::empty());
    assert(split_names(Seq::<u8>::empty()) =~= seq![Seq::<u8>::empty()]);
    while i < end
        invariant
            start <= piece_start <= i <= end <= src@.len(),
            start == pos + 4,
            end == start + len,
            len == be_u32_at(src@, pos as int),
            c == src@.subrange(start as int, end as int),
            split_names(c.subrange(0, i - start)) == pieces@.map_values(|v: Vec<u8>| v@).push(
                src@.subrange(piece_start as int, i as int),
            ),
        decreases end - i,
    {
        let ghost before = c.subrange(0, i - start);
        assert(c.subrange(0, i + 1 - start).drop_last() =~= before);
        let ghost old_pieces = pieces@.map_values(|v: Vec<u8>| v@);
        if src[i] == NAME_SEPARATOR {
            let piece = copy_range(src, piece_start, i);
            pieces.push(piece);
            assert(pieces@.map_values(|v: Vec<u8>| v@) =~= old_pieces.push(
                src@.subrange(piece_start as int, i as int),
            ));
            piece_start = i + 1;
            i = i + 1;
            assert(src@.subrange(piece_start as int, i as int) =~= Seq::<u8>::empty());
            assert(split_names(c.subrange(0, i - start)) =~= pieces@.map_values(|v: Vec<u8>| v@).push(
                src@.subrange(piece_start as int, i as int),
            ));
        } else {
            i = i + 1;
            assert(src@.subrange(piece_start as int, i as int) =~= src@.subrange(
                piece_start as int,
                i - 1,
            ).push(src@[i - 1]));
            assert(split_names(c.subrange(0, i - start)) =~= pieces@.map_values(|v: Vec<u8>| v@).push(
                src@.subrange(piece_start as int, i as int),
            ));
        }
    }
    let ghost old_pieces = pieces@.map_values(|v: Vec<u8>| v@);
    let piece = copy_range(src, piece_start, end);
    pieces.push(piece);
    assert(pieces@.map_values(|v: Vec<u8>| v@) =~= old_pieces.push(src@.subrange(piece_start as int, end as int)));
    assert(c.subrange(0, end - start) =~= c);
    assert(pieces@.map_values(|v: Vec<u8>| v@) =~= split_names(c));
    let mut names: Vec<String> = Vec::new();
    let mut k: usize = 0;
    while k < pieces.len()
        invariant
            k <= pieces@.len(),
            start == pos + 4,
            end == start + len,
            end <= src@.len(),
            len == be_u32_at(src@, pos as int),
            c == src@.subrange(start as int, end as int),
            pieces@.map_values(|v: Vec<u8>| v@) == split_names(c),
            names.deep_view() =~= split_names(c).take(k as int).map_values(
                |b: Seq<u8>| decode_utf8(b),
            ),
            forall|j: int| 0 <= j < k ==> valid_utf8(#[trigger] split_names(c)[j]),
        decreases pieces@.len() - k,
    {
        assert(pieces@[k as int]@ == split_names(c)[k as int]);
        match utf8_to_string(pieces[k].as_slice()) {
            None => {
                assert(!valid_utf8(split_names(c)[k as int]));
                assert(!names_valid(c));
                proof {
                    lemma_names_valid_iff(c);
                }
                return Err(ParseError::InvalidNameList);
            },
            Some(name) => {
                let ghost old_names = names.deep_view();
                names.push(name);
                assert(names.deep_view() =~= old_names.push(decode_utf8(split_names(c)[k as int])));
                k = k + 1;
                assert(names.deep_view() =~= split_names(c).take(k as int).map_values(
                    |b: Seq<u8>| decode_utf8(b),
                ));
            },
        }
    }
    assert(split_names(c).take(k as int) =~= split_names(c));
    proof {
        lemma_names_valid_iff(c);
    }
    Ok((names, end))
}

/// Reads the string field at `pos`.
fn parse_string(src: &[u8], pos: usize) -> (r: Result<(String, usize), ParseError>)
    requires
        pos <= src@.len(),
    ensures
        match r {
            Ok((text, end)) => string_at(src@, pos as int) == Ok::<(Seq<char>, int), ParseError>(
                (text@, end as int),
            ),
            Err(e) => string_at(src@, pos as int) == Err::<(Seq<char>, int), ParseError>(e),
        },
{
    if src.len() - pos < 4 {
        return Err(ParseError::InvalidLength);
    }
    let len = read_u32_be(src, pos) as usize;
    if src.len() - pos - 4 < len {
        return Err(ParseError::InvalidLength);
    }
    let end = pos + 4 + len;
    let content = copy_range(src, pos + 4, end);
    match utf8_to_string(content.as_slice()) {
        None => Err(ParseError::InvalidString),
        Some(text) => Ok((text, end)),
    }
}

/// Appends a name-list field holding `list`.
fn put_name_list(out: &mut Vec<u8>, list: &Vec<String>)
    requires
        name_list_content(list.deep_view()).len() <= u32::MAX,
    ensures
        final(out)@ == old(out)@ + string_field(name_list_content(list.deep_view())),
{
    let ghost names = list.deep_view().map_values(|n: Seq<char>| encode_utf8(n));
    let mut content: Vec<u8> = Vec::new();
    let mut i: usize = 0;
    assert(names.take(0) =~= Seq::<Seq<u8>>::empty());
    while i < list.len()
        invariant
            i <= list@.len(),
            names == list.deep_view().map_values(|n: Seq<char>| encode_utf8(n)),
            content@ == join_names(names.take(i as int)),
        decreases list@.len() - i,
    {
        if i > 0 {
            content.push(NAME_SEPARATOR);
        }
        let bytes = list[i].as_str().as_bytes();
        assert(bytes@ == names[i as int]);
        append_bytes(&mut content, bytes);
        assert(names.take(i + 1).drop_last() =~= names.take(i as int));
        i = i + 1;
        assert(content@ =~= join_names(names.take(i as int)));
    }
    assert(names.take(i as int) =~= names);
    push_u32_be(out, content.len() as u32);
    append_bytes(out, content.as_slice());
    assert(final(out)@ =~= old(out)@ + string_field(name_list_content(list.deep_view())));
}

/// Appends a string field holding the UTF-8 of `text`.
fn put_string(out: &mut Vec<u8>, text: &String)
    requires
        encode_utf8(text@).len() <= u32::MAX,
    ensures
        final(out)@ == old(out)@ + string_field(encode_utf8(text@)),
{
    let bytes = text.as_str().as_bytes();
    push_u32_be(out, bytes.len() as u32);
    append_bytes(out, bytes);
    assert(final(out)@ =~= old(out)@ + string_field(encode_utf8(text@)));
}

/// The name-list fields that carry `lists`, in order.
pub open spec fn name_lists_bytes(lists: Seq<Seq<Seq<char>>>) -> Seq<u8>
    decreases lists.len(),
{
    if lists.len() == 0 {
        Seq::empty()
    } else {
        name_lists_bytes(lists.drop_last()) + string_field(name_list_content(lists.last()))
    }
}

/// The payload of a key exchange offer.
pub open spec fn kexinit_bytes(k: KexinitModel) -> Seq<u8> {
    seq![MessageType::Kexinit.spec_code()] + k.cookie + name_lists_bytes(k.name_lists) + seq![
        if k.first_kex_packet_follows {
            1u8
        } else {
            0u8
        },
    ] + u32_be(k.reserved)
}

/// The payload of a disconnect notice.
pub open spec fn disconnect_bytes(
    reason_code: ReasonCode,
    description: Seq<char>,
    language_tag: Seq<char>,
) -> Seq<u8> {
    seq![MessageType::Disconnect.spec_code()] + u32_be(reason_code.spec_code()) + string_field(
        encode_utf8(description),
    ) + string_field(encode_utf8(language_tag))
}

/// The payload of a message.
pub open spec fn message_bytes(m: MessageModel) -> Seq<u8> {
    match m {
        MessageModel::Disconnect { reason_code, description, language_tag } => disconnect_bytes(
            reason_code,
            description,
            language_tag,
        ),
        MessageModel::Kexinit(k) => kexinit_bytes(k),
    }
}

/// Whether each name-list's content fits its 32-bit length field.
pub open spec fn kexinit_encodable(k: KexinitModel) -> bool {
    forall|i: int|
        0 <= i < k.name_lists.len() ==> (#[trigger] name_list_content(k.name_lists[i])).len()
            <= u32::MAX
}

/// Whether both strings fit their 32-bit length fields.
pub open spec fn disconnect_encodable(description: Seq<char>, language_tag: Seq<char>) -> bool {
    encode_utf8(description).len() <= u32::MAX && encode_utf8(language_tag).len() <= u32::MAX
}

/// Whether every field of a message fits its length field.
pub open spec fn message_encodable(m: MessageModel) -> bool {
    match m {
        MessageModel::Disconnect { description, language_tag, .. } => disconnect_encodable(
            description,
            language_tag,
        ),
        MessageModel::Kexinit(k) => kexinit_encodable(k),
    }
}

/// The key exchange offer that the payload `s` holds.
pub open spec fn kexinit_at(s: Seq<u8>) -> Result<KexinitModel, ParseError> {
    if s.len() < 17 {
        Err(ParseError::InvalidLength)
    } else {
        match name_lists_at(s, 17, KEXINIT_NAME_LISTS as nat) {
            Err(e) => Err(e),
            Ok((lists, end)) => if end + 5 != s.len() {
                Err(ParseError::InvalidLength)
            } else {
                Ok(
                    KexinitModel {
                        cookie: s.subrange(1, 17),
                        name_lists: lists,
                        first_kex_packet_follows: s[end] != 0,
                        reserved: be_u32_at(s, end + 1) as u32,
                    },
                )
            },
        }
    }
}

/// The disconnect notice that the payload `s` holds.
pub open spec fn disconnect_at(s: Seq<u8>) -> Result<MessageModel, ParseError> {
    if s.len() < 5 {
        Err(ParseError::InvalidLength)
    } else {
        match reason_of_code(be_u32_at(s, 1)) {
            None => Err(ParseError::InvalidReasonCode(be_u32_at(s, 1) as u32)),
            Some(reason_code) => match string_at(s, 5) {
                Err(e) => Err(e),
                Ok((description, next)) => match string_at(s, next) {
                    Err(e) => Err(e),
                    Ok((language_tag, end)) => if end != s.len() {
                        Err(ParseError::InvalidLength)
                    } else {
                        Ok(MessageModel::Disconnect { reason_code, description, language_tag })
                    },
                },
            },
        }
    }
}

/// The message that the payload `s` holds: dispatch on the type code, then the
/// type's own layout, which must take up the payload exactly.
pub open spec fn parse_spec(s: Seq<u8>) -> Result<MessageModel, ParseError> {
    if s.len() == 0 {
        Err(ParseError::InvalidLength)
    } else {
        match type_of_code(s[0]) {
            None => Err(ParseError::UnknownMessageType(s[0])),
            Some(MessageType::Kexinit) => match kexinit_at(s) {
                Ok(k) => Ok(MessageModel::Kexinit(k)),
                Err(e) => Err(e),
            },
            Some(MessageType::Disconnect) => disconnect_at(s),
            Some(t) => Err(ParseError::UnsupportedMessage(t)),
        }
    }
}

proof fn lemma_name_lists_err(s: Seq<u8>, pos: int, j: nat, k: nat)
    requires
        j <= k,
        name_lists_at(s, pos, j) is Err,
    ensures
        name_lists_at(s, pos, k) == name_lists_at(s, pos, j),
    decreases k - j,
{
    if j < k {
        lemma_name_lists_err(s, pos, j, (k - 1) as nat);
    }
}

proof fn lemma_name_lists_len(s: Seq<u8>, pos: int, k: nat)
    requires
        name_lists_at(s, pos, k) is Ok,
    ensures
        name_lists_at(s, pos, k) matches Ok((lists, _)) && lists.len() == k,
    decreases k,
{
    if k > 0 {
        lemma_name_lists_len(s, pos, (k - 1) as nat);
    }
}

proof fn lemma_name_lists_bytes_step(lists: Seq<Seq<Seq<char>>>, j: int)
    requires
        0 <= j < lists.len(),
    ensures
        name_lists_bytes(lists.take(j + 1)) == name_lists_bytes(lists.take(j)) + string_field(
            name_list_content(lists[j]),
        ),
{
    assert(lists.take(j + 1).drop_last() =~= lists.take(j));
}

impl Kexinit {
    /// Reads a key exchange offer from a payload whose type code is that of one.
    fn parse(src: &[u8]) -> (r: Result<Kexinit, ParseError>)
        ensures
            match r {
                Ok(k) => kexinit_at(src@) == Ok::<KexinitModel, ParseError>(k@),
                Err(e) => kexinit_at(src@) == Err::<KexinitModel, ParseError>(e),
            },
    {
        if src.len() < 17 {
            return Err(ParseError::InvalidLength);
        }
        let mut cookie = [0u8; 16];
        let mut i: usize = 0;
        while i < 16
            invariant
                i <= 16,
                17 <= src@.len(),
                cookie@.len() == 16,
                cookie@.subrange(0, i as int) == src@.subrange(1, 1 + i),
            decreases 16 - i,
        {
            cookie[i] = src[1 + i];
            i = i + 1;
            assert(cookie@.subrange(0, i as int) =~= src@.subrange(1, 1 + i));
        }
        assert(cookie@ =~= cookie@.subrange(0, 16));
        let mut lists: Vec<Vec<String>> = Vec::new();
        let mut pos: usize = 17;
        let mut j: usize = 0;
        assert(lists@.map_values(|v: Vec<String>| v.deep_view()) =~= Seq::<Seq<Seq<char>>>::empty());
        while j < KEXINIT_NAME_LISTS
            invariant
                j <= KEXINIT_NAME_LISTS,
                17 <= pos <= src@.len(),
                name_lists_at(src@, 17, j as nat) == Ok::<(Seq<Seq<Seq<char>>>, int), ParseError>(
                    (lists@.map_values(|v: Vec<String>| v.deep_view()), pos as int),
                ),
            decreases KEXINIT_NAME_LISTS - j,
        {
            match parse_name_list(src, pos) {
                Err(e) => {
                    assert(name_lists_at(src@, 17, (j + 1) as nat) == Err::<
                        (Seq<Seq<Seq<char>>>, int),
                        ParseError,
                    >(e));
                    proof {
                        lemma_name_lists_err(src@, 17, (j + 1) as nat, KEXINIT_NAME_LISTS as nat);
                    }
                    return Err(e);
                },
                Ok((names, end)) => {
                    let ghost before = lists@.map_values(|v: Vec<String>| v.deep_view());
                    lists.push(names);
                    assert(lists@.map_values(|v: Vec<String>| v.deep_view()) =~= before.push(
                        names.deep_view(),
                    ));
                    pos = end;
                    j = j + 1;
                },
            }
        }
        proof {
            lemma_name_lists_len(src@, 17, KEXINIT_NAME_LISTS as nat);
        }
        if src.len() - pos != 5 {
            return Err(ParseError::InvalidLength);
        }
        let first_kex_packet_follows = src[pos] != 0;
        let reserved = read_u32_be(src, pos + 1);
        let ghost all = lists@.map_values(|v: Vec<String>| v.deep_view());
        let languages_server_to_client = lists.pop().unwrap();
        let languages_client_to_server = lists.pop().unwrap();
        let compression_algorithms_server_to_client = lists.pop().unwrap();
        let compression_algorithms_client_to_server = lists.pop().unwrap();
        let mac_algorithms_server_to_client = lists.pop().unwrap();
        let mac_algorithms_client_to_server = lists.pop().unwrap();
        let encryption_algorithms_server_to_client = lists.pop().unwrap();
        let encryption_algorithms_client_to_server = lists.pop().unwrap();
        let server_host_key_algorithms = lists.pop().unwrap();
        let kex_algorithms = lists.pop().unwrap();
        let k = Kexinit {
            cookie,
            kex_algorithms,
            server_host_key_algorithms,
            encryption_algorithms_client_to_server,
            encryption_algorithms_server_to_client,
            mac_algorithms_client_to_server,
            mac_algorithms_server_to_client,
            compression_algorithms_client_to_server,
            compression_algorithms_server_to_client,
            languages_client_to_server,
            languages_server_to_client,
            first_kex_packet_follows,
            reserved,
        };
        assert(k@.name_lists =~= all);
        Ok(k)
    }

    /// The payload of this offer: type code, cookie, the ten name-lists in
    /// order, the follows flag and the reserved field.
    #[verifier::rlimit(40)]
    pub fn into_payload(self) -> (r: Vec<u8>)
        requires
            kexinit_encodable(self@),
        ensures
            r@ == kexinit_bytes(self@),
    {
        let ghost lists = self@.name_lists;
        let mut out: Vec<u8> = Vec::new();
        out.push(MessageType::Kexinit.code());
        append_bytes(&mut out, self.cookie.as_slice());
        let ghost head = out@;
        assert(lists.take(0) =~= Seq::<Seq<Seq<char>>>::empty());
        assert(name_list_content(lists[0]).len() <= u32::MAX);
        put_name_list(&mut out, &self.kex_algorithms);
        proof {
            lemma_name_lists_bytes_step(lists, 0);
        }
        assert(out@ =~= head + name_lists_bytes(lists.take(1)));
        assert(name_list_content(lists[1]).len() <= u32::MAX);
        put_name_list(&mut out, &self.server_host_key_algorithms);
        proof {
            lemma_name_lists_bytes_step(lists, 1);
        }
        assert(out@ =~= head + name_lists_bytes(lists.take(2)));
        assert(name_list_content(lists[2]).len() <= u32::MAX);
        put_name_list(&mut out, &self.encryption_algorithms_client_to_server);
        proof {
            lemma_name_lists_bytes_step(lists, 2);
        }
        assert(out@ =~= head + name_lists_bytes(lists.take(3)));
        assert(name_list_content(lists[3]).len() <= u32::MAX);
        put_name_list(&mut out, &self.encryption_algorithms_server_to_client);
        proof {
            lemma_name_lists_bytes_step(lists, 3);
        }
        assert(out@ =~= head + name_lists_bytes(lists.take(4)));
        assert(name_list_content(lists[4]).len() <= u32::MAX);
        put_name_list(&mut out, &self.mac_algorithms_client_to_server);
        proof {
            lemma_name_lists_bytes_step(lists, 4);
        }
        assert(out@ =~= head + name_lists_bytes(lists.take(5)));
        assert(name_list_content(lists[5]).len() <= u32::MAX);
        put_name_list(&mut out, &self.mac_algorithms_server_to_client);
        proof {
            lemma_name_lists_bytes_step(lists, 5);
        }
        assert(out@ =~= head + name_lists_bytes(lists.take(6)));
        assert(name_list_content(lists[6]).len() <= u32::MAX);
        put_name_list(&mut out, &self.compression_algorithms_client_to_server);
        proof {
            lemma_name_lists_bytes_step(lists, 6);
        }
        assert(out@ =~= head + name_lists_bytes(lists.take(7)));
        assert(name_list_content(lists[7]).len() <= u32::MAX);
        put_name_list(&mut out, &self.compression_algorithms_server_to_client);
        proof {
            lemma_name_lists_bytes_step(lists, 7);
        }
        assert(out@ =~= head + name_lists_bytes(lists.take(8)));
        assert(name_list_content(lists[8]).len() <= u32::MAX);
        put_name_list(&mut out, &self.languages_client_to_server);
        proof {
            lemma_name_lists_bytes_step(lists, 8);
        }
        assert(out@ =~= head + name_lists_bytes(lists.take(9)));
        assert(name_list_content(lists[9]).len() <= u32::MAX);
        put_name_list(&mut out, &self.languages_server_to_client);
        proof {
            lemma_name_lists_bytes_step(lists, 9);
        }
        assert(out@ =~= head + name_lists_bytes(lists.take(10)));
        assert(lists.take(10) =~= lists);
        assert(out@ =~= head + name_lists_bytes(lists));
        out.push(if self.first_kex_packet_follows { 1 } else { 0 });
        push_u32_be(&mut out, self.reserved);
        assert(out@ =~= kexinit_bytes(self@));
        out
    }
}

impl Disconnect {
    /// Reads a disconnect notice from a payload whose type code is that of one.
    fn parse(src: &[u8]) -> (r: Result<Disconnect, ParseError>)
        ensures
            match r {
                Ok(d) => disconnect_at(src@) == Ok::<MessageModel, ParseError>(
                    Message::Disconnect(d)@,
                ),
                Err(e) => disconnect_at(src@) == Err::<MessageModel, ParseError>(e),
            },
    {
        if src.len() < 5 {
            return Err(ParseError::InvalidLength);
        }
        let code = read_u32_be(src, 1);
        let reason_code = match ReasonCode::from_code(code) {
            Some(reason_code) => reason_code,
            None => return Err(ParseError::InvalidReasonCode(code)),
        };
        let (description, next) = parse_string(src, 5)?;
        let (language_tag, end) = parse_string(src, next)?;
        if end != src.len() {
            return Err(ParseError::InvalidLength);
        }
        Ok(Disconnect { reason_code, description, language_tag })
    }

    /// The payload of this notice: type code, reason code, description and
    /// language tag.
    pub fn into_payload(self) -> (r: Vec<u8>)
        requires
            disconnect_encodable(self.description@, self.language_tag@),
        ensures
            r@ == disconnect_bytes(self.reason_code, self.description@, self.language_tag@),
    {
        let mut out: Vec<u8> = Vec::new();
        out.push(MessageType::Disconnect.code());
        push_u32_be(&mut out, self.reason_code.code());
        put_string(&mut out, &self.description);
        put_string(&mut out, &self.language_tag);
        assert(out@ =~= disconnect_bytes(
            self.reason_code,
            self.description@,
            self.language_tag@,
        ));
        out
    }
}

impl Message {
    /// Reads the message that a packet payload holds. The payload must be taken
    /// up exactly.
    pub fn parse(src: &[u8]) -> (r: Result<Message, ParseError>)
        ensures
            match r {
                Ok(m) => parse_spec(src@) == Ok::<MessageModel, ParseError>(m@),
                Err(e) => parse_spec(src@) == Err::<MessageModel, ParseError>(e),
            },
    {
        if src.len() == 0 {
            return Err(ParseError::InvalidLength);
        }
        let message_type = MessageType::try_from(src[0])?;
        match message_type {
            MessageType::Kexinit => {
                let k = Kexinit::parse(src)?;
                Ok(Message::Kexinit(k))
            },
            MessageType::Disconnect => {
                let d = Disconnect::parse(src)?;
                Ok(Message::Disconnect(d))
            },
            t => Err(ParseError::UnsupportedMessage(t)),
        }
    }

    /// The payload that carries this message.
    pub fn into_payload(self) -> (r: Vec<u8>)
        requires
            message_encodable(self@),
        ensures
            r@ == message_bytes(self@),
    {
        match self {
            Message::Disconnect(disconnect) => disconnect.into_payload(),
            Message::Kexinit(kex_init) => kex_init.into_payload(),
        }
    }
}

/// Whether a message reads back from its payload: for a key exchange offer, a
/// 16-byte cookie and ten name-lists that each read back; any disconnect notice.
pub open spec fn message_canonical(m: MessageModel) -> bool {
    match m {
        MessageModel::Kexinit(k) => {
            &&& k.cookie.len() == 16
            &&& k.name_lists.len() == KEXINIT_NAME_LISTS
            &&& forall|i: int|
                0 <= i < k.name_lists.len() ==> name_list_canonical(#[trigger] k.name_lists[i])
        },
        MessageModel::Disconnect { .. } => true,
    }
}

/// Each reason maps to its wire value and back.
pub proof fn lemma_reason_code_round_trip(r: ReasonCode)
    ensures
        reason_of_code(r.spec_code() as int) == Some(r),
{
}

proof fn lemma_u32_at(s: Seq<u8>, pos: int, v: u32)
    requires
        0 <= pos,
        pos + 4 <= s.len(),
        s.subrange(pos, pos + 4) == u32_be(v),
    ensures
        be_u32_at(s, pos) == v as int,
{
    crate::wire::lemma_u32_be_roundtrip(v);
    let f = u32_be(v);
    assert(s[pos] == f[0] && s[pos + 1] == f[1] && s[pos + 2] == f[2] && s[pos + 3] == f[3]);
}

/// Parsing the payload of a message gives the message back, when its fields fit
/// their length fields and its name-lists read back.
pub proof fn lemma_message_round_trip(m: MessageModel)
    requires
        message_encodable(m),
        message_canonical(m),
    ensures
        parse_spec(message_bytes(m)) == Ok::<MessageModel, ParseError>(m),
{
    match m {
        MessageModel::Kexinit(k) => {
            let s = kexinit_bytes(k);
            let lists = k.name_lists;
            let nlb = name_lists_bytes(lists);
            let end = 17 + nlb.len() as int;
            let flag: u8 = if k.first_kex_packet_follows {
                1u8
            } else {
                0u8
            };
            assert(s =~= seq![20u8] + k.cookie + nlb + seq![flag] + u32_be(k.reserved));
            assert(s.subrange(17, end) =~= nlb);
            lemma_name_lists_at_bytes(s, 17, lists, KEXINIT_NAME_LISTS as nat);
            assert(lists.take(KEXINIT_NAME_LISTS as int) =~= lists);
            assert(s.subrange(1, 17) =~= k.cookie);
            assert(s[end] == flag);
            assert(s.subrange(end + 1, end + 5) =~= u32_be(k.reserved));
            lemma_u32_at(s, end + 1, k.reserved);
            assert(kexinit_at(s) == Ok::<KexinitModel, ParseError>(k));
        },
        MessageModel::Disconnect { reason_code, description, language_tag } => {
            let s = disconnect_bytes(reason_code, description, language_tag);
            let d = encode_utf8(description);
            let l = encode_utf8(language_tag);
            let next = 9 + d.len() as int;
            assert(s =~= seq![1u8] + u32_be(reason_code.spec_code()) + string_field(d)
                + string_field(l));
            assert(s.subrange(1, 5) =~= u32_be(reason_code.spec_code()));
            lemma_u32_at(s, 1, reason_code.spec_code());
            lemma_reason_code_round_trip(reason_code);
            assert(s.subrange(5, next) =~= string_field(d));
            lemma_string_at_field(s, 5, description);
            assert(s.subrange(next, next + 4 + l.len()) =~= string_field(l));
            lemma_string_at_field(s, next, language_tag);
        },
    }
}

} // verus!
