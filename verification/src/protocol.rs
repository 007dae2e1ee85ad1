//! Native binary session protocol: framed messages with a CRC-32 checked
//! payload, credential authentication and role-based permissions.

use vstd::prelude::*;
use vstd::bytes::*;
use crate::codec::{crc32, put_u16, put_u32, put_u64, get_u16, get_u32, get_u64, spec_crc32, lemma_le_round_trips, lemma_crc_detects_byte_change};
use crate::command::{CancelOrder, NewOrder, OrderCommand, OrderSide, ReplaceOrder, spec_side_wire, spec_side_from_wire};
use crate::order::ClientOrderId;
use crate::session::{MessageSeq, SessionError, SessionState, SessionView, spec_receive};

verus! {

broadcast use {vstd::std_specs::btree::group_btree_axioms, vstd::laws_cmp::group_laws_cmp, vstd::array::group_array_axioms};

pub const VERSION: u8 = 1;
pub const HEADER_LEN: usize = 24;
pub const MAX_PAYLOAD: usize = 8192;

/// The four bytes every frame starts with: "SEX1".
pub open spec fn magic() -> Seq<u8> {
    seq![0x53u8, 0x45u8, 0x58u8, 0x31u8]
}

#[derive(Debug, Clone, Copy, PartialEq, Eq, Structural)]
pub enum MessageType {
    Logon,
    NewOrder,
    CancelOrder,
    ReplaceOrder,
    ExecutionReport,
    Reject,
    Heartbeat,
    ResendRequest,
    Logout,
    MarketData,
    Admin,
}

/// The byte that names a message type on the wire, 1 to 11.
pub open spec fn spec_type_code(t: MessageType) -> u8 {
    match t {
        MessageType::Logon => 1,
        MessageType::NewOrder => 2,
        MessageType::CancelOrder => 3,
        MessageType::ReplaceOrder => 4,
        MessageType::ExecutionReport => 5,
        MessageType::Reject => 6,
        MessageType::Heartbeat => 7,
        MessageType::ResendRequest => 8,
        MessageType::Logout => 9,
        MessageType::MarketData => 10,
        MessageType::Admin => 11,
    }
}

/// The message type a wire byte names, if any.
pub open spec fn spec_type_from_code(v: u8) -> Option<MessageType> {
    if v == 1 { Some(MessageType::Logon) }
    else if v == 2 { Some(MessageType::NewOrder) }
    else if v == 3 { Some(MessageType::CancelOrder) }
    else if v == 4 { Some(MessageType::ReplaceOrder) }
    else if v == 5 { Some(MessageType::ExecutionReport) }
    else if v == 6 { Some(MessageType::Reject) }
    else if v == 7 { Some(MessageType::Heartbeat) }
    else if v == 8 { Some(MessageType::ResendRequest) }
    else if v == 9 { Some(MessageType::Logout) }
    else if v == 10 { Some(MessageType::MarketData) }
    else if v == 11 { Some(MessageType::Admin) }
    else { None }
}

impl MessageType {
    fn from_u8(value: u8) -> (r: Result<MessageType, ProtocolError>)
        ensures
            r == (match spec_type_from_code(value) {
                Some(t) => Ok::<MessageType, ProtocolError>(t),
                None => Err(ProtocolError::UnknownMessageType(value)),
            }),
    {
        match value {
            1 => Ok(MessageType::Logon),
            2 => Ok(MessageType::NewOrder),
            3 => Ok(MessageType::CancelOrder),
            4 => Ok(MessageType::ReplaceOrder),
            5 => Ok(MessageType::ExecutionReport),
            6 => Ok(MessageType::Reject),
            7 => Ok(MessageType::Heartbeat),
            8 => Ok(MessageType::ResendRequest),
            9 => Ok(MessageType::Logout),
            10 => Ok(MessageType::MarketData),
            11 => Ok(MessageType::Admin),
            _ => Err(ProtocolError::UnknownMessageType(value)),
        }
    }

    fn code(self) -> (r: u8)
        ensures
            r == spec_type_code(self),
    {
        match self {
            MessageType::Logon => 1,
            MessageType::NewOrder => 2,
            MessageType::CancelOrder => 3,
            MessageType::ReplaceOrder => 4,
            MessageType::ExecutionReport => 5,
            MessageType::Reject => 6,
            MessageType::Heartbeat => 7,
            MessageType::ResendRequest => 8,
            MessageType::Logout => 9,
            MessageType::MarketData => 10,
            MessageType::Admin => 11,
        }
    }
}

#[derive(Debug, Clone, Copy, PartialEq, Eq, Structural)]
pub enum Role {
    Trader,
    MarketMaker,
    Risk,
    Operations,
    Admin,
    ReadOnly,
}

#[derive(Debug, Clone, Copy, PartialEq, Eq, Structural)]
pub enum Permission {
    SubmitOrders,
    CancelOrders,
    ReplaceOrders,
    ViewMarketData,
    RequestRecovery,
    OperateMarket,
    OperateAccounts,
}

/// What each role may do: traders and market makers trade, view market
/// data and ask for recovery; risk views, recovers and operates accounts;
/// operations does that and operates the market; admin may do anything;
/// read-only only views market data.
pub open spec fn spec_allows(role: Role, p: Permission) -> bool {
    match role {
        Role::Trader | Role::MarketMaker => p == Permission::SubmitOrders || p == Permission::CancelOrders
            || p == Permission::ReplaceOrders || p == Permission::ViewMarketData || p == Permission::RequestRecovery,
        Role::Risk => p == Permission::ViewMarketData || p == Permission::RequestRecovery || p == Permission::OperateAccounts,
        Role::Operations => p == Permission::ViewMarketData || p == Permission::RequestRecovery
            || p == Permission::OperateMarket || p == Permission::OperateAccounts,
        Role::Admin => true,
        Role::ReadOnly => p == Permission::ViewMarketData,
    }
}

impl Role {
    pub fn allows(self, permission: Permission) -> (r: bool)
        ensures
            r == spec_allows(self, permission),
    {
        match self {
            Role::Trader | Role::MarketMaker => match permission {
                Permission::SubmitOrders | Permission::CancelOrders | Permission::ReplaceOrders
                | Permission::ViewMarketData | Permission::RequestRecovery => true,
                _ => false,
            },
            Role::Risk => match permission {
                Permission::ViewMarketData | Permission::RequestRecovery | Permission::OperateAccounts => true,
                _ => false,
            },
            Role::Operations => match permission {
                Permission::ViewMarketData | Permission::RequestRecovery | Permission::OperateMarket
                | Permission::OperateAccounts => true,
                _ => false,
            },
            Role::Admin => true,
            Role::ReadOnly => match permission {
                Permission::ViewMarketData => true,
                _ => false,
            },
        }
    }
}

#[derive(Debug, Clone, Copy, PartialEq, Eq)]
pub struct Credential {
    pub api_key: u64,
    pub token: [u8; 32],
    pub role: Role,
    pub enabled: bool,
}

/// Credentials by API key.
#[derive(Debug)]
pub struct CredentialStore {
    credentials: std::collections::BTreeMap<u64, Credential>,
}

impl View for CredentialStore {
    type V = Map<u64, Credential>;

    closed spec fn view(&self) -> Map<u64, Credential> {
        self.credentials@
    }
}

/// Authentication succeeds, with the credential's role, exactly when the
/// key is registered and enabled and the token matches.
pub open spec fn spec_authenticate(creds: Map<u64, Credential>, api_key: u64, token: Seq<u8>) -> Result<Role, ProtocolError> {
    if !creds.contains_key(api_key) || !creds[api_key].enabled || creds[api_key].token@ != token {
        Err(ProtocolError::AuthenticationFailed)
    } else {
        Ok(creds[api_key].role)
    }
}

impl CredentialStore {
    pub fn new() -> (r: CredentialStore)
        ensures
            r@ == Map::<u64, Credential>::empty(),
    {
        CredentialStore { credentials: std::collections::BTreeMap::new() }
    }

    /// Registers a credential under its key, replacing any earlier one.
    pub fn register(&mut self, credential: Credential)
        ensures
            final(self)@ == old(self)@.insert(credential.api_key, credential),
    {
        self.credentials.insert(credential.api_key, credential);
    }

    /// Disables the credential under a key, if there is one.
    pub fn disable(&mut self, api_key: u64)
        ensures
            final(self)@ == (if old(self)@.contains_key(api_key) {
                old(self)@.insert(api_key, Credential { enabled: false, ..old(self)@[api_key] })
            } else {
                old(self)@
            }),
    {
        let found = match self.credentials.get(&api_key) {
            Some(c) => Some(*c),
            None => None,
        };
        if let Some(c) = found {
            let disabled = Credential { enabled: false, ..c };
            self.credentials.insert(api_key, disabled);
        }
    }

    /// The role of an enabled credential whose token matches.
    pub fn authenticate(&self, api_key: u64, token: &[u8; 32]) -> (r: Result<Role, ProtocolError>)
        ensures
            r == spec_authenticate(self@, api_key, token@),
    {
        let credential = match self.credentials.get(&api_key) {
            Some(c) => *c,
            None => return Err(ProtocolError::AuthenticationFailed),
        };
        if !credential.enabled || !constant_time_eq(&credential.token, token) {
            return Err(ProtocolError::AuthenticationFailed);
        }
        Ok(credential.role)
    }
}

impl Default for CredentialStore {
    fn default() -> (r: CredentialStore)
        ensures
            r@ == Map::<u64, Credential>::empty(),
    {
        CredentialStore::new()
    }
}

#[derive(Debug, Clone, PartialEq, Eq)]
pub enum WireMessage {
    Logon { api_key: u64, token: [u8; 32], heartbeat_ticks: u64 },
    Order(OrderCommand),
    ExecutionReport { exchange_order_id: u64, client_order_id: u64, status: u8, filled_quantity: u32, remaining_quantity: u32 },
    Reject { code: u16 },
    Heartbeat,
    ResendRequest { begin: MessageSeq, end: MessageSeq },
    Logout { reason: u16 },
    MarketData { instrument_id: u16, sequence: u64, side: u8, price: u32, quantity: u32 },
    Admin(AdminCommand),
}

#[derive(Debug, Clone, Copy, PartialEq, Eq, Structural)]
pub enum AdminCommand {
    HaltInstrument(u16),
    ResumeInstrument(u16),
    CancelAllAccount(u32),
    FreezeAccount(u32),
}

#[derive(Debug, Clone, PartialEq, Eq)]
pub struct WireFrame {
    pub sequence: MessageSeq,
    pub message: WireMessage,
}

#[derive(Debug, Clone, Copy, PartialEq, Eq, Structural)]
pub enum ProtocolError {
    Truncated,
    BadMagic,
    UnsupportedVersion(u8),
    PayloadTooLarge,
    InvalidLength,
    InvalidPayload,
    ChecksumMismatch,
    UnknownMessageType(u8),
    AuthenticationFailed,
    NotAuthenticated,
    PermissionDenied,
    Session(SessionError),
}

impl From<SessionError> for ProtocolError {
    fn from(error: SessionError) -> (r: ProtocolError) {
        ProtocolError::Session(error)
    }
}

impl vstd::std_specs::convert::FromSpecImpl<SessionError> for ProtocolError {
    open spec fn obeys_from_spec() -> bool {
        true
    }

    open spec fn from_spec(error: SessionError) -> ProtocolError {
        ProtocolError::Session(error)
    }
}

/// The type a message is sent under.
pub open spec fn spec_message_type(m: WireMessage) -> MessageType {
    match m {
        WireMessage::Logon { .. } => MessageType::Logon,
        WireMessage::Order(OrderCommand::New(_)) => MessageType::NewOrder,
        WireMessage::Order(OrderCommand::Cancel(_)) => MessageType::CancelOrder,
        WireMessage::Order(OrderCommand::Replace(_)) => MessageType::ReplaceOrder,
        WireMessage::ExecutionReport { .. } => MessageType::ExecutionReport,
        WireMessage::Reject { .. } => MessageType::Reject,
        WireMessage::Heartbeat => MessageType::Heartbeat,
        WireMessage::ResendRequest { .. } => MessageType::ResendRequest,
        WireMessage::Logout { .. } => MessageType::Logout,
        WireMessage::MarketData { .. } => MessageType::MarketData,
        WireMessage::Admin(_) => MessageType::Admin,
    }
}

fn message_type(message: &WireMessage) -> (r: MessageType)
    ensures
        r == spec_message_type(*message),
{
    match message {
        WireMessage::Logon { .. } => MessageType::Logon,
        WireMessage::Order(OrderCommand::New(_)) => MessageType::NewOrder,
        WireMessage::Order(OrderCommand::Cancel(_)) => MessageType::CancelOrder,
        WireMessage::Order(OrderCommand::Replace(_)) => MessageType::ReplaceOrder,
        WireMessage::ExecutionReport { .. } => MessageType::ExecutionReport,
        WireMessage::Reject { .. } => MessageType::Reject,
        WireMessage::Heartbeat => MessageType::Heartbeat,
        WireMessage::ResendRequest { .. } => MessageType::ResendRequest,
        WireMessage::Logout { .. } => MessageType::Logout,
        WireMessage::MarketData { .. } => MessageType::MarketData,
        WireMessage::Admin(_) => MessageType::Admin,
    }
}

/// The payload bytes of a message: its fields in order, integers in
/// little-endian, sides as their wire byte, the admin command behind a
/// one-byte code from 1 to 4.
pub open spec fn spec_payload(m: WireMessage) -> Seq<u8> {
    match m {
        WireMessage::Logon { api_key, token, heartbeat_ticks } =>
            spec_u64_to_le_bytes(api_key) + token@ + spec_u64_to_le_bytes(heartbeat_ticks),
        WireMessage::Order(OrderCommand::New(o)) =>
            spec_u64_to_le_bytes(o.client_order_id.0) + spec_u32_to_le_bytes(o.account_id)
                + spec_u16_to_le_bytes(o.instrument_id) + seq![spec_side_wire(o.side)]
                + spec_u32_to_le_bytes(o.price) + spec_u32_to_le_bytes(o.quantity)
                + spec_u64_to_le_bytes(o.client_timestamp),
        WireMessage::Order(OrderCommand::Cancel(o)) =>
            spec_u32_to_le_bytes(o.account_id) + spec_u16_to_le_bytes(o.instrument_id)
                + spec_u64_to_le_bytes(o.client_order_id.0),
        WireMessage::Order(OrderCommand::Replace(o)) =>
            spec_u32_to_le_bytes(o.account_id) + spec_u16_to_le_bytes(o.instrument_id)
                + spec_u64_to_le_bytes(o.target_client_order_id.0) + spec_u64_to_le_bytes(o.new_client_order_id.0)
                + seq![spec_side_wire(o.side)] + spec_u32_to_le_bytes(o.price)
                + spec_u32_to_le_bytes(o.quantity) + spec_u64_to_le_bytes(o.client_timestamp),
        WireMessage::ExecutionReport { exchange_order_id, client_order_id, status, filled_quantity, remaining_quantity } =>
            spec_u64_to_le_bytes(exchange_order_id) + spec_u64_to_le_bytes(client_order_id) + seq![status]
                + spec_u32_to_le_bytes(filled_quantity) + spec_u32_to_le_bytes(remaining_quantity),
        WireMessage::Reject { code } => spec_u16_to_le_bytes(code),
        WireMessage::Heartbeat => Seq::empty(),
        WireMessage::ResendRequest { begin, end } => spec_u64_to_le_bytes(begin.0) + spec_u64_to_le_bytes(end.0),
        WireMessage::Logout { reason } => spec_u16_to_le_bytes(reason),
        WireMessage::MarketData { instrument_id, sequence, side, price, quantity } =>
            spec_u16_to_le_bytes(instrument_id) + spec_u64_to_le_bytes(sequence) + seq![side]
                + spec_u32_to_le_bytes(price) + spec_u32_to_le_bytes(quantity),
        WireMessage::Admin(c) => match c {
            AdminCommand::HaltInstrument(id) => seq![1u8] + spec_u16_to_le_bytes(id),
            AdminCommand::ResumeInstrument(id) => seq![2u8] + spec_u16_to_le_bytes(id),
            AdminCommand::CancelAllAccount(id) => seq![3u8] + spec_u32_to_le_bytes(id),
            AdminCommand::FreezeAccount(id) => seq![4u8] + spec_u32_to_le_bytes(id),
        },
    }
}

fn encode_message(message: &WireMessage) -> (r: Result<Vec<u8>, ProtocolError>)
    ensures
        r matches Ok(v) && v@ == spec_payload(*message),
{
    let mut out: Vec<u8> = Vec::new();
    match message {
        WireMessage::Logon { api_key, token, heartbeat_ticks } => {
            put_u64(&mut out, *api_key);
            out.extend_from_slice(token.as_slice());
            put_u64(&mut out, *heartbeat_ticks);
        },
        WireMessage::Order(OrderCommand::New(order)) => {
            put_u64(&mut out, order.client_order_id.0);
            put_u32(&mut out, order.account_id);
            put_u16(&mut out, order.instrument_id);
            out.push(order.side.wire_value());
            put_u32(&mut out, order.price);
            put_u32(&mut out, order.quantity);
            put_u64(&mut out, order.client_timestamp);
        },
        WireMessage::Order(OrderCommand::Cancel(order)) => {
            put_u32(&mut out, order.account_id);
            put_u16(&mut out, order.instrument_id);
            put_u64(&mut out, order.client_order_id.0);
        },
        WireMessage::Order(OrderCommand::Replace(order)) => {
            put_u32(&mut out, order.account_id);
            put_u16(&mut out, order.instrument_id);
            put_u64(&mut out, order.target_client_order_id.0);
            put_u64(&mut out, order.new_client_order_id.0);
            out.push(order.side.wire_value());
            put_u32(&mut out, order.price);
            put_u32(&mut out, order.quantity);
            put_u64(&mut out, order.client_timestamp);
        },
        WireMessage::ExecutionReport { exchange_order_id, client_order_id, status, filled_quantity, remaining_quantity } => {
            put_u64(&mut out, *exchange_order_id);
            put_u64(&mut out, *client_order_id);
            out.push(*status);
            put_u32(&mut out, *filled_quantity);
            put_u32(&mut out, *remaining_quantity);
        },
        WireMessage::Reject { code } => put_u16(&mut out, *code),
        WireMessage::Heartbeat => {},
        WireMessage::ResendRequest { begin, end } => {
            put_u64(&mut out, begin.0);
            put_u64(&mut out, end.0);
        },
        WireMessage::Logout { reason } => put_u16(&mut out, *reason),
        WireMessage::MarketData { instrument_id, sequence, side, price, quantity } => {
            put_u16(&mut out, *instrument_id);
            put_u64(&mut out, *sequence);
            out.push(*side);
            put_u32(&mut out, *price);
            put_u32(&mut out, *quantity);
        },
        WireMessage::Admin(command) => match command {
            AdminCommand::HaltInstrument(id) => {
                out.push(1);
                put_u16(&mut out, *id);
            },
            AdminCommand::ResumeInstrument(id) => {
                out.push(2);
                put_u16(&mut out, *id);
            },
            AdminCommand::CancelAllAccount(id) => {
                out.push(3);
                put_u32(&mut out, *id);
            },
            AdminCommand::FreezeAccount(id) => {
                out.push(4);
                put_u32(&mut out, *id);
            },
        },
    }
    proof {
        assert(out@ =~= spec_payload(*message));
    }
    Ok(out)
}

/// Little-endian `u16` at `p`.
pub open spec fn rd16(b: Seq<u8>, p: int) -> u16 {
    spec_u16_from_le_bytes(b.subrange(p, p + 2))
}

/// Little-endian `u32` at `p`.
pub open spec fn rd32(b: Seq<u8>, p: int) -> u32 {
    spec_u32_from_le_bytes(b.subrange(p, p + 4))
}

/// Little-endian `u64` at `p`.
pub open spec fn rd64(b: Seq<u8>, p: int) -> u64 {
    spec_u64_from_le_bytes(b.subrange(p, p + 8))
}

/// The 32-byte array holding `s`.
pub open spec fn array32(s: Seq<u8>) -> [u8; 32] {
    choose|a: [u8; 32]| a@ == s
}

/// Decoding a payload of a given type. Fields are read in order, so a
/// payload too short for the fields read so far is truncated, a side
/// or admin code that names nothing is invalid, and bytes after the last
/// field are ignored.
pub open spec fn spec_decode_message(t: MessageType, b: Seq<u8>) -> Result<WireMessage, ProtocolError> {
    match t {
        MessageType::Logon => if b.len() < 48 {
            Err(ProtocolError::Truncated)
        } else {
            Ok(WireMessage::Logon { api_key: rd64(b, 0), token: array32(b.subrange(8, 40)), heartbeat_ticks: rd64(b, 40) })
        },
        MessageType::NewOrder => if b.len() < 15 {
            Err(ProtocolError::Truncated)
        } else {
            match spec_side_from_wire(b[14]) {
                None => Err(ProtocolError::InvalidPayload),
                Some(side) => if b.len() < 31 {
                    Err(ProtocolError::Truncated)
                } else {
                    Ok(WireMessage::Order(OrderCommand::New(NewOrder {
                        client_order_id: ClientOrderId(rd64(b, 0)),
                        account_id: rd32(b, 8),
                        instrument_id: rd16(b, 12),
                        side,
                        price: rd32(b, 15),
                        quantity: rd32(b, 19),
                        client_timestamp: rd64(b, 23),
                    })))
                },
            }
        },
        MessageType::CancelOrder => if b.len() < 14 {
            Err(ProtocolError::Truncated)
        } else {
            Ok(WireMessage::Order(OrderCommand::Cancel(CancelOrder {
                account_id: rd32(b, 0),
                instrument_id: rd16(b, 4),
                client_order_id: ClientOrderId(rd64(b, 6)),
            })))
        },
        MessageType::ReplaceOrder => if b.len() < 23 {
            Err(ProtocolError::Truncated)
        } else {
            match spec_side_from_wire(b[22]) {
                None => Err(ProtocolError::InvalidPayload),
                Some(side) => if b.len() < 39 {
                    Err(ProtocolError::Truncated)
                } else {
                    Ok(WireMessage::Order(OrderCommand::Replace(ReplaceOrder {
                        account_id: rd32(b, 0),
                        instrument_id: rd16(b, 4),
                        target_client_order_id: ClientOrderId(rd64(b, 6)),
                        new_client_order_id: ClientOrderId(rd64(b, 14)),
                        side,
                        price: rd32(b, 23),
                        quantity: rd32(b, 27),
                        client_timestamp: rd64(b, 31),
                    })))
                },
            }
        },
        MessageType::ExecutionReport => if b.len() < 25 {
            Err(ProtocolError::Truncated)
        } else {
            Ok(WireMessage::ExecutionReport {
                exchange_order_id: rd64(b, 0),
                client_order_id: rd64(b, 8),
                status: b[16],
                filled_quantity: rd32(b, 17),
                remaining_quantity: rd32(b, 21),
            })
        },
        MessageType::Reject => if b.len() < 2 {
            Err(ProtocolError::Truncated)
        } else {
            Ok(WireMessage::Reject { code: rd16(b, 0) })
        },
        MessageType::Heartbeat => Ok(WireMessage::Heartbeat),
        MessageType::ResendRequest => if b.len() < 16 {
            Err(ProtocolError::Truncated)
        } else {
            Ok(WireMessage::ResendRequest { begin: MessageSeq(rd64(b, 0)), end: MessageSeq(rd64(b, 8)) })
        },
        MessageType::Logout => if b.len() < 2 {
            Err(ProtocolError::Truncated)
        } else {
            Ok(WireMessage::Logout { reason: rd16(b, 0) })
        },
        MessageType::MarketData => if b.len() < 19 {
            Err(ProtocolError::Truncated)
        } else {
            Ok(WireMessage::MarketData {
                instrument_id: rd16(b, 0),
                sequence: rd64(b, 2),
                side: b[10],
                price: rd32(b, 11),
                quantity: rd32(b, 15),
            })
        },
        MessageType::Admin => if b.len() < 1 {
            Err(ProtocolError::Truncated)
        } else if b[0] == 1 || b[0] == 2 {
            if b.len() < 3 {
                Err(ProtocolError::Truncated)
            } else if b[0] == 1 {
                Ok(WireMessage::Admin(AdminCommand::HaltInstrument(rd16(b, 1))))
            } else {
                Ok(WireMessage::Admin(AdminCommand::ResumeInstrument(rd16(b, 1))))
            }
        } else if b[0] == 3 || b[0] == 4 {
            if b.len() < 5 {
                Err(ProtocolError::Truncated)
            } else if b[0] == 3 {
                Ok(WireMessage::Admin(AdminCommand::CancelAllAccount(rd32(b, 1))))
            } else {
                Ok(WireMessage::Admin(AdminCommand::FreezeAccount(rd32(b, 1))))
            }
        } else {
            Err(ProtocolError::InvalidPayload)
        },
    }
}

fn decode_side(value: u8) -> (r: Result<OrderSide, ProtocolError>)
    ensures
        r == (match spec_side_from_wire(value) {
            Some(s) => Ok::<OrderSide, ProtocolError>(s),
            None => Err(ProtocolError::InvalidPayload),
        }),
{
    match value {
        0 => Ok(OrderSide::Buy),
        1 => Ok(OrderSide::Sell),
        _ => Err(ProtocolError::InvalidPayload),
    }
}

/// Copies the 32 bytes at `pos` into an array.
fn read_array32(bytes: &[u8], pos: usize) -> (r: [u8; 32])
    requires
        pos + 32 <= bytes@.len(),
    ensures
        r@ == bytes@.subrange(pos as int, pos + 32),
{
    let mut out = [0u8; 32];
    let mut i: usize = 0;
    while i < 32
        invariant
            i <= 32,
            pos + 32 <= bytes@.len(),
            bytes@.len() == bytes.len(),
            out@.len() == 32,
            forall|j: int| 0 <= j < i ==> out@[j] == bytes@[pos + j],
        decreases 32 - i,
    {
        out[i] = bytes[pos + i];
        i = i + 1;
    }
    proof {
        assert(out@ =~= bytes@.subrange(pos as int, pos + 32));
    }
    out
}

fn decode_message(message_type: MessageType, bytes: &[u8]) -> (r: Result<WireMessage, ProtocolError>)
    ensures
        r == spec_decode_message(message_type, bytes@),
{
    let n = bytes.len();
    match message_type {
        MessageType::Logon => {
            if n < 48 {
                return Err(ProtocolError::Truncated);
            }
            let api_key = get_u64(bytes, 0);
            let token = read_array32(bytes, 8);
            let heartbeat_ticks = get_u64(bytes, 40);
            proof {
                assert(token == array32(bytes@.subrange(8, 40))) by {
                    assert(token =~= array32(bytes@.subrange(8, 40)));
                }
            }
            Ok(WireMessage::Logon { api_key, token, heartbeat_ticks })
        },
        MessageType::NewOrder => {
            if n < 15 {
                return Err(ProtocolError::Truncated);
            }
            let side = match decode_side(bytes[14]) {
                Ok(s) => s,
                Err(e) => return Err(e),
            };
            if n < 31 {
                return Err(ProtocolError::Truncated);
            }
            Ok(WireMessage::Order(OrderCommand::New(NewOrder {
                client_order_id: ClientOrderId(get_u64(bytes, 0)),
                account_id: get_u32(bytes, 8),
                instrument_id: get_u16(bytes, 12),
                side,
                price: get_u32(bytes, 15),
                quantity: get_u32(bytes, 19),
                client_timestamp: get_u64(bytes, 23),
            })))
        },
        MessageType::CancelOrder => {
            if n < 14 {
                return Err(ProtocolError::Truncated);
            }
            Ok(WireMessage::Order(OrderCommand::Cancel(CancelOrder {
                account_id: get_u32(bytes, 0),
                instrument_id: get_u16(bytes, 4),
                client_order_id: ClientOrderId(get_u64(bytes, 6)),
            })))
        },
        MessageType::ReplaceOrder => {
            if n < 23 {
                return Err(ProtocolError::Truncated);
            }
            let side = match decode_side(bytes[22]) {
                Ok(s) => s,
                Err(e) => return Err(e),
            };
            if n < 39 {
                return Err(ProtocolError::Truncated);
            }
            Ok(WireMessage::Order(OrderCommand::Replace(ReplaceOrder {
                account_id: get_u32(bytes, 0),
                instrument_id: get_u16(bytes, 4),
                target_client_order_id: ClientOrderId(get_u64(bytes, 6)),
                new_client_order_id: ClientOrderId(get_u64(bytes, 14)),
                side,
                price: get_u32(bytes, 23),
                quantity: get_u32(bytes, 27),
                client_timestamp: get_u64(bytes, 31),
            })))
        },
        MessageType::ExecutionReport => {
            if n < 25 {
                return Err(ProtocolError::Truncated);
            }
            Ok(WireMessage::ExecutionReport {
                exchange_order_id: get_u64(bytes, 0),
                client_order_id: get_u64(bytes, 8),
                status: bytes[16],
                filled_quantity: get_u32(bytes, 17),
                remaining_quantity: get_u32(bytes, 21),
            })
        },
        MessageType::Reject => {
            if n < 2 {
                return Err(ProtocolError::Truncated);
            }
            Ok(WireMessage::Reject { code: get_u16(bytes, 0) })
        },
        MessageType::Heartbeat => Ok(WireMessage::Heartbeat),
        MessageType::ResendRequest => {
            if n < 16 {
                return Err(ProtocolError::Truncated);
            }
            Ok(WireMessage::ResendRequest { begin: MessageSeq(get_u64(bytes, 0)), end: MessageSeq(get_u64(bytes, 8)) })
        },
        MessageType::Logout => {
            if n < 2 {
                return Err(ProtocolError::Truncated);
            }
            Ok(WireMessage::Logout { reason: get_u16(bytes, 0) })
        },
        MessageType::MarketData => {
            if n < 19 {
                return Err(ProtocolError::Truncated);
            }
            Ok(WireMessage::MarketData {
                instrument_id: get_u16(bytes, 0),
                sequence: get_u64(bytes, 2),
                side: bytes[10],
                price: get_u32(bytes, 11),
                quantity: get_u32(bytes, 15),
            })
        },
        MessageType::Admin => {
            if n < 1 {
                return Err(ProtocolError::Truncated);
            }
            let code = bytes[0];
            if code == 1 || code == 2 {
                if n < 3 {
                    return Err(ProtocolError::Truncated);
                }
                let id = get_u16(bytes, 1);
                if code == 1 {
                    Ok(WireMessage::Admin(AdminCommand::HaltInstrument(id)))
                } else {
                    Ok(WireMessage::Admin(AdminCommand::ResumeInstrument(id)))
                }
            } else if code == 3 || code == 4 {
                if n < 5 {
                    return Err(ProtocolError::Truncated);
                }
                let id = get_u32(bytes, 1);
                if code == 3 {
                    Ok(WireMessage::Admin(AdminCommand::CancelAllAccount(id)))
                } else {
                    Ok(WireMessage::Admin(AdminCommand::FreezeAccount(id)))
                }
            } else {
                Err(ProtocolError::InvalidPayload)
            }
        },
    }
}

/// Compares two tokens in time that does not depend on where they differ.
fn constant_time_eq(left: &[u8; 32], right: &[u8; 32]) -> (r: bool)
    ensures
        r == (left@ == right@),
{
    let mut diff: u8 = 0;
    let mut i: usize = 0;
    while i < 32
        invariant
            i <= 32,
            left@.len() == 32,
            right@.len() == 32,
            (diff == 0) == (forall|j: int| 0 <= j < i ==> left@[j] == right@[j]),
        decreases 32 - i,
    {
        let a = left[i];
        let b = right[i];
        let x = a ^ b;
        assert((diff | x) == 0u8 <==> (diff == 0u8 && a == b)) by (bit_vector)
            requires
                x == a ^ b,
        ;
        diff = diff | x;
        i = i + 1;
    }
    proof {
        if diff == 0 {
            assert(left@ =~= right@);
        }
    }
    diff == 0
}

/// The 20 header bytes before the checksum: the magic, the version byte,
/// the type byte, two reserved zero bytes, the sequence number and the
/// payload length.
pub open spec fn spec_frame_head(f: WireFrame) -> Seq<u8> {
    magic() + seq![VERSION, spec_type_code(spec_message_type(f.message)), 0u8, 0u8]
        + spec_u64_to_le_bytes(f.sequence.0) + spec_u32_to_le_bytes(spec_payload(f.message).len() as u32)
}

/// A frame on the wire: its head, the CRC-32 of the head and the payload
/// together, then the payload. The checksum covers every byte but its own,
/// so a damaged header is caught as surely as a damaged payload.
pub open spec fn spec_encode_frame(f: WireFrame) -> Seq<u8> {
    let payload = spec_payload(f.message);
    spec_frame_head(f) + spec_u32_to_le_bytes(spec_crc32(spec_frame_head(f) + payload)) + payload
}

/// What is wrong with a frame's header, length or checksum, checked in
/// that order, if anything.
pub open spec fn spec_frame_error(b: Seq<u8>) -> Option<ProtocolError> {
    if b.len() < 24 {
        Some(ProtocolError::Truncated)
    } else if b.subrange(0, 4) != magic() {
        Some(ProtocolError::BadMagic)
    } else if b[4] != VERSION {
        Some(ProtocolError::UnsupportedVersion(b[4]))
    } else if spec_type_from_code(b[5]) is None {
        Some(ProtocolError::UnknownMessageType(b[5]))
    } else if rd32(b, 16) > MAX_PAYLOAD {
        Some(ProtocolError::PayloadTooLarge)
    } else if b.len() != 24 + rd32(b, 16) {
        Some(ProtocolError::InvalidLength)
    } else if spec_crc32(b.subrange(0, 20) + b.subrange(24, b.len() as int)) != rd32(b, 20) {
        Some(ProtocolError::ChecksumMismatch)
    } else {
        None
    }
}

/// Decoding a frame: a sound header and checksum, then the payload
/// decoded as the type the header names.
pub open spec fn spec_decode_frame(b: Seq<u8>) -> Result<WireFrame, ProtocolError> {
    match spec_frame_error(b) {
        Some(e) => Err(e),
        None => match spec_decode_message(spec_type_from_code(b[5])->Some_0, b.subrange(24, b.len() as int)) {
            Ok(m) => Ok(WireFrame { sequence: MessageSeq(rd64(b, 8)), message: m }),
            Err(e) => Err(e),
        },
    }
}

/// Every payload is at most 48 bytes.
pub proof fn lemma_payload_len(m: WireMessage)
    ensures
        spec_payload(m).len() <= 48,
{
    lemma_le_round_trips();
    match m {
        WireMessage::Logon { token, .. } => {
            assert(token@.len() == 32);
        },
        _ => {},
    }
}

/// Decoding a message's payload as its own type gives the message back.
pub proof fn lemma_payload_round_trip(m: WireMessage)
    ensures
        spec_decode_message(spec_message_type(m), spec_payload(m)) == Ok::<WireMessage, ProtocolError>(m),
{
    lemma_le_round_trips();
    let b = spec_payload(m);
    match m {
        WireMessage::Logon { api_key, token, heartbeat_ticks } => {
            assert(token@.len() == 32);
            assert(b.subrange(0, 8) =~= spec_u64_to_le_bytes(api_key));
            assert(b.subrange(8, 40) =~= token@);
            assert(b.subrange(40, 48) =~= spec_u64_to_le_bytes(heartbeat_ticks));
            let a = array32(b.subrange(8, 40));
            assert(a@ == token@);
            assert(a =~= token);
        },
        WireMessage::Order(OrderCommand::New(o)) => {
            assert(b.subrange(0, 8) =~= spec_u64_to_le_bytes(o.client_order_id.0));
            assert(b.subrange(8, 12) =~= spec_u32_to_le_bytes(o.account_id));
            assert(b.subrange(12, 14) =~= spec_u16_to_le_bytes(o.instrument_id));
            assert(b[14] == spec_side_wire(o.side));
            assert(b.subrange(15, 19) =~= spec_u32_to_le_bytes(o.price));
            assert(b.subrange(19, 23) =~= spec_u32_to_le_bytes(o.quantity));
            assert(b.subrange(23, 31) =~= spec_u64_to_le_bytes(o.client_timestamp));
        },
        WireMessage::Order(OrderCommand::Cancel(o)) => {
            assert(b.subrange(0, 4) =~= spec_u32_to_le_bytes(o.account_id));
            assert(b.subrange(4, 6) =~= spec_u16_to_le_bytes(o.instrument_id));
            assert(b.subrange(6, 14) =~= spec_u64_to_le_bytes(o.client_order_id.0));
        },
        WireMessage::Order(OrderCommand::Replace(o)) => {
            assert(b.subrange(0, 4) =~= spec_u32_to_le_bytes(o.account_id));
            assert(b.subrange(4, 6) =~= spec_u16_to_le_bytes(o.instrument_id));
            assert(b.subrange(6, 14) =~= spec_u64_to_le_bytes(o.target_client_order_id.0));
            assert(b.subrange(14, 22) =~= spec_u64_to_le_bytes(o.new_client_order_id.0));
            assert(b[22] == spec_side_wire(o.side));
            assert(b.subrange(23, 27) =~= spec_u32_to_le_bytes(o.price));
            assert(b.subrange(27, 31) =~= spec_u32_to_le_bytes(o.quantity));
            assert(b.subrange(31, 39) =~= spec_u64_to_le_bytes(o.client_timestamp));
        },
        WireMessage::ExecutionReport { exchange_order_id, client_order_id, status, filled_quantity, remaining_quantity } => {
            assert(b.subrange(0, 8) =~= spec_u64_to_le_bytes(exchange_order_id));
            assert(b.subrange(8, 16) =~= spec_u64_to_le_bytes(client_order_id));
            assert(b[16] == status);
            assert(b.subrange(17, 21) =~= spec_u32_to_le_bytes(filled_quantity));
            assert(b.subrange(21, 25) =~= spec_u32_to_le_bytes(remaining_quantity));
        },
        WireMessage::Reject { code } => {
            assert(b.subrange(0, 2) =~= spec_u16_to_le_bytes(code));
        },
        WireMessage::Heartbeat => {},
        WireMessage::ResendRequest { begin, end } => {
            assert(b.subrange(0, 8) =~= spec_u64_to_le_bytes(begin.0));
            assert(b.subrange(8, 16) =~= spec_u64_to_le_bytes(end.0));
        },
        WireMessage::Logout { reason } => {
            assert(b.subrange(0, 2) =~= spec_u16_to_le_bytes(reason));
        },
        WireMessage::MarketData { instrument_id, sequence, side, price, quantity } => {
            assert(b.subrange(0, 2) =~= spec_u16_to_le_bytes(instrument_id));
            assert(b.subrange(2, 10) =~= spec_u64_to_le_bytes(sequence));
            assert(b[10] == side);
            assert(b.subrange(11, 15) =~= spec_u32_to_le_bytes(price));
            assert(b.subrange(15, 19) =~= spec_u32_to_le_bytes(quantity));
        },
        WireMessage::Admin(c) => match c {
            AdminCommand::HaltInstrument(id) => {
                assert(b.subrange(1, 3) =~= spec_u16_to_le_bytes(id));
            },
            AdminCommand::ResumeInstrument(id) => {
                assert(b.subrange(1, 3) =~= spec_u16_to_le_bytes(id));
            },
            AdminCommand::CancelAllAccount(id) => {
                assert(b.subrange(1, 5) =~= spec_u32_to_le_bytes(id));
            },
            AdminCommand::FreezeAccount(id) => {
                assert(b.subrange(1, 5) =~= spec_u32_to_le_bytes(id));
            },
        },
    }
}

/// Every frame survives the wire: decoding its encoding gives it back.
pub proof fn lemma_frame_round_trip(f: WireFrame)
    ensures
        spec_decode_frame(spec_encode_frame(f)) == Ok::<WireFrame, ProtocolError>(f),
{
    lemma_le_round_trips();
    lemma_payload_len(f.message);
    lemma_payload_round_trip(f.message);
    let payload = spec_payload(f.message);
    let b = spec_encode_frame(f);
    let n = payload.len();
    assert(b.len() == 24 + n);
    assert(b.subrange(0, 4) =~= magic());
    assert(b[4] == VERSION);
    assert(b[5] == spec_type_code(spec_message_type(f.message)));
    assert(spec_type_from_code(b[5]) == Some(spec_message_type(f.message)));
    assert(b.subrange(8, 16) =~= spec_u64_to_le_bytes(f.sequence.0));
    assert(b.subrange(16, 20) =~= spec_u32_to_le_bytes(n as u32));
    assert(b.subrange(0, 20) =~= spec_frame_head(f));
    assert(b.subrange(20, 24) =~= spec_u32_to_le_bytes(spec_crc32(spec_frame_head(f) + payload)));
    assert(b.subrange(24, b.len() as int) =~= payload);
}

impl WireFrame {
    /// The frame's bytes on the wire.
    pub fn encode(&self) -> (r: Result<Vec<u8>, ProtocolError>)
        ensures
            r matches Ok(v) && v@ == spec_encode_frame(*self),
    {
        let payload = match encode_message(&self.message) {
            Ok(p) => p,
            Err(e) => return Err(e),
        };
        proof {
            lemma_payload_len(self.message);
        }
        if payload.len() > MAX_PAYLOAD {
            return Err(ProtocolError::PayloadTooLarge);
        }
        let mut out: Vec<u8> = Vec::new();
        out.push(0x53);
        out.push(0x45);
        out.push(0x58);
        out.push(0x31);
        out.push(VERSION);
        out.push(message_type(&self.message).code());
        out.push(0);
        out.push(0);
        put_u64(&mut out, self.sequence.0);
        put_u32(&mut out, payload.len() as u32);
        let ghost head = out@;
        let mut covered = out.clone();
        covered.extend_from_slice(payload.as_slice());
        put_u32(&mut out, crc32(covered.as_slice()));
        out.extend_from_slice(payload.as_slice());
        proof {
            lemma_le_round_trips();
            assert(head =~= spec_frame_head(*self));
            assert(covered@ =~= spec_frame_head(*self) + payload@);
        }
        proof {
            lemma_le_round_trips();
            assert(out@ =~= spec_encode_frame(*self));
        }
        Ok(out)
    }

    /// Parses one frame, checking its header, length and checksum first.
    pub fn decode(bytes: &[u8]) -> (r: Result<WireFrame, ProtocolError>)
        ensures
            r == spec_decode_frame(bytes@),
    {
        let n = bytes.len();
        if n < HEADER_LEN {
            return Err(ProtocolError::Truncated);
        }
        if bytes[0] != 0x53 || bytes[1] != 0x45 || bytes[2] != 0x58 || bytes[3] != 0x31 {
            proof {
                assert(bytes@.subrange(0, 4) != magic()) by {
                    if bytes@.subrange(0, 4) == magic() {
                        assert(bytes@.subrange(0, 4)[0] == bytes@[0]);
                        assert(bytes@.subrange(0, 4)[1] == bytes@[1]);
                        assert(bytes@.subrange(0, 4)[2] == bytes@[2]);
                        assert(bytes@.subrange(0, 4)[3] == bytes@[3]);
                    }
                }
            }
            return Err(ProtocolError::BadMagic);
        }
        proof {
            assert(bytes@.subrange(0, 4) =~= magic());
        }
        if bytes[4] != VERSION {
            return Err(ProtocolError::UnsupportedVersion(bytes[4]));
        }
        let message_type = match MessageType::from_u8(bytes[5]) {
            Ok(t) => t,
            Err(e) => return Err(e),
        };
        let sequence = MessageSeq(get_u64(bytes, 8));
        let payload_len = get_u32(bytes, 16) as usize;
        let expected_crc = get_u32(bytes, 20);
        if payload_len > MAX_PAYLOAD {
            return Err(ProtocolError::PayloadTooLarge);
        }
        if n != HEADER_LEN + payload_len {
            return Err(ProtocolError::InvalidLength);
        }
        let payload = vstd::slice::slice_subrange(bytes, HEADER_LEN, n);
        let mut covered: Vec<u8> = Vec::new();
        covered.extend_from_slice(vstd::slice::slice_subrange(bytes, 0, 20));
        covered.extend_from_slice(payload);
        proof {
            assert(covered@ =~= bytes@.subrange(0, 20) + bytes@.subrange(24, n as int));
        }
        if crc32(covered.as_slice()) != expected_crc {
            return Err(ProtocolError::ChecksumMismatch);
        }
        match decode_message(message_type, payload) {
            Ok(message) => Ok(WireFrame { sequence, message }),
            Err(e) => Err(e),
        }
    }
}

/// A frame whose checksum field was damaged in transit is refused: flipping
/// any bits of the stored CRC makes decoding fail with a checksum mismatch.
pub proof fn lemma_corrupt_checksum_detected(f: WireFrame, i: int, mask: u8)
    requires
        20 <= i < 24,
        mask != 0,
    ensures
        ({
            let b = spec_encode_frame(f);
            spec_decode_frame(b.update(i, b[i] ^ mask)) == Err::<WireFrame, ProtocolError>(ProtocolError::ChecksumMismatch)
        }),
{
    lemma_le_round_trips();
    lemma_auto_spec_u32_to_from_le_bytes();
    lemma_frame_round_trip(f);
    let b = spec_encode_frame(f);
    let b2 = b.update(i, b[i] ^ mask);
    let x = b[i];
    assert(x ^ mask != x) by (bit_vector)
        requires mask != 0u8;
    assert(b2.subrange(0, 4) =~= b.subrange(0, 4));
    assert(b2.subrange(0, 20) =~= b.subrange(0, 20));
    assert(b2.subrange(16, 20) =~= b.subrange(16, 20));
    assert(b2.subrange(24, b2.len() as int) =~= b.subrange(24, b.len() as int));
    assert(b2.subrange(20, 24) != b.subrange(20, 24)) by {
        assert(b2.subrange(20, 24)[i - 20] != b.subrange(20, 24)[i - 20]);
    }
    assert(rd32(b2, 20) != rd32(b, 20)) by {
        if rd32(b2, 20) == rd32(b, 20) {
            assert(spec_u32_to_le_bytes(spec_u32_from_le_bytes(b2.subrange(20, 24))) == b2.subrange(20, 24));
            assert(spec_u32_to_le_bytes(spec_u32_from_le_bytes(b.subrange(20, 24))) == b.subrange(20, 24));
        }
    }
}

/// Any frame damaged in one byte, header, checksum or payload, is refused:
/// a header field that no longer makes sense is reported as such, and
/// otherwise the checksum no longer matches.
pub proof fn lemma_corrupt_frame_detected(f: WireFrame, i: int, mask: u8)
    requires
        0 <= i < spec_encode_frame(f).len(),
        mask != 0,
    ensures
        ({
            let b = spec_encode_frame(f);
            spec_decode_frame(b.update(i, b[i] ^ mask)) is Err
        }),
{
    let b = spec_encode_frame(f);
    let b2 = b.update(i, b[i] ^ mask);
    if 20 <= i < 24 {
        lemma_corrupt_checksum_detected(f, i, mask);
    } else {
        lemma_frame_round_trip(f);
        assert(spec_frame_error(b) is None);
        let x = b[i];
        assert(x ^ mask != x) by (bit_vector)
            requires mask != 0u8;
        if spec_frame_error(b2) is None {
            let c1 = b.subrange(0, 20) + b.subrange(24, b.len() as int);
            let c2 = b2.subrange(0, 20) + b2.subrange(24, b2.len() as int);
            let j = if i < 20 { i } else { i - 4 };
            assert(c1.len() == c2.len());
            assert(c1[j] != c2[j]);
            assert forall|k: int| 0 <= k < c1.len() && k != j implies c1[k] == c2[k] by {
                if k < 20 {
                    assert(c1[k] == b[k] && c2[k] == b2[k]);
                } else {
                    assert(c1[k] == b[k + 4] && c2[k] == b2[k + 4]);
                }
            }
            lemma_crc_detects_byte_change(c1, c2, j);
            assert(b2.subrange(20, 24) =~= b.subrange(20, 24));
            assert(rd32(b2, 20) == rd32(b, 20));
            assert(false);
        }
    }
}

#[derive(Debug)]
pub enum GatewayAction {
    Accepted(OrderCommand),
    Send(WireMessage),
    Admin(AdminCommand),
}

/// One client connection: its sequencing, and the role and key it logged
/// on with.
#[derive(Debug)]
pub struct GatewaySession {
    session: SessionState,
    role: Option<Role>,
    api_key: Option<u64>,
}

pub struct GatewayView {
    pub session: SessionView,
    pub role: Option<Role>,
    pub api_key: Option<u64>,
}

impl View for GatewaySession {
    type V = GatewayView;

    closed spec fn view(&self) -> GatewayView {
        GatewayView { session: self.session@, role: self.role, api_key: self.api_key }
    }
}

/// The permission an order command needs.
pub open spec fn order_permission(c: OrderCommand) -> Permission {
    match c {
        OrderCommand::New(_) => Permission::SubmitOrders,
        OrderCommand::Cancel(_) => Permission::CancelOrders,
        OrderCommand::Replace(_) => Permission::ReplaceOrders,
    }
}

/// Whether the logged-on role holds a permission.
pub open spec fn role_allows(g: GatewayView, p: Permission) -> bool {
    g.role matches Some(r) && spec_allows(r, p)
}

/// The session after accepting the next inbound number.
pub open spec fn advanced(g: GatewayView) -> GatewayView {
    GatewayView { session: SessionView { next_in: (g.session.next_in + 1) as u64, ..g.session }, ..g }
}

/// Handling an inbound frame. Before logon only a logon is accepted; a
/// logon authenticates once and establishes the session to expect the
/// number after the logon's. Every other frame must carry the next
/// inbound number, and is then checked against the role: orders need the
/// permission of their kind, recovery requests need recovery and an
/// ordered range, admin commands need market operation, and execution
/// reports, rejects and market data need market data. Heartbeats and
/// logouts need no permission.
pub open spec fn spec_gateway_receive(g: GatewayView, f: WireFrame, creds: Map<u64, Credential>) -> (GatewayView, Result<Seq<GatewayAction>, ProtocolError>) {
    if !(f.message is Logon) && g.role is None {
        (g, Err(ProtocolError::NotAuthenticated))
    } else {
        match f.message {
            WireMessage::Logon { api_key, token, heartbeat_ticks } => {
                if g.role is Some {
                    (g, Err(ProtocolError::PermissionDenied))
                } else {
                    match spec_authenticate(creds, api_key, token@) {
                        Err(e) => (g, Err(e)),
                        Ok(role) => (
                            GatewayView {
                                session: SessionView {
                                    next_in: (f.sequence.0 + 1) as u64,
                                    next_out: 1,
                                    established: true,
                                    heartbeat_interval_ticks: heartbeat_ticks,
                                    last_activity_tick: 0,
                                    ..g.session
                                },
                                role: Some(role),
                                api_key: Some(api_key),
                            },
                            Ok(seq![GatewayAction::Send(WireMessage::Heartbeat)]),
                        ),
                    }
                }
            },
            _ => match spec_receive(g.session, f.sequence.0) {
                Err(e) => (g, Err(ProtocolError::Session(e))),
                Ok(_) => {
                    let g1 = advanced(g);
                    match f.message {
                        WireMessage::Order(c) => if role_allows(g, order_permission(c)) {
                            (g1, Ok(seq![GatewayAction::Accepted(c)]))
                        } else {
                            (g1, Err(ProtocolError::PermissionDenied))
                        },
                        WireMessage::Heartbeat => (
                            GatewayView { session: SessionView { last_activity_tick: f.sequence.0, ..g1.session }, ..g1 },
                            Ok(seq![GatewayAction::Send(WireMessage::Heartbeat)]),
                        ),
                        WireMessage::ResendRequest { begin, end } => if !role_allows(g, Permission::RequestRecovery) {
                            (g1, Err(ProtocolError::PermissionDenied))
                        } else if begin.0 > end.0 {
                            (g1, Err(ProtocolError::InvalidPayload))
                        } else {
                            (g1, Ok(Seq::empty()))
                        },
                        WireMessage::Logout { .. } => (g1, Ok(Seq::empty())),
                        WireMessage::Admin(c) => if role_allows(g, Permission::OperateMarket) {
                            (g1, Ok(seq![GatewayAction::Admin(c)]))
                        } else {
                            (g1, Err(ProtocolError::PermissionDenied))
                        },
                        _ => if role_allows(g, Permission::ViewMarketData) {
                            (g1, Ok(Seq::empty()))
                        } else {
                            (g1, Err(ProtocolError::PermissionDenied))
                        },
                    }
                },
            },
        }
    }
}

/// A logon that would succeed on a frame numbered `u64::MAX` has no next
/// number to expect.
pub open spec fn logon_fits(g: GatewayView, f: WireFrame, creds: Map<u64, Credential>) -> bool {
    match f.message {
        WireMessage::Logon { api_key, token, .. } =>
            g.role is None && spec_authenticate(creds, api_key, token@) is Ok ==> f.sequence.0 < u64::MAX,
        _ => true,
    }
}

impl GatewaySession {
    /// A session that has not logged on.
    pub fn new() -> (r: GatewaySession)
        ensures
            r@ == (GatewayView {
                session: SessionView { next_in: 1, next_out: 1, established: false, heartbeat_interval_ticks: 1000, last_activity_tick: 0 },
                role: None,
                api_key: None,
            }),
    {
        GatewaySession { session: SessionState::new(), role: None, api_key: None }
    }

    pub fn role(&self) -> (r: Option<Role>)
        ensures
            r == self@.role,
    {
        self.role
    }

    pub fn api_key(&self) -> (r: Option<u64>)
        ensures
            r == self@.api_key,
    {
        self.api_key
    }

    fn require(&self, permission: Permission) -> (r: Result<(), ProtocolError>)
        ensures
            r == (if role_allows(self@, permission) { Ok::<(), ProtocolError>(()) } else { Err(ProtocolError::PermissionDenied) }),
    {
        match self.role {
            Some(role) => if role.allows(permission) {
                Ok(())
            } else {
                Err(ProtocolError::PermissionDenied)
            },
            None => Err(ProtocolError::PermissionDenied),
        }
    }

    /// Accepts one inbound frame and says what to do with it.
    pub fn receive(&mut self, frame: WireFrame, credentials: &CredentialStore) -> (r: Result<Vec<GatewayAction>, ProtocolError>)
        requires
            logon_fits(old(self)@, frame, credentials@),
        ensures
            ({
                let (g, res) = spec_gateway_receive(old(self)@, frame, credentials@);
                &&& final(self)@ == g
                &&& match r {
                    Ok(v) => res == Ok::<Seq<GatewayAction>, ProtocolError>(v@),
                    Err(e) => res == Err::<Seq<GatewayAction>, ProtocolError>(e),
                }
            }),
    {
        let is_logon = match &frame.message {
            WireMessage::Logon { .. } => true,
            _ => false,
        };
        if !is_logon && self.role.is_none() {
            return Err(ProtocolError::NotAuthenticated);
        }
        match frame.message {
            WireMessage::Logon { api_key, token, heartbeat_ticks } => {
                if self.role.is_some() {
                    return Err(ProtocolError::PermissionDenied);
                }
                let role = match credentials.authenticate(api_key, &token) {
                    Ok(r) => r,
                    Err(e) => return Err(e),
                };
                self.session.establish(MessageSeq(frame.sequence.0 + 1), MessageSeq(1), heartbeat_ticks);
                self.role = Some(role);
                self.api_key = Some(api_key);
                let out = vec![GatewayAction::Send(WireMessage::Heartbeat)];
                proof {
                    assert(out@ =~= seq![GatewayAction::Send(WireMessage::Heartbeat)]);
                }
                Ok(out)
            },
            WireMessage::Order(command) => {
                match self.session.receive(frame.sequence) {
                    Ok(()) => {},
                    Err(e) => return Err(ProtocolError::Session(e)),
                }
                let permission = match command {
                    OrderCommand::New(_) => Permission::SubmitOrders,
                    OrderCommand::Cancel(_) => Permission::CancelOrders,
                    OrderCommand::Replace(_) => Permission::ReplaceOrders,
                };
                match self.require(permission) {
                    Ok(()) => {},
                    Err(e) => return Err(e),
                }
                let out = vec![GatewayAction::Accepted(command)];
                proof {
                    assert(out@ =~= seq![GatewayAction::Accepted(command)]);
                }
                Ok(out)
            },
            WireMessage::Heartbeat => {
                match self.session.receive(frame.sequence) {
                    Ok(()) => {},
                    Err(e) => return Err(ProtocolError::Session(e)),
                }
                self.session.note_activity(frame.sequence.0);
                let out = vec![GatewayAction::Send(WireMessage::Heartbeat)];
                proof {
                    assert(out@ =~= seq![GatewayAction::Send(WireMessage::Heartbeat)]);
                }
                Ok(out)
            },
            WireMessage::ResendRequest { begin, end } => {
                match self.session.receive(frame.sequence) {
                    Ok(()) => {},
                    Err(e) => return Err(ProtocolError::Session(e)),
                }
                match self.require(Permission::RequestRecovery) {
                    Ok(()) => {},
                    Err(e) => return Err(e),
                }
                if begin.0 > end.0 {
                    return Err(ProtocolError::InvalidPayload);
                }
                Ok(Vec::new())
            },
            WireMessage::Logout { .. } => {
                match self.session.receive(frame.sequence) {
                    Ok(()) => {},
                    Err(e) => return Err(ProtocolError::Session(e)),
                }
                Ok(Vec::new())
            },
            WireMessage::Admin(command) => {
                match self.session.receive(frame.sequence) {
                    Ok(()) => {},
                    Err(e) => return Err(ProtocolError::Session(e)),
                }
                match self.require(Permission::OperateMarket) {
                    Ok(()) => {},
                    Err(e) => return Err(e),
                }
                let out = vec![GatewayAction::Admin(command)];
                proof {
                    assert(out@ =~= seq![GatewayAction::Admin(command)]);
                }
                Ok(out)
            },
            _ => {
                match self.session.receive(frame.sequence) {
                    Ok(()) => {},
                    Err(e) => return Err(ProtocolError::Session(e)),
                }
                match self.require(Permission::ViewMarketData) {
                    Ok(()) => {},
                    Err(e) => return Err(e),
                }
                Ok(Vec::new())
            },
        }
    }

    /// Numbers an outbound message with the session's next outbound number.
    pub fn next_outbound(&mut self, message: WireMessage) -> (r: Result<WireFrame, ProtocolError>)
        ensures
            !old(self)@.session.established ==> r == Err::<WireFrame, ProtocolError>(ProtocolError::Session(SessionError::NotEstablished)) && final(self)@ == old(self)@,
            old(self)@.session.established && old(self)@.session.next_out == u64::MAX ==>
                r == Err::<WireFrame, ProtocolError>(ProtocolError::Session(SessionError::InvalidRecoveryRange)) && final(self)@ == old(self)@,
            old(self)@.session.established && old(self)@.session.next_out < u64::MAX ==> {
                &&& r == Ok::<WireFrame, ProtocolError>(WireFrame { sequence: MessageSeq(old(self)@.session.next_out), message })
                &&& final(self)@ == GatewayView { session: SessionView { next_out: (old(self)@.session.next_out + 1) as u64, ..old(self)@.session }, ..old(self)@ }
            },
    {
        match self.session.allocate_outbound() {
            Ok(sequence) => Ok(WireFrame { sequence, message }),
            Err(e) => Err(ProtocolError::Session(e)),
        }
    }
}

impl Default for GatewaySession {
    fn default() -> (r: GatewaySession)
        ensures
            r@ == (GatewayView {
                session: SessionView { next_in: 1, next_out: 1, established: false, heartbeat_interval_ticks: 1000, last_activity_tick: 0 },
                role: None,
                api_key: None,
            }),
    {
        GatewaySession::new()
    }
}

/// Nothing but a logon gets through before logon, and a session logs on at
/// most once.
pub proof fn lemma_logon_first(g: GatewayView, f: WireFrame, creds: Map<u64, Credential>)
    ensures
        g.role is None && !(f.message is Logon) ==> spec_gateway_receive(g, f, creds) == (g, Err::<Seq<GatewayAction>, ProtocolError>(ProtocolError::NotAuthenticated)),
        g.role is Some && f.message is Logon ==> spec_gateway_receive(g, f, creds) == (g, Err::<Seq<GatewayAction>, ProtocolError>(ProtocolError::PermissionDenied)),
{
}

/// An order is only ever accepted from a session whose role holds the
/// permission the order's kind needs.
pub proof fn lemma_accepted_orders_are_permitted(g: GatewayView, f: WireFrame, creds: Map<u64, Credential>)
    requires
        (spec_gateway_receive(g, f, creds).1 matches Ok(actions) && actions.len() > 0 && actions[0] is Accepted),
    ensures
        (f.message matches WireMessage::Order(c) && role_allows(g, order_permission(c))),
{
}


/// Traders may submit, cancel and replace orders, view market data and
/// ask for recovery, and nothing else: exactly what market makers may do.
/// So a logged-on trader holds the permission every kind of order command
/// needs.
pub proof fn lemma_trader_permissions()
    ensures
        forall|p: Permission| #[trigger] spec_allows(Role::Trader, p) <==> (p == Permission::SubmitOrders
            || p == Permission::CancelOrders || p == Permission::ReplaceOrders
            || p == Permission::ViewMarketData || p == Permission::RequestRecovery),
        forall|p: Permission| #[trigger] spec_allows(Role::Trader, p) == spec_allows(Role::MarketMaker, p),
        forall|c: OrderCommand| #[trigger] spec_allows(Role::Trader, order_permission(c)),
{
}

/// Each role's permissions: risk views market data, asks for recovery and
/// operates accounts; operations does that and operates the market; admin
/// may do anything; read-only may only view market data. No role but
/// admin and operations operates the market, and only trading roles touch
/// orders.
pub proof fn lemma_role_permissions()
    ensures
        forall|p: Permission| #[trigger] spec_allows(Role::Risk, p) <==> (p == Permission::ViewMarketData
            || p == Permission::RequestRecovery || p == Permission::OperateAccounts),
        forall|p: Permission| #[trigger] spec_allows(Role::Operations, p) <==> (p == Permission::ViewMarketData
            || p == Permission::RequestRecovery || p == Permission::OperateMarket || p == Permission::OperateAccounts),
        forall|p: Permission| #[trigger] spec_allows(Role::Admin, p),
        forall|p: Permission| #[trigger] spec_allows(Role::ReadOnly, p) <==> p == Permission::ViewMarketData,
        forall|r: Role| #[trigger] spec_allows(r, Permission::OperateMarket) <==> (r == Role::Admin || r == Role::Operations),
        forall|r: Role| #[trigger] spec_allows(r, Permission::SubmitOrders)
            <==> (r == Role::Trader || r == Role::MarketMaker || r == Role::Admin),
        forall|r: Role| #[trigger] spec_allows(r, Permission::ViewMarketData),
{
}

} // verus!
