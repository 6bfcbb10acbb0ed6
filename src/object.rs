//! The protocol objects, their canonical bytes and their decoders.
use vstd::prelude::*;
use vstd::utf8::encode_utf8;

use vstd::slice::slice_subrange;

use crate::wire::{
    lemma_list_items_inverse, lemma_string_canonical, lemma_text_canonical, lemma_texts_canonical,
    lemma_uint_canonical,
    lemma_list_first_byte,
    lemma_header_extend, lemma_split_cons, lemma_split_empty, split_items,
    be_bytes, concat, dec_text, dec_texts, dec_uint, enc_list, enc_string, enc_text, enc_texts,
    enc_uint, lemma_concat_push, lemma_dec_text, lemma_dec_texts, lemma_dec_uint, lemma_p256_8,
    lemma_split_concat, lemma_string_payload, lemma_truncated_list, lemma_whole_list,
    lemma_whole_string, list_items, list_of, p256, push_all, push_string, push_text, push_texts,
    push_uint, read_bytes, read_list, read_text, read_texts, read_uint, string_payload, texts_view,
    whole_item,
};

verus! {

/// What a decoder or a verifier reports; each reason has a stable code.
#[derive(Debug, PartialEq, Eq, Clone, Copy, Structural)]
pub enum VerifyError {
    FoundNoMessage,
    EventNotMatch,
    InvalidReceiptProof,
    SerdeError,
    WrongClient,
    WrongConnectionId,
    WrongConnectionnNumber,
    WrongPortId,
    WrongCommonHexId,
    ConnectionsWrong,
    WrongConnectionCnt,
    WrongConnectionState,
    WrongConnectionCounterparty,
    WrongConnectionClient,
    WrongConnectionNextChannelNumber,
    WrongConnectionArgs,
    WrongChannelState,
    WrongChannel,
    WrongChannelArgs,
    WrongChannelSequence,
    WrongUnusedPacket,
    WrongPacketSequence,
    WrongPacketStatus,
    WrongPacketContent,
    WrongPacketArgs,
}

/// The stable code of each reason: consecutive from 100, in declaration order.
pub open spec fn error_code(e: VerifyError) -> i8 {
    match e {
        VerifyError::FoundNoMessage => 100,
        VerifyError::EventNotMatch => 101,
        VerifyError::InvalidReceiptProof => 102,
        VerifyError::SerdeError => 103,
        VerifyError::WrongClient => 104,
        VerifyError::WrongConnectionId => 105,
        VerifyError::WrongConnectionnNumber => 106,
        VerifyError::WrongPortId => 107,
        VerifyError::WrongCommonHexId => 108,
        VerifyError::ConnectionsWrong => 109,
        VerifyError::WrongConnectionCnt => 110,
        VerifyError::WrongConnectionState => 111,
        VerifyError::WrongConnectionCounterparty => 112,
        VerifyError::WrongConnectionClient => 113,
        VerifyError::WrongConnectionNextChannelNumber => 114,
        VerifyError::WrongConnectionArgs => 115,
        VerifyError::WrongChannelState => 116,
        VerifyError::WrongChannel => 117,
        VerifyError::WrongChannelArgs => 118,
        VerifyError::WrongChannelSequence => 119,
        VerifyError::WrongUnusedPacket => 120,
        VerifyError::WrongPacketSequence => 121,
        VerifyError::WrongPacketStatus => 122,
        VerifyError::WrongPacketContent => 123,
        VerifyError::WrongPacketArgs => 124,
    }
}

impl VerifyError {
    /// The stable code of this reason.
    pub fn code(&self) -> (r: i8)
        ensures
            r == error_code(*self),
    {
        match self {
            VerifyError::FoundNoMessage => 100,
            VerifyError::EventNotMatch => 101,
            VerifyError::InvalidReceiptProof => 102,
            VerifyError::SerdeError => 103,
            VerifyError::WrongClient => 104,
            VerifyError::WrongConnectionId => 105,
            VerifyError::WrongConnectionnNumber => 106,
            VerifyError::WrongPortId => 107,
            VerifyError::WrongCommonHexId => 108,
            VerifyError::ConnectionsWrong => 109,
            VerifyError::WrongConnectionCnt => 110,
            VerifyError::WrongConnectionState => 111,
            VerifyError::WrongConnectionCounterparty => 112,
            VerifyError::WrongConnectionClient => 113,
            VerifyError::WrongConnectionNextChannelNumber => 114,
            VerifyError::WrongConnectionArgs => 115,
            VerifyError::WrongChannelState => 116,
            VerifyError::WrongChannel => 117,
            VerifyError::WrongChannelArgs => 118,
            VerifyError::WrongChannelSequence => 119,
            VerifyError::WrongUnusedPacket => 120,
            VerifyError::WrongPacketSequence => 121,
            VerifyError::WrongPacketStatus => 122,
            VerifyError::WrongPacketContent => 123,
            VerifyError::WrongPacketArgs => 124,
        }
    }
}

impl From<VerifyError> for i8 {
    fn from(value: VerifyError) -> (r: i8) {
        value.code()
    }
}

impl vstd::std_specs::convert::FromSpecImpl<VerifyError> for i8 {
    open spec fn obeys_from_spec() -> bool {
        true
    }

    open spec fn from_spec(v: VerifyError) -> i8 {
        error_code(v)
    }
}

/// Distinct reasons have distinct codes.
pub proof fn lemma_error_codes_distinct(a: VerifyError, b: VerifyError)
    requires
        a != b,
    ensures
        error_code(a) != error_code(b),
{
}

/// The codec that every protocol object has: `encode` gives the canonical
/// bytes of a value, and `decode` gives back the value that `parse` reads from
/// bytes, failing with `SerdeError` wherever `parse` reads none (a wrong shape
/// or field count, a form that is not the shortest, an unknown tag, text that
/// is not UTF-8, bytes missing or left over). By the laws below, `parse` reads
/// a value from exactly the canonical bytes of that value.
pub trait Object: Sized + View {
    /// The canonical bytes of a value.
    spec fn wire(v: Self::V) -> Seq<u8>;

    /// The value whose canonical bytes `data` are, if any.
    spec fn parse(data: Seq<u8>) -> Option<Self::V>;

    fn encode(&self) -> (r: Vec<u8>)
        ensures
            r@ == Self::wire(self@),
    ;

    fn decode(data: &[u8]) -> (r: Result<Self, VerifyError>)
        ensures
            match Self::parse(data@) {
                Some(v) => r is Ok && r->Ok_0@ == v,
                None => r == Err::<Self, VerifyError>(VerifyError::SerdeError),
            },
    ;

    /// Decoding the bytes of a value gives the value back.
    proof fn lemma_round_trip(v: Self::V)
        requires
            Self::wire(v).len() <= usize::MAX,
        ensures
            Self::parse(Self::wire(v)) == Some(v),
    ;

    /// The bytes of a value cut short by at least one byte are rejected.
    proof fn lemma_truncation_rejected(v: Self::V, k: int)
        requires
            Self::wire(v).len() <= usize::MAX,
            0 <= k < Self::wire(v).len(),
        ensures
            Self::parse(Self::wire(v).subrange(0, k)) is None,
    ;

    /// Only canonical bytes are read: what is read from `data` has `data` as
    /// its bytes.
    proof fn lemma_canonical(data: Seq<u8>)
        requires
            Self::parse(data) is Some,
        ensures
            Self::wire(Self::parse(data)->Some_0) == data,
    ;

    /// The bytes of a value with their leading header byte changed are rejected.
    proof fn lemma_leading_byte_checked(v: Self::V, b: u8)
        requires
            Self::wire(v).len() <= usize::MAX,
            b != Self::wire(v)[0],
        ensures
            Self::parse(Self::wire(v).update(0, b)) is None,
    ;
}

/// Distinct values never share their bytes.
pub proof fn lemma_wire_injective<T: Object>(a: T::V, b: T::V)
    requires
        T::wire(a).len() <= usize::MAX,
        T::wire(a) == T::wire(b),
    ensures
        a == b,
{
    T::lemma_round_trip(a);
    T::lemma_round_trip(b);
}

/// Bytes are read as a value exactly when they are that value's bytes.
pub proof fn lemma_parse_iff_wire<T: Object>(data: Seq<u8>, v: T::V)
    requires
        T::wire(v).len() <= usize::MAX,
    ensures
        T::parse(data) == Some(v) <==> data == T::wire(v),
{
    T::lemma_round_trip(v);
    if T::parse(data) == Some(v) {
        T::lemma_canonical(data);
    }
}

/// The state of a connection or a channel.
#[derive(Debug, PartialEq, Eq, Clone, Copy, Structural)]
pub enum State {
    Unknown,
    Init,
    OpenTry,
    Open,
    Closed,
    Frozen,
}

/// The tag of each state on the wire.
pub open spec fn state_tag(s: State) -> nat {
    match s {
        State::Unknown => 1,
        State::Init => 2,
        State::OpenTry => 3,
        State::Open => 4,
        State::Closed => 5,
        State::Frozen => 6,
    }
}

/// The state with tag `t`, for the tags 1 to 6 only.
pub open spec fn state_of_tag(t: nat) -> Option<State> {
    if t == 1 {
        Some(State::Unknown)
    } else if t == 2 {
        Some(State::Init)
    } else if t == 3 {
        Some(State::OpenTry)
    } else if t == 4 {
        Some(State::Open)
    } else if t == 5 {
        Some(State::Closed)
    } else if t == 6 {
        Some(State::Frozen)
    } else {
        None
    }
}

/// The tag of a one-item list whose item is a one-byte unsigned integer.
pub open spec fn single_tag(data: Seq<u8>) -> Option<nat> {
    match list_items(data) {
        Some(it) => if it.len() == 1 {
            dec_uint(it[0], 1)
        } else {
            None
        },
        None => None,
    }
}

/// The tag read back from an encoded one-item list.
proof fn lemma_single_tag(t: nat)
    requires
        t < 256,
    ensures
        single_tag(enc_list(enc_uint(t))) == Some(t),
        enc_list(enc_uint(t)) == enc_list(concat(seq![enc_uint(t)])),
{
    let e = enc_uint(t);
    reveal_with_fuel(p256, 2);
    lemma_dec_uint(t, 1);
    lemma_whole_string(crate::wire::be_bytes(t));
    crate::wire::lemma_be_bytes_len(t, 1);
    assert(seq![e].drop_first() =~= Seq::<Seq<u8>>::empty());
    assert(concat(seq![e].drop_first()) == Seq::<u8>::empty());
    assert(concat(seq![e]) =~= e);
    lemma_split_concat(seq![e]);
    lemma_whole_list(e);
}

/// A one-item tag list that is read is encoded as it was read.
proof fn lemma_single_tag_canonical(data: Seq<u8>)
    requires
        single_tag(data) is Some,
    ensures
        data == enc_list(enc_uint(single_tag(data)->Some_0)),
{
    let it = list_items(data)->Some_0;
    lemma_list_items_inverse(data);
    lemma_uint_canonical(it[0], 1);
    lemma_concat_push(Seq::empty(), it[0]);
    assert(concat(Seq::<Seq<u8>>::empty()) == Seq::<u8>::empty());
    assert(it =~= Seq::<Seq<u8>>::empty().push(it[0]));
    assert(concat(it) =~= it[0]);
}

/// The encoded one-item list whose item is the tag `t`.
fn tag_list(t: u8) -> (r: Vec<u8>)
    ensures
        r@ == enc_list(enc_uint(t as nat)),
{
    let mut payload: Vec<u8> = Vec::new();
    push_uint(&mut payload, t as u64);
    assert(payload@ =~= enc_uint(t as nat));
    list_of(&payload)
}

/// The tag of a one-item list, read from all of `data`.
fn read_tag(data: &[u8]) -> (r: Option<u8>)
    ensures
        match single_tag(data@) {
            Some(t) => r == Some(t as u8) && t < 256,
            None => r is None,
        },
{
    assert(data@.subrange(0, data@.len() as int) =~= data@);
    match read_list(data, 0, data.len()) {
        Some(items) => {
            if items.len() != 1 {
                return None;
            }
            let (a, b) = items[0];
            match read_uint(data, a, b, 1) {
                Some(v) => {
                    proof {
                        reveal_with_fuel(p256, 2);
                    }
                    Some(v as u8)
                },
                None => None,
            }
        },
        None => None,
    }
}

impl State {
    /// The tag of this state on the wire.
    pub fn tag(&self) -> (r: u8)
        ensures
            r == state_tag(*self),
    {
        match self {
            State::Unknown => 1,
            State::Init => 2,
            State::OpenTry => 3,
            State::Open => 4,
            State::Closed => 5,
            State::Frozen => 6,
        }
    }

    /// The state with tag `t`; tags other than 1 to 6 are rejected.
    pub fn from_tag(t: u8) -> (r: Result<State, VerifyError>)
        ensures
            match state_of_tag(t as nat) {
                Some(s) => r == Ok::<State, VerifyError>(s),
                None => r == Err::<State, VerifyError>(VerifyError::SerdeError),
            },
    {
        match t {
            1 => Ok(State::Unknown),
            2 => Ok(State::Init),
            3 => Ok(State::OpenTry),
            4 => Ok(State::Open),
            5 => Ok(State::Closed),
            6 => Ok(State::Frozen),
            _ => Err(VerifyError::SerdeError),
        }
    }
}

impl Default for State {
    fn default() -> (r: State)
        ensures
            r == State::Unknown,
    {
        State::Unknown
    }
}

impl View for State {
    type V = State;

    open spec fn view(&self) -> State {
        *self
    }
}

impl Object for State {
    /// A one-item list holding the tag.
    open spec fn wire(v: State) -> Seq<u8> {
        enc_list(enc_uint(state_tag(v)))
    }

    open spec fn parse(data: Seq<u8>) -> Option<State> {
        match single_tag(data) {
            Some(t) => state_of_tag(t),
            None => None,
        }
    }

    fn encode(&self) -> (r: Vec<u8>) {
        tag_list(self.tag())
    }

    fn decode(data: &[u8]) -> (r: Result<State, VerifyError>) {
        match read_tag(data) {
            Some(t) => State::from_tag(t),
            None => Err(VerifyError::SerdeError),
        }
    }

    proof fn lemma_round_trip(v: State) {
        lemma_single_tag(state_tag(v));
    }

    proof fn lemma_truncation_rejected(v: State, k: int) {
        lemma_truncated_list(enc_uint(state_tag(v)), k);
    }

    proof fn lemma_leading_byte_checked(v: State, b: u8) {
        lemma_list_first_byte(enc_uint(state_tag(v)), b);
    }

    proof fn lemma_canonical(data: Seq<u8>) {
        lemma_single_tag_canonical(data);
    }
}

/// The ordering of a channel.
#[derive(Debug, PartialEq, Eq, Clone, Copy, Structural)]
pub enum Ordering {
    Unknown,
    Unordered,
    Ordered,
}

/// The tag of each ordering on the wire.
pub open spec fn ordering_tag(o: Ordering) -> nat {
    match o {
        Ordering::Unknown => 1,
        Ordering::Unordered => 2,
        Ordering::Ordered => 3,
    }
}

/// The ordering with tag `t`, for the tags 1 to 3 only.
pub open spec fn ordering_of_tag(t: nat) -> Option<Ordering> {
    if t == 1 {
        Some(Ordering::Unknown)
    } else if t == 2 {
        Some(Ordering::Unordered)
    } else if t == 3 {
        Some(Ordering::Ordered)
    } else {
        None
    }
}

impl Ordering {
    /// The tag of this ordering on the wire.
    pub fn tag(&self) -> (r: u8)
        ensures
            r == ordering_tag(*self),
    {
        match self {
            Ordering::Unknown => 1,
            Ordering::Unordered => 2,
            Ordering::Ordered => 3,
        }
    }

    /// The ordering with tag `t`; tags other than 1 to 3 are rejected.
    pub fn from_tag(t: u8) -> (r: Result<Ordering, VerifyError>)
        ensures
            match ordering_of_tag(t as nat) {
                Some(o) => r == Ok::<Ordering, VerifyError>(o),
                None => r == Err::<Ordering, VerifyError>(VerifyError::SerdeError),
            },
    {
        match t {
            1 => Ok(Ordering::Unknown),
            2 => Ok(Ordering::Unordered),
            3 => Ok(Ordering::Ordered),
            _ => Err(VerifyError::SerdeError),
        }
    }
}

impl Default for Ordering {
    fn default() -> (r: Ordering)
        ensures
            r == Ordering::Unknown,
    {
        Ordering::Unknown
    }
}

impl View for Ordering {
    type V = Ordering;

    open spec fn view(&self) -> Ordering {
        *self
    }
}

impl Object for Ordering {
    /// A one-item list holding the tag.
    open spec fn wire(v: Ordering) -> Seq<u8> {
        enc_list(enc_uint(ordering_tag(v)))
    }

    open spec fn parse(data: Seq<u8>) -> Option<Ordering> {
        match single_tag(data) {
            Some(t) => ordering_of_tag(t),
            None => None,
        }
    }

    fn encode(&self) -> (r: Vec<u8>) {
        tag_list(self.tag())
    }

    fn decode(data: &[u8]) -> (r: Result<Ordering, VerifyError>) {
        match read_tag(data) {
            Some(t) => Ordering::from_tag(t),
            None => Err(VerifyError::SerdeError),
        }
    }

    proof fn lemma_round_trip(v: Ordering) {
        lemma_single_tag(ordering_tag(v));
    }

    proof fn lemma_truncation_rejected(v: Ordering, k: int) {
        lemma_truncated_list(enc_uint(ordering_tag(v)), k);
    }

    proof fn lemma_leading_byte_checked(v: Ordering, b: u8) {
        lemma_list_first_byte(enc_uint(ordering_tag(v)), b);
    }

    proof fn lemma_canonical(data: Seq<u8>) {
        lemma_single_tag_canonical(data);
    }
}

/// A state is decoded from a one-item list exactly when its tag is 1 to 6.
pub proof fn lemma_state_tags(data: Seq<u8>)
    ensures
        State::parse(data) is Some <==> (single_tag(data) is Some && 1 <= single_tag(data)->Some_0
            <= 6),
{
}

/// An ordering is decoded from a one-item list exactly when its tag is 1 to 3.
pub proof fn lemma_ordering_tags(data: Seq<u8>)
    ensures
        Ordering::parse(data) is Some <==> (single_tag(data) is Some && 1
            <= single_tag(data)->Some_0 <= 3),
{
}

/// A byte string is one item and is read back.
proof fn lemma_bytes_field(b: Seq<u8>)
    requires
        b.len() <= usize::MAX,
    ensures
        whole_item(enc_string(b)),
        string_payload(enc_string(b)) == Some(b),
{
    lemma_whole_string(b);
    lemma_string_payload(b);
}

/// A text is one item and is read back.
proof fn lemma_text_field(t: Seq<char>)
    requires
        enc_text(t).len() <= usize::MAX,
    ensures
        whole_item(enc_text(t)),
        dec_text(enc_text(t)) == Some(t),
{
    lemma_whole_string(encode_utf8(t));
    lemma_dec_text(t);
}

/// An unsigned integer of at most `w` bytes is one item and is read back.
proof fn lemma_uint_field(v: nat, w: nat)
    requires
        v < p256(w),
        w <= 8,
    ensures
        whole_item(enc_uint(v)),
        dec_uint(enc_uint(v), w) == Some(v),
{
    lemma_p256_8();
    crate::wire::lemma_p256_mono(w, 8);
    crate::wire::lemma_be_bytes_len(v, w);
    lemma_whole_string(be_bytes(v));
    lemma_dec_uint(v, w);
}

// ---------------------------------------------------------------------------
/// The remote end of a channel.
#[derive(Debug, Default, PartialEq, Eq, Clone)]
pub struct ChannelCounterparty {
    pub port_id: String,
    pub channel_id: String,
}

/// What a `ChannelCounterparty` holds, with texts as character sequences and bytes as
/// byte sequences.
pub struct ChannelCounterpartyView {
    pub port_id: Seq<char>,
    pub channel_id: Seq<char>,
}

impl View for ChannelCounterparty {
    type V = ChannelCounterpartyView;

    open spec fn view(&self) -> ChannelCounterpartyView {
        ChannelCounterpartyView { port_id: self.port_id@, channel_id: self.channel_id@ }
    }
}

/// The encoded fields of a channel counterparty, in order.
pub open spec fn channel_counterparty_fields(v: ChannelCounterpartyView) -> Seq<Seq<u8>> {
    Seq::empty().push(enc_text(v.port_id)).push(enc_text(v.channel_id))
}

impl Object for ChannelCounterparty {
    open spec fn wire(v: ChannelCounterpartyView) -> Seq<u8> {
        enc_list(concat(channel_counterparty_fields(v)))
    }

    open spec fn parse(data: Seq<u8>) -> Option<ChannelCounterpartyView> {
        match list_items(data) {
            Some(it) => if it.len() == 2 && dec_text(it[0]) is Some && dec_text(it[1]) is Some {
                Some(
                    ChannelCounterpartyView {
                        port_id: dec_text(it[0])->Some_0,
                        channel_id: dec_text(it[1])->Some_0,
                    },
                )
            } else {
                None
            },
            None => None,
        }
    }

    fn encode(&self) -> (r: Vec<u8>) {
        let mut p: Vec<u8> = Vec::new();
        push_text(&mut p, &self.port_id);
        push_text(&mut p, &self.channel_id);
        proof {
            let (e0, e1) = (enc_text(self.port_id@), enc_text(self.channel_id@));
            lemma_concat_push(Seq::empty(), e0);
            lemma_concat_push(Seq::empty().push(e0), e1);
            assert(concat(Seq::<Seq<u8>>::empty()) == Seq::<u8>::empty());
            assert(p@ =~= concat(channel_counterparty_fields(self@)));
        }
        list_of(&p)
    }

    fn decode(data: &[u8]) -> (r: Result<ChannelCounterparty, VerifyError>) {
        assert(data@.subrange(0, data@.len() as int) =~= data@);
        let items = match read_list(data, 0, data.len()) {
            Some(items) => items,
            None => return Err(VerifyError::SerdeError),
        };
        if items.len() != 2 {
            return Err(VerifyError::SerdeError);
        }
        let (a, b) = items[0];
        let port_id = match read_text(data, a, b) {
            Some(v) => v,
            None => return Err(VerifyError::SerdeError),
        };
        let (a, b) = items[1];
        let channel_id = match read_text(data, a, b) {
            Some(v) => v,
            None => return Err(VerifyError::SerdeError),
        };
        Ok(ChannelCounterparty { port_id, channel_id })
    }

    proof fn lemma_round_trip(v: ChannelCounterpartyView) {
        let f = channel_counterparty_fields(v);
        let (e0, e1) = (enc_text(v.port_id), enc_text(v.channel_id));
        lemma_concat_push(Seq::empty(), e0);
        lemma_concat_push(Seq::empty().push(e0), e1);
        assert(concat(Seq::<Seq<u8>>::empty()) == Seq::<u8>::empty());
        assert(concat(f) =~= e0 + e1);
        lemma_text_field(v.port_id);
        lemma_text_field(v.channel_id);
        assert forall|i: int| 0 <= i < f.len() implies whole_item(#[trigger] f[i]) by {
            if i == 0 {
            } else {
            }
        }
        lemma_split_concat(f);
        lemma_whole_list(concat(f));
    }

    proof fn lemma_truncation_rejected(v: ChannelCounterpartyView, k: int) {
        lemma_truncated_list(concat(channel_counterparty_fields(v)), k);
    }

    proof fn lemma_leading_byte_checked(v: ChannelCounterpartyView, b: u8) {
        lemma_list_first_byte(concat(channel_counterparty_fields(v)), b);
    }

    proof fn lemma_canonical(data: Seq<u8>) {
        let it = list_items(data)->Some_0;
        lemma_list_items_inverse(data);
        lemma_text_canonical(it[0]);
        lemma_text_canonical(it[1]);
        assert(it =~= channel_counterparty_fields(Self::parse(data)->Some_0));
    }
}

// ---------------------------------------------------------------------------
/// One packet of application data, relayed from a source channel end to a
/// destination channel end.
#[derive(Debug, PartialEq, Eq, Clone)]
pub struct Packet {
    pub sequence: u16,
    pub source_port_id: String,
    pub source_channel_id: String,
    pub destination_port_id: String,
    pub destination_channel_id: String,
    pub data: Vec<u8>,
    pub timeout_height: u64,
    pub timeout_timestamp: u64,
}

/// What a `Packet` holds, with texts as character sequences and bytes as
/// byte sequences.
pub struct PacketView {
    pub sequence: u16,
    pub source_port_id: Seq<char>,
    pub source_channel_id: Seq<char>,
    pub destination_port_id: Seq<char>,
    pub destination_channel_id: Seq<char>,
    pub data: Seq<u8>,
    pub timeout_height: u64,
    pub timeout_timestamp: u64,
}

impl View for Packet {
    type V = PacketView;

    open spec fn view(&self) -> PacketView {
        PacketView {
            sequence: self.sequence,
            source_port_id: self.source_port_id@,
            source_channel_id: self.source_channel_id@,
            destination_port_id: self.destination_port_id@,
            destination_channel_id: self.destination_channel_id@,
            data: self.data@,
            timeout_height: self.timeout_height,
            timeout_timestamp: self.timeout_timestamp,
        }
    }
}

/// The encoded fields of a packet, in order.
pub open spec fn packet_fields(v: PacketView) -> Seq<Seq<u8>> {
    Seq::empty().push(enc_uint(v.sequence as nat)).push(enc_text(v.source_port_id)).push(
        enc_text(v.source_channel_id),
    ).push(enc_text(v.destination_port_id)).push(enc_text(v.destination_channel_id)).push(
        enc_string(v.data),
    ).push(enc_uint(v.timeout_height as nat)).push(enc_uint(v.timeout_timestamp as nat))
}

/// The encoded fields of a packet, concatenated.
proof fn lemma_packet_concat(v: PacketView)
    ensures
        concat(packet_fields(v)) == enc_uint(v.sequence as nat) + enc_text(v.source_port_id)
            + enc_text(v.source_channel_id) + enc_text(v.destination_port_id) + enc_text(
            v.destination_channel_id,
        ) + enc_string(v.data) + enc_uint(v.timeout_height as nat) + enc_uint(
            v.timeout_timestamp as nat,
        ),
{
    let e0 = enc_uint(v.sequence as nat);
    let e1 = enc_text(v.source_port_id);
    let e2 = enc_text(v.source_channel_id);
    let e3 = enc_text(v.destination_port_id);
    let e4 = enc_text(v.destination_channel_id);
    let e5 = enc_string(v.data);
    let e6 = enc_uint(v.timeout_height as nat);
    let e7 = enc_uint(v.timeout_timestamp as nat);
    let s0 = Seq::<Seq<u8>>::empty();
    lemma_concat_push(s0, e0);
    lemma_concat_push(s0.push(e0), e1);
    lemma_concat_push(s0.push(e0).push(e1), e2);
    lemma_concat_push(s0.push(e0).push(e1).push(e2), e3);
    lemma_concat_push(s0.push(e0).push(e1).push(e2).push(e3), e4);
    lemma_concat_push(s0.push(e0).push(e1).push(e2).push(e3).push(e4), e5);
    lemma_concat_push(s0.push(e0).push(e1).push(e2).push(e3).push(e4).push(e5), e6);
    lemma_concat_push(s0.push(e0).push(e1).push(e2).push(e3).push(e4).push(e5).push(e6), e7);
    assert(concat(Seq::<Seq<u8>>::empty()) == Seq::<u8>::empty());
    assert(concat(packet_fields(v)) =~= e0 + e1 + e2 + e3 + e4 + e5 + e6 + e7);
}

/// The encoded fields of a packet are its items, whole, and each is read back.
proof fn lemma_packet_fields(v: PacketView)
    requires
        concat(packet_fields(v)).len() <= usize::MAX,
    ensures
        split_items_of(packet_fields(v)),
        dec_uint(enc_uint(v.sequence as nat), 2) == Some(v.sequence as nat),
        dec_text(enc_text(v.source_port_id)) == Some(v.source_port_id),
        dec_text(enc_text(v.source_channel_id)) == Some(v.source_channel_id),
        dec_text(enc_text(v.destination_port_id)) == Some(v.destination_port_id),
        dec_text(enc_text(v.destination_channel_id)) == Some(v.destination_channel_id),
        string_payload(enc_string(v.data)) == Some(v.data),
        dec_uint(enc_uint(v.timeout_height as nat), 8) == Some(v.timeout_height as nat),
        dec_uint(enc_uint(v.timeout_timestamp as nat), 8) == Some(v.timeout_timestamp as nat),
{
    let f = packet_fields(v);
    lemma_packet_concat(v);
    reveal_with_fuel(p256, 3);
    lemma_uint_field(v.sequence as nat, 2);
    lemma_text_field(v.source_port_id);
    lemma_text_field(v.source_channel_id);
    lemma_text_field(v.destination_port_id);
    lemma_text_field(v.destination_channel_id);
    lemma_bytes_field(v.data);
    lemma_p256_8();
    lemma_uint_field(v.timeout_height as nat, 8);
    lemma_uint_field(v.timeout_timestamp as nat, 8);
    assert forall|i: int| 0 <= i < f.len() implies whole_item(#[trigger] f[i]) by {
        if i == 0 {
        } else if i == 1 {
        } else if i == 2 {
        } else if i == 3 {
        } else if i == 4 {
        } else if i == 5 {
        } else if i == 6 {
        } else {
        }
    }
    lemma_split_concat(f);
    lemma_whole_list(concat(f));
}

/// `fs` are whole items and the list of them splits back into them.
pub open spec fn split_items_of(fs: Seq<Seq<u8>>) -> bool {
    &&& forall|i: int| 0 <= i < fs.len() ==> whole_item(#[trigger] fs[i])
    &&& list_items(enc_list(concat(fs))) == Some(fs)
    &&& whole_item(enc_list(concat(fs)))
}

impl Object for Packet {
    open spec fn wire(v: PacketView) -> Seq<u8> {
        enc_list(concat(packet_fields(v)))
    }

    open spec fn parse(data: Seq<u8>) -> Option<PacketView> {
        match list_items(data) {
            Some(it) => if it.len() == 8 && dec_uint(it[0], 2) is Some && dec_text(it[1]) is Some
                && dec_text(it[2]) is Some && dec_text(it[3]) is Some && dec_text(it[4]) is Some
                && string_payload(it[5]) is Some && dec_uint(it[6], 8) is Some && dec_uint(
                it[7],
                8,
            ) is Some {
                Some(
                    PacketView {
                        sequence: dec_uint(it[0], 2)->Some_0 as u16,
                        source_port_id: dec_text(it[1])->Some_0,
                        source_channel_id: dec_text(it[2])->Some_0,
                        destination_port_id: dec_text(it[3])->Some_0,
                        destination_channel_id: dec_text(it[4])->Some_0,
                        data: string_payload(it[5])->Some_0,
                        timeout_height: dec_uint(it[6], 8)->Some_0 as u64,
                        timeout_timestamp: dec_uint(it[7], 8)->Some_0 as u64,
                    },
                )
            } else {
                None
            },
            None => None,
        }
    }

    fn encode(&self) -> (r: Vec<u8>) {
        let mut p: Vec<u8> = Vec::new();
        push_uint(&mut p, self.sequence as u64);
        push_text(&mut p, &self.source_port_id);
        push_text(&mut p, &self.source_channel_id);
        push_text(&mut p, &self.destination_port_id);
        push_text(&mut p, &self.destination_channel_id);
        push_string(&mut p, self.data.as_slice());
        push_uint(&mut p, self.timeout_height);
        push_uint(&mut p, self.timeout_timestamp);
        proof {
            lemma_packet_concat(self@);
            assert(p@ =~= concat(packet_fields(self@)));
        }
        list_of(&p)
    }

    fn decode(data: &[u8]) -> (r: Result<Packet, VerifyError>) {
        assert(data@.subrange(0, data@.len() as int) =~= data@);
        let items = match read_list(data, 0, data.len()) {
            Some(items) => items,
            None => return Err(VerifyError::SerdeError),
        };
        if items.len() != 8 {
            return Err(VerifyError::SerdeError);
        }
        proof {
            reveal_with_fuel(p256, 3);
        }
        let (a, b) = items[0];
        let sequence = match read_uint(data, a, b, 2) {
            Some(v) => v as u16,
            None => return Err(VerifyError::SerdeError),
        };
        let (a, b) = items[1];
        let source_port_id = match read_text(data, a, b) {
            Some(v) => v,
            None => return Err(VerifyError::SerdeError),
        };
        let (a, b) = items[2];
        let source_channel_id = match read_text(data, a, b) {
            Some(v) => v,
            None => return Err(VerifyError::SerdeError),
        };
        let (a, b) = items[3];
        let destination_port_id = match read_text(data, a, b) {
            Some(v) => v,
            None => return Err(VerifyError::SerdeError),
        };
        let (a, b) = items[4];
        let destination_channel_id = match read_text(data, a, b) {
            Some(v) => v,
            None => return Err(VerifyError::SerdeError),
        };
        let (a, b) = items[5];
        let payload = match read_bytes(data, a, b) {
            Some(v) => v,
            None => return Err(VerifyError::SerdeError),
        };
        let (a, b) = items[6];
        let timeout_height = match read_uint(data, a, b, 8) {
            Some(v) => v,
            None => return Err(VerifyError::SerdeError),
        };
        let (a, b) = items[7];
        let timeout_timestamp = match read_uint(data, a, b, 8) {
            Some(v) => v,
            None => return Err(VerifyError::SerdeError),
        };
        Ok(
            Packet {
                sequence,
                source_port_id,
                source_channel_id,
                destination_port_id,
                destination_channel_id,
                data: payload,
                timeout_height,
                timeout_timestamp,
            },
        )
    }

    proof fn lemma_round_trip(v: PacketView) {
        lemma_packet_fields(v);
    }

    proof fn lemma_truncation_rejected(v: PacketView, k: int) {
        lemma_truncated_list(concat(packet_fields(v)), k);
    }

    proof fn lemma_leading_byte_checked(v: PacketView, b: u8) {
        lemma_list_first_byte(concat(packet_fields(v)), b);
    }

    proof fn lemma_canonical(data: Seq<u8>) {
        let it = list_items(data)->Some_0;
        lemma_list_items_inverse(data);
        lemma_uint_canonical(it[0], 2);
        lemma_text_canonical(it[1]);
        lemma_text_canonical(it[2]);
        lemma_text_canonical(it[3]);
        lemma_text_canonical(it[4]);
        lemma_string_canonical(it[5]);
        lemma_uint_canonical(it[6], 8);
        lemma_uint_canonical(it[7], 8);
        reveal_with_fuel(p256, 3);
        lemma_p256_8();
        assert(it =~= packet_fields(Self::parse(data)->Some_0));
    }
}

/// The encoded fields `e0`, `e1` are the items of their list.
proof fn lemma_two_fields(e0: Seq<u8>, e1: Seq<u8>)
    requires
        whole_item(e0),
        whole_item(e1),
        (e0 + e1).len() <= usize::MAX,
    ensures
        concat(Seq::empty().push(e0).push(e1)) == e0 + e1,
        split_items_of(Seq::empty().push(e0).push(e1)),
{
    let f = Seq::<Seq<u8>>::empty().push(e0).push(e1);
    lemma_concat_push(Seq::empty(), e0);
    lemma_concat_push(Seq::empty().push(e0), e1);
    assert(concat(Seq::<Seq<u8>>::empty()) == Seq::<u8>::empty());
    assert(concat(f) =~= e0 + e1);
    assert forall|i: int| 0 <= i < f.len() implies whole_item(#[trigger] f[i]) by {
        if i == 0 {
        } else {
        }
    }
    lemma_split_concat(f);
    lemma_whole_list(concat(f));
}

// ---------------------------------------------------------------------------
/// The acknowledgement of a packet.
pub struct PacketAck {
    pub ack: Vec<u8>,
    pub packet: Packet,
}

/// What a `PacketAck` holds, with texts as character sequences and bytes as
/// byte sequences.
pub struct PacketAckView {
    pub ack: Seq<u8>,
    pub packet: PacketView,
}

impl View for PacketAck {
    type V = PacketAckView;

    open spec fn view(&self) -> PacketAckView {
        PacketAckView { ack: self.ack@, packet: self.packet@ }
    }
}

/// The encoded fields of an acknowledgement, in order.
pub open spec fn packet_ack_fields(v: PacketAckView) -> Seq<Seq<u8>> {
    Seq::empty().push(enc_string(v.ack)).push(Packet::wire(v.packet))
}

proof fn lemma_packet_ack_fields(v: PacketAckView)
    requires
        concat(packet_ack_fields(v)).len() <= usize::MAX,
    ensures
        split_items_of(packet_ack_fields(v)),
        string_payload(enc_string(v.ack)) == Some(v.ack),
        Packet::parse(Packet::wire(v.packet)) == Some(v.packet),
{
    let (e0, e1) = (enc_string(v.ack), Packet::wire(v.packet));
    lemma_concat_push(Seq::empty(), e0);
    lemma_concat_push(Seq::empty().push(e0), e1);
    assert(concat(Seq::<Seq<u8>>::empty()) == Seq::<u8>::empty());
    assert(concat(packet_ack_fields(v)) =~= e0 + e1);
    lemma_bytes_field(v.ack);
    lemma_packet_fields(v.packet);
    Packet::lemma_round_trip(v.packet);
    lemma_two_fields(e0, e1);
}

impl Object for PacketAck {
    open spec fn wire(v: PacketAckView) -> Seq<u8> {
        enc_list(concat(packet_ack_fields(v)))
    }

    open spec fn parse(data: Seq<u8>) -> Option<PacketAckView> {
        match list_items(data) {
            Some(it) => if it.len() == 2 && string_payload(it[0]) is Some && Packet::parse(
                it[1],
            ) is Some {
                Some(
                    PacketAckView {
                        ack: string_payload(it[0])->Some_0,
                        packet: Packet::parse(it[1])->Some_0,
                    },
                )
            } else {
                None
            },
            None => None,
        }
    }

    fn encode(&self) -> (r: Vec<u8>) {
        let mut p: Vec<u8> = Vec::new();
        push_string(&mut p, self.ack.as_slice());
        let e = self.packet.encode();
        push_all(&mut p, e.as_slice());
        proof {
            let (e0, e1) = (enc_string(self.ack@), Packet::wire(self.packet@));
            lemma_concat_push(Seq::empty(), e0);
            lemma_concat_push(Seq::empty().push(e0), e1);
            assert(concat(Seq::<Seq<u8>>::empty()) == Seq::<u8>::empty());
            assert(p@ =~= concat(packet_ack_fields(self@)));
        }
        list_of(&p)
    }

    fn decode(data: &[u8]) -> (r: Result<PacketAck, VerifyError>) {
        assert(data@.subrange(0, data@.len() as int) =~= data@);
        let items = match read_list(data, 0, data.len()) {
            Some(items) => items,
            None => return Err(VerifyError::SerdeError),
        };
        if items.len() != 2 {
            return Err(VerifyError::SerdeError);
        }
        let (a, b) = items[0];
        let ack = match read_bytes(data, a, b) {
            Some(v) => v,
            None => return Err(VerifyError::SerdeError),
        };
        let (a, b) = items[1];
        let packet = match Packet::decode(slice_subrange(data, a, b)) {
            Ok(v) => v,
            Err(_) => return Err(VerifyError::SerdeError),
        };
        Ok(PacketAck { ack, packet })
    }

    proof fn lemma_round_trip(v: PacketAckView) {
        lemma_packet_ack_fields(v);
    }

    proof fn lemma_truncation_rejected(v: PacketAckView, k: int) {
        lemma_truncated_list(concat(packet_ack_fields(v)), k);
    }

    proof fn lemma_leading_byte_checked(v: PacketAckView, b: u8) {
        lemma_list_first_byte(concat(packet_ack_fields(v)), b);
    }

    proof fn lemma_canonical(data: Seq<u8>) {
        let it = list_items(data)->Some_0;
        lemma_list_items_inverse(data);
        lemma_string_canonical(it[0]);
        Packet::lemma_canonical(it[1]);
        assert(it =~= packet_ack_fields(Self::parse(data)->Some_0));
    }
}

// ---------------------------------------------------------------------------
/// One end of a channel.
pub struct ChannelEnd {
    pub state: State,
    pub ordering: Ordering,
    pub remote: ChannelCounterparty,
    pub connection_hops: Vec<String>,
}

/// What a `ChannelEnd` holds, with texts as character sequences and bytes as
/// byte sequences.
pub struct ChannelEndView {
    pub state: State,
    pub ordering: Ordering,
    pub remote: ChannelCounterpartyView,
    pub connection_hops: Seq<Seq<char>>,
}

impl View for ChannelEnd {
    type V = ChannelEndView;

    open spec fn view(&self) -> ChannelEndView {
        ChannelEndView {
            state: self.state,
            ordering: self.ordering,
            remote: self.remote@,
            connection_hops: texts_view(self.connection_hops@),
        }
    }
}

/// The encoded fields of a channel end, in order.
pub open spec fn channel_end_fields(v: ChannelEndView) -> Seq<Seq<u8>> {
    Seq::empty().push(State::wire(v.state)).push(Ordering::wire(v.ordering)).push(
        ChannelCounterparty::wire(v.remote),
    ).push(enc_texts(v.connection_hops))
}

proof fn lemma_channel_end_fields(v: ChannelEndView)
    requires
        concat(channel_end_fields(v)).len() <= usize::MAX,
    ensures
        split_items_of(channel_end_fields(v)),
        State::parse(State::wire(v.state)) == Some(v.state),
        Ordering::parse(Ordering::wire(v.ordering)) == Some(v.ordering),
        ChannelCounterparty::parse(ChannelCounterparty::wire(v.remote)) == Some(v.remote),
        dec_texts(enc_texts(v.connection_hops)) == Some(v.connection_hops),
{
    let e0 = State::wire(v.state);
    let e1 = Ordering::wire(v.ordering);
    let e2 = ChannelCounterparty::wire(v.remote);
    let e3 = enc_texts(v.connection_hops);
    let s0 = Seq::<Seq<u8>>::empty();
    lemma_concat_push(s0, e0);
    lemma_concat_push(s0.push(e0), e1);
    lemma_concat_push(s0.push(e0).push(e1), e2);
    lemma_concat_push(s0.push(e0).push(e1).push(e2), e3);
    assert(concat(s0) == Seq::<u8>::empty());
    let f = channel_end_fields(v);
    assert(concat(f) =~= e0 + e1 + e2 + e3);
    lemma_whole_list(enc_uint(state_tag(v.state)));
    lemma_whole_list(enc_uint(ordering_tag(v.ordering)));
    lemma_whole_list(concat(channel_counterparty_fields(v.remote)));
    State::lemma_round_trip(v.state);
    Ordering::lemma_round_trip(v.ordering);
    ChannelCounterparty::lemma_round_trip(v.remote);
    lemma_dec_texts(v.connection_hops);
    assert forall|i: int| 0 <= i < f.len() implies whole_item(#[trigger] f[i]) by {
        if i == 0 {
        } else if i == 1 {
        } else if i == 2 {
        } else {
        }
    }
    lemma_split_concat(f);
    lemma_whole_list(concat(f));
}

impl Object for ChannelEnd {
    open spec fn wire(v: ChannelEndView) -> Seq<u8> {
        enc_list(concat(channel_end_fields(v)))
    }

    open spec fn parse(data: Seq<u8>) -> Option<ChannelEndView> {
        match list_items(data) {
            Some(it) => if it.len() == 4 && State::parse(it[0]) is Some && Ordering::parse(
                it[1],
            ) is Some && ChannelCounterparty::parse(it[2]) is Some && dec_texts(it[3]) is Some {
                Some(
                    ChannelEndView {
                        state: State::parse(it[0])->Some_0,
                        ordering: Ordering::parse(it[1])->Some_0,
                        remote: ChannelCounterparty::parse(it[2])->Some_0,
                        connection_hops: dec_texts(it[3])->Some_0,
                    },
                )
            } else {
                None
            },
            None => None,
        }
    }

    fn encode(&self) -> (r: Vec<u8>) {
        let mut p: Vec<u8> = Vec::new();
        let e = self.state.encode();
        push_all(&mut p, e.as_slice());
        let e = self.ordering.encode();
        push_all(&mut p, e.as_slice());
        let e = self.remote.encode();
        push_all(&mut p, e.as_slice());
        push_texts(&mut p, &self.connection_hops);
        proof {
            let v = self@;
            let e0 = State::wire(v.state);
            let e1 = Ordering::wire(v.ordering);
            let e2 = ChannelCounterparty::wire(v.remote);
            let e3 = enc_texts(v.connection_hops);
            let s0 = Seq::<Seq<u8>>::empty();
            lemma_concat_push(s0, e0);
            lemma_concat_push(s0.push(e0), e1);
            lemma_concat_push(s0.push(e0).push(e1), e2);
            lemma_concat_push(s0.push(e0).push(e1).push(e2), e3);
            assert(concat(s0) == Seq::<u8>::empty());
            assert(p@ =~= concat(channel_end_fields(v)));
        }
        list_of(&p)
    }

    fn decode(data: &[u8]) -> (r: Result<ChannelEnd, VerifyError>) {
        assert(data@.subrange(0, data@.len() as int) =~= data@);
        let items = match read_list(data, 0, data.len()) {
            Some(items) => items,
            None => return Err(VerifyError::SerdeError),
        };
        if items.len() != 4 {
            return Err(VerifyError::SerdeError);
        }
        let (a, b) = items[0];
        let state = match State::decode(slice_subrange(data, a, b)) {
            Ok(v) => v,
            Err(_) => return Err(VerifyError::SerdeError),
        };
        let (a, b) = items[1];
        let ordering = match Ordering::decode(slice_subrange(data, a, b)) {
            Ok(v) => v,
            Err(_) => return Err(VerifyError::SerdeError),
        };
        let (a, b) = items[2];
        let remote = match ChannelCounterparty::decode(slice_subrange(data, a, b)) {
            Ok(v) => v,
            Err(_) => return Err(VerifyError::SerdeError),
        };
        let (a, b) = items[3];
        let connection_hops = match read_texts(data, a, b) {
            Some(v) => v,
            None => return Err(VerifyError::SerdeError),
        };
        Ok(ChannelEnd { state, ordering, remote, connection_hops })
    }

    proof fn lemma_round_trip(v: ChannelEndView) {
        lemma_channel_end_fields(v);
    }

    proof fn lemma_truncation_rejected(v: ChannelEndView, k: int) {
        lemma_truncated_list(concat(channel_end_fields(v)), k);
    }

    proof fn lemma_leading_byte_checked(v: ChannelEndView, b: u8) {
        lemma_list_first_byte(concat(channel_end_fields(v)), b);
    }

    proof fn lemma_canonical(data: Seq<u8>) {
        let it = list_items(data)->Some_0;
        lemma_list_items_inverse(data);
        State::lemma_canonical(it[0]);
        Ordering::lemma_canonical(it[1]);
        ChannelCounterparty::lemma_canonical(it[2]);
        lemma_texts_canonical(it[3]);
        assert(it =~= channel_end_fields(Self::parse(data)->Some_0));
    }
}

// ---------------------------------------------------------------------------
/// An optional text: an empty list when absent, a one-item list when present.
pub open spec fn enc_opt_text(o: Option<Seq<char>>) -> Seq<u8> {
    match o {
        None => enc_list(Seq::empty()),
        Some(t) => enc_list(enc_text(t)),
    }
}

/// The optional text that `s` encodes.
pub open spec fn dec_opt_text(s: Seq<u8>) -> Option<Option<Seq<char>>> {
    match list_items(s) {
        Some(it) => if it.len() == 0 {
            Some(None)
        } else if it.len() == 1 && dec_text(it[0]) is Some {
            Some(Some(dec_text(it[0])->Some_0))
        } else {
            None
        },
        None => None,
    }
}

/// The view of an optional string.
pub open spec fn opt_text_view(o: Option<String>) -> Option<Seq<char>> {
    match o {
        Some(s) => Some(s@),
        None => None,
    }
}

proof fn lemma_opt_text_field(o: Option<Seq<char>>)
    requires
        enc_opt_text(o).len() <= usize::MAX,
    ensures
        whole_item(enc_opt_text(o)),
        dec_opt_text(enc_opt_text(o)) == Some(o),
{
    match o {
        None => {
            lemma_whole_list(Seq::empty());
        },
        Some(t) => {
            let e = enc_text(t);
            lemma_text_field(t);
            let f = Seq::<Seq<u8>>::empty().push(e);
            lemma_concat_push(Seq::empty(), e);
            assert(concat(Seq::<Seq<u8>>::empty()) == Seq::<u8>::empty());
            assert(concat(f) =~= e);
            assert forall|i: int| 0 <= i < f.len() implies whole_item(#[trigger] f[i]) by {}
            lemma_split_concat(f);
            lemma_whole_list(e);
        },
    }
}

proof fn lemma_opt_text_canonical(s: Seq<u8>)
    requires
        dec_opt_text(s) is Some,
    ensures
        s == enc_opt_text(dec_opt_text(s)->Some_0),
{
    let it = list_items(s)->Some_0;
    lemma_list_items_inverse(s);
    assert(concat(Seq::<Seq<u8>>::empty()) == Seq::<u8>::empty());
    if it.len() == 0 {
        assert(it =~= Seq::<Seq<u8>>::empty());
    } else {
        lemma_text_canonical(it[0]);
        lemma_concat_push(Seq::empty(), it[0]);
        assert(it =~= Seq::<Seq<u8>>::empty().push(it[0]));
        assert(concat(it) =~= it[0]);
    }
}

fn push_opt_text(out: &mut Vec<u8>, o: &Option<String>)
    ensures
        final(out)@ == old(out)@ + enc_opt_text(opt_text_view(*o)),
{
    let mut p: Vec<u8> = Vec::new();
    match o {
        Some(t) => {
            push_text(&mut p, t);
            assert(p@ =~= enc_text(t@));
        },
        None => {
            assert(p@ =~= Seq::<u8>::empty());
        },
    }
    let e = list_of(&p);
    push_all(out, e.as_slice());
}

fn read_opt_text(data: &[u8], start: usize, end: usize) -> (r: Option<Option<String>>)
    requires
        start <= end <= data@.len(),
    ensures
        match dec_opt_text(data@.subrange(start as int, end as int)) {
            Some(o) => r is Some && opt_text_view(r->Some_0) == o,
            None => r is None,
        },
{
    let items = match read_list(data, start, end) {
        Some(items) => items,
        None => return None,
    };
    if items.len() == 0 {
        Some(None)
    } else if items.len() == 1 {
        let (a, b) = items[0];
        match read_text(data, a, b) {
            Some(t) => Some(Some(t)),
            None => None,
        }
    } else {
        None
    }
}

/// The commitment prefix that every chain of the protocol uses.
pub const COMMITMENT_PREFIX: [u8; 3] = [105, 98, 99];

/// The bytes of the protocol-wide commitment prefix, "ibc".
pub open spec fn default_prefix() -> Seq<u8> {
    seq![105u8, 98u8, 99u8]
}

/// The remote end of a connection.
#[derive(Debug, PartialEq, Eq, Clone)]
pub struct ConnectionCounterparty {
    pub client_id: String,
    pub connection_id: Option<String>,
    pub commitment_prefix: Vec<u8>,
}

/// What a `ConnectionCounterparty` holds, with texts as character sequences and bytes as
/// byte sequences.
pub struct ConnectionCounterpartyView {
    pub client_id: Seq<char>,
    pub connection_id: Option<Seq<char>>,
    pub commitment_prefix: Seq<u8>,
}

impl View for ConnectionCounterparty {
    type V = ConnectionCounterpartyView;

    open spec fn view(&self) -> ConnectionCounterpartyView {
        ConnectionCounterpartyView {
            client_id: self.client_id@,
            connection_id: opt_text_view(self.connection_id),
            commitment_prefix: self.commitment_prefix@,
        }
    }
}

impl Default for ConnectionCounterparty {
    fn default() -> (r: ConnectionCounterparty)
        ensures
            r@.client_id == Seq::<char>::empty(),
            r@.connection_id is None,
            r@.commitment_prefix == default_prefix(),
    {
        let prefix = COMMITMENT_PREFIX;
        let mut commitment_prefix: Vec<u8> = Vec::new();
        commitment_prefix.push(prefix[0]);
        commitment_prefix.push(prefix[1]);
        commitment_prefix.push(prefix[2]);
        assert(commitment_prefix@ =~= default_prefix());
        ConnectionCounterparty { client_id: String::new(), connection_id: None, commitment_prefix }
    }
}

/// The encoded fields of a connection counterparty, in order.
pub open spec fn connection_counterparty_fields(v: ConnectionCounterpartyView) -> Seq<Seq<u8>> {
    Seq::empty().push(enc_text(v.client_id)).push(enc_opt_text(v.connection_id)).push(
        enc_string(v.commitment_prefix),
    )
}

proof fn lemma_connection_counterparty_fields(v: ConnectionCounterpartyView)
    requires
        concat(connection_counterparty_fields(v)).len() <= usize::MAX,
    ensures
        split_items_of(connection_counterparty_fields(v)),
        dec_text(enc_text(v.client_id)) == Some(v.client_id),
        dec_opt_text(enc_opt_text(v.connection_id)) == Some(v.connection_id),
        string_payload(enc_string(v.commitment_prefix)) == Some(v.commitment_prefix),
{
    let e0 = enc_text(v.client_id);
    let e1 = enc_opt_text(v.connection_id);
    let e2 = enc_string(v.commitment_prefix);
    let s0 = Seq::<Seq<u8>>::empty();
    lemma_concat_push(s0, e0);
    lemma_concat_push(s0.push(e0), e1);
    lemma_concat_push(s0.push(e0).push(e1), e2);
    assert(concat(s0) == Seq::<u8>::empty());
    let f = connection_counterparty_fields(v);
    assert(concat(f) =~= e0 + e1 + e2);
    lemma_text_field(v.client_id);
    lemma_opt_text_field(v.connection_id);
    lemma_bytes_field(v.commitment_prefix);
    assert forall|i: int| 0 <= i < f.len() implies whole_item(#[trigger] f[i]) by {
        if i == 0 {
        } else if i == 1 {
        } else {
        }
    }
    lemma_split_concat(f);
    lemma_whole_list(concat(f));
}

impl Object for ConnectionCounterparty {
    open spec fn wire(v: ConnectionCounterpartyView) -> Seq<u8> {
        enc_list(concat(connection_counterparty_fields(v)))
    }

    open spec fn parse(data: Seq<u8>) -> Option<ConnectionCounterpartyView> {
        match list_items(data) {
            Some(it) => if it.len() == 3 && dec_text(it[0]) is Some && dec_opt_text(it[1]) is Some
                && string_payload(it[2]) is Some {
                Some(
                    ConnectionCounterpartyView {
                        client_id: dec_text(it[0])->Some_0,
                        connection_id: dec_opt_text(it[1])->Some_0,
                        commitment_prefix: string_payload(it[2])->Some_0,
                    },
                )
            } else {
                None
            },
            None => None,
        }
    }

    fn encode(&self) -> (r: Vec<u8>) {
        let mut p: Vec<u8> = Vec::new();
        push_text(&mut p, &self.client_id);
        push_opt_text(&mut p, &self.connection_id);
        push_string(&mut p, self.commitment_prefix.as_slice());
        proof {
            let v = self@;
            let e0 = enc_text(v.client_id);
            let e1 = enc_opt_text(v.connection_id);
            let e2 = enc_string(v.commitment_prefix);
            let s0 = Seq::<Seq<u8>>::empty();
            lemma_concat_push(s0, e0);
            lemma_concat_push(s0.push(e0), e1);
            lemma_concat_push(s0.push(e0).push(e1), e2);
            assert(concat(s0) == Seq::<u8>::empty());
            assert(p@ =~= concat(connection_counterparty_fields(v)));
        }
        list_of(&p)
    }

    fn decode(data: &[u8]) -> (r: Result<ConnectionCounterparty, VerifyError>) {
        assert(data@.subrange(0, data@.len() as int) =~= data@);
        let items = match read_list(data, 0, data.len()) {
            Some(items) => items,
            None => return Err(VerifyError::SerdeError),
        };
        if items.len() != 3 {
            return Err(VerifyError::SerdeError);
        }
        let (a, b) = items[0];
        let client_id = match read_text(data, a, b) {
            Some(v) => v,
            None => return Err(VerifyError::SerdeError),
        };
        let (a, b) = items[1];
        let connection_id = match read_opt_text(data, a, b) {
            Some(v) => v,
            None => return Err(VerifyError::SerdeError),
        };
        let (a, b) = items[2];
        let commitment_prefix = match read_bytes(data, a, b) {
            Some(v) => v,
            None => return Err(VerifyError::SerdeError),
        };
        Ok(ConnectionCounterparty { client_id, connection_id, commitment_prefix })
    }

    proof fn lemma_round_trip(v: ConnectionCounterpartyView) {
        lemma_connection_counterparty_fields(v);
    }

    proof fn lemma_truncation_rejected(v: ConnectionCounterpartyView, k: int) {
        lemma_truncated_list(concat(connection_counterparty_fields(v)), k);
    }

    proof fn lemma_leading_byte_checked(v: ConnectionCounterpartyView, b: u8) {
        lemma_list_first_byte(concat(connection_counterparty_fields(v)), b);
    }

    proof fn lemma_canonical(data: Seq<u8>) {
        let it = list_items(data)->Some_0;
        lemma_list_items_inverse(data);
        lemma_text_canonical(it[0]);
        lemma_opt_text_canonical(it[1]);
        lemma_string_canonical(it[2]);
        assert(it =~= connection_counterparty_fields(Self::parse(data)->Some_0));
    }
}

/// An absent connection id and an empty one are told apart on the wire.
pub proof fn lemma_absent_differs_from_empty(a: ConnectionCounterpartyView, b: ConnectionCounterpartyView)
    requires
        a.connection_id is None,
        b.connection_id == Some(Seq::<char>::empty()),
        ConnectionCounterparty::wire(a).len() <= usize::MAX,
        ConnectionCounterparty::wire(b).len() <= usize::MAX,
    ensures
        ConnectionCounterparty::wire(a) != ConnectionCounterparty::wire(b),
        ConnectionCounterparty::parse(ConnectionCounterparty::wire(a))->Some_0.connection_id is None,
{
    ConnectionCounterparty::lemma_round_trip(a);
    ConnectionCounterparty::lemma_round_trip(b);
}

// ---------------------------------------------------------------------------
/// A protocol version with the features it offers, in order.
#[derive(Debug, PartialEq, Eq, Clone)]
pub struct Version {
    pub identifier: String,
    pub features: Vec<String>,
}

/// What a `Version` holds, with texts as character sequences and bytes as
/// byte sequences.
pub struct VersionView {
    pub identifier: Seq<char>,
    pub features: Seq<Seq<char>>,
}

impl View for Version {
    type V = VersionView;

    open spec fn view(&self) -> VersionView {
        VersionView { identifier: self.identifier@, features: texts_view(self.features@) }
    }
}

impl Default for Version {
    fn default() -> (r: Version)
        ensures
            r@.identifier == "1"@,
            r@.features == seq!["ORDER_ORDERED"@, "ORDER_UNORDERED"@],
    {
        let features = vec!["ORDER_ORDERED".to_owned(), "ORDER_UNORDERED".to_owned()];
        let r = Version { identifier: "1".to_owned(), features };
        assert(r@.features =~= seq!["ORDER_ORDERED"@, "ORDER_UNORDERED"@]);
        r
    }
}

/// The encoded fields of a version, in order.
pub open spec fn version_fields(v: VersionView) -> Seq<Seq<u8>> {
    Seq::empty().push(enc_text(v.identifier)).push(enc_texts(v.features))
}

proof fn lemma_version_fields(v: VersionView)
    requires
        concat(version_fields(v)).len() <= usize::MAX,
    ensures
        split_items_of(version_fields(v)),
        dec_text(enc_text(v.identifier)) == Some(v.identifier),
        dec_texts(enc_texts(v.features)) == Some(v.features),
{
    let (e0, e1) = (enc_text(v.identifier), enc_texts(v.features));
    lemma_concat_push(Seq::empty(), e0);
    lemma_concat_push(Seq::empty().push(e0), e1);
    assert(concat(Seq::<Seq<u8>>::empty()) == Seq::<u8>::empty());
    assert(concat(version_fields(v)) =~= e0 + e1);
    lemma_text_field(v.identifier);
    lemma_dec_texts(v.features);
    lemma_two_fields(e0, e1);
}

impl Object for Version {
    open spec fn wire(v: VersionView) -> Seq<u8> {
        enc_list(concat(version_fields(v)))
    }

    open spec fn parse(data: Seq<u8>) -> Option<VersionView> {
        match list_items(data) {
            Some(it) => if it.len() == 2 && dec_text(it[0]) is Some && dec_texts(it[1]) is Some {
                Some(
                    VersionView {
                        identifier: dec_text(it[0])->Some_0,
                        features: dec_texts(it[1])->Some_0,
                    },
                )
            } else {
                None
            },
            None => None,
        }
    }

    fn encode(&self) -> (r: Vec<u8>) {
        let mut p: Vec<u8> = Vec::new();
        push_text(&mut p, &self.identifier);
        push_texts(&mut p, &self.features);
        proof {
            let (e0, e1) = (enc_text(self@.identifier), enc_texts(self@.features));
            lemma_concat_push(Seq::empty(), e0);
            lemma_concat_push(Seq::empty().push(e0), e1);
            assert(concat(Seq::<Seq<u8>>::empty()) == Seq::<u8>::empty());
            assert(p@ =~= concat(version_fields(self@)));
        }
        list_of(&p)
    }

    fn decode(data: &[u8]) -> (r: Result<Version, VerifyError>) {
        assert(data@.subrange(0, data@.len() as int) =~= data@);
        let items = match read_list(data, 0, data.len()) {
            Some(items) => items,
            None => return Err(VerifyError::SerdeError),
        };
        if items.len() != 2 {
            return Err(VerifyError::SerdeError);
        }
        let (a, b) = items[0];
        let identifier = match read_text(data, a, b) {
            Some(v) => v,
            None => return Err(VerifyError::SerdeError),
        };
        let (a, b) = items[1];
        let features = match read_texts(data, a, b) {
            Some(v) => v,
            None => return Err(VerifyError::SerdeError),
        };
        Ok(Version { identifier, features })
    }

    proof fn lemma_round_trip(v: VersionView) {
        lemma_version_fields(v);
    }

    proof fn lemma_truncation_rejected(v: VersionView, k: int) {
        lemma_truncated_list(concat(version_fields(v)), k);
    }

    proof fn lemma_leading_byte_checked(v: VersionView, b: u8) {
        lemma_list_first_byte(concat(version_fields(v)), b);
    }

    proof fn lemma_canonical(data: Seq<u8>) {
        let it = list_items(data)->Some_0;
        lemma_list_items_inverse(data);
        lemma_text_canonical(it[0]);
        lemma_texts_canonical(it[1]);
        assert(it =~= version_fields(Self::parse(data)->Some_0));
    }
}

/// The views of a vector of versions.
pub open spec fn versions_view(v: Seq<Version>) -> Seq<VersionView> {
    v.map_values(|x: Version| x@)
}

/// The encoded versions, concatenated in order.
pub open spec fn concat_versions(vs: Seq<VersionView>) -> Seq<u8>
    decreases vs.len(),
{
    if vs.len() == 0 {
        Seq::empty()
    } else {
        concat_versions(vs.drop_last()) + Version::wire(vs.last())
    }
}

/// A sequence of versions as a list.
pub open spec fn enc_versions(vs: Seq<VersionView>) -> Seq<u8> {
    enc_list(concat_versions(vs))
}

/// The versions of a sequence of items, if each is a version.
pub open spec fn dec_version_items(items: Seq<Seq<u8>>) -> Option<Seq<VersionView>>
    decreases items.len(),
{
    if items.len() == 0 {
        Some(Seq::empty())
    } else {
        match (dec_version_items(items.drop_last()), Version::parse(items.last())) {
            (Some(a), Some(t)) => Some(a.push(t)),
            _ => None,
        }
    }
}

/// The sequence of versions that the list `s` encodes.
pub open spec fn dec_versions(s: Seq<u8>) -> Option<Seq<VersionView>> {
    match list_items(s) {
        Some(items) => dec_version_items(items),
        None => None,
    }
}

proof fn lemma_versions_bound(vs: Seq<VersionView>)
    ensures
        forall|i: int|
            0 <= i < vs.len() ==> Version::wire(#[trigger] vs[i]).len() <= concat_versions(vs).len(),
    decreases vs.len(),
{
    if vs.len() > 0 {
        lemma_versions_bound(vs.drop_last());
        assert forall|i: int| 0 <= i < vs.len() implies Version::wire(#[trigger] vs[i]).len()
            <= concat_versions(vs).len() by {
            if i < vs.len() - 1 {
                assert(vs[i] == vs.drop_last()[i]);
            }
        }
    }
}

proof fn lemma_split_versions(vs: Seq<VersionView>, rest: Seq<u8>)
    requires
        forall|i: int| 0 <= i < vs.len() ==> Version::wire(#[trigger] vs[i]).len() <= usize::MAX,
    ensures
        split_items(concat_versions(vs) + rest) == match split_items(rest) {
            Some(r) => Some(vs.map_values(|v: VersionView| Version::wire(v)) + r),
            None => None::<Seq<Seq<u8>>>,
        },
    decreases vs.len(),
{
    if vs.len() > 0 {
        let last = vs.last();
        let e = Version::wire(last);
        lemma_version_fields(last);
        lemma_header_extend(e, rest);
        lemma_split_cons(e, rest);
        assert(concat_versions(vs) + rest =~= concat_versions(vs.drop_last()) + (e + rest));
        lemma_split_versions(vs.drop_last(), e + rest);
        match split_items(rest) {
            Some(r) => {
                assert(vs.drop_last().map_values(|v: VersionView| Version::wire(v)) + (seq![e] + r)
                    =~= vs.map_values(|v: VersionView| Version::wire(v)) + r);
            },
            None => {},
        }
    } else {
        assert(concat_versions(vs) + rest =~= rest);
        match split_items(rest) {
            Some(r) => {
                assert(vs.map_values(|v: VersionView| Version::wire(v)) + r =~= r);
            },
            None => {},
        }
    }
}

proof fn lemma_dec_version_items(vs: Seq<VersionView>)
    requires
        forall|i: int| 0 <= i < vs.len() ==> Version::wire(#[trigger] vs[i]).len() <= usize::MAX,
    ensures
        dec_version_items(vs.map_values(|v: VersionView| Version::wire(v))) == Some(vs),
    decreases vs.len(),
{
    if vs.len() > 0 {
        let items = vs.map_values(|v: VersionView| Version::wire(v));
        assert(items.drop_last() =~= vs.drop_last().map_values(|v: VersionView| Version::wire(v)));
        lemma_dec_version_items(vs.drop_last());
        Version::lemma_round_trip(vs.last());
        assert(vs.drop_last().push(vs.last()) =~= vs);
    } else {
        assert(vs.map_values(|v: VersionView| Version::wire(v)) =~= Seq::<Seq<u8>>::empty());
    }
}

proof fn lemma_dec_version_items_fail(items: Seq<Seq<u8>>, k: int)
    requires
        0 <= k < items.len(),
        Version::parse(items[k]) is None,
    ensures
        dec_version_items(items) is None,
    decreases items.len(),
{
    if k < items.len() - 1 {
        lemma_dec_version_items_fail(items.drop_last(), k);
    }
}

/// A list of versions is one item, and is read back.
proof fn lemma_dec_versions(vs: Seq<VersionView>)
    requires
        enc_versions(vs).len() <= usize::MAX,
    ensures
        dec_versions(enc_versions(vs)) == Some(vs),
        whole_item(enc_versions(vs)),
{
    lemma_versions_bound(vs);
    let p = concat_versions(vs);
    lemma_whole_list(p);
    lemma_split_versions(vs, Seq::empty());
    assert(p + Seq::<u8>::empty() =~= p);
    lemma_split_empty();
    assert(vs.map_values(|v: VersionView| Version::wire(v)) + Seq::<Seq<u8>>::empty()
        =~= vs.map_values(|v: VersionView| Version::wire(v)));
    lemma_dec_version_items(vs);
}

proof fn lemma_concat_versions(vs: Seq<VersionView>)
    ensures
        concat(vs.map_values(|v: VersionView| Version::wire(v))) == concat_versions(vs),
    decreases vs.len(),
{
    if vs.len() > 0 {
        lemma_concat_versions(vs.drop_last());
        let m = vs.map_values(|v: VersionView| Version::wire(v));
        assert(m =~= vs.drop_last().map_values(|v: VersionView| Version::wire(v)).push(
            Version::wire(vs.last()),
        ));
        lemma_concat_push(
            vs.drop_last().map_values(|v: VersionView| Version::wire(v)),
            Version::wire(vs.last()),
        );
    } else {
        assert(vs.map_values(|v: VersionView| Version::wire(v)) =~= Seq::<Seq<u8>>::empty());
    }
}

proof fn lemma_version_items_canonical(items: Seq<Seq<u8>>)
    requires
        dec_version_items(items) is Some,
    ensures
        items == dec_version_items(items)->Some_0.map_values(|v: VersionView| Version::wire(v)),
    decreases items.len(),
{
    if items.len() > 0 {
        lemma_version_items_canonical(items.drop_last());
        Version::lemma_canonical(items.last());
        let vs = dec_version_items(items)->Some_0;
        let a = dec_version_items(items.drop_last())->Some_0;
        assert(vs == a.push(Version::parse(items.last())->Some_0));
        assert forall|i: int| 0 <= i < items.len() implies items[i] == Version::wire(vs[i]) by {
            if i < items.len() - 1 {
                assert(items[i] == items.drop_last()[i]);
                assert(vs[i] == a[i]);
            }
        }
        assert(items =~= vs.map_values(|v: VersionView| Version::wire(v)));
    } else {
        assert(items =~= dec_version_items(items)->Some_0.map_values(
            |v: VersionView| Version::wire(v),
        ));
    }
}

/// A list of versions that is read is encoded as it was read.
proof fn lemma_versions_canonical(s: Seq<u8>)
    requires
        dec_versions(s) is Some,
    ensures
        s == enc_versions(dec_versions(s)->Some_0),
{
    let items = list_items(s)->Some_0;
    lemma_list_items_inverse(s);
    lemma_version_items_canonical(items);
    lemma_concat_versions(dec_versions(s)->Some_0);
}

fn push_versions(out: &mut Vec<u8>, vs: &Vec<Version>)
    ensures
        final(out)@ == old(out)@ + enc_versions(versions_view(vs@)),
{
    let mut payload: Vec<u8> = Vec::new();
    let mut i: usize = 0;
    while i < vs.len()
        invariant
            i <= vs@.len(),
            payload@ == concat_versions(versions_view(vs@).subrange(0, i as int)),
        decreases vs@.len() - i,
    {
        let e = vs[i].encode();
        push_all(&mut payload, e.as_slice());
        proof {
            let a = versions_view(vs@).subrange(0, i + 1);
            assert(a.drop_last() =~= versions_view(vs@).subrange(0, i as int));
        }
        i += 1;
    }
    assert(versions_view(vs@).subrange(0, i as int) =~= versions_view(vs@));
    let e = list_of(&payload);
    push_all(out, e.as_slice());
}

fn read_versions(data: &[u8], start: usize, end: usize) -> (r: Option<Vec<Version>>)
    requires
        start <= end <= data@.len(),
    ensures
        match dec_versions(data@.subrange(start as int, end as int)) {
            Some(vs) => r is Some && versions_view(r->Some_0@) == vs,
            None => r is None,
        },
{
    let ghost s = data@.subrange(start as int, end as int);
    let items = match read_list(data, start, end) {
        Some(items) => items,
        None => {
            return None;
        },
    };
    let ghost its = list_items(s)->Some_0;
    let mut out: Vec<Version> = Vec::new();
    let mut i: usize = 0;
    while i < items.len()
        invariant
            i <= items@.len() == its.len(),
            forall|k: int|
                0 <= k < its.len() ==> start <= (#[trigger] items@[k]).0 <= items@[k].1 <= end
                    && its[k] == data@.subrange(items@[k].0 as int, items@[k].1 as int),
            end <= data@.len(),
            list_items(s) == Some(its),
            s == data@.subrange(start as int, end as int),
            dec_version_items(its.subrange(0, i as int)) == Some(versions_view(out@)),
        decreases items@.len() - i,
    {
        let (a, b) = items[i];
        assert(its[i as int] == data@.subrange(a as int, b as int));
        match Version::decode(slice_subrange(data, a, b)) {
            Ok(v) => {
                proof {
                    let sub = its.subrange(0, i + 1);
                    assert(sub.drop_last() =~= its.subrange(0, i as int));
                }
                let ghost prev = versions_view(out@);
                out.push(v);
                assert(versions_view(out@) =~= prev.push(v@));
                i += 1;
            },
            Err(_) => {
                proof {
                    lemma_dec_version_items_fail(its, i as int);
                }
                return None;
            },
        }
    }
    assert(its.subrange(0, i as int) =~= its);
    Some(out)
}

// ---------------------------------------------------------------------------
/// One end of a connection.
#[derive(Debug, PartialEq, Eq, Clone)]
pub struct ConnectionEnd {
    pub state: State,
    pub client_id: String,
    pub counterparty: ConnectionCounterparty,
    pub delay_period: u64,
    pub versions: Vec<Version>,
}

/// What a `ConnectionEnd` holds, with texts as character sequences and bytes as
/// byte sequences.
pub struct ConnectionEndView {
    pub state: State,
    pub client_id: Seq<char>,
    pub counterparty: ConnectionCounterpartyView,
    pub delay_period: u64,
    pub versions: Seq<VersionView>,
}

impl View for ConnectionEnd {
    type V = ConnectionEndView;

    open spec fn view(&self) -> ConnectionEndView {
        ConnectionEndView {
            state: self.state,
            client_id: self.client_id@,
            counterparty: self.counterparty@,
            delay_period: self.delay_period,
            versions: versions_view(self.versions@),
        }
    }
}

/// The encoded fields of a connection end, in order.
pub open spec fn connection_end_fields(v: ConnectionEndView) -> Seq<Seq<u8>> {
    Seq::empty().push(State::wire(v.state)).push(enc_text(v.client_id)).push(
        ConnectionCounterparty::wire(v.counterparty),
    ).push(enc_uint(v.delay_period as nat)).push(enc_versions(v.versions))
}

proof fn lemma_connection_end_fields(v: ConnectionEndView)
    requires
        concat(connection_end_fields(v)).len() <= usize::MAX,
    ensures
        split_items_of(connection_end_fields(v)),
        State::parse(State::wire(v.state)) == Some(v.state),
        dec_text(enc_text(v.client_id)) == Some(v.client_id),
        ConnectionCounterparty::parse(ConnectionCounterparty::wire(v.counterparty)) == Some(
            v.counterparty,
        ),
        dec_uint(enc_uint(v.delay_period as nat), 8) == Some(v.delay_period as nat),
        dec_versions(enc_versions(v.versions)) == Some(v.versions),
{
    let e0 = State::wire(v.state);
    let e1 = enc_text(v.client_id);
    let e2 = ConnectionCounterparty::wire(v.counterparty);
    let e3 = enc_uint(v.delay_period as nat);
    let e4 = enc_versions(v.versions);
    let s0 = Seq::<Seq<u8>>::empty();
    lemma_concat_push(s0, e0);
    lemma_concat_push(s0.push(e0), e1);
    lemma_concat_push(s0.push(e0).push(e1), e2);
    lemma_concat_push(s0.push(e0).push(e1).push(e2), e3);
    lemma_concat_push(s0.push(e0).push(e1).push(e2).push(e3), e4);
    assert(concat(s0) == Seq::<u8>::empty());
    let f = connection_end_fields(v);
    assert(concat(f) =~= e0 + e1 + e2 + e3 + e4);
    lemma_whole_list(enc_uint(state_tag(v.state)));
    State::lemma_round_trip(v.state);
    lemma_text_field(v.client_id);
    lemma_connection_counterparty_fields(v.counterparty);
    ConnectionCounterparty::lemma_round_trip(v.counterparty);
    lemma_p256_8();
    lemma_uint_field(v.delay_period as nat, 8);
    lemma_dec_versions(v.versions);
    assert forall|i: int| 0 <= i < f.len() implies whole_item(#[trigger] f[i]) by {
        if i == 0 {
        } else if i == 1 {
        } else if i == 2 {
        } else if i == 3 {
        } else {
        }
    }
    lemma_split_concat(f);
    lemma_whole_list(concat(f));
}

impl Object for ConnectionEnd {
    open spec fn wire(v: ConnectionEndView) -> Seq<u8> {
        enc_list(concat(connection_end_fields(v)))
    }

    open spec fn parse(data: Seq<u8>) -> Option<ConnectionEndView> {
        match list_items(data) {
            Some(it) => if it.len() == 5 && State::parse(it[0]) is Some && dec_text(it[1]) is Some
                && ConnectionCounterparty::parse(it[2]) is Some && dec_uint(it[3], 8) is Some
                && dec_versions(it[4]) is Some {
                Some(
                    ConnectionEndView {
                        state: State::parse(it[0])->Some_0,
                        client_id: dec_text(it[1])->Some_0,
                        counterparty: ConnectionCounterparty::parse(it[2])->Some_0,
                        delay_period: dec_uint(it[3], 8)->Some_0 as u64,
                        versions: dec_versions(it[4])->Some_0,
                    },
                )
            } else {
                None
            },
            None => None,
        }
    }

    fn encode(&self) -> (r: Vec<u8>) {
        let mut p: Vec<u8> = Vec::new();
        let e = self.state.encode();
        push_all(&mut p, e.as_slice());
        push_text(&mut p, &self.client_id);
        let e = self.counterparty.encode();
        push_all(&mut p, e.as_slice());
        push_uint(&mut p, self.delay_period);
        push_versions(&mut p, &self.versions);
        proof {
            let v = self@;
            let e0 = State::wire(v.state);
            let e1 = enc_text(v.client_id);
            let e2 = ConnectionCounterparty::wire(v.counterparty);
            let e3 = enc_uint(v.delay_period as nat);
            let e4 = enc_versions(v.versions);
            let s0 = Seq::<Seq<u8>>::empty();
            lemma_concat_push(s0, e0);
            lemma_concat_push(s0.push(e0), e1);
            lemma_concat_push(s0.push(e0).push(e1), e2);
            lemma_concat_push(s0.push(e0).push(e1).push(e2), e3);
            lemma_concat_push(s0.push(e0).push(e1).push(e2).push(e3), e4);
            assert(concat(s0) == Seq::<u8>::empty());
            assert(p@ =~= concat(connection_end_fields(v)));
        }
        list_of(&p)
    }

    fn decode(data: &[u8]) -> (r: Result<ConnectionEnd, VerifyError>) {
        assert(data@.subrange(0, data@.len() as int) =~= data@);
        let items = match read_list(data, 0, data.len()) {
            Some(items) => items,
            None => return Err(VerifyError::SerdeError),
        };
        if items.len() != 5 {
            return Err(VerifyError::SerdeError);
        }
        let (a, b) = items[0];
        let state = match State::decode(slice_subrange(data, a, b)) {
            Ok(v) => v,
            Err(_) => return Err(VerifyError::SerdeError),
        };
        let (a, b) = items[1];
        let client_id = match read_text(data, a, b) {
            Some(v) => v,
            None => return Err(VerifyError::SerdeError),
        };
        let (a, b) = items[2];
        let counterparty = match ConnectionCounterparty::decode(slice_subrange(data, a, b)) {
            Ok(v) => v,
            Err(_) => return Err(VerifyError::SerdeError),
        };
        let (a, b) = items[3];
        let delay_period = match read_uint(data, a, b, 8) {
            Some(v) => v,
            None => return Err(VerifyError::SerdeError),
        };
        let (a, b) = items[4];
        let versions = match read_versions(data, a, b) {
            Some(v) => v,
            None => return Err(VerifyError::SerdeError),
        };
        Ok(ConnectionEnd { state, client_id, counterparty, delay_period, versions })
    }

    proof fn lemma_round_trip(v: ConnectionEndView) {
        lemma_connection_end_fields(v);
    }

    proof fn lemma_truncation_rejected(v: ConnectionEndView, k: int) {
        lemma_truncated_list(concat(connection_end_fields(v)), k);
    }

    proof fn lemma_leading_byte_checked(v: ConnectionEndView, b: u8) {
        lemma_list_first_byte(concat(connection_end_fields(v)), b);
    }

    proof fn lemma_canonical(data: Seq<u8>) {
        let it = list_items(data)->Some_0;
        lemma_list_items_inverse(data);
        State::lemma_canonical(it[0]);
        lemma_text_canonical(it[1]);
        ConnectionCounterparty::lemma_canonical(it[2]);
        lemma_p256_8();
        lemma_uint_canonical(it[3], 8);
        lemma_versions_canonical(it[4]);
        assert(it =~= connection_end_fields(Self::parse(data)->Some_0));
    }
}

// ---------------------------------------------------------------------------
/// The lower-case hexadecimal digit of `n`, for `n` below 16.
pub open spec fn hex_digit(n: nat) -> char {
    if n < 10 {
        ((n + 48) as u8) as char
    } else {
        ((n + 87) as u8) as char
    }
}

/// The lower-case hexadecimal rendering of `b`: two digits per byte, high first.
pub open spec fn hex_of(b: Seq<u8>) -> Seq<char> {
    Seq::new(
        2 * b.len(),
        |i: int|
            if i % 2 == 0 {
                hex_digit((b[i / 2] / 16) as nat)
            } else {
                hex_digit((b[i / 2] % 16) as nat)
            },
    )
}

/// The identifier that stands for no identifier: 32 zero bytes in hexadecimal.
pub fn zero_id() -> (r: String)
    ensures
        r@ == hex_of(Seq::new(32, |i: int| 0u8)),
{
    let r = "0000000000000000000000000000000000000000000000000000000000000000".to_owned();
    proof {
        reveal_strlit("0000000000000000000000000000000000000000000000000000000000000000");
        assert(r@ =~= hex_of(Seq::new(32, |i: int| 0u8)));
    }
    r
}

/// The identifier of channel zero.
pub fn channel_zero_id() -> (r: String)
    ensures
        r@ == "channel-0"@,
{
    "channel-0".to_owned()
}

/// Compares two vectors of bytes.
fn bytes_eq(a: &Vec<u8>, b: &Vec<u8>) -> (r: bool)
    ensures
        r == (a@ == b@),
{
    if a.len() != b.len() {
        return false;
    }
    let mut i: usize = 0;
    while i < a.len()
        invariant
            i <= a@.len() == b@.len(),
            a@.subrange(0, i as int) == b@.subrange(0, i as int),
        decreases a@.len() - i,
    {
        if a[i] != b[i] {
            return false;
        }
        assert(a@.subrange(0, i + 1) =~= a@.subrange(0, i as int).push(a@[i as int]));
        assert(b@.subrange(0, i + 1) =~= b@.subrange(0, i as int).push(b@[i as int]));
        i += 1;
    }
    assert(a@ =~= a@.subrange(0, i as int));
    assert(b@ =~= b@.subrange(0, i as int));
    true
}

/// A packet with its sequence set to zero: what is left once the sequence is
/// ignored.
pub open spec fn without_sequence(v: PacketView) -> PacketView {
    PacketView {
        sequence: 0,
        source_port_id: v.source_port_id,
        source_channel_id: v.source_channel_id,
        destination_port_id: v.destination_port_id,
        destination_channel_id: v.destination_channel_id,
        data: v.data,
        timeout_height: v.timeout_height,
        timeout_timestamp: v.timeout_timestamp,
    }
}

/// Every field but the sequence is the same.
pub open spec fn same_but_sequence(a: PacketView, b: PacketView) -> bool {
    &&& a.source_port_id == b.source_port_id
    &&& a.source_channel_id == b.source_channel_id
    &&& a.destination_port_id == b.destination_port_id
    &&& a.destination_channel_id == b.destination_channel_id
    &&& a.data == b.data
    &&& a.timeout_height == b.timeout_height
    &&& a.timeout_timestamp == b.timeout_timestamp
}

impl Packet {
    /// Whether the two packets agree on every field but the sequence.
    pub fn equal_unless_sequence(&self, other: &Self) -> (r: bool)
        ensures
            r == same_but_sequence(self@, other@),
    {
        self.source_port_id == other.source_port_id && self.source_channel_id
            == other.source_channel_id && self.destination_port_id == other.destination_port_id
            && self.destination_channel_id == other.destination_channel_id && bytes_eq(
            &self.data,
            &other.data,
        ) && self.timeout_height == other.timeout_height && self.timeout_timestamp
            == other.timeout_timestamp
    }
}

/// Two packets are equal unless their sequence exactly when they are equal
/// once the sequence is set aside: packets that differ only in the sequence
/// compare equal, and packets that differ in any other field do not.
pub proof fn lemma_equal_unless_sequence_ignores_only_sequence(a: PacketView, b: PacketView)
    ensures
        same_but_sequence(a, b) <==> without_sequence(a) == without_sequence(b),
{
}

/// Equality unless the sequence is reflexive, symmetric and transitive.
pub proof fn lemma_equal_unless_sequence_equivalence(a: PacketView, b: PacketView, c: PacketView)
    ensures
        same_but_sequence(a, a),
        same_but_sequence(a, b) ==> same_but_sequence(b, a),
        same_but_sequence(a, b) && same_but_sequence(b, c) ==> same_but_sequence(a, c),
{
}

impl Default for Packet {
    fn default() -> (r: Packet)
        ensures
            r@.sequence == 0,
            r@.source_port_id == hex_of(Seq::new(32, |i: int| 0u8)),
            r@.source_channel_id == "channel-0"@,
            r@.destination_port_id == hex_of(Seq::new(32, |i: int| 0u8)),
            r@.destination_channel_id == "channel-0"@,
            r@.data == Seq::<u8>::empty(),
            r@.timeout_height == 0,
            r@.timeout_timestamp == 0,
    {
        Packet {
            sequence: 0,
            source_port_id: zero_id(),
            source_channel_id: channel_zero_id(),
            destination_port_id: zero_id(),
            destination_channel_id: channel_zero_id(),
            data: Vec::new(),
            timeout_height: 0,
            timeout_timestamp: 0,
        }
    }
}

impl Default for ConnectionEnd {
    fn default() -> (r: ConnectionEnd)
        ensures
            r@.state == State::Unknown,
            r@.client_id == hex_of(Seq::new(32, |i: int| 0u8)),
            r@.counterparty.client_id == Seq::<char>::empty(),
            r@.counterparty.connection_id is None,
            r@.counterparty.commitment_prefix == default_prefix(),
            r@.delay_period == 0,
            r@.versions == Seq::<VersionView>::empty(),
    {
        let r = ConnectionEnd {
            state: State::Unknown,
            client_id: zero_id(),
            counterparty: ConnectionCounterparty::default(),
            delay_period: 0,
            versions: Vec::new(),
        };
        assert(r@.versions =~= Seq::<VersionView>::empty());
        r
    }
}

/// A 256-bit unsigned integer as four 64-bit limbs, least significant first.
#[derive(Debug, Default, PartialEq, Eq, Clone, Copy)]
pub struct U256 {
    pub limbs: [u64; 4],
}

/// The height at which a proof was made, with the proof material.
#[derive(Debug, Default, Clone)]
pub struct Proofs {
    pub height: U256,
    pub object_proof: Vec<u8>,
    pub client_proof: Vec<u8>,
}

} // verus!
