//! Messages to servers, and the channels they go through.

use vstd::prelude::*;

verus! {

/// Tells a spare server to load a range of layers from an origin.
pub struct AssignMsg {
    pub model_id: String,
    pub layer_start: u32,
    pub layer_end: u32,
    pub origin_url: String,
    pub shard_hash: String,
}

/// What a message carries.
pub enum RouterPayload {
    Assign(AssignMsg),
}

/// A message from the router to a server.
pub struct RouterMessage {
    pub payload: Option<RouterPayload>,
}

/// `tokio::sync::mpsc::Sender`, the sending half of a bounded channel.
#[verifier::external_type_specification]
#[verifier::external_body]
#[verifier::reject_recursive_types(T)]
pub struct ExSender<T>(tokio::sync::mpsc::Sender<T>);

/// `tonic::Status`, the error half of what a channel carries.
#[verifier::external_type_specification]
#[verifier::external_body]
pub struct ExStatus(tonic::Status);

/// What goes through the channel of a server.
pub type Outbound = Result<RouterMessage, tonic::Status>;

/// The channel of a server.
pub type ServerChannel = tokio::sync::mpsc::Sender<Outbound>;

/// Why a channel did not take a message.
#[derive(Clone, Copy, PartialEq, Eq, Structural, Debug)]
pub enum SendFailure {
    /// There is no room at the moment.
    Full,
    /// The receiving half is gone.
    Closed,
}

impl SendFailure {
    /// The failure in words.
    pub open spec fn words(self) -> Seq<char> {
        match self {
            SendFailure::Full => "no available capacity"@,
            SendFailure::Closed => "channel closed"@,
        }
    }

    /// The failure in words.
    pub fn text(self) -> (s: &'static str)
        ensures
            s@ == self.words(),
    {
        match self {
            SendFailure::Full => "no available capacity",
            SendFailure::Closed => "channel closed",
        }
    }
}

/// One message that was offered to a channel, and why the channel refused it if
/// it did.
pub struct Delivery {
    pub channel: ServerChannel,
    pub message: Outbound,
    pub refusal: Option<SendFailure>,
}

/// Where all messages to servers go through. It keeps a record of every message
/// that was offered to a channel, in order. The record is for reasoning only
/// and takes no room; nothing but an offer adds to it.
pub struct Outbox {
    offered: Ghost<Seq<Delivery>>,
}

impl Outbox {
    /// Every message that was offered to a channel, in order.
    pub closed spec fn log(&self) -> Seq<Delivery> {
        self.offered@
    }

    /// An outbox through which nothing went yet.
    pub fn new() -> (o: Outbox)
        ensures
            o.log() == Seq::<Delivery>::empty(),
    {
        Outbox { offered: Ghost(Seq::empty()) }
    }
}

/// Why an offer was refused, if it was.
pub open spec fn refusal_of(r: Result<(), (SendFailure, Outbound)>) -> Option<SendFailure> {
    match r {
        Ok(_) => None,
        Err(refused) => Some(refused.0),
    }
}

/// The message that assigns a range to a server.
pub open spec fn assigns(
    msg: RouterMessage,
    model_id: Seq<char>,
    layer_start: u32,
    layer_end: u32,
    origin_url: Seq<char>,
    shard_hash: Seq<char>,
) -> bool {
    msg.payload matches Some(RouterPayload::Assign(a)) && {
        &&& a.model_id@ == model_id
        &&& a.layer_start == layer_start
        &&& a.layer_end == layer_end
        &&& a.origin_url@ == origin_url
        &&& a.shard_hash@ == shard_hash
    }
}

/// Builds the message that assigns a range to a server.
pub fn assign_message(
    model_id: &str,
    layer_start: u32,
    layer_end: u32,
    origin_url: &str,
    shard_hash: &str,
) -> (msg: RouterMessage)
    ensures
        assigns(msg, model_id@, layer_start, layer_end, origin_url@, shard_hash@),
{
    RouterMessage {
        payload: Some(
            RouterPayload::Assign(
                AssignMsg {
                    model_id: model_id.to_owned(),
                    layer_start,
                    layer_end,
                    origin_url: origin_url.to_owned(),
                    shard_hash: shard_hash.to_owned(),
                },
            ),
        ),
    }
}

/// `tokio::sync::mpsc::Sender::try_send`: puts a message into the channel
/// without waiting. Whether the channel takes it depends on its receiver, so
/// nothing is claimed of that; a message that is not taken comes back as it
/// was. The outbox records the offer: this channel, this message, and the answer
/// that is returned.
#[verifier::external_body]
pub(crate) fn try_send(outbox: &mut Outbox, channel: &ServerChannel, message: Outbound) -> (r:
    Result<(), (SendFailure, Outbound)>)
    ensures
        r is Err ==> (r->Err_0).1 == message,
        final(outbox).log() == old(outbox).log().push(
            (Delivery { channel: *channel, message, refusal: refusal_of(r) }),
        ),
{
    match channel.try_send(message) {
        Ok(()) => Ok(()),
        Err(tokio::sync::mpsc::error::TrySendError::Full(back)) => Err((SendFailure::Full, back)),
        Err(tokio::sync::mpsc::error::TrySendError::Closed(back)) => Err(
            (SendFailure::Closed, back),
        ),
    }
}

/// The text that std's `Debug` gives for a string: quoted and escaped.
pub uninterp spec fn debug_of(s: Seq<char>) -> Seq<char>;

/// The `Debug` text of `str`, as `format!` gives it. It depends on the string
/// alone; which characters are escaped, and how, is left unsaid.
#[verifier::external_body]
pub(crate) fn debug_text(s: &str) -> (r: String)
    ensures
        r@ == debug_of(s@),
{
    format!("{s:?}")
}

} // verus!
