//! What a codec of network messages has to offer.

use vstd::prelude::*;

verus! {

/// The error type of `std::io`, carried through untouched.
#[verifier::external_type_specification]
#[verifier::external_body]
pub struct ExIoError(std::io::Error);

/// The topic under which a gossiped message travels.
#[derive(Clone, Copy, Debug, PartialEq, Eq, Structural)]
pub enum GossipTopicTag {
    NewTx,
    TxPreconfirmations,
}

pub trait Encoder {
    /// Returns the serialized object as bytes.
    fn into_bytes(self) -> Vec<u8>;
}

impl Encoder for Vec<u8> {
    fn into_bytes(self) -> (bytes: Vec<u8>)
        ensures
            bytes@ == self@,
    {
        self
    }
}

/// Implement this in order to handle serialization & deserialization of
/// gossiped messages.
pub trait GossipsubCodec {
    type RequestMessage;

    type ResponseMessage;

    fn encode(&self, data: Self::RequestMessage) -> Result<Vec<u8>, std::io::Error>;

    fn decode(&self, encoded_data: &[u8], gossipsub_topic: GossipTopicTag) -> Result<
        Self::ResponseMessage,
        std::io::Error,
    >;
}

} // verus!
