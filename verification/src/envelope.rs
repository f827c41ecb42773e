//! The lossless wire-bytes container.
//!
//! An envelope keeps the raw packet exactly as received, together with a
//! best-effort decode. Serialization keeps only the bytes, so archives
//! survive decoder evolution: decoding is re-run on load.

use vstd::prelude::*;

use std::rc::Rc;
use trust_dns_client::op::Message;

verus! {

/// Declares trust_dns_client's `Message` so it can stand in signatures and
/// fields; the value is opaque to the verifier.
#[verifier::external_type_specification]
#[verifier::external_body]
pub struct ExMessage(Message);

/// Whether a byte string decodes as a DNS message. The name stands for the
/// outcome of trust_dns_client's `Message::from_vec`, which depends on the
/// bytes alone.
pub uninterp spec fn decode_ok(bytes: Seq<u8>) -> bool;

/// Relies on trust_dns_client's `Message::from_vec` to decode a DNS packet;
/// succeeding or not is a function of the bytes alone, named [`decode_ok`].
#[verifier::external_body]
fn decode_message(bytes: &Vec<u8>) -> (r: Option<Rc<Message>>)
    ensures
        (r is Some) == decode_ok(bytes@),
{
    match Message::from_vec(bytes.as_slice()) {
        Ok(m) => Some(Rc::new(m)),
        Err(_) => None,
    }
}

/// Relies on std's `Rc::clone`: the returned handle is the same shared
/// message.
#[verifier::external_body]
pub fn share_message(m: &Rc<Message>) -> (r: Rc<Message>)
    ensures
        r == *m,
{
    Rc::clone(m)
}

/// Raw packet bytes with an optional decode. Equality and the on-disk form
/// are over the bytes alone; the decode is derived state.
#[derive(Debug)]
pub struct MessageEnvelope {
    encoded: Vec<u8>,
    decoded: Option<Rc<Message>>,
}

impl View for MessageEnvelope {
    type V = Seq<u8>;

    closed spec fn view(&self) -> Seq<u8> {
        self.encoded@
    }
}

impl MessageEnvelope {
    /// The derived decode, exposed for specification purposes.
    pub closed spec fn spec_decoded(self) -> Option<Rc<Message>> {
        self.decoded
    }

    /// The decode is present exactly when the bytes parse.
    pub open spec fn wf(self) -> bool {
        (self.spec_decoded() is Some) == decode_ok(self@)
    }

    /// Wraps received bytes, attempting the decode; the bytes are retained
    /// byte-for-byte whether or not decoding succeeds.
    pub fn from_bytes(encoded: Vec<u8>) -> (r: MessageEnvelope)
        ensures
            r@ == encoded@,
            r.wf(),
    {
        let decoded = decode_message(&encoded);
        MessageEnvelope { encoded, decoded }
    }

    /// The raw packet bytes.
    pub fn encoded(&self) -> (r: &Vec<u8>)
        ensures
            r@ == self@,
    {
        &self.encoded
    }

    /// The number of packet bytes.
    pub fn encoded_len(&self) -> (r: usize)
        ensures
            r == self@.len(),
    {
        self.encoded.len()
    }

    /// A shared handle to the decoded message, when the bytes parse.
    pub fn decoded(&self) -> (r: Option<Rc<Message>>)
        ensures
            (r is Some) == (self.spec_decoded() is Some),
            r matches Some(m) ==> m == self.spec_decoded()->Some_0,
    {
        match &self.decoded {
            Some(m) => Some(share_message(m)),
            None => None,
        }
    }
}

} // verus!
