use vstd::prelude::*;

use crate::attribute::{attribute_encoding, be16, put_slice, put_u16, Attribute};

verus! {

/// STUN message method (`BINDING` is the only one used).
pub type MessageMethod = u16;

/// The Binding method.
pub const BINDING: MessageMethod = 0x0001;

/// The fixed value that every STUN header carries after the message length.
pub const MAGIC_COOKIE: u32 = 0x2112A442;

/// The class of a STUN message.
#[derive(Clone, Copy, Debug, PartialEq, Eq, Structural)]
pub enum MessageClass {
    Request,
    ResponseSuccess,
    ResponseFailure,
    Indication,
}

/// The raw message-type field of a STUN header.
pub struct MessageType {
    bytes: Vec<u8>,
}

impl View for MessageType {
    type V = Seq<u8>;

    closed spec fn view(&self) -> Seq<u8> {
        self.bytes@
    }
}

impl MessageType {
    /// The field that `bytes` hold.
    pub fn from_bytes(bytes: Vec<u8>) -> (r: MessageType)
        ensures
            r@ == bytes@,
    {
        MessageType { bytes }
    }

    /// The bytes of the field.
    pub fn bytes(&self) -> (r: &Vec<u8>)
        ensures
            r@ == self@,
    {
        &self.bytes
    }
}

/// A STUN message.
pub struct Message {
    pub method: MessageMethod,
    pub class: MessageClass,
    pub id: [u8; 12],
    pub attributes: Vec<Attribute>,
}

/// `v` in four bytes, most significant first.
pub open spec fn be32(v: u32) -> Seq<u8> {
    seq![(v / 0x1000000) as u8, (v / 0x10000 % 256) as u8, (v / 256 % 256) as u8, (v % 256) as u8]
}

/// The wire forms of `attrs`, one after another.
pub open spec fn attributes_encoding(attrs: Seq<Attribute>) -> Seq<u8>
    decreases attrs.len(),
{
    if attrs.len() == 0 {
        Seq::empty()
    } else {
        attributes_encoding(attrs.drop_last()) + attribute_encoding(attrs.last())
    }
}

/// The wire form of a request: method, length of the attributes (modulo 2^16), magic
/// cookie, transaction id, attributes.
pub open spec fn message_encoding(m: Message) -> Seq<u8> {
    let attrs = attributes_encoding(m.attributes@);
    be16(m.method) + be16((attrs.len() % 0x10000) as u16) + be32(MAGIC_COOKIE) + m.id@ + attrs
}

impl Message {
    /// The wire form of this message, which must be a request: the class bits of a
    /// request are zero, so the method alone gives the message type.
    pub fn bytes(&self) -> (r: Vec<u8>)
        requires
            self.class == MessageClass::Request,
        ensures
            r@ == message_encoding(*self),
    {
        let mut attribs: Vec<u8> = Vec::new();
        let mut i: usize = 0;
        while i < self.attributes.len()
            invariant
                i <= self.attributes@.len(),
                attribs@ == attributes_encoding(self.attributes@.take(i as int)),
            decreases self.attributes@.len() - i,
        {
            let encoded = self.attributes[i].bytes();
            put_slice(&mut attribs, encoded.as_slice());
            assert(self.attributes@.take(i + 1).drop_last() =~= self.attributes@.take(i as int));
            i += 1;
        }
        assert(self.attributes@.take(i as int) =~= self.attributes@);

        let mut out: Vec<u8> = Vec::new();
        put_u16(&mut out, self.method);
        put_u16(&mut out, (attribs.len() % 0x10000) as u16);
        put_u16(&mut out, (MAGIC_COOKIE / 0x10000) as u16);
        put_u16(&mut out, (MAGIC_COOKIE % 0x10000) as u16);
        put_slice(&mut out, self.id.as_slice());
        put_slice(&mut out, attribs.as_slice());
        assert(be16((MAGIC_COOKIE / 0x10000) as u16) + be16((MAGIC_COOKIE % 0x10000) as u16)
            =~= be32(MAGIC_COOKIE));
        assert(out@ =~= message_encoding(*self));
        out
    }
}

} // verus!
