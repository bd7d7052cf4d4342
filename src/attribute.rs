use vstd::prelude::*;

verus! {

/// The type of a STUN attribute.
#[derive(Clone, Copy, Debug, PartialEq, Eq, Structural)]
pub enum AttributeType {
    Unknown,
    MappedAddress,
    Software,
}

/// The two bytes that name an attribute type on the wire.
pub open spec fn type_code(t: AttributeType) -> Seq<u8> {
    match t {
        AttributeType::Unknown => seq![0x00u8, 0x00u8],
        AttributeType::MappedAddress => seq![0x00u8, 0x01u8],
        AttributeType::Software => seq![0x80u8, 0x22u8],
    }
}

/// The attribute type that `b` names; `Unknown` for anything but a known code.
pub open spec fn type_of_code(b: Seq<u8>) -> AttributeType {
    if b == type_code(AttributeType::MappedAddress) {
        AttributeType::MappedAddress
    } else if b == type_code(AttributeType::Software) {
        AttributeType::Software
    } else {
        AttributeType::Unknown
    }
}

/// `v` in two bytes, most significant first.
pub open spec fn be16(v: u16) -> Seq<u8> {
    seq![(v / 256) as u8, (v % 256) as u8]
}

/// The number that two bytes spell, most significant first.
pub open spec fn be16_value(hi: u8, lo: u8) -> nat {
    hi as nat * 256 + lo as nat
}

/// The zero bytes that pad `n` bytes of value to a multiple of four.
pub open spec fn padding(n: nat) -> Seq<u8> {
    Seq::new(((4 - n % 4) % 4) as nat, |i: int| 0u8)
}

/// A STUN attribute: its type and its value.
pub struct Attribute {
    pub attrib_type: AttributeType,
    pub value: Vec<u8>,
}

/// The wire form of an attribute: type code, value length (modulo 2^16), value, and zero
/// padding to a multiple of four bytes.
pub open spec fn attribute_encoding(a: Attribute) -> Seq<u8> {
    type_code(a.attrib_type) + be16((a.value@.len() % 0x10000) as u16) + a.value@ + padding(
        a.value@.len(),
    )
}

/// Appends `v` to `out`, most significant byte first.
pub fn put_u16(out: &mut Vec<u8>, v: u16)
    ensures
        final(out)@ == old(out)@ + be16(v),
{
    out.push((v / 256) as u8);
    out.push((v % 256) as u8);
    assert(final(out)@ =~= old(out)@ + be16(v));
}

/// Appends the bytes of `b` to `out`.
pub fn put_slice(out: &mut Vec<u8>, b: &[u8])
    ensures
        final(out)@ == old(out)@ + b@,
{
    let ghost start = out@;
    let mut i: usize = 0;
    while i < b.len()
        invariant
            i <= b@.len(),
            out@ == start + b@.take(i as int),
        decreases b@.len() - i,
    {
        out.push(b[i]);
        assert(b@.take(i + 1) =~= b@.take(i as int).push(b@[i as int]));
        i += 1;
    }
    assert(b@.take(i as int) =~= b@);
}

impl AttributeType {
    /// The two bytes that name this type on the wire.
    pub fn bytes(&self) -> (r: [u8; 2])
        ensures
            r@ == type_code(*self),
    {
        let r = match self {
            AttributeType::Unknown => [0x00, 0x00],
            AttributeType::MappedAddress => [0x00, 0x01],
            AttributeType::Software => [0x80, 0x22],
        };
        assert(r@ =~= type_code(*self));
        r
    }

    /// The type that `bytes` name: `Unknown` for anything but the code of a known type.
    pub fn from_bytes(bytes: &[u8]) -> (r: AttributeType)
        ensures
            r == type_of_code(bytes@),
    {
        if bytes.len() == 2 && bytes[0] == 0x00 && bytes[1] == 0x01 {
            assert(bytes@ =~= type_code(AttributeType::MappedAddress));
            AttributeType::MappedAddress
        } else if bytes.len() == 2 && bytes[0] == 0x80 && bytes[1] == 0x22 {
            assert(bytes@ =~= type_code(AttributeType::Software));
            AttributeType::Software
        } else {
            assert(bytes@ != type_code(AttributeType::MappedAddress)) by {
                if bytes@.len() == 2 {
                    assert(type_code(AttributeType::MappedAddress)[0] == 0x00);
                    assert(type_code(AttributeType::MappedAddress)[1] == 0x01);
                }
            }
            assert(bytes@ != type_code(AttributeType::Software)) by {
                if bytes@.len() == 2 {
                    assert(type_code(AttributeType::Software)[0] == 0x80);
                    assert(type_code(AttributeType::Software)[1] == 0x22);
                }
            }
            AttributeType::Unknown
        }
    }
}

impl Attribute {
    /// The wire form of this attribute.
    pub fn bytes(&self) -> (r: Vec<u8>)
        ensures
            r@ == attribute_encoding(*self),
    {
        let mut out: Vec<u8> = Vec::new();
        let code = self.attrib_type.bytes();
        put_slice(&mut out, code.as_slice());
        put_u16(&mut out, (self.value.len() % 0x10000) as u16);
        put_slice(&mut out, self.value.as_slice());
        let ghost body = out@;
        assert(body.len() == 4 + self.value@.len());
        while out.len() % 4 != 0
            invariant
                out@.len() >= body.len(),
                out@.len() <= body.len() + padding(self.value@.len()).len(),
                body.len() == 4 + self.value@.len(),
                out@.subrange(0, body.len() as int) == body,
                forall|i: int| body.len() <= i < out@.len() ==> out@[i] == 0u8,
            decreases body.len() + 3 - out@.len(),
        {
            out.push(0x00);
        }
        assert(out@ =~= body + padding(self.value@.len()));
        out
    }

    /// Reads one attribute from the front of `bytes` and removes what it read: type code,
    /// value length and value. The front must hold a known type and the whole value.
    pub fn from_bytes(bytes: &mut Vec<u8>) -> (r: Attribute)
        requires
            old(bytes)@.len() >= 4,
            type_of_code(old(bytes)@.take(2)) != AttributeType::Unknown,
            old(bytes)@.len() >= 4 + be16_value(old(bytes)@[2], old(bytes)@[3]),
        ensures
            ({
                let n = be16_value(old(bytes)@[2], old(bytes)@[3]) as int;
                &&& r.attrib_type == type_of_code(old(bytes)@.take(2))
                &&& r.value@ == old(bytes)@.subrange(4, 4 + n)
                &&& final(bytes)@ == old(bytes)@.skip(4 + n)
            }),
    {
        let code = [bytes[0], bytes[1]];
        assert(code@ =~= bytes@.take(2));
        let attrib_type = AttributeType::from_bytes(code.as_slice());
        let len = bytes[2] as usize * 256 + bytes[3] as usize;
        let end = 4 + len;
        let mut value: Vec<u8> = Vec::new();
        let mut i: usize = 4;
        while i < end
            invariant
                4 <= i <= end,
                end <= bytes@.len(),
                value@ == bytes@.subrange(4, i as int),
            decreases end - i,
        {
            value.push(bytes[i]);
            assert(bytes@.subrange(4, i + 1) =~= value@);
            i += 1;
        }
        let mut rest: Vec<u8> = Vec::new();
        let total = bytes.len();
        while i < total
            invariant
                end <= i <= total,
                total == bytes@.len(),
                rest@ == bytes@.subrange(end as int, i as int),
            decreases total - i,
        {
            rest.push(bytes[i]);
            assert(bytes@.subrange(end as int, i + 1) =~= rest@);
            i += 1;
        }
        assert(rest@ =~= bytes@.skip(end as int));
        *bytes = rest;
        Attribute { attrib_type, value }
    }
}

} // verus!
