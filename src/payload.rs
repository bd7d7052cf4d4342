use vstd::prelude::*;
use vstd::utf8::{decode_utf8, encode_utf8, encode_utf8_decode_utf8, valid_utf8};

verus! {

/// The byte that separates the fields of a Beta probe or a query request (`#`).
pub const SEPARATOR: u8 = 0x23;

/// Index of the first separator in `b` at or after `from`, or the length of `b`.
pub open spec fn separator_from(b: Seq<u8>, from: int) -> int
    decreases b.len() - from,
{
    if from < 0 || from >= b.len() {
        b.len() as int
    } else if b[from] == SEPARATOR {
        from
    } else {
        separator_from(b, from + 1)
    }
}

/// The field of `b` that starts at `start` and runs to the next separator.
pub open spec fn field_from(b: Seq<u8>, start: int) -> Seq<u8> {
    b.subrange(start, separator_from(b, start))
}

/// Whether every byte of `d` is an ASCII digit.
pub open spec fn all_digits(d: Seq<u8>) -> bool {
    forall|i: int| 0 <= i < d.len() ==> 0x30 <= #[trigger] d[i] <= 0x39
}

/// The number that the ASCII digits `d` spell in base ten.
pub open spec fn digits_value(d: Seq<u8>) -> nat
    decreases d.len(),
{
    if d.len() == 0 {
        0
    } else {
        digits_value(d.drop_last()) * 10 + (d.last() - 0x30) as nat
    }
}

/// `d` without one leading `+`.
pub open spec fn unsigned_digits(d: Seq<u8>) -> Seq<u8> {
    if d.len() > 0 && d[0] == 0x2b {
        d.drop_first()
    } else {
        d
    }
}

/// The base-ten `u16` that `d` spells: an optional `+`, then one digit or more, with a
/// value that fits.
pub open spec fn parse_u16(d: Seq<u8>) -> Option<u16> {
    let ds = unsigned_digits(d);
    if ds.len() > 0 && all_digits(ds) && digits_value(ds) <= 0xffff {
        Some(digits_value(ds) as u16)
    } else {
        None
    }
}

/// The fields of a Beta probe payload, `<peer_id>#<origin port>#<sequence number>`, with
/// anything after a further separator ignored: the identifier's bytes and the two numbers.
pub open spec fn beta_fields(b: Seq<u8>) -> Option<(Seq<u8>, u16, u16)> {
    let i1 = separator_from(b, 0);
    let i2 = separator_from(b, i1 + 1);
    if i1 < b.len() && i2 < b.len() {
        match (parse_u16(field_from(b, i1 + 1)), parse_u16(field_from(b, i2 + 1))) {
            (Some(port), Some(seq)) => Some((b.subrange(0, i1), port, seq)),
            _ => None,
        }
    } else {
        None
    }
}

/// The two identifiers of a query request, `<requester>#<remote>`, with anything after a
/// further separator ignored.
pub open spec fn query_fields(b: Seq<u8>) -> Option<(Seq<u8>, Seq<u8>)> {
    let i1 = separator_from(b, 0);
    if i1 < b.len() {
        Some((b.subrange(0, i1), field_from(b, i1 + 1)))
    } else {
        None
    }
}

/// Relies on std::str::from_utf8: it accepts exactly the valid UTF-8 byte sequences and
/// then returns the text that those bytes encode.
#[verifier::external_body]
fn utf8_text(bytes: &[u8]) -> (r: Option<&str>)
    ensures
        r is Some <==> valid_utf8(bytes@),
        r is Some ==> encode_utf8(r->0@) == bytes@,
{
    std::str::from_utf8(bytes).ok()
}

/// The text that `bytes` encode in UTF-8, if they are valid UTF-8.
pub fn decode_text(bytes: &[u8]) -> (r: Option<String>)
    ensures
        r is Some <==> valid_utf8(bytes@),
        r is Some ==> r->0@ == decode_utf8(bytes@),
{
    match utf8_text(bytes) {
        Some(text) => {
            proof {
                encode_utf8_decode_utf8(text@);
            }
            Some(text.to_owned())
        },
        None => None,
    }
}

/// The peer identifier that an Alpha probe payload carries: the whole payload as text.
pub fn decode_alpha_payload(payload: &[u8]) -> (r: Option<String>)
    ensures
        r is Some <==> valid_utf8(payload@),
        r is Some ==> r->0@ == decode_utf8(payload@),
{
    decode_text(payload)
}

/// Index of the first separator in `b` at or after `from`, or the length of `b`.
pub fn find_separator(b: &[u8], from: usize) -> (r: usize)
    ensures
        r == separator_from(b@, from as int),
        from <= b@.len() ==> from <= r <= b@.len(),
        from > b@.len() ==> r == b@.len(),
{
    if from >= b.len() {
        return b.len();
    }
    let mut j: usize = from;
    while j < b.len() && b[j] != SEPARATOR
        invariant
            from <= j <= b@.len(),
            separator_from(b@, j as int) == separator_from(b@, from as int),
        decreases b@.len() - j,
    {
        j += 1;
    }
    j
}

/// A copy of `b[start..end]`.
fn copy_range(b: &[u8], start: usize, end: usize) -> (r: Vec<u8>)
    requires
        start <= end <= b@.len(),
    ensures
        r@ == b@.subrange(start as int, end as int),
{
    let mut out: Vec<u8> = Vec::new();
    let mut i: usize = start;
    while i < end
        invariant
            start <= i <= end,
            end <= b@.len(),
            out@ == b@.subrange(start as int, i as int),
        decreases end - i,
    {
        out.push(b[i]);
        assert(b@.subrange(start as int, i + 1) =~= out@);
        i += 1;
    }
    out
}

pub proof fn lemma_digits_value_grows(d: Seq<u8>, k: int)
    requires
        0 <= k <= d.len(),
        all_digits(d),
    ensures
        digits_value(d.take(k)) <= digits_value(d),
    decreases d.len(),
{
    if k < d.len() {
        let p = d.drop_last();
        assert(all_digits(p)) by {
            assert forall|i: int| 0 <= i < p.len() implies 0x30 <= #[trigger] p[i] <= 0x39 by {
                assert(p[i] == d[i]);
            }
        }
        lemma_digits_value_grows(p, k);
        assert(p.take(k) =~= d.take(k));
    } else {
        assert(d.take(k) =~= d);
    }
}

/// The base-ten `u16` that `b[start..end]` spells, if it spells one.
pub fn parse_u16_field(b: &[u8], start: usize, end: usize) -> (r: Option<u16>)
    requires
        start <= end <= b@.len(),
    ensures
        r == parse_u16(b@.subrange(start as int, end as int)),
{
    let ghost d = b@.subrange(start as int, end as int);
    let mut first = start;
    if start < end && b[start] == 0x2b {
        first = start + 1;
    }
    let ghost ds = b@.subrange(first as int, end as int);
    assert(ds =~= unsigned_digits(d));
    if first == end {
        return None;
    }
    let mut value: u32 = 0;
    let mut i: usize = first;
    while i < end
        invariant
            first <= i <= end,
            end <= b@.len(),
            ds == b@.subrange(first as int, end as int),
            d == b@.subrange(start as int, end as int),
            ds == unsigned_digits(d),
            all_digits(ds.take(i - first)),
            value == digits_value(ds.take(i - first)),
            value <= 0xffff,
        decreases end - i,
    {
        let c = b[i];
        let ghost t = ds.take(i - first + 1);
        assert(t.drop_last() =~= ds.take(i - first));
        assert(t.last() == c);
        assert(ds[i - first] == c);
        if c < 0x30 || c > 0x39 {
            assert(!all_digits(ds));
            return None;
        }
        value = value * 10 + (c - 0x30) as u32;
        if value > 0xffff {
            proof {
                assert(all_digits(t));
                if all_digits(ds) {
                    lemma_digits_value_grows(ds, i - first + 1);
                }
            }
            return None;
        }
        i += 1;
    }
    assert(ds.take(i - first) =~= ds);
    Some(value as u16)
}

/// A decoded Beta probe payload.
pub struct BetaProbe {
    pub peer_id: String,
    pub claimed_origin_port: u16,
    pub sequence_number: u16,
}

/// Decodes a Beta probe payload: UTF-8 text `<peer_id>#<origin port>#<sequence number>`,
/// the two numbers in base ten; a further separator and what follows it are ignored.
pub fn decode_beta_payload(payload: &[u8]) -> (r: Option<BetaProbe>)
    ensures
        r is Some <==> valid_utf8(payload@) && match beta_fields(payload@) {
            Some((id, _, _)) => valid_utf8(id),
            None => false,
        },
        r is Some ==> {
            let (id, port, seq) = beta_fields(payload@)->0;
            &&& r->0.peer_id@ == decode_utf8(id)
            &&& r->0.claimed_origin_port == port
            &&& r->0.sequence_number == seq
        },
{
    if utf8_text(payload).is_none() {
        return None;
    }
    let len = payload.len();
    let i1 = find_separator(payload, 0);
    if i1 >= len {
        return None;
    }
    let i2 = find_separator(payload, i1 + 1);
    if i2 >= len {
        return None;
    }
    let i3 = find_separator(payload, i2 + 1);
    let port = match parse_u16_field(payload, i1 + 1, i2) {
        Some(p) => p,
        None => return None,
    };
    let seq = match parse_u16_field(payload, i2 + 1, i3) {
        Some(s) => s,
        None => return None,
    };
    let id_bytes = copy_range(payload, 0, i1);
    match decode_text(id_bytes.as_slice()) {
        Some(peer_id) => Some(BetaProbe { peer_id, claimed_origin_port: port, sequence_number: seq }),
        None => None,
    }
}

/// Decodes a query request `<requester>#<remote>` into its two peer identifiers; a further
/// separator and what follows it are ignored.
pub fn parse_query_request(payload: &[u8]) -> (r: Option<(String, String)>)
    ensures
        r is Some <==> match query_fields(payload@) {
            Some((requester, remote)) => valid_utf8(requester) && valid_utf8(remote),
            None => false,
        },
        r is Some ==> {
            let (requester, remote) = query_fields(payload@)->0;
            let (a, b) = r->0;
            a@ == decode_utf8(requester) && b@ == decode_utf8(remote)
        },
{
    let len = payload.len();
    let i1 = find_separator(payload, 0);
    if i1 >= len {
        return None;
    }
    let i2 = find_separator(payload, i1 + 1);
    let requester = copy_range(payload, 0, i1);
    let remote = copy_range(payload, i1 + 1, i2);
    match (decode_text(requester.as_slice()), decode_text(remote.as_slice())) {
        (Some(a), Some(b)) => Some((a, b)),
        _ => None,
    }
}

} // verus!
