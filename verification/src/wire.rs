//! Domain names and numbers as they stand in a DNS message.
use crate::text::{join, join_texts, split, split_text, texts};
use vstd::prelude::*;
use vstd::slice::slice_subrange;
use vstd::utf8::{decode_utf8, encode_utf8, valid_utf8};

verus! {

/// Why a message cannot be used.
#[derive(Clone, Copy, Debug, PartialEq, Eq, Structural)]
pub enum DnsError {
    /// A query holds less than a header.
    QueryTooShort,
    /// A response holds less than a header.
    ResponseTooShort,
    /// A name starts or goes on behind the end of the message.
    NamePastEnd,
    /// The second byte of a compression pointer is missing.
    PointerTruncated,
    /// A label is longer than what is left of the message.
    LabelPastEnd,
    /// A label is no UTF-8 text.
    InvalidUtf8,
    /// The pointers of a name lead in a circle.
    PointerLoop,
    /// The type and the class are missing behind the name of a question.
    QueryTruncated,
    /// The fixed part of an answer is cut off.
    AnswerTruncated,
    /// The fixed part of a record is cut off.
    RecordTruncated,
    /// The data of a record is cut off.
    RdataTruncated,
}

/// The big-endian number in two bytes.
pub open spec fn be16(data: Seq<u8>, at: int) -> u16 {
    (data[at] * 256 + data[at + 1]) as u16
}

/// The big-endian number in four bytes.
pub open spec fn be32(data: Seq<u8>, at: int) -> u32 {
    (data[at] * 0x100_0000 + data[at + 1] * 0x1_0000 + data[at + 2] * 0x100 + data[at + 3]) as u32
}

/// Two bytes, the higher one first.
pub open spec fn be16_bytes(v: u16) -> Seq<u8> {
    seq![(v / 256) as u8, (v % 256) as u8]
}

/// Four bytes, the highest one first.
pub open spec fn be32_bytes(v: u32) -> Seq<u8> {
    seq![
        (v / 0x100_0000) as u8,
        (v / 0x1_0000 % 256) as u8,
        (v / 0x100 % 256) as u8,
        (v % 256) as u8,
    ]
}

/// Four bytes are the bytes of the number that they make.
pub proof fn law_u32_of_bytes(b0: u8, b1: u8, b2: u8, b3: u8)
    ensures
        ({
            let v = (b0 * 0x100_0000 + b1 * 0x1_0000 + b2 * 0x100 + b3) as u32;
            be32_bytes(v) == seq![b0, b1, b2, b3]
        }),
{
    let v = (b0 * 0x100_0000 + b1 * 0x1_0000 + b2 * 0x100 + b3) as u32;
    assert(v == b0 * 0x100_0000 + b1 * 0x1_0000 + b2 * 0x100 + b3);
    assert(v / 0x100_0000 == b0);
    assert(v / 0x1_0000 == b0 * 256 + b1);
    assert(v / 0x100 == b0 * 0x1_0000 + b1 * 256 + b2);
    assert(v / 0x1_0000 % 256 == b1);
    assert(v / 0x100 % 256 == b2);
    assert(v % 256 == b3);
    assert(be32_bytes(v) =~= seq![b0, b1, b2, b3]);
}

/// The two bytes of a number make that number, wherever they stand.
pub proof fn law_u16_reads_back(before: Seq<u8>, v: u16, behind: Seq<u8>)
    ensures
        be16(before + be16_bytes(v) + behind, before.len() as int) == v,
{
    let data = before + be16_bytes(v) + behind;
    assert(data[before.len() as int] == (v / 256) as u8);
    assert(data[before.len() as int + 1] == (v % 256) as u8);
}

/// The four bytes of a number make that number, wherever they stand.
pub proof fn law_u32_reads_back(before: Seq<u8>, v: u32, behind: Seq<u8>)
    ensures
        be32(before + be32_bytes(v) + behind, before.len() as int) == v,
{
    let data = before + be32_bytes(v) + behind;
    let at = before.len() as int;
    assert(data[at] == (v / 0x100_0000) as u8);
    assert(data[at + 1] == (v / 0x1_0000 % 256) as u8);
    assert(data[at + 2] == (v / 0x100 % 256) as u8);
    assert(data[at + 3] == (v % 256) as u8);
    assert(v / 0x100_0000 * 0x100_0000 + v / 0x1_0000 % 256 * 0x1_0000 + v / 0x100 % 256 * 0x100 + v
        % 256 == v);
}

/// What stands at a place where a name, or the rest of one, is read.
pub enum NamePart {
    /// The zero byte that ends a name.
    Stop,
    /// A pointer to where the name goes on.
    Jump(int),
    /// A label, and where the name goes on.
    Label(Seq<char>, int),
    /// Nothing that can be read.
    Fail(DnsError),
}

/// The part of a name at a place.
pub open spec fn name_part(data: Seq<u8>, at: int) -> NamePart {
    if at < 0 || at >= data.len() {
        NamePart::Fail(DnsError::NamePastEnd)
    } else if data[at] == 0 {
        NamePart::Stop
    } else if data[at] >= 0xC0 {
        if at + 1 >= data.len() {
            NamePart::Fail(DnsError::PointerTruncated)
        } else {
            NamePart::Jump((data[at] - 0xC0) * 256 + data[at + 1])
        }
    } else if at + 1 + data[at] > data.len() {
        NamePart::Fail(DnsError::LabelPastEnd)
    } else {
        let label = data.subrange(at + 1, at + 1 + data[at]);
        if valid_utf8(label) {
            NamePart::Label(decode_utf8(label), at + 1 + data[at])
        } else {
            NamePart::Fail(DnsError::InvalidUtf8)
        }
    }
}

/// The labels of the name at a place, in at most `steps` parts.
pub open spec fn labels_within(data: Seq<u8>, at: int, steps: nat) -> Result<
    Seq<Seq<char>>,
    DnsError,
>
    decreases steps,
{
    if steps == 0 {
        Err(DnsError::PointerLoop)
    } else {
        match name_part(data, at) {
            NamePart::Stop => Ok(Seq::empty()),
            NamePart::Jump(to) => labels_within(data, to, (steps - 1) as nat),
            NamePart::Label(label, next) => match labels_within(data, next, (steps - 1) as nat) {
                Ok(rest) => Ok(seq![label] + rest),
                Err(e) => Err(e),
            },
            NamePart::Fail(e) => Err(e),
        }
    }
}

/// The labels of the name at a place. A name that ends passes each place of
/// the message at most once, and may then run behind it: more parts than that
/// go round in a circle.
pub open spec fn labels_at(data: Seq<u8>, at: int) -> Result<Seq<Seq<char>>, DnsError> {
    labels_within(data, at, data.len() + 1)
}

/// The name at a place, with dots between its labels.
pub open spec fn name_at(data: Seq<u8>, at: int) -> Result<Seq<char>, DnsError> {
    match labels_at(data, at) {
        Ok(labels) => Ok(join(labels, '.')),
        Err(e) => Err(e),
    }
}

/// How many bytes of a message stand from a place on.
pub open spec fn bytes_left(data: Seq<u8>, at: int) -> nat {
    if 0 <= at < data.len() {
        (data.len() - at) as nat
    } else {
        0
    }
}

/// Where the bytes of the name at a place end: behind its zero byte or behind
/// its first pointer. What the labels and the pointer hold does not matter.
pub open spec fn name_end(data: Seq<u8>, at: int) -> Result<int, DnsError>
    decreases bytes_left(data, at),
{
    if at < 0 || at >= data.len() {
        Err(DnsError::NamePastEnd)
    } else if data[at] == 0 {
        Ok(at + 1)
    } else if data[at] >= 0xC0 {
        Ok(at + 2)
    } else {
        name_end(data, at + 1 + data[at])
    }
}

/// Whether the name at a place is written out: its labels stand one behind the
/// other up to the zero byte, and there is no pointer among them.
pub open spec fn uncompressed(data: Seq<u8>, at: int) -> bool
    decreases bytes_left(data, at),
{
    if at < 0 || at >= data.len() || data[at] >= 0xC0 {
        false
    } else {
        data[at] == 0 || uncompressed(data, at + 1 + data[at])
    }
}

/// The bytes of a list of labels: each label that is not empty, behind its
/// length in bytes (the lowest byte of it).
pub open spec fn label_bytes(labels: Seq<Seq<char>>) -> Seq<u8>
    decreases labels.len(),
{
    if labels.len() == 0 {
        Seq::empty()
    } else {
        let front = label_bytes(labels.drop_last());
        let text = encode_utf8(labels.last());
        if labels.last().len() == 0 {
            front
        } else {
            front.push((text.len() % 256) as u8) + text
        }
    }
}

/// A name as it stands in a message, without compression.
pub open spec fn name_bytes(name: Seq<char>) -> Seq<u8> {
    label_bytes(split(name, '.')).push(0u8)
}

/// `std::str::from_utf8` gives the text that the bytes encode, and an error
/// where they are no valid UTF-8.
#[verifier::external_body]
fn text_of_bytes(bytes: &[u8]) -> (r: Option<String>)
    ensures
        r is Some <==> valid_utf8(bytes@),
        r matches Some(s) ==> s@ == decode_utf8(bytes@),
{
    match std::str::from_utf8(bytes) {
        Ok(s) => Some(s.to_string()),
        Err(_) => None,
    }
}

/// Reads the number in two bytes.
pub fn u16_be(data: &[u8], offset: usize) -> (r: u16)
    requires
        offset + 2 <= data@.len(),
    ensures
        r == be16(data@, offset as int),
{
    data[offset] as u16 * 256 + data[offset + 1] as u16
}

/// Reads the number in four bytes.
pub fn u32_be(data: &[u8], offset: usize) -> (r: u32)
    requires
        offset + 4 <= data@.len(),
    ensures
        r == be32(data@, offset as int),
{
    data[offset] as u32 * 0x100_0000 + data[offset + 1] as u32 * 0x1_0000 + data[offset + 2] as u32
        * 0x100 + data[offset + 3] as u32
}

/// Appends the two bytes of a number.
pub fn push_u16(buf: &mut Vec<u8>, v: u16)
    ensures
        final(buf)@ == old(buf)@ + be16_bytes(v),
{
    buf.push((v / 256) as u8);
    buf.push((v % 256) as u8);
    assert(buf@ =~= old(buf)@ + be16_bytes(v));
}

/// Appends the four bytes of a number.
pub fn push_u32(buf: &mut Vec<u8>, v: u32)
    ensures
        final(buf)@ == old(buf)@ + be32_bytes(v),
{
    buf.push((v / 0x100_0000) as u8);
    buf.push((v / 0x1_0000 % 256) as u8);
    buf.push((v / 0x100 % 256) as u8);
    buf.push((v % 256) as u8);
    assert(buf@ =~= old(buf)@ + be32_bytes(v));
}

/// Appends a part of a message.
pub fn push_range(buf: &mut Vec<u8>, data: &[u8], from: usize, to: usize)
    requires
        from <= to <= data@.len(),
    ensures
        final(buf)@ == old(buf)@ + data@.subrange(from as int, to as int),
{
    let mut i: usize = from;
    while i < to
        invariant
            from <= i <= to <= data@.len(),
            buf@ == old(buf)@ + data@.subrange(from as int, i as int),
        decreases to - i,
    {
        buf.push(data[i]);
        i += 1;
        assert(buf@ =~= old(buf)@ + data@.subrange(from as int, i as int));
    }
}

/// Finds the end of the name at a place. The end can lie behind the end of the
/// message, where a pointer is cut off.
pub fn skip_name(data: &[u8], offset: u128) -> (r: Result<u128, DnsError>)
    ensures
        match name_end(data@, offset as int) {
            Ok(end) => r matches Ok(e) && e == end && end <= data@.len() + 1,
            Err(e) => r == Err::<u128, DnsError>(e),
        },
{
    let mut at: u128 = offset;
    loop
        invariant
            name_end(data@, at as int) == name_end(data@, offset as int),
        decreases bytes_left(data@, at as int),
    {
        if at >= data.len() as u128 {
            return Err(DnsError::NamePastEnd);
        }
        let len: u8 = data[at as usize];
        if len == 0 {
            return Ok(at + 1);
        }
        if len >= 0xC0 {
            return Ok(at + 2);
        }
        at = at + 1 + len as u128;
    }
}

/// Tells whether the name at a place is written out.
pub fn is_uncompressed(data: &[u8], offset: usize) -> (r: bool)
    ensures
        r == uncompressed(data@, offset as int),
{
    let mut at: usize = offset;
    loop
        invariant
            uncompressed(data@, at as int) == uncompressed(data@, offset as int),
        decreases bytes_left(data@, at as int),
    {
        if at >= data.len() {
            return false;
        }
        let len: u8 = data[at];
        if len == 0 || len >= 0xC0 {
            return len == 0;
        }
        if len as usize >= data.len() - at {
            assert(!uncompressed(data@, at + 1 + len));
            return false;
        }
        at = at + 1 + len as usize;
    }
}

/// The labels read so far in front of what the rest of the name gives.
spec fn labels_then(front: Seq<Seq<char>>, rest: Result<Seq<Seq<char>>, DnsError>) -> Result<
    Seq<Seq<char>>,
    DnsError,
> {
    match rest {
        Ok(labels) => Ok(front + labels),
        Err(e) => Err(e),
    }
}

/// Reads the name at a place, following the compression pointers. Gives the
/// name and where its bytes end.
pub fn read_domain_name(data: &[u8], offset: usize) -> (r: Result<(String, usize), DnsError>)
    ensures
        match name_at(data@, offset as int) {
            Ok(name) => r matches Ok((n, end)) && n@ == name && name_end(data@, offset as int)
                == Ok::<int, DnsError>(end as int) && end <= data@.len(),
            Err(e) => r matches Err(err) && err == e,
        },
{
    let mut labels: Vec<String> = Vec::new();
    let mut at: usize = offset;
    let mut jumped: bool = false;
    let mut end: usize = offset;
    let mut left: usize = data.len();
    assert(texts(labels@) =~= Seq::<Seq<char>>::empty());
    proof {
        let rest = labels_within(data@, at as int, (left + 1) as nat);
        if let Ok(l) = rest {
            assert(texts(labels@) + l =~= l);
        }
    }
    loop
        invariant_except_break
            left <= data@.len(),
            labels_at(data@, offset as int) == labels_then(
                texts(labels@),
                labels_within(data@, at as int, (left + 1) as nat),
            ),
            !jumped ==> name_end(data@, at as int) == name_end(data@, offset as int),
            jumped ==> name_end(data@, offset as int) == Ok::<int, DnsError>(end as int) && end
                <= data@.len(),
        ensures
            labels_at(data@, offset as int) == Ok::<Seq<Seq<char>>, DnsError>(texts(labels@)),
            name_end(data@, offset as int) == Ok::<int, DnsError>(end as int),
            end <= data@.len(),
        decreases left,
    {
        if at >= data.len() {
            return Err(DnsError::NamePastEnd);
        }
        let len: u8 = data[at];
        if len == 0 {
            if !jumped {
                end = at + 1;
            }
            assert(texts(labels@) + Seq::<Seq<char>>::empty() =~= texts(labels@));
            break;
        }
        if len >= 0xC0 {
            if at + 1 >= data.len() {
                return Err(DnsError::PointerTruncated);
            }
            let pointer: usize = (len as usize - 0xC0) * 256 + data[at + 1] as usize;
            if !jumped {
                end = at + 2;
                jumped = true;
            }
            at = pointer;
        } else {
            if len as usize > data.len() - at - 1 {
                return Err(DnsError::LabelPastEnd);
            }
            let next: usize = at + 1 + len as usize;
            let bytes: &[u8] = slice_subrange(data, at + 1, next);
            match text_of_bytes(bytes) {
                Some(label) => {
                    let ghost front = texts(labels@);
                    let ghost text = label@;
                    labels.push(label);
                    assert(texts(labels@) =~= front.push(text));
                    proof {
                        if let Ok(l) = labels_within(data@, next as int, left as nat) {
                            assert(front + (seq![text] + l) =~= front.push(text) + l);
                        }
                    }
                },
                None => {
                    return Err(DnsError::InvalidUtf8);
                },
            }
            at = next;
        }
        if left == 0 {
            assert(labels_within(data@, at as int, 0nat) == Err::<Seq<Seq<char>>, DnsError>(
                DnsError::PointerLoop,
            ));
            return Err(DnsError::PointerLoop);
        }
        left -= 1;
    }
    Ok((join_texts(&labels, '.'), end))
}

/// Encodes a name without compression.
pub fn encode_domain_to_labels(domain: &str) -> (r: Vec<u8>)
    ensures
        r@ == name_bytes(domain@),
{
    let labels: Vec<String> = split_text(domain, '.');
    let mut encoded: Vec<u8> = Vec::new();
    let mut i: usize = 0;
    assert(texts(labels@).take(0) =~= Seq::<Seq<char>>::empty());
    while i < labels.len()
        invariant
            i <= labels@.len(),
            encoded@ == label_bytes(texts(labels@).take(i as int)),
        decreases labels@.len() - i,
    {
        let ghost upto = texts(labels@).take(i + 1);
        assert(upto.drop_last() =~= texts(labels@).take(i as int));
        assert(upto.last() == labels@[i as int]@);
        let label: &str = labels[i].as_str();
        if !label.is_empty() {
            let bytes: &[u8] = label.as_bytes();
            encoded.push((bytes.len() % 256) as u8);
            push_range(&mut encoded, bytes, 0, bytes.len());
            assert(bytes@.subrange(0, bytes@.len() as int) =~= bytes@);
        }
        i += 1;
    }
    assert(texts(labels@).take(labels@.len() as int) =~= texts(labels@));
    encoded.push(0u8);
    encoded
}

/// Numbers are read with the high byte first, and written so.
pub proof fn law_high_byte_comes_first(data: Seq<u8>, at: int, v: u16)
    ensures
        be16(data, at) == data[at] * 256 + data[at + 1],
        be32(data, at) == data[at] * 0x100_0000 + data[at + 1] * 0x1_0000 + data[at + 2] * 0x100
            + data[at + 3],
        be16_bytes(v).len() == 2,
        be16_bytes(v)[0] * 256 + be16_bytes(v)[1] == v,
{
}

} // verus!
