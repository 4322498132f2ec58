//! What holds of records that are written into another message.
use crate::addr::Ipv4Addr;
use crate::answers::{findings, with_answer, Findings};
use crate::chase::{copied, expanded, needs_expansion, rewritten, rewritten_section};
use crate::dns::{lemma_name_end_after, lemma_read_name_ends, DNS_TYPE_A, DNS_TYPE_CNAME};
use crate::lifetime::after_records;
use crate::name_laws::{
    law_name_reads_back, law_read_name_is_writable, law_uncompressed_name_reads_alike,
    law_written_name_ends, law_written_name_is_uncompressed, plain_name, writable_name,
};
use crate::wire::{be16, be16_bytes, be32, name_at, name_bytes, name_end, uncompressed, DnsError};
use vstd::prelude::*;

verus! {

/// Whether the target of an alias, whose data stands between two places, can be
/// read and lies in the data, and is or can be written out there.
pub open spec fn whole_target(source: Seq<u8>, at: int, end: int) -> bool {
    &&& name_at(source, at) is Ok
    &&& name_end(source, at) matches Ok(behind) && behind <= end
    &&& uncompressed(source, at) || needs_expansion(source, at, end)
}

/// Whether the data of the record whose fixed part is at a place changes where
/// the record is rewritten: it is an alias with a target to be written out.
pub open spec fn data_changes(source: Seq<u8>, q: int) -> bool {
    be16(source, q) == DNS_TYPE_CNAME && needs_expansion(
        source,
        q + 10,
        q + 10 + be16(source, q + 8),
    )
}

/// A record is found where it was written: a name, ten bytes and its data.
pub proof fn lemma_record_parts(
    before: Seq<u8>,
    name: Seq<char>,
    fixed: Seq<u8>,
    rdata: Seq<u8>,
    behind: Seq<u8>,
)
    requires
        writable_name(name),
        fixed.len() == 10,
        be16(fixed, 8) == rdata.len(),
    ensures
        ({
            let data = before + (name_bytes(name) + fixed + rdata) + behind;
            let start = before.len() as int;
            let r = start + name_bytes(name).len();
            &&& name_end(data, start) == Ok::<int, DnsError>(r)
            &&& uncompressed(data, start)
            &&& plain_name(name) ==> name_at(data, start) == Ok::<Seq<char>, DnsError>(name)
            &&& r + 10 + rdata.len() <= data.len()
            &&& be16(data, r) == be16(fixed, 0)
            &&& be16(data, r + 2) == be16(fixed, 2)
            &&& be32(data, r + 4) == be32(fixed, 4)
            &&& be16(data, r + 8) == rdata.len()
            &&& data.subrange(r + 10, r + 10 + rdata.len()) == rdata
            &&& data == before + name_bytes(name) + fixed + rdata + behind
        }),
{
    let written = name_bytes(name);
    let data = before + (written + fixed + rdata) + behind;
    let rest = fixed + rdata + behind;
    let r = before.len() + written.len() as int;
    assert(data =~= before + written + rest);
    assert(data =~= before + written + fixed + rdata + behind);
    law_written_name_ends(before, name, rest);
    law_written_name_is_uncompressed(before, name, rest);
    if plain_name(name) {
        law_name_reads_back(before, name, rest);
    }
    assert forall|k: int| 0 <= k < 10 implies #[trigger] fixed[k] == data[r + k] by {}
    assert(data[r] == fixed[0] && data[r + 1] == fixed[1]);
    assert(data[r + 2] == fixed[2] && data[r + 3] == fixed[3]);
    assert(data[r + 4] == fixed[4] && data[r + 5] == fixed[5]);
    assert(data[r + 6] == fixed[6] && data[r + 7] == fixed[7]);
    assert(data[r + 8] == fixed[8] && data[r + 9] == fixed[9]);
    assert(data.subrange(r + 10, r + 10 + rdata.len()) =~= rdata);
}

/// The ten bytes behind the name of a record that is rewritten, and its data.
spec fn rewritten_parts(source: Seq<u8>, p: int) -> (Seq<u8>, Seq<u8>) {
    let q = name_end(source, p)->Ok_0;
    let end = q + 10 + be16(source, q + 8);
    if data_changes(source, q) {
        let rdata = expanded(source, q + 10, end);
        (source.subrange(q, q + 8) + be16_bytes(rdata.len() as u16), rdata)
    } else {
        (source.subrange(q, q + 10), source.subrange(q + 10, end))
    }
}

proof fn lemma_rewritten_parts(source: Seq<u8>, p: int)
    requires
        rewritten(source, p) is Ok,
    ensures
        ({
            let q = name_end(source, p)->Ok_0;
            let (fixed, rdata) = rewritten_parts(source, p);
            &&& name_at(source, p) is Ok
            &&& name_end(source, p) is Ok
            &&& 0 <= q
            &&& rewritten(source, p)->Ok_0.1 == q + 10 + be16(source, q + 8)
            &&& q + 10 + be16(source, q + 8) <= source.len()
            &&& rewritten(source, p)->Ok_0.0 == name_bytes(name_at(source, p)->Ok_0) + fixed + rdata
            &&& fixed.len() == 10
            &&& be16(fixed, 0) == be16(source, q)
            &&& be16(fixed, 2) == be16(source, q + 2)
            &&& be32(fixed, 4) == be32(source, q + 4)
            &&& be16(fixed, 8) == rdata.len()
        }),
{
    reveal_with_fuel(copied, 2);
    lemma_read_name_ends(source, p, source.len() + 1);
    lemma_name_end_after(source, p);
    let q = name_end(source, p)->Ok_0;
    let end = q + 10 + be16(source, q + 8);
    let (fixed, rdata) = rewritten_parts(source, p);
    let name = name_bytes(name_at(source, p)->Ok_0);
    if data_changes(source, q) {
        let len = rdata.len() as u16;
        lemma_name_end_after(source, q + 10);
        assert(name + source.subrange(q, q + 8) + be16_bytes(len) + rdata =~= name + fixed + rdata);
        assert(fixed[8] == be16_bytes(len)[0] && fixed[9] == be16_bytes(len)[1]);
    } else {
        assert(Seq::<u8>::empty() + name + source.subrange(q, end) =~= name + fixed + rdata);
    }
    assert(fixed[0] == source[q] && fixed[1] == source[q + 1]);
    assert(fixed[2] == source[q + 2] && fixed[3] == source[q + 3]);
    assert(fixed[4] == source[q + 4] && fixed[5] == source[q + 5]);
    assert(fixed[6] == source[q + 6] && fixed[7] == source[q + 7]);
}

/// What is read of the target of an alias where its data was written: a target
/// that was to be written out, or data that was kept.
proof fn lemma_target_reads_back(source: Seq<u8>, q: int, front: Seq<u8>, behind: Seq<u8>)
    requires
        0 <= q,
        q + 10 + be16(source, q + 8) <= source.len(),
        be16(source, q) == DNS_TYPE_CNAME,
        whole_target(source, q + 10, q + 10 + be16(source, q + 8)),
    ensures
        ({
            let end = q + 10 + be16(source, q + 8);
            let rdata = if data_changes(source, q) {
                expanded(source, q + 10, end)
            } else {
                source.subrange(q + 10, end)
            };
            let data = front + rdata + behind;
            let at = front.len() as int;
            &&& uncompressed(data, at)
            &&& uncompressed(source, q + 10) || plain_name(name_at(source, q + 10)->Ok_0)
                ==> name_at(data, at) == name_at(source, q + 10)
        }),
{
    let end = q + 10 + be16(source, q + 8);
    let at = front.len() as int;
    let stop = name_end(source, q + 10)->Ok_0;
    lemma_name_end_after(source, q + 10);
    if data_changes(source, q) {
        let target = name_at(source, q + 10)->Ok_0;
        let rest = source.subrange(stop, end);
        let data = front + (name_bytes(target) + rest) + behind;
        assert(data =~= front + name_bytes(target) + (rest + behind));
        law_read_name_is_writable(source, q + 10);
        law_written_name_is_uncompressed(front, target, rest + behind);
        if plain_name(target) {
            law_name_reads_back(front, target, rest + behind);
        }
    } else {
        let data = front + source.subrange(q + 10, end) + behind;
        assert(data.subrange(at, at + stop - (q + 10)) =~= source.subrange(q + 10, stop));
        law_uncompressed_name_reads_alike(source, q + 10, data, at);
    }
}

/// A rewritten record has the type, the class, the lifetime and the data of the
/// record it was made from, and no pointer in the place of its owner. The data
/// of an alias has its target written out: it has no pointer in the place of the
/// target, where that can be read. What could be written so that it reads back
/// reads as in the message that the record comes from.
pub proof fn law_rewritten_record_reads_back(
    source: Seq<u8>,
    p: int,
    before: Seq<u8>,
    behind: Seq<u8>,
)
    requires
        rewritten(source, p) is Ok,
    ensures
        ({
            let (record, end) = rewritten(source, p)->Ok_0;
            let q = name_end(source, p)->Ok_0;
            let data = before + record + behind;
            let start = before.len() as int;
            let r = name_end(data, start)->Ok_0;
            &&& name_end(source, p) is Ok
            &&& q + 10 <= end <= source.len()
            &&& end == q + 10 + be16(source, q + 8)
            &&& name_end(data, start) is Ok
            &&& start < r
            &&& r + 10 + be16(data, r + 8) == start + record.len()
            &&& be16(data, r) == be16(source, q)
            &&& be16(data, r + 2) == be16(source, q + 2)
            &&& be32(data, r + 4) == be32(source, q + 4)
            &&& uncompressed(data, start)
            &&& name_at(source, p) is Ok
            &&& plain_name(name_at(source, p)->Ok_0) ==> name_at(data, start) == name_at(source, p)
            &&& data.subrange(r + 10, start + record.len()) == (if data_changes(source, q) {
                expanded(source, q + 10, end)
            } else {
                source.subrange(q + 10, end)
            })
            &&& be16(source, q) == DNS_TYPE_CNAME && whole_target(source, q + 10, end) ==> {
                &&& uncompressed(data, r + 10)
                &&& uncompressed(source, q + 10) || plain_name(name_at(source, q + 10)->Ok_0)
                    ==> name_at(data, r + 10) == name_at(source, q + 10)
            }
        }),
{
    let (record, end) = rewritten(source, p)->Ok_0;
    let q = name_end(source, p)->Ok_0;
    let (fixed, rdata) = rewritten_parts(source, p);
    let name = name_at(source, p)->Ok_0;
    lemma_rewritten_parts(source, p);
    law_read_name_is_writable(source, p);
    lemma_record_parts(before, name, fixed, rdata, behind);
    let front = before + name_bytes(name) + fixed;
    if be16(source, q) == DNS_TYPE_CNAME && whole_target(source, q + 10, end) {
        lemma_target_reads_back(source, q, front, behind);
    }
}

/// The four bytes of an address are read as in the record it was made from.
proof fn lemma_address_kept(source: Seq<u8>, p: int, before: Seq<u8>, behind: Seq<u8>)
    requires
        rewritten(source, p) is Ok,
    ensures
        ({
            let q = name_end(source, p)->Ok_0;
            let data = before + rewritten(source, p)->Ok_0.0 + behind;
            let r = name_end(data, before.len() as int)->Ok_0;
            be16(source, q) != DNS_TYPE_CNAME ==> {
                &&& be16(data, r + 8) == be16(source, q + 8)
                &&& be16(data, r + 8) == 4 ==> be32(data, r + 10) == be32(source, q + 10)
            }
        }),
{
    law_rewritten_record_reads_back(source, p, before, behind);
    lemma_rewritten_parts(source, p);
    let (record, end) = rewritten(source, p)->Ok_0;
    let q = name_end(source, p)->Ok_0;
    let data = before + record + behind;
    let r = name_end(data, before.len() as int)->Ok_0;
    if be16(source, q) != DNS_TYPE_CNAME {
        let there = data.subrange(r + 10, (before.len() + record.len()) as int);
        let here = source.subrange(q + 10, end);
        assert(there == here);
        assert(there.len() == be16(data, r + 8) && here.len() == be16(source, q + 8));
        if here.len() == 4 {
            assert(there[0] == data[r + 10] && there[1] == data[r + 11]);
            assert(there[2] == data[r + 12] && there[3] == data[r + 13]);
            assert(here[0] == source[q + 10] && here[1] == source[q + 11]);
            assert(here[2] == source[q + 12] && here[3] == source[q + 13]);
        }
    }
}

/// A rewritten record, and where the record it was made from ends.
#[verifier::opaque]
spec fn record_of(source: Seq<u8>, p: int) -> Result<(Seq<u8>, int), DnsError> {
    rewritten(source, p)
}

/// A section of rewritten records, and where the section it was made from ends.
spec fn section_of(source: Seq<u8>, at: int, count: nat) -> Result<(Seq<u8>, int), DnsError>
    decreases count,
{
    if count == 0 {
        Ok((Seq::empty(), at))
    } else {
        match section_of(source, at, (count - 1) as nat) {
            Err(e) => Err(e),
            Ok((bytes, p)) => match record_of(source, p) {
                Err(e) => Err(e),
                Ok((record, end)) => Ok((bytes + record, end)),
            },
        }
    }
}

proof fn lemma_section_of(source: Seq<u8>, at: int, count: nat)
    ensures
        section_of(source, at, count) == rewritten_section(source, at, count),
    decreases count,
{
    if count > 0 {
        lemma_section_of(source, at, (count - 1) as nat);
        reveal(record_of);
    }
}

/// The first records of a section stand in front of more of them.
proof fn lemma_section_prefix(source: Seq<u8>, at: int, few: nat, many: nat) -> (more: Seq<u8>)
    requires
        few <= many,
        section_of(source, at, many) is Ok,
    ensures
        section_of(source, at, few) is Ok,
        section_of(source, at, many)->Ok_0.0 == section_of(source, at, few)->Ok_0.0 + more,
    decreases many,
{
    let all = section_of(source, at, many)->Ok_0.0;
    if few == many {
        assert(all =~= all + Seq::<u8>::empty());
        Seq::empty()
    } else {
        let last = (many - 1) as nat;
        let front = lemma_section_prefix(source, at, few, last);
        let p = section_of(source, at, last)->Ok_0.1;
        let record = record_of(source, p)->Ok_0.0;
        assert(all =~= section_of(source, at, few)->Ok_0.0 + (front + record));
        front + record
    }
}

/// A rewritten record takes one step in the message that it was made from.
proof fn lemma_record_step(source: Seq<u8>, p: int)
    requires
        record_of(source, p) is Ok,
    ensures
        name_end(source, p) matches Ok(q) && q + 10 <= source.len() && record_of(source, p)->Ok_0.1
            == q + 10 + be16(source, q + 8),
{
    reveal(record_of);
    reveal_with_fuel(copied, 2);
    lemma_read_name_ends(source, p, source.len() + 1);
}

/// Rewriting a section ends where its records end.
proof fn lemma_section_end(source: Seq<u8>, at: int, count: nat)
    requires
        section_of(source, at, count) is Ok,
    ensures
        after_records(source, at, count) == Ok::<int, DnsError>(
            section_of(source, at, count)->Ok_0.1,
        ),
    decreases count,
{
    if count > 0 {
        let last = (count - 1) as nat;
        lemma_section_end(source, at, last);
        lemma_record_step(source, section_of(source, at, last)->Ok_0.1);
    }
}

/// One record of a section that stands in a message, between what is in front
/// of it and what is behind it.
proof fn lemma_section_split(
    before: Seq<u8>,
    source: Seq<u8>,
    at: int,
    many: nat,
    behind: Seq<u8>,
    index: nat,
) -> (r: (Seq<u8>, Seq<u8>))
    requires
        index < many,
        section_of(source, at, many) is Ok,
    ensures
        ({
            let (bytes, p) = section_of(source, at, index)->Ok_0;
            let (record, end) = record_of(source, p)->Ok_0;
            &&& section_of(source, at, index) is Ok
            &&& record_of(source, p) is Ok
            &&& section_of(source, at, index + 1) == Ok::<(Seq<u8>, int), DnsError>(
                (bytes + record, end),
            )
            &&& r.0 == before + bytes
            &&& before + section_of(source, at, many)->Ok_0.0 + behind == r.0 + record + r.1
        }),
{
    let more = lemma_section_prefix(source, at, index + 1, many);
    let after = lemma_section_prefix(source, at, index, index + 1);
    let (bytes, p) = section_of(source, at, index)->Ok_0;
    let record = record_of(source, p)->Ok_0.0;
    let front = before + bytes;
    assert(before + section_of(source, at, many)->Ok_0.0 + behind =~= front + record + (more
        + behind));
    (front, more + behind)
}

/// A record that stands in a message takes one step there.
proof fn lemma_record_place(source: Seq<u8>, p: int, before: Seq<u8>, behind: Seq<u8>)
    requires
        record_of(source, p) is Ok,
    ensures
        ({
            let record = record_of(source, p)->Ok_0.0;
            let data = before + record + behind;
            name_end(data, before.len() as int) matches Ok(r) && r + 10 <= data.len() && r + 10
                + be16(data, r + 8) == before.len() + record.len()
        }),
{
    reveal(record_of);
    law_rewritten_record_reads_back(source, p, before, behind);
}

/// The records of a section stand one behind the other where the section was
/// written.
proof fn lemma_section_places(
    before: Seq<u8>,
    source: Seq<u8>,
    at: int,
    many: nat,
    behind: Seq<u8>,
    data: Seq<u8>,
    start: int,
    others: nat,
    count: nat,
)
    requires
        count <= many,
        section_of(source, at, many) is Ok,
        data == before + section_of(source, at, many)->Ok_0.0 + behind,
        after_records(data, start, others) == Ok::<int, DnsError>(before.len() as int),
    ensures
        section_of(source, at, count) is Ok,
        after_records(data, start, others + count) == Ok::<int, DnsError>(
            (before.len() + section_of(source, at, count)->Ok_0.0.len()) as int,
        ),
    decreases count,
{
    if count > 0 {
        let last = (count - 1) as nat;
        lemma_section_places(before, source, at, many, behind, data, start, others, last);
        let (front, rest) = lemma_section_split(before, source, at, many, behind, last);
        let p = section_of(source, at, last)->Ok_0.1;
        lemma_section_end(source, at, last);
        lemma_record_place(source, p, front, rest);
        assert((others + count - 1) as nat == others + last);
    }
}

/// Each record of a section that was rewritten into a message stands there
/// behind the others, with the type, the class, the lifetime and the data that it
/// had, but for the targets of aliases that were written out. No alias among
/// them has a pointer, neither in the place of its owner nor of its target,
/// where that can be read. A target that could be written so that it reads back
/// reads as in the message that the alias comes from.
pub proof fn law_rewritten_section_reads_back(
    before: Seq<u8>,
    source: Seq<u8>,
    at: int,
    count: nat,
    behind: Seq<u8>,
    start: int,
    others: nat,
    index: nat,
)
    requires
        index < count,
        rewritten_section(source, at, count) is Ok,
        after_records(
            before + rewritten_section(source, at, count)->Ok_0.0 + behind,
            start,
            others,
        ) == Ok::<int, DnsError>(before.len() as int),
    ensures
        ({
            let data = before + rewritten_section(source, at, count)->Ok_0.0 + behind;
            let p = after_records(data, start, others + index)->Ok_0;
            let r = name_end(data, p)->Ok_0;
            let from = after_records(source, at, index)->Ok_0;
            let q = name_end(source, from)->Ok_0;
            &&& after_records(source, at, index) is Ok
            &&& name_end(source, from) is Ok
            &&& after_records(data, start, others + index) is Ok
            &&& name_end(data, p) is Ok
            &&& after_records(data, start, others + index + 1) is Ok
            &&& be16(data, r) == be16(source, q)
            &&& be16(data, r + 2) == be16(source, q + 2)
            &&& be32(data, r + 4) == be32(source, q + 4)
            &&& uncompressed(data, p)
            &&& name_at(source, from) is Ok
            &&& plain_name(name_at(source, from)->Ok_0) ==> name_at(data, p) == name_at(
                source,
                from,
            )
            &&& data.subrange(r + 10, r + 10 + be16(data, r + 8)) == (if data_changes(source, q) {
                expanded(source, q + 10, q + 10 + be16(source, q + 8))
            } else {
                source.subrange(q + 10, q + 10 + be16(source, q + 8))
            })
            &&& be16(source, q) == DNS_TYPE_CNAME && whole_target(
                source,
                q + 10,
                q + 10 + be16(source, q + 8),
            ) ==> {
                &&& uncompressed(data, r + 10)
                &&& uncompressed(source, q + 10) || plain_name(name_at(source, q + 10)->Ok_0)
                    ==> name_at(data, r + 10) == name_at(source, q + 10)
            }
        }),
{
    let data = before + rewritten_section(source, at, count)->Ok_0.0 + behind;
    lemma_section_of(source, at, count);
    lemma_section_places(before, source, at, count, behind, data, start, others, index);
    lemma_section_places(before, source, at, count, behind, data, start, others, index + 1);
    let (front, rest) = lemma_section_split(before, source, at, count, behind, index);
    lemma_section_end(source, at, index);
    let from = section_of(source, at, index)->Ok_0.1;
    reveal(record_of);
    law_rewritten_record_reads_back(source, from, front, rest);
}

/// Two sections that stand one behind the other are rewritten as one.
pub proof fn lemma_sections_join(source: Seq<u8>, at: int, first: nat, second: nat)
    requires
        rewritten_section(source, at, first) is Ok,
    ensures
        ({
            let (bytes, end) = rewritten_section(source, at, first)->Ok_0;
            rewritten_section(source, end, second) matches Ok((more, last)) ==> rewritten_section(
                source,
                at,
                first + second,
            ) == Ok::<(Seq<u8>, int), DnsError>((bytes + more, last))
        }),
    decreases second,
{
    let (bytes, end) = rewritten_section(source, at, first)->Ok_0;
    if second == 0 {
        assert(bytes + Seq::<u8>::empty() =~= bytes);
    } else {
        let prev = (second - 1) as nat;
        lemma_sections_join(source, at, first, prev);
        assert((first + second - 1) as nat == first + prev);
        if let Ok((more, p)) = rewritten_section(source, end, prev) {
            if let Ok((record, _)) = rewritten(source, p) {
                assert(bytes + (more + record) =~= bytes + more + record);
            }
        }
    }
}

/// Rewriting a section ends where its records end.
pub proof fn lemma_rewriting_ends(source: Seq<u8>, at: int, count: nat)
    requires
        rewritten_section(source, at, count) is Ok,
    ensures
        after_records(source, at, count) == Ok::<int, DnsError>(
            rewritten_section(source, at, count)->Ok_0.1,
        ),
{
    lemma_section_of(source, at, count);
    lemma_section_end(source, at, count);
}

/// A number with a lower bound.
pub open spec fn at_least(a: u32, b: u32) -> u32 {
    if a < b {
        b
    } else {
        a
    }
}

/// What is found in a message after some answers and then rewritten records.
spec fn found_after(g: Findings, s: Findings, at: int) -> Findings {
    Findings {
        at,
        max_ttl: at_least(g.max_ttl, s.max_ttl),
        has_aaaa: g.has_aaaa || s.has_aaaa,
        a_records: g.a_records + s.a_records,
        cname_target: g.cname_target,
    }
}

/// What one more answer adds.
#[verifier::opaque]
spec fn step_of(data: Seq<u8>, f: Findings) -> Result<Findings, DnsError> {
    with_answer(data, f)
}

/// What the first `count` answers from a place on hold.
spec fn found(data: Seq<u8>, at: int, count: nat) -> Result<Findings, DnsError>
    decreases count,
{
    if count == 0 {
        findings(data, at, 0)
    } else {
        match found(data, at, (count - 1) as nat) {
            Ok(f) => step_of(data, f),
            Err(e) => Err(e),
        }
    }
}

proof fn lemma_found(data: Seq<u8>, at: int, count: nat)
    ensures
        found(data, at, count) == findings(data, at, count),
    decreases count,
{
    if count > 0 {
        lemma_found(data, at, (count - 1) as nat);
        reveal(step_of);
    }
}

proof fn lemma_found_prefix(data: Seq<u8>, at: int, few: nat, many: nat)
    requires
        few <= many,
        found(data, at, many) is Ok,
    ensures
        found(data, at, few) is Ok,
    decreases many,
{
    if few < many {
        lemma_found_prefix(data, at, few, (many - 1) as nat);
    }
}

/// What is found with one more rewritten record.
proof fn lemma_record_found(
    source: Seq<u8>,
    s: Findings,
    before: Seq<u8>,
    behind: Seq<u8>,
    g: Findings,
)
    requires
        step_of(source, s) is Ok,
        record_of(source, s.at) is Ok,
        g.cname_target is Some,
    ensures
        ({
            let (record, end) = record_of(source, s.at)->Ok_0;
            let after = step_of(source, s)->Ok_0;
            &&& after.at == end
            &&& step_of(
                before + record + behind,
                found_after(g, s, before.len() as int),
            ) == Ok::<Findings, DnsError>(
                found_after(g, after, (before.len() + record.len()) as int),
            )
        }),
{
    reveal(step_of);
    reveal(record_of);
    law_rewritten_record_reads_back(source, s.at, before, behind);
    lemma_address_kept(source, s.at, before, behind);
    let q = name_end(source, s.at)->Ok_0;
    let h = found_after(g, s, before.len() as int);
    let after = step_of(source, s)->Ok_0;
    if be16(source, q) == DNS_TYPE_A && be16(source, q + 8) == 4 {
        assert(g.a_records + after.a_records =~= h.a_records.push(
            Ipv4Addr { bits: be32(source, q + 10) },
        ));
    }
}

/// What is found in rewritten records behind others.
proof fn lemma_section_found(
    before: Seq<u8>,
    source: Seq<u8>,
    at: int,
    many: nat,
    behind: Seq<u8>,
    data: Seq<u8>,
    start: int,
    others: nat,
    count: nat,
)
    requires
        count <= many,
        section_of(source, at, many) is Ok,
        found(source, at, many) is Ok,
        data == before + section_of(source, at, many)->Ok_0.0 + behind,
        found(data, start, others) matches Ok(g) && g.at == before.len() && g.cname_target is Some,
    ensures
        section_of(source, at, count) is Ok,
        found(source, at, count) is Ok,
        found(source, at, count)->Ok_0.at == section_of(source, at, count)->Ok_0.1,
        found(data, start, others + count) == Ok::<Findings, DnsError>(
            found_after(
                found(data, start, others)->Ok_0,
                found(source, at, count)->Ok_0,
                (before.len() + section_of(source, at, count)->Ok_0.0.len()) as int,
            ),
        ),
    decreases count,
{
    let g = found(data, start, others)->Ok_0;
    lemma_found_prefix(source, at, count, many);
    if count == 0 {
        assert(g.a_records + Seq::<Ipv4Addr>::empty() =~= g.a_records);
    } else {
        let last = (count - 1) as nat;
        lemma_section_found(before, source, at, many, behind, data, start, others, last);
        let (front, rest) = lemma_section_split(before, source, at, many, behind, last);
        lemma_section_end(source, at, last);
        lemma_record_found(source, found(source, at, last)->Ok_0, front, rest, g);
        assert(found(data, start, others + count) == step_of(
            data,
            found(data, start, others + last)->Ok_0,
        ));
    }
}

/// What is found in a message behind other answers, of which one is an alias,
/// and then rewritten records: the addresses of both, and the longer lifetime.
pub proof fn lemma_rewritten_found(
    before: Seq<u8>,
    source: Seq<u8>,
    at: int,
    count: nat,
    behind: Seq<u8>,
    start: int,
    others: nat,
)
    requires
        rewritten_section(source, at, count) is Ok,
        findings(source, at, count) is Ok,
        findings(
            before + rewritten_section(source, at, count)->Ok_0.0 + behind,
            start,
            others,
        ) matches Ok(g) && g.at == before.len() && g.cname_target is Some,
    ensures
        ({
            let data = before + rewritten_section(source, at, count)->Ok_0.0 + behind;
            let g = findings(data, start, others)->Ok_0;
            let s = findings(source, at, count)->Ok_0;
            findings(data, start, others + count) matches Ok(f) && f.max_ttl == at_least(
                g.max_ttl,
                s.max_ttl,
            ) && f.has_aaaa == (g.has_aaaa || s.has_aaaa) && f.a_records == g.a_records
                + s.a_records && f.cname_target == g.cname_target
        }),
{
    let data = before + rewritten_section(source, at, count)->Ok_0.0 + behind;
    lemma_section_of(source, at, count);
    lemma_found(source, at, count);
    lemma_found(data, start, others);
    lemma_found(data, start, others + count);
    lemma_section_found(before, source, at, count, behind, data, start, others, count);
}

} // verus!
