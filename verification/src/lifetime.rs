//! The lifetimes in a response.
use crate::dns::{
    lemma_name_end_after, lemma_name_end_window, lemma_questions_advance, lemma_questions_window,
    question_end, skip_question_section,
};
use crate::wire::{
    be16, be32, be32_bytes, bytes_left, law_u32_reads_back, name_end, skip_name, u16_be, DnsError,
};
use vstd::prelude::*;

verus! {

/// Where a number of records end. Each is a name, ten bytes that hold its
/// type, class, lifetime and length, and as many bytes of data. The data of the
/// last one can run behind the end of the message.
pub open spec fn after_records(data: Seq<u8>, at: int, count: nat) -> Result<int, DnsError>
    decreases count,
{
    if count == 0 {
        Ok(at)
    } else {
        match after_records(data, at, (count - 1) as nat) {
            Err(e) => Err(e),
            Ok(p) => match name_end(data, p) {
                Err(e) => Err(e),
                Ok(q) => if q + 10 > data.len() {
                    Err(DnsError::AnswerTruncated)
                } else {
                    Ok(q + 10 + be16(data, q + 8))
                },
            },
        }
    }
}

/// Where the fixed part of the record behind the first `index` records starts.
pub open spec fn fixed_part(data: Seq<u8>, at: int, index: nat) -> Result<int, DnsError> {
    match after_records(data, at, index) {
        Ok(p) => name_end(data, p),
        Err(e) => Err(e),
    }
}

/// A message with some of its bytes replaced.
pub open spec fn overwritten(data: Seq<u8>, at: int, bytes: Seq<u8>) -> Seq<u8> {
    data.take(at) + bytes + data.skip(at + bytes.len())
}

/// A message with the lifetime of each of the first `count` records from a
/// place on replaced, as far as there are such records.
pub open spec fn with_lifetime(data: Seq<u8>, at: int, count: nat, ttl: u32) -> Seq<u8>
    decreases count,
{
    if count == 0 {
        data
    } else {
        let before = with_lifetime(data, at, (count - 1) as nat, ttl);
        match fixed_part(data, at, (count - 1) as nat) {
            Ok(q) => if q + 10 > data.len() {
                before
            } else {
                overwritten(before, q + 4, be32_bytes(ttl))
            },
            Err(_) => before,
        }
    }
}

/// What becomes of a response whose answers get one lifetime.
pub open spec fn capped(data: Seq<u8>, ttl: u32) -> Seq<u8> {
    if data.len() < 12 {
        data
    } else {
        match question_end(data) {
            Ok(start) => with_lifetime(data, start, be16(data, 6) as nat, ttl),
            Err(_) => data,
        }
    }
}

/// Whether the lifetimes of all answers of a response can be replaced.
pub open spec fn cap_outcome(data: Seq<u8>) -> Result<(), DnsError> {
    if data.len() < 12 {
        Err(DnsError::ResponseTooShort)
    } else {
        match question_end(data) {
            Err(e) => Err(e),
            Ok(start) => match after_records(data, start, be16(data, 6) as nat) {
                Err(e) => Err(e),
                Ok(_) => Ok(()),
            },
        }
    }
}

pub proof fn lemma_records_error_stays(data: Seq<u8>, at: int, some: nat, more: nat)
    requires
        some <= more,
        after_records(data, at, some) is Err,
    ensures
        after_records(data, at, more) == after_records(data, at, some),
    decreases more,
{
    if some < more {
        lemma_records_error_stays(data, at, some, (more - 1) as nat);
    }
}

/// Behind the first record that cannot be read nothing is replaced.
proof fn lemma_lifetime_stops(data: Seq<u8>, at: int, some: nat, more: nat, ttl: u32)
    requires
        some <= more,
        after_records(data, at, some) is Err,
    ensures
        with_lifetime(data, at, more, ttl) == with_lifetime(data, at, some, ttl),
    decreases more,
{
    if some < more {
        lemma_lifetime_stops(data, at, some, (more - 1) as nat, ttl);
        lemma_records_error_stays(data, at, some, (more - 1) as nat);
    }
}

/// The end of a name depends on what stands from the name on alone.
proof fn lemma_name_end_local(a: Seq<u8>, b: Seq<u8>, at: int)
    requires
        a.len() == b.len(),
        forall|k: int| at <= k < a.len() ==> a[k] == b[k],
    ensures
        name_end(a, at) == name_end(b, at),
    decreases bytes_left(a, at),
{
    if 0 <= at < a.len() && a[at] != 0 && a[at] < 0xC0 {
        lemma_name_end_local(a, b, at + 1 + a[at]);
    }
}

proof fn lemma_records_advance(data: Seq<u8>, at: int, count: nat)
    requires
        0 <= at,
    ensures
        after_records(data, at, count) matches Ok(p) ==> p >= at,
    decreases count,
{
    if count > 0 {
        lemma_records_advance(data, at, (count - 1) as nat);
        if let Ok(p) = after_records(data, at, (count - 1) as nat) {
            lemma_name_end_after(data, p);
        }
    }
}

/// Where records stand depends on what stands from the first of them on alone.
proof fn lemma_records_local(a: Seq<u8>, b: Seq<u8>, at: int, count: nat)
    requires
        0 <= at,
        a.len() == b.len(),
        forall|k: int| at <= k < a.len() ==> a[k] == b[k],
    ensures
        after_records(a, at, count) == after_records(b, at, count),
        fixed_part(a, at, count) == fixed_part(b, at, count),
    decreases count,
{
    if count > 0 {
        lemma_records_local(a, b, at, (count - 1) as nat);
        lemma_records_advance(a, at, (count - 1) as nat);
        if let Ok(p) = after_records(a, at, (count - 1) as nat) {
            lemma_name_end_after(a, p);
        }
    }
    lemma_records_advance(a, at, count);
    if let Ok(p) = after_records(a, at, count) {
        lemma_name_end_local(a, b, p);
    }
}

/// Whether the lifetimes of a response can be replaced, and where they stand,
/// does not depend on its identifier.
pub proof fn law_cap_ignores_the_identifier(a: Seq<u8>, b: Seq<u8>)
    requires
        cap_outcome(a) is Ok,
        a.len() == b.len(),
        forall|k: int| 2 <= k < a.len() ==> a[k] == b[k],
    ensures
        cap_outcome(b) is Ok,
        question_end(b) == question_end(a),
        be16(b, 6) == be16(a, 6),
        forall|k: nat|
            #[trigger] fixed_part(b, question_end(a)->Ok_0, k) == fixed_part(
                a,
                question_end(a)->Ok_0,
                k,
            ),
{
    let start = question_end(a)->Ok_0;
    lemma_questions_window(a, b, 12, be16(a, 4) as nat);
    lemma_records_local(a, b, start, be16(a, 6) as nat);
    assert forall|k: nat|
        #[trigger] fixed_part(b, question_end(a)->Ok_0, k) == fixed_part(
            a,
            question_end(a)->Ok_0,
            k,
        ) by {
        lemma_records_local(a, b, start, k);
    }
}

/// Replaces the lifetime of every answer of a response. Where an answer cannot
/// be read, those before it have been changed.
pub fn cap_response_ttl(response: &mut [u8], max_ttl: u32) -> (r: Result<(), DnsError>)
    ensures
        r == cap_outcome(old(response)@),
        final(response)@ == capped(old(response)@, max_ttl),
{
    if response.len() < 12 {
        return Err(DnsError::ResponseTooShort);
    }
    let start: u128 = match skip_question_section(response) {
        Ok(end) => end,
        Err(e) => {
            return Err(e);
        },
    };
    let count: u16 = u16_be(response, 6);
    let total: usize = response.len();
    let ghost data = response@;
    let mut offset: u128 = start;
    let mut i: u16 = 0;
    while i < count
        invariant
            i <= count,
            data == old(response)@,
            data.len() == total,
            total >= 12,
            count == be16(data, 6),
            question_end(data) == Ok::<int, DnsError>(start as int),
            response@.len() == total,
            after_records(data, start as int, i as nat) == Ok::<int, DnsError>(offset as int),
            response@ == with_lifetime(data, start as int, i as nat, max_ttl),
            forall|k: int| offset <= k < total ==> response@[k] == data[k],
        decreases count - i,
    {
        proof {
            if after_records(data, start as int, (i + 1) as nat) is Err {
                lemma_records_error_stays(data, start as int, (i + 1) as nat, count as nat);
                lemma_lifetime_stops(data, start as int, (i + 1) as nat, count as nat, max_ttl);
            }
            lemma_name_end_local(response@, data, offset as int);
            lemma_name_end_after(data, offset as int);
        }
        let p: u128 = match skip_name(response, offset) {
            Ok(end) => end,
            Err(e) => {
                return Err(e);
            },
        };
        if p + 10 > total as u128 {
            return Err(DnsError::AnswerTruncated);
        }
        let p: usize = p as usize;
        let ghost before = response@;
        response[p + 4] = (max_ttl / 0x100_0000) as u8;
        response[p + 5] = (max_ttl / 0x1_0000 % 256) as u8;
        response[p + 6] = (max_ttl / 0x100 % 256) as u8;
        response[p + 7] = (max_ttl % 256) as u8;
        assert(response@ =~= overwritten(before, p + 4, be32_bytes(max_ttl)));
        let rdlength: u16 = u16_be(response, p + 8);
        offset = p as u128 + 10 + rdlength as u128;
        i += 1;
    }
    Ok(())
}

/// Whether a byte belongs to the lifetime of the record with an index.
pub open spec fn in_lifetime_of(data: Seq<u8>, at: int, index: nat, i: int) -> bool {
    fixed_part(data, at, index) matches Ok(q) && q + 4 <= i < q + 8
}

/// Whether a byte belongs to the lifetime of one of the first `count` records.
pub open spec fn in_lifetime(data: Seq<u8>, at: int, count: nat, i: int) -> bool {
    exists|k: nat| k < count && #[trigger] in_lifetime_of(data, at, k, i)
}

/// The records stand one behind the other.
proof fn lemma_records_in_order(data: Seq<u8>, at: int, few: nat, many: nat)
    requires
        0 <= at,
        few <= many,
        after_records(data, at, many) is Ok,
    ensures
        after_records(data, at, few) is Ok,
        at <= after_records(data, at, few)->Ok_0 <= after_records(data, at, many)->Ok_0,
        few < many ==> (fixed_part(data, at, few) matches Ok(q) && after_records(
            data,
            at,
            few,
        )->Ok_0 < q && q + 10 <= data.len() && q + 10 <= after_records(data, at, many)->Ok_0),
    decreases many,
{
    lemma_records_advance(data, at, few);
    if few < many {
        lemma_records_in_order(data, at, few, (many - 1) as nat);
        let p = after_records(data, at, (many - 1) as nat)->Ok_0;
        lemma_name_end_after(data, p);
    }
}

/// Replacing the lifetimes of some records gives each of them that lifetime,
/// changes no other byte, and leaves every record where it was.
pub proof fn law_lifetimes_replaced(data: Seq<u8>, at: int, count: nat, ttl: u32)
    requires
        0 <= at,
        after_records(data, at, count) is Ok,
    ensures
        with_lifetime(data, at, count, ttl).len() == data.len(),
        forall|k: nat|
            k < count ==> (#[trigger] fixed_part(data, at, k)) is Ok && be32(
                with_lifetime(data, at, count, ttl),
                fixed_part(data, at, k)->Ok_0 + 4,
            ) == ttl,
        forall|i: int|
            0 <= i < data.len() && !in_lifetime(data, at, count, i) ==> (#[trigger] with_lifetime(
                data,
                at,
                count,
                ttl,
            )[i]) == data[i],
        forall|k: nat|
            k <= count ==> #[trigger] after_records(with_lifetime(data, at, count, ttl), at, k)
                == after_records(data, at, k),
    decreases count,
{
    let out = with_lifetime(data, at, count, ttl);
    if count > 0 {
        let last = (count - 1) as nat;
        law_lifetimes_replaced(data, at, last, ttl);
        lemma_records_in_order(data, at, last, count);
        let before = with_lifetime(data, at, last, ttl);
        let q = fixed_part(data, at, last)->Ok_0;
        let bytes = be32_bytes(ttl);
        assert(out == overwritten(before, q + 4, bytes));
        assert(forall|i: int|
            0 <= i < data.len() && !(q + 4 <= i < q + 8) ==> out[i] == before[i]);
        law_u32_reads_back(before.take(q + 4), ttl, before.skip(q + 8));
        assert forall|k: nat| k < count implies (#[trigger] fixed_part(data, at, k)) is Ok
            && be32(out, fixed_part(data, at, k)->Ok_0 + 4) == ttl by {
            lemma_records_in_order(data, at, k, count);
            if k < last {
                lemma_records_in_order(data, at, k, last);
                let p = fixed_part(data, at, k)->Ok_0;
                assert(be32(before, p + 4) == ttl);
                assert(be32(out, p + 4) == be32(before, p + 4));
            }
        }
        assert forall|i: int|
            0 <= i < data.len() && !in_lifetime(data, at, count, i) implies #[trigger] out[i]
            == data[i] by {
            if q + 4 <= i < q + 8 {
                assert(in_lifetime_of(data, at, last, i));
            }
            if in_lifetime(data, at, last, i) {
                let k = choose|k: nat| k < last && #[trigger] in_lifetime_of(data, at, k, i);
                assert(in_lifetime_of(data, at, k, i));
            }
            assert(before[i] == data[i]);
        }
    }
    lemma_layout_kept(data, out, at, count);
}

/// A message that differs in lifetimes alone has its records in the same
/// places.
proof fn lemma_layout_kept(data: Seq<u8>, out: Seq<u8>, at: int, count: nat)
    requires
        0 <= at,
        after_records(data, at, count) is Ok,
        out.len() == data.len(),
        forall|i: int|
            0 <= i < data.len() && !in_lifetime(data, at, count, i) ==> (#[trigger] out[i])
                == data[i],
    ensures
        forall|k: nat|
            k <= count ==> #[trigger] after_records(out, at, k) == after_records(data, at, k),
{
    assert forall|k: nat| k <= count implies #[trigger] after_records(out, at, k) == after_records(
        data,
        at,
        k,
    ) by {
        lemma_layout_kept_to(data, out, at, count, k);
    }
}

proof fn lemma_layout_kept_to(data: Seq<u8>, out: Seq<u8>, at: int, count: nat, k: nat)
    requires
        0 <= at,
        k <= count,
        after_records(data, at, count) is Ok,
        out.len() == data.len(),
        forall|i: int|
            0 <= i < data.len() && !in_lifetime(data, at, count, i) ==> (#[trigger] out[i])
                == data[i],
    ensures
        after_records(out, at, k) == after_records(data, at, k),
    decreases k,
{
    if k > 0 {
        let prev = (k - 1) as nat;
        lemma_layout_kept_to(data, out, at, count, prev);
        lemma_records_in_order(data, at, prev, count);
        let p = after_records(data, at, prev)->Ok_0;
        let q = fixed_part(data, at, prev)->Ok_0;
        assert forall|i: int|
            (p <= i < q || i == q + 8 || i == q + 9) && i < data.len() implies data[i]
            == out[i] by {
            if in_lifetime(data, at, count, i) {
                let j = choose|j: nat| j < count && #[trigger] in_lifetime_of(data, at, j, i);
                lemma_records_in_order(data, at, j, count);
                if j < prev {
                    lemma_records_in_order(data, at, j, prev);
                } else if j > prev {
                    lemma_records_in_order(data, at, prev, j);
                    lemma_records_in_order(data, at, k, j);
                    lemma_name_end_after(data, after_records(data, at, j)->Ok_0);
                }
            }
        }
        lemma_name_end_window(data, out, p);
    }
}

proof fn lemma_lifetime_bytes(data: Seq<u8>, at: int, count: nat, ttl: u32, k: nat, j: int)
    requires
        0 <= at,
        after_records(data, at, count) is Ok,
        k < count,
        0 <= j < 4,
    ensures
        fixed_part(data, at, k) is Ok,
        with_lifetime(data, at, count, ttl)[fixed_part(data, at, k)->Ok_0 + 4 + j] == be32_bytes(
            ttl,
        )[j],
    decreases count,
{
    let last = (count - 1) as nat;
    lemma_records_in_order(data, at, last, count);
    lemma_records_in_order(data, at, k, count);
    law_lifetimes_replaced(data, at, last, ttl);
    if k < last {
        lemma_records_in_order(data, at, k, last);
        lemma_lifetime_bytes(data, at, last, ttl, k, j);
    }
}

/// Replacing the lifetimes changes nothing in front of the answers.
pub proof fn law_cap_keeps_the_front(data: Seq<u8>, ttl: u32)
    requires
        cap_outcome(data) is Ok,
    ensures
        capped(data, ttl).len() == data.len(),
        question_end(data) matches Ok(start) && 12 <= start,
        forall|i: int|
            0 <= i < question_end(data)->Ok_0 && i < data.len() ==> #[trigger] capped(data, ttl)[i]
                == data[i],
        question_end(capped(data, ttl)) == question_end(data),
{
    let start = question_end(data)->Ok_0;
    let count = be16(data, 6) as nat;
    let once = capped(data, ttl);
    lemma_questions_advance(data, 12, be16(data, 4) as nat);
    law_lifetimes_replaced(data, start, count, ttl);
    assert forall|i: int| 0 <= i < start && i < data.len() implies once[i] == data[i] by {
        if in_lifetime(data, start, count, i) {
            let k = choose|k: nat| k < count && #[trigger] in_lifetime_of(data, start, k, i);
            lemma_records_in_order(data, start, k, count);
        }
    }
    lemma_questions_window(data, once, 12, be16(data, 4) as nat);
}

/// A response whose lifetimes were replaced can have them replaced again, and
/// the last replacement alone counts.
pub proof fn law_last_cap_counts(data: Seq<u8>, first: u32, second: u32)
    requires
        cap_outcome(data) is Ok,
    ensures
        cap_outcome(capped(data, first)) is Ok,
        capped(capped(data, first), second) == capped(data, second),
{
    let start = question_end(data)->Ok_0;
    let count = be16(data, 6) as nat;
    let once = capped(data, first);
    law_cap_keeps_the_front(data, first);
    law_lifetimes_replaced(data, start, count, first);
    law_lifetimes_replaced(data, start, count, second);
    assert(after_records(once, start, count) == after_records(data, start, count));
    law_lifetimes_replaced(once, start, count, second);
    let twice = capped(once, second);
    let direct = capped(data, second);
    assert forall|k: nat, i: int| k < count && #[trigger] in_lifetime_of(
        data,
        start,
        k,
        i,
    ) implies in_lifetime_of(once, start, k, i) && twice[i] == direct[i] by {
        lemma_same_place(data, once, start, count, k);
        let q = fixed_part(data, start, k)->Ok_0;
        lemma_lifetime_bytes(data, start, count, second, k, i - q - 4);
        lemma_lifetime_bytes(once, start, count, second, k, i - q - 4);
    }
    assert forall|i: int| 0 <= i < data.len() implies twice[i] == direct[i] by {
        if in_lifetime(data, start, count, i) {
            let k = choose|k: nat| k < count && #[trigger] in_lifetime_of(data, start, k, i);
            assert(in_lifetime_of(data, start, k, i));
        } else {
            if in_lifetime(once, start, count, i) {
                let k = choose|k: nat| k < count && #[trigger] in_lifetime_of(once, start, k, i);
                lemma_same_place(data, once, start, count, k);
                assert(in_lifetime_of(data, start, k, i));
            }
        }
    }
    assert(twice =~= direct);
}

/// A record whose end is kept has its fixed part kept, where the messages
/// differ in lifetimes alone.
proof fn lemma_same_place(data: Seq<u8>, once: Seq<u8>, at: int, count: nat, k: nat)
    requires
        0 <= at,
        k < count,
        after_records(data, at, count) is Ok,
        once.len() == data.len(),
        forall|i: int|
            0 <= i < data.len() && !in_lifetime(data, at, count, i) ==> (#[trigger] once[i])
                == data[i],
        forall|m: nat|
            m <= count ==> #[trigger] after_records(once, at, m) == after_records(data, at, m),
    ensures
        fixed_part(once, at, k) == fixed_part(data, at, k),
{
    lemma_records_in_order(data, at, k, count);
    let p = after_records(data, at, k)->Ok_0;
    let q = fixed_part(data, at, k)->Ok_0;
    assert(after_records(once, at, k) == after_records(data, at, k));
    assert forall|i: int| p <= i < q && i < data.len() implies data[i] == once[i] by {
        if in_lifetime(data, at, count, i) {
            let j = choose|j: nat| j < count && #[trigger] in_lifetime_of(data, at, j, i);
            lemma_records_in_order(data, at, j, count);
            if j < k {
                lemma_records_in_order(data, at, j, k);
            } else if j > k {
                lemma_records_in_order(data, at, k, j);
                lemma_name_end_after(data, after_records(data, at, j)->Ok_0);
            }
        }
    }
    lemma_name_end_window(data, once, p);
}

/// Where the lifetimes of a response are replaced under another identifier, each
/// answer gets the lifetime, and no other byte behind the identifier changes.
pub proof fn law_cap_under_another_identifier(first: Seq<u8>, data: Seq<u8>, ttl: u32)
    requires
        cap_outcome(first) is Ok,
        first.len() == data.len(),
        forall|k: int| 2 <= k < first.len() ==> first[k] == data[k],
    ensures
        ({
            let start = question_end(first)->Ok_0;
            let count = be16(first, 6) as nat;
            let reply = capped(data, ttl);
            &&& cap_outcome(data) is Ok
            &&& question_end(first) is Ok
            &&& reply.len() == first.len()
            &&& forall|k: nat|
                k < count ==> (#[trigger] fixed_part(first, start, k)) is Ok && be32(
                    reply,
                    fixed_part(first, start, k)->Ok_0 + 4,
                ) == ttl
            &&& forall|i: int|
                2 <= i < first.len() && !in_lifetime(first, start, count, i) ==> #[trigger] reply[i]
                    == first[i]
        }),
{
    let start = question_end(first)->Ok_0;
    let count = be16(first, 6) as nat;
    let reply = capped(data, ttl);
    law_cap_ignores_the_identifier(first, data);
    law_cap_keeps_the_front(data, ttl);
    law_lifetimes_replaced(data, start, count, ttl);
    assert forall|k: nat| k < count implies (#[trigger] fixed_part(first, start, k)) is Ok && be32(
        reply,
        fixed_part(first, start, k)->Ok_0 + 4,
    ) == ttl by {
        assert(fixed_part(data, start, k) == fixed_part(first, start, k));
    }
    assert forall|i: int|
        2 <= i < first.len() && !in_lifetime(first, start, count, i) implies #[trigger] reply[i]
        == first[i] by {
        if in_lifetime(data, start, count, i) {
            let k = choose|k: nat| k < count && #[trigger] in_lifetime_of(data, start, k, i);
            assert(fixed_part(data, start, k) == fixed_part(first, start, k));
            assert(in_lifetime_of(first, start, k, i));
        }
        assert(data[i] == first[i]);
    }
}

} // verus!
