//! What holds of reading and writing names.
use crate::text::{
    join, law_join_of_split, lemma_split_concat, lemma_split_len, lemma_split_single, split,
};
use crate::wire::{
    be16, bytes_left, label_bytes, labels_at, labels_within, name_at, name_bytes, name_end,
    name_part, uncompressed, DnsError, NamePart,
};
use vstd::prelude::*;
use vstd::utf8::{
    decode_utf8, decode_utf8_encode_utf8, encode_scalar, encode_utf8, encode_utf8_decode_utf8,
    encode_utf8_valid_utf8, valid_utf8,
};

verus! {

/// A label that a message can hold and that reads back: not empty, and with a
/// length byte that is no pointer.
pub open spec fn plain_label(label: Seq<char>) -> bool {
    label.len() > 0 && encode_utf8(label).len() < 0xC0
}

/// A name that a message can hold and that reads back: the empty name, or a
/// name of plain labels.
pub open spec fn plain_name(name: Seq<char>) -> bool {
    name.len() == 0 || forall|i: int|
        0 <= i < split(name, '.').len() ==> plain_label(#[trigger] split(name, '.')[i])
}

/// The bytes of one label.
spec fn one_label(label: Seq<char>) -> Seq<u8> {
    if label.len() == 0 {
        Seq::empty()
    } else {
        seq![(encode_utf8(label).len() % 256) as u8] + encode_utf8(label)
    }
}

proof fn lemma_label_bytes_first(labels: Seq<Seq<char>>)
    requires
        labels.len() > 0,
    ensures
        label_bytes(labels) == one_label(labels[0]) + label_bytes(labels.drop_first()),
    decreases labels.len(),
{
    if labels.len() == 1 {
        assert(labels.drop_last() =~= Seq::empty());
        assert(labels.drop_first() =~= Seq::empty());
        assert(label_bytes(labels) =~= one_label(labels[0]) + label_bytes(labels.drop_first()));
    } else {
        lemma_label_bytes_first(labels.drop_last());
        assert(labels.drop_last().drop_first() =~= labels.drop_first().drop_last());
        assert(labels.drop_first().last() == labels.last());
        assert(label_bytes(labels) =~= one_label(labels[0]) + label_bytes(labels.drop_first()));
    }
}

proof fn lemma_encoded_not_empty(label: Seq<char>)
    requires
        label.len() > 0,
    ensures
        encode_utf8(label).len() > 0,
{
}

/// Reading behind `before` what was written there gives the labels back.
#[verifier::rlimit(20)]
proof fn lemma_read_labels(
    before: Seq<u8>,
    labels: Seq<Seq<char>>,
    behind: Seq<u8>,
    steps: nat,
)
    requires
        forall|i: int| 0 <= i < labels.len() ==> plain_label(#[trigger] labels[i]),
        steps > labels.len(),
    ensures
        ({
            let data = before + label_bytes(labels).push(0u8) + behind;
            &&& labels_within(data, before.len() as int, steps) == Ok::<Seq<Seq<char>>, DnsError>(
                labels,
            )
            &&& name_end(data, before.len() as int) == Ok::<int, DnsError>(
                (before.len() + label_bytes(labels).len() + 1) as int,
            )
            &&& label_bytes(labels).len() >= labels.len()
        }),
    decreases labels.len(),
{
    let data = before + label_bytes(labels).push(0u8) + behind;
    let at = before.len() as int;
    if labels.len() == 0 {
        assert(data[at] == 0);
        assert(labels =~= Seq::empty());
    } else {
        let label = labels[0];
        let text = encode_utf8(label);
        let rest = labels.drop_first();
        lemma_label_bytes_first(labels);
        assert(plain_label(label));
        lemma_encoded_not_empty(label);
        encode_utf8_valid_utf8(label);
        encode_utf8_decode_utf8(label);
        let before2 = before + one_label(label);
        let data2 = before2 + label_bytes(rest).push(0u8) + behind;
        assert forall|i: int| 0 <= i < rest.len() implies plain_label(#[trigger] rest[i]) by {
            assert(rest[i] == labels[i + 1]);
        }
        lemma_read_labels(before2, rest, behind, (steps - 1) as nat);
        assert(data =~= data2);
        assert(data[at] == text.len());
        assert(data.subrange(at + 1, at + 1 + text.len()) =~= text);
        assert(name_part(data, at) == NamePart::Label(label, at + 1 + text.len()));
        assert(seq![label] + rest =~= labels);
    }
}

/// A name that was written into a message, with anything before and behind it,
/// reads back as it was, up to where its bytes end.
pub proof fn law_name_reads_back(before: Seq<u8>, name: Seq<char>, behind: Seq<u8>)
    requires
        plain_name(name),
    ensures
        name_at(before + name_bytes(name) + behind, before.len() as int) == Ok::<
            Seq<char>,
            DnsError,
        >(name),
        name_end(before + name_bytes(name) + behind, before.len() as int) == Ok::<int, DnsError>(
            (before.len() + name_bytes(name).len()) as int,
        ),
{
    let data = before + name_bytes(name) + behind;
    let labels = split(name, '.');
    if name.len() == 0 {
        let none = Seq::<Seq<char>>::empty();
        assert(labels.drop_last() =~= none);
        assert(label_bytes(labels) =~= label_bytes(none));
        lemma_read_labels(before, none, behind, data.len() + 1);
        assert(name =~= Seq::<char>::empty());
    } else {
        lemma_read_labels(before, labels, behind, labels.len() + 1);
        lemma_read_labels(before, labels, behind, data.len() + 1);
        law_join_of_split(name, '.');
    }
}

/// Where the reader of a name stands after some parts, if the name goes on
/// that far.
pub open spec fn place_after(data: Seq<u8>, at: int, parts: nat) -> Option<int>
    decreases parts,
{
    if parts == 0 {
        Some(at)
    } else {
        match place_after(data, at, (parts - 1) as nat) {
            Some(p) => match name_part(data, p) {
                NamePart::Jump(to) => Some(to),
                NamePart::Label(_, next) => Some(next),
                NamePart::Stop => None,
                NamePart::Fail(_) => None,
            },
            None => None,
        }
    }
}

proof fn lemma_place_shift(data: Seq<u8>, at: int, a: nat, b: nat)
    ensures
        place_after(data, at, a + b) == (match place_after(data, at, a) {
            Some(p) => place_after(data, p, b),
            None => None,
        }),
    decreases b,
{
    if b > 0 {
        lemma_place_shift(data, at, a, (b - 1) as nat);
        assert((a + b - 1) as nat == a + (b - 1) as nat);
    }
}

proof fn lemma_loop_is_no_end(data: Seq<u8>, at: int, steps: nat)
    ensures
        (labels_within(data, at, steps) == Err::<Seq<Seq<char>>, DnsError>(DnsError::PointerLoop))
            <==> place_after(data, at, steps) is Some,
    decreases steps,
{
    if steps > 0 {
        lemma_place_shift(data, at, 1, (steps - 1) as nat);
        reveal_with_fuel(place_after, 2);
        match name_part(data, at) {
            NamePart::Jump(to) => {
                lemma_loop_is_no_end(data, to, (steps - 1) as nat);
            },
            NamePart::Label(_, next) => {
                lemma_loop_is_no_end(data, next, (steps - 1) as nat);
            },
            NamePart::Stop => {},
            NamePart::Fail(_) => {},
        }
    }
}

/// Two different parts of a long enough walk stand at the same place.
proof fn lemma_place_repeats(data: Seq<u8>, at: int) -> (r: (nat, nat))
    requires
        place_after(data, at, data.len() + 1) is Some,
    ensures
        r.0 < r.1 <= data.len(),
        place_after(data, at, r.0) == place_after(data, at, r.1),
        forall|k: nat| k <= data.len() ==> (#[trigger] place_after(data, at, k)) is Some,
{
    let n = data.len();
    assert forall|k: nat| k <= n implies (#[trigger] place_after(data, at, k)) is Some by {
        lemma_place_shift(data, at, k, (n + 1 - k) as nat);
    }
    let places = Seq::new(n + 1, |k: int| place_after(data, at, k as nat)->0);
    let range = vstd::set_lib::set_int_range(0, n as int);
    vstd::set_lib::lemma_int_range(0, n as int);
    assert forall|k: int| 0 <= k < places.len() implies range.contains(#[trigger] places[k]) by {
        lemma_place_shift(data, at, k as nat, (n + 1 - k) as nat);
        let p = places[k];
        assert(place_after(data, at, k as nat) == Some(p));
        lemma_place_shift(data, p, 1, (n - k) as nat);
        reveal_with_fuel(place_after, 2);
    }
    if places.no_duplicates() {
        places.unique_seq_to_set();
        assert(places.to_set().subset_of(range));
        vstd::set_lib::lemma_len_subset(places.to_set(), range);
        assert(false);
    }
    let (i, j) = choose|i: int, j: int|
        0 <= i < places.len() && 0 <= j < places.len() && i != j && places[i] == places[j];
    assert(place_after(data, at, i as nat) is Some && place_after(data, at, j as nat) is Some);
    if i < j {
        (i as nat, j as nat)
    } else {
        (j as nat, i as nat)
    }
}

proof fn lemma_repeat_never_ends(data: Seq<u8>, at: int, i: nat, j: nat, k: nat)
    requires
        i < j <= data.len(),
        place_after(data, at, i) == place_after(data, at, j),
        forall|m: nat| m <= data.len() ==> (#[trigger] place_after(data, at, m)) is Some,
    ensures
        place_after(data, at, k) is Some,
    decreases k,
{
    if k > data.len() {
        let m = (k - j) as nat;
        lemma_place_shift(data, at, j, m);
        lemma_place_shift(data, at, i, m);
        lemma_repeat_never_ends(data, at, i, j, i + m);
    }
}

/// A name is turned down as a circle exactly where it never ends: after any
/// number of parts there is a further one.
pub proof fn law_loop_means_endless(data: Seq<u8>, at: int)
    ensures
        (labels_at(data, at) == Err::<Seq<Seq<char>>, DnsError>(DnsError::PointerLoop)) <==> (
        forall|parts: nat| (#[trigger] place_after(data, at, parts)) is Some),
{
    lemma_loop_is_no_end(data, at, data.len() + 1);
    if place_after(data, at, data.len() + 1) is Some {
        let (i, j) = lemma_place_repeats(data, at);
        assert forall|parts: nat| (#[trigger] place_after(data, at, parts)) is Some by {
            lemma_repeat_never_ends(data, at, i, j, parts);
        }
    }
}

/// A label whose length byte is no pointer.
pub open spec fn short_label(label: Seq<char>) -> bool {
    encode_utf8(label).len() < 0xC0
}

/// A name whose end can be found where it is written.
pub open spec fn writable_name(name: Seq<char>) -> bool {
    forall|i: int| 0 <= i < split(name, '.').len() ==> short_label(#[trigger] split(name, '.')[i])
}

proof fn lemma_written_labels_end(before: Seq<u8>, labels: Seq<Seq<char>>, behind: Seq<u8>)
    requires
        forall|i: int| 0 <= i < labels.len() ==> short_label(#[trigger] labels[i]),
    ensures
        name_end(before + label_bytes(labels).push(0u8) + behind, before.len() as int) == Ok::<
            int,
            DnsError,
        >((before.len() + label_bytes(labels).len() + 1) as int),
    decreases labels.len(),
{
    let data = before + label_bytes(labels).push(0u8) + behind;
    let at = before.len() as int;
    if labels.len() == 0 {
        assert(data[at] == 0);
    } else {
        let label = labels[0];
        let text = encode_utf8(label);
        let rest = labels.drop_first();
        lemma_label_bytes_first(labels);
        assert(short_label(label));
        assert forall|i: int| 0 <= i < rest.len() implies short_label(#[trigger] rest[i]) by {
            assert(rest[i] == labels[i + 1]);
        }
        let before2 = before + one_label(label);
        lemma_written_labels_end(before2, rest, behind);
        assert(data =~= before2 + label_bytes(rest).push(0u8) + behind);
        if label.len() == 0 {
            assert(before2 =~= before);
        } else {
            lemma_encoded_not_empty(label);
            assert(data[at] == text.len());
        }
    }
}

/// A name that was written into a message, with anything before and behind it,
/// ends where its bytes end.
pub proof fn law_written_name_ends(before: Seq<u8>, name: Seq<char>, behind: Seq<u8>)
    requires
        writable_name(name),
    ensures
        name_end(before + name_bytes(name) + behind, before.len() as int) == Ok::<int, DnsError>(
            (before.len() + name_bytes(name).len()) as int,
        ),
{
    lemma_written_labels_end(before, split(name, '.'), behind);
}

proof fn lemma_written_labels_are_uncompressed(
    before: Seq<u8>,
    labels: Seq<Seq<char>>,
    behind: Seq<u8>,
)
    requires
        forall|i: int| 0 <= i < labels.len() ==> short_label(#[trigger] labels[i]),
    ensures
        uncompressed(before + label_bytes(labels).push(0u8) + behind, before.len() as int),
    decreases labels.len(),
{
    let data = before + label_bytes(labels).push(0u8) + behind;
    let at = before.len() as int;
    if labels.len() == 0 {
        assert(data[at] == 0);
    } else {
        let label = labels[0];
        let text = encode_utf8(label);
        let rest = labels.drop_first();
        lemma_label_bytes_first(labels);
        assert(short_label(label));
        assert forall|i: int| 0 <= i < rest.len() implies short_label(#[trigger] rest[i]) by {
            assert(rest[i] == labels[i + 1]);
        }
        let before2 = before + one_label(label);
        lemma_written_labels_are_uncompressed(before2, rest, behind);
        assert(data =~= before2 + label_bytes(rest).push(0u8) + behind);
        if label.len() == 0 {
            assert(before2 =~= before);
        } else {
            lemma_encoded_not_empty(label);
            assert(data[at] == text.len());
        }
    }
}

/// A name that was written into a message, with anything before and behind it,
/// holds no pointer.
pub proof fn law_written_name_is_uncompressed(before: Seq<u8>, name: Seq<char>, behind: Seq<u8>)
    requires
        writable_name(name),
    ensures
        uncompressed(before + name_bytes(name) + behind, before.len() as int),
{
    lemma_written_labels_are_uncompressed(before, split(name, '.'), behind);
}

proof fn lemma_uncompressed_reads_alike(
    a: Seq<u8>,
    at: int,
    b: Seq<u8>,
    to: int,
    steps: nat,
    others: nat,
)
    requires
        uncompressed(a, at),
        name_end(a, at) matches Ok(end) && 0 <= to && to + end - at <= b.len() && steps >= end - at
            && others >= end - at,
        forall|k: int|
            at <= k < name_end(a, at)->Ok_0 ==> #[trigger] a[k] == b[k - at + to],
    ensures
        uncompressed(b, to),
        name_end(b, to) == Ok::<int, DnsError>(to + name_end(a, at)->Ok_0 - at),
        labels_within(b, to, others) == labels_within(a, at, steps),
    decreases bytes_left(a, at),
{
    lemma_uncompressed_ends(a, at);
    assert(a[at] == b[to]);
    if a[at] != 0 {
        let next = at + 1 + a[at];
        lemma_uncompressed_ends(a, next);
        assert forall|k: int| next <= k < name_end(a, next)->Ok_0 implies #[trigger] a[k] == b[k
            - next + (to + 1 + a[at])] by {
            assert(a[k] == b[k - at + to]);
        }
        lemma_uncompressed_reads_alike(
            a,
            next,
            b,
            to + 1 + a[at],
            (steps - 1) as nat,
            (others - 1) as nat,
        );
        let there = b.subrange(to + 1, to + 1 + a[at]);
        assert forall|i: int| 0 <= i < a[at] implies #[trigger] a.subrange(at + 1, next)[i]
            == there[i] by {
            assert(a[at + 1 + i] == b[at + 1 + i - at + to]);
        }
        assert(a.subrange(at + 1, next) =~= there);
    }
}

proof fn lemma_uncompressed_ends(data: Seq<u8>, at: int)
    requires
        uncompressed(data, at),
    ensures
        name_end(data, at) matches Ok(end) && 0 <= at < end <= data.len(),
    decreases bytes_left(data, at),
{
    if data[at] != 0 {
        lemma_uncompressed_ends(data, at + 1 + data[at]);
    }
}

/// A name that is written out reads the same wherever its bytes stand.
pub proof fn law_uncompressed_name_reads_alike(a: Seq<u8>, at: int, b: Seq<u8>, to: int)
    requires
        uncompressed(a, at),
        name_end(a, at) matches Ok(end) && 0 <= to && to + end - at <= b.len() && b.subrange(
            to,
            to + end - at,
        ) == a.subrange(at, end),
    ensures
        uncompressed(b, to),
        name_end(b, to) == Ok::<int, DnsError>(to + name_end(a, at)->Ok_0 - at),
        name_at(b, to) == name_at(a, at),
{
    let end = name_end(a, at)->Ok_0;
    lemma_uncompressed_ends(a, at);
    assert forall|k: int| at <= k < end implies #[trigger] a[k] == b[k - at + to] by {
        assert(a.subrange(at, end)[k - at] == b.subrange(to, to + end - at)[k - at]);
    }
    lemma_uncompressed_reads_alike(a, at, b, to, a.len() + 1, b.len() + 1);
}

/// A name that reads back can be written.
pub proof fn law_plain_names_are_writable(name: Seq<char>)
    requires
        plain_name(name),
    ensures
        writable_name(name),
{
    let labels = split(name, '.');
    if name.len() > 0 {
        assert forall|i: int| 0 <= i < labels.len() implies short_label(#[trigger] labels[i]) by {
            assert(plain_label(labels[i]));
        }
    }
}

proof fn lemma_written_labels_are_read(
    before: Seq<u8>,
    labels: Seq<Seq<char>>,
    behind: Seq<u8>,
    steps: nat,
)
    requires
        forall|i: int| 0 <= i < labels.len() ==> short_label(#[trigger] labels[i]),
        steps > label_bytes(labels).len(),
    ensures
        labels_within(
            before + label_bytes(labels).push(0u8) + behind,
            before.len() as int,
            steps,
        ) is Ok,
    decreases labels.len(),
{
    let data = before + label_bytes(labels).push(0u8) + behind;
    let at = before.len() as int;
    if labels.len() == 0 {
        assert(data[at] == 0);
    } else {
        let label = labels[0];
        let text = encode_utf8(label);
        let rest = labels.drop_first();
        lemma_label_bytes_first(labels);
        assert(short_label(label));
        assert forall|i: int| 0 <= i < rest.len() implies short_label(#[trigger] rest[i]) by {
            assert(rest[i] == labels[i + 1]);
        }
        let before2 = before + one_label(label);
        assert(data =~= before2 + label_bytes(rest).push(0u8) + behind);
        if label.len() == 0 {
            assert(before2 =~= before);
            assert(label_bytes(rest) =~= label_bytes(labels));
            lemma_written_labels_are_read(before, rest, behind, steps);
        } else {
            lemma_encoded_not_empty(label);
            encode_utf8_valid_utf8(label);
            encode_utf8_decode_utf8(label);
            lemma_written_labels_are_read(before2, rest, behind, (steps - 1) as nat);
            assert(data[at] == text.len());
            assert(data.subrange(at + 1, at + 1 + text.len()) =~= text);
            assert(name_part(data, at) == NamePart::Label(label, at + 1 + text.len()));
        }
    }
}

/// A name that can be written can be read where it was written.
pub proof fn law_written_name_can_be_read(before: Seq<u8>, name: Seq<char>, behind: Seq<u8>)
    requires
        writable_name(name),
    ensures
        name_at(before + name_bytes(name) + behind, before.len() as int) is Ok,
{
    let data = before + name_bytes(name) + behind;
    lemma_written_labels_are_read(before, split(name, '.'), behind, data.len() + 1);
}

proof fn lemma_encoded_push(s: Seq<char>, c: char)
    ensures
        encode_utf8(s.push(c)).len() == encode_utf8(s).len() + encode_scalar(c as u32).len(),
    decreases s.len(),
{
    if s.len() == 0 {
        assert(s.push(c).drop_first() =~= Seq::<char>::empty());
        assert(encode_utf8(s.push(c)) =~= encode_scalar(c as u32) + encode_utf8(
            Seq::<char>::empty(),
        ));
    } else {
        lemma_encoded_push(s.drop_first(), c);
        assert(s.push(c).drop_first() =~= s.drop_first().push(c));
    }
}

/// No piece of a text is longer than the text.
proof fn lemma_pieces_are_short(s: Seq<char>)
    ensures
        forall|i: int|
            0 <= i < split(s, '.').len() ==> encode_utf8(#[trigger] split(s, '.')[i]).len()
                <= encode_utf8(s).len(),
    decreases s.len(),
{
    if s.len() > 0 {
        let t = s.drop_last();
        let c = s.last();
        lemma_pieces_are_short(t);
        lemma_split_len(t, '.');
        lemma_encoded_push(t, c);
        assert(t.push(c) =~= s);
        let before = split(t, '.');
        lemma_encoded_push(before.last(), c);
        assert forall|i: int| 0 <= i < split(s, '.').len() implies encode_utf8(
            #[trigger] split(s, '.')[i],
        ).len() <= encode_utf8(s).len() by {
            if i < before.len() {
                assert(encode_utf8(before[i]).len() <= encode_utf8(t).len());
            }
        }
    }
}

proof fn lemma_read_labels_are_short(data: Seq<u8>, at: int, steps: nat)
    ensures
        labels_within(data, at, steps) matches Ok(labels) ==> forall|i: int|
            0 <= i < labels.len() ==> short_label(#[trigger] labels[i]),
    decreases steps,
{
    if steps > 0 {
        match name_part(data, at) {
            NamePart::Jump(to) => {
                lemma_read_labels_are_short(data, to, (steps - 1) as nat);
            },
            NamePart::Label(label, next) => {
                lemma_read_labels_are_short(data, next, (steps - 1) as nat);
                decode_utf8_encode_utf8(data.subrange(at + 1, next));
                assert(short_label(label));
            },
            _ => {},
        }
    }
}

proof fn lemma_joined_is_writable(labels: Seq<Seq<char>>)
    requires
        forall|i: int| 0 <= i < labels.len() ==> short_label(#[trigger] labels[i]),
    ensures
        writable_name(join(labels, '.')),
    decreases labels.len(),
{
    if labels.len() == 0 {
        lemma_pieces_are_short(Seq::empty());
    } else {
        lemma_pieces_are_short(labels.last());
        assert(short_label(labels[labels.len() - 1]));
        if labels.len() > 1 {
            let front = labels.drop_last();
            assert forall|i: int| 0 <= i < front.len() implies short_label(#[trigger] front[i]) by {
                assert(front[i] == labels[i]);
            }
            lemma_joined_is_writable(front);
            lemma_split_concat(join(front, '.'), labels.last(), '.');
        }
    }
}

/// A name that was read from a message can be written into another.
pub proof fn law_read_name_is_writable(data: Seq<u8>, at: int)
    ensures
        name_at(data, at) matches Ok(name) ==> writable_name(name),
{
    lemma_read_labels_are_short(data, at, data.len() + 1);
    if let Ok(labels) = labels_at(data, at) {
        lemma_joined_is_writable(labels);
    }
}

proof fn lemma_more_steps(data: Seq<u8>, at: int, steps: nat)
    requires
        labels_within(data, at, steps) != Err::<Seq<Seq<char>>, DnsError>(DnsError::PointerLoop),
    ensures
        labels_within(data, at, steps + 1) == labels_within(data, at, steps),
    decreases steps,
{
    if steps > 0 {
        match name_part(data, at) {
            NamePart::Jump(to) => {
                lemma_more_steps(data, to, (steps - 1) as nat);
            },
            NamePart::Label(_, next) => {
                lemma_more_steps(data, next, (steps - 1) as nat);
            },
            _ => {},
        }
    }
}

/// What is read behind a part is the same, whether it is read on its own or not.
proof fn lemma_part_by_part(data: Seq<u8>, at: int, next: int)
    requires
        place_after(data, at, 1) == Some(next),
    ensures
        labels_within(data, next, data.len()) == labels_at(data, next),
{
    let n = data.len();
    reveal_with_fuel(place_after, 2);
    if labels_within(data, next, n) == Err::<Seq<Seq<char>>, DnsError>(DnsError::PointerLoop) {
        assert(labels_at(data, at) == Err::<Seq<Seq<char>>, DnsError>(DnsError::PointerLoop));
        law_loop_means_endless(data, at);
        assert forall|parts: nat| (#[trigger] place_after(data, next, parts)) is Some by {
            assert(place_after(data, at, 1 + parts) is Some);
            lemma_place_shift(data, at, 1, parts);
        }
        law_loop_means_endless(data, next);
    } else {
        lemma_more_steps(data, next, n);
    }
}

proof fn lemma_join_first(first: Seq<char>, rest: Seq<Seq<char>>, sep: char)
    requires
        rest.len() > 0,
    ensures
        join(seq![first] + rest, sep) == first.push(sep) + join(rest, sep),
    decreases rest.len(),
{
    let all = seq![first] + rest;
    if rest.len() == 1 {
        assert(all.drop_last() =~= seq![first]);
        assert(join(all.drop_last(), sep) == first);
        assert(rest[0] == all.last());
    } else {
        lemma_join_first(first, rest.drop_last(), sep);
        assert(all.drop_last() =~= seq![first] + rest.drop_last());
        assert(join(all, sep) =~= first.push(sep) + join(rest, sep));
    }
}

proof fn lemma_read_labels_hold_text(data: Seq<u8>, at: int, steps: nat)
    ensures
        labels_within(data, at, steps) matches Ok(labels) ==> forall|i: int|
            0 <= i < labels.len() ==> (#[trigger] labels[i]).len() > 0,
    decreases steps,
{
    if steps > 0 {
        match name_part(data, at) {
            NamePart::Jump(to) => {
                lemma_read_labels_hold_text(data, to, (steps - 1) as nat);
            },
            NamePart::Label(label, next) => {
                lemma_read_labels_hold_text(data, next, (steps - 1) as nat);
                decode_utf8_encode_utf8(data.subrange(at + 1, next));
            },
            _ => {},
        }
    }
}

proof fn lemma_joined_text(labels: Seq<Seq<char>>)
    requires
        forall|i: int| 0 <= i < labels.len() ==> (#[trigger] labels[i]).len() > 0,
    ensures
        join(labels, '.').len() == 0 <==> labels.len() == 0,
{
    if labels.len() > 0 {
        assert(labels[labels.len() - 1].len() > 0);
    }
}

/// What stands at a place says what name is there. A zero byte is the empty name. Two
/// bytes that are a pointer are the name at the place that they give, whatever can or
/// cannot be read there. Any other byte is the length of a label, and the name is
/// that label, with a dot and the name behind it where that is not empty. Nothing
/// else is a name.
pub proof fn law_names_are_read_part_by_part(data: Seq<u8>, at: int)
    requires
        0 <= at < data.len(),
    ensures
        data[at] == 0 ==> name_at(data, at) == Ok::<Seq<char>, DnsError>(Seq::empty()),
        data[at] >= 0xC0 && at + 1 < data.len() ==> name_at(data, at) == name_at(
            data,
            be16(data, at) - 0xC000,
        ),
        data[at] >= 0xC0 && at + 1 == data.len() ==> name_at(data, at) == Err::<
            Seq<char>,
            DnsError,
        >(DnsError::PointerTruncated),
        0 < data[at] < 0xC0 && at + 1 + data[at] > data.len() ==> name_at(data, at) == Err::<
            Seq<char>,
            DnsError,
        >(DnsError::LabelPastEnd),
        0 < data[at] < 0xC0 && at + 1 + data[at] <= data.len() ==> {
            let next = at + 1 + data[at];
            let label = data.subrange(at + 1, next);
            &&& !valid_utf8(label) ==> name_at(data, at) == Err::<Seq<char>, DnsError>(
                DnsError::InvalidUtf8,
            )
            &&& valid_utf8(label) ==> name_at(data, at) == match name_at(data, next) {
                Ok(rest) => Ok(
                    if rest.len() == 0 {
                        decode_utf8(label)
                    } else {
                        decode_utf8(label).push('.') + rest
                    },
                ),
                Err(e) => Err(e),
            }
        },
{
    reveal_with_fuel(place_after, 2);
    match name_part(data, at) {
        NamePart::Jump(to) => {
            lemma_part_by_part(data, at, to);
        },
        NamePart::Label(label, next) => {
            lemma_part_by_part(data, at, next);
            lemma_read_labels_hold_text(data, next, data.len() + 1);
            if let Ok(rest) = labels_at(data, next) {
                lemma_joined_text(rest);
                if rest.len() > 0 {
                    lemma_join_first(label, rest, '.');
                } else {
                    assert(seq![label] + rest =~= seq![label]);
                }
            }
        },
        _ => {},
    }
}

/// A name ends behind its zero byte or behind its first pointer.
pub proof fn law_names_end_part_by_part(data: Seq<u8>, at: int)
    requires
        0 <= at < data.len(),
    ensures
        data[at] == 0 ==> name_end(data, at) == Ok::<int, DnsError>(at + 1),
        data[at] >= 0xC0 ==> name_end(data, at) == Ok::<int, DnsError>(at + 2),
        0 < data[at] < 0xC0 ==> name_end(data, at) == name_end(data, at + 1 + data[at]),
{
}

proof fn lemma_label_bytes_concat(a: Seq<Seq<char>>, b: Seq<Seq<char>>)
    ensures
        label_bytes(a + b) == label_bytes(a) + label_bytes(b),
    decreases b.len(),
{
    if b.len() == 0 {
        assert(a + b =~= a);
        assert(label_bytes(a) + label_bytes(b) =~= label_bytes(a));
    } else {
        lemma_label_bytes_concat(a, b.drop_last());
        assert((a + b).drop_last() =~= a + b.drop_last());
        assert(label_bytes(a + b) =~= label_bytes(a) + label_bytes(b));
    }
}

/// A name with a dot in it is written as what stands before the dot, but for the
/// zero byte, and then as what stands behind it. The empty name is written as a zero
/// byte, and one without a dot as its length in bytes, its bytes and a zero byte.
pub proof fn law_names_are_written_label_by_label(front: Seq<char>, rest: Seq<char>)
    ensures
        name_bytes(front.push('.') + rest) == name_bytes(front).drop_last() + name_bytes(rest),
        name_bytes(Seq::empty()) == seq![0u8],
        front.len() > 0 && encode_utf8(front).len() < 256 && !front.contains('.') ==> name_bytes(
            front,
        ) == seq![encode_utf8(front).len() as u8] + encode_utf8(front) + seq![0u8],
{
    lemma_split_concat(front, rest, '.');
    lemma_label_bytes_concat(split(front, '.'), split(rest, '.'));
    assert(name_bytes(front.push('.') + rest) =~= name_bytes(front).drop_last() + name_bytes(
        rest,
    ));
    let none = Seq::<char>::empty();
    let no_labels = Seq::<Seq<char>>::empty();
    assert(split(none, '.').drop_last() =~= no_labels);
    assert(label_bytes(no_labels) =~= Seq::<u8>::empty());
    assert(label_bytes(split(none, '.')) =~= Seq::<u8>::empty());
    assert(name_bytes(none) =~= seq![0u8]);
    if front.len() > 0 && encode_utf8(front).len() < 256 && !front.contains('.') {
        lemma_split_single(front, '.');
        assert(seq![front].drop_last() =~= no_labels);
        assert(label_bytes(seq![front]) =~= seq![encode_utf8(front).len() as u8] + encode_utf8(
            front,
        ));
    }
}

} // verus!
