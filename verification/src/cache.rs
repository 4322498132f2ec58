//! The responses that are kept for some time.
use crate::dns::{QueryInfo, Question};
use crate::text::to_chars;
use crate::wire::push_range;
use lru::LruCache;
use vstd::prelude::*;

verus! {

/// What a response is kept under: the name in lower case, the type and the
/// class.
pub type Key = (Seq<char>, u16, u16);

/// A kept response: what it is kept under, its bytes, and when it expires, in
/// nanoseconds.
pub type Entry = (Key, (Seq<u8>, u128));

/// The `lru` crate's bounded map.
#[verifier::external_type_specification]
#[verifier::external_body]
#[verifier::reject_recursive_types(K)]
#[verifier::reject_recursive_types(V)]
#[verifier::reject_recursive_types(S)]
pub struct ExLruCache<K, V, S>(LruCache<K, V, S>);

/// The hasher that the `lru` crate uses by default.
#[verifier::external_type_specification]
#[verifier::external_body]
pub struct ExDefaultHasher(lru::DefaultHasher);

/// What a bounded map holds, from the entry that was used last to the one whose
/// last use is oldest. To put an entry is to use it.
pub uninterp spec fn held(c: LruCache<(String, u16, u16), (Vec<u8>, u128)>) -> Seq<Entry>;

/// How many entries a bounded map was made for.
pub uninterp spec fn limit_of(c: LruCache<(String, u16, u16), (Vec<u8>, u128)>) -> nat;

/// `LruCache::new` makes an empty map for a number of entries. The table for
/// them is allocated at once: its size must be one that a table can have, and a
/// size that the machine has no memory for ends the process.
#[verifier::external_body]
fn lru_new(cap: usize) -> (r: LruCache<(String, u16, u16), (Vec<u8>, u128)>)
    requires
        0 < cap <= usize::MAX / 128,
    ensures
        held(r) == Seq::<Entry>::empty(),
        limit_of(r) == cap,
{
    LruCache::new(std::num::NonZeroUsize::new(cap).unwrap())
}

/// What stands for a key in the model.
pub open spec fn key_model(k: (String, u16, u16)) -> Key {
    (k.0@, k.1, k.2)
}

/// What stands for a response with its time in the model.
pub open spec fn value_model(v: (Vec<u8>, u128)) -> (Seq<u8>, u128) {
    (v.0@, v.1)
}

/// Where the entry of a key stands, or the number of entries where there is
/// none.
pub open spec fn place(s: Seq<Entry>, key: Key) -> int
    decreases s.len(),
{
    if s.len() == 0 || s[0].0 == key {
        0
    } else {
        1 + place(s.skip(1), key)
    }
}

/// What is kept under a key.
pub open spec fn kept(s: Seq<Entry>, key: Key) -> Option<(Seq<u8>, u128)> {
    if place(s, key) < s.len() {
        Some(s[place(s, key)].1)
    } else {
        None
    }
}

/// The entries without that of a key.
pub open spec fn without(s: Seq<Entry>, key: Key) -> Seq<Entry> {
    if place(s, key) < s.len() {
        s.remove(place(s, key))
    } else {
        s
    }
}

/// The entries with that of a key in front.
pub open spec fn promoted(s: Seq<Entry>, key: Key) -> Seq<Entry> {
    if place(s, key) < s.len() {
        seq![s[place(s, key)]] + s.remove(place(s, key))
    } else {
        s
    }
}

/// The entries with a new one in front. It takes the place of an entry with the
/// same key, or of the last one where there is no room.
pub open spec fn with_entry(s: Seq<Entry>, limit: nat, key: Key, value: (Seq<u8>, u128)) -> Seq<
    Entry,
> {
    let rest = if place(s, key) < s.len() {
        s.remove(place(s, key))
    } else if s.len() == limit {
        s.drop_last()
    } else {
        s
    };
    seq![(key, value)] + rest
}

/// `LruCache::put` puts an entry in front, in place of one with the same key,
/// or of the last one where the map is full.
#[verifier::external_body]
fn lru_put(
    c: &mut LruCache<(String, u16, u16), (Vec<u8>, u128)>,
    key: (String, u16, u16),
    value: (Vec<u8>, u128),
)
    ensures
        held(*final(c)) == with_entry(
            held(*old(c)),
            limit_of(*old(c)),
            key_model(key),
            value_model(value),
        ),
        limit_of(*final(c)) == limit_of(*old(c)),
{
    c.put(key, value);
}

/// `LruCache::peek` gives what is held under a key, and moves nothing.
#[verifier::external_body]
fn lru_peek<'a>(
    c: &'a LruCache<(String, u16, u16), (Vec<u8>, u128)>,
    key: &(String, u16, u16),
) -> (r: Option<&'a (Vec<u8>, u128)>)
    ensures
        match kept(held(*c), key_model(*key)) {
            Some(value) => r matches Some(v) && value_model(*v) == value,
            None => r is None,
        },
{
    c.peek(key)
}

/// `LruCache::promote` moves the entry of a key to the front, where there is
/// one.
#[verifier::external_body]
fn lru_promote(c: &mut LruCache<(String, u16, u16), (Vec<u8>, u128)>, key: &(String, u16, u16))
    ensures
        held(*final(c)) == promoted(held(*old(c)), key_model(*key)),
        limit_of(*final(c)) == limit_of(*old(c)),
{
    c.promote(key);
}

/// `LruCache::pop` removes the entry of a key.
#[verifier::external_body]
fn lru_pop(c: &mut LruCache<(String, u16, u16), (Vec<u8>, u128)>, key: &(String, u16, u16))
    ensures
        held(*final(c)) == without(held(*old(c)), key_model(*key)),
        limit_of(*final(c)) == limit_of(*old(c)),
{
    c.pop(key);
}

/// A letter between A and Z in lower case, and any other character as it is.
pub open spec fn lower_char(c: char) -> char {
    if 'A' <= c <= 'Z' {
        (c as u32 + 32) as char
    } else {
        c
    }
}

/// A text with its letters between A and Z in lower case.
pub open spec fn lower(s: Seq<char>) -> Seq<char> {
    Seq::new(s.len(), |i: int| lower_char(s[i]))
}

/// Gives a text with its letters between A and Z in lower case.
pub fn to_ascii_lowercase(s: &str) -> (r: String)
    ensures
        r@ == lower(s@),
{
    let chars: Vec<char> = to_chars(s);
    let mut out: String = String::new();
    let mut i: usize = 0;
    while i < chars.len()
        invariant
            i <= chars@.len(),
            chars@ == s@,
            out@ == lower(s@).take(i as int),
        decreases chars@.len() - i,
    {
        let c: char = chars[i];
        if 'A' <= c && c <= 'Z' {
            let b: u8 = c as u8;
            let small: char = (b + 32) as char;
            out.push(small);
        } else {
            out.push(c);
        }
        i += 1;
        assert(out@ =~= lower(s@).take(i as int));
    }
    assert(lower(s@).take(s@.len() as int) =~= lower(s@));
    out
}

/// The nanoseconds of a second.
pub const NANOS: u128 = 1_000_000_000;

/// What the response to a question is kept under.
pub open spec fn key_of(q: Question) -> Key {
    (lower(q.qname), q.qtype, q.qclass)
}

/// When a response expires that is put now.
pub open spec fn deadline_of(now: u64, ttl_seconds: u32) -> u128 {
    (now + ttl_seconds * NANOS) as u128
}

/// What is given of a kept response: its bytes and the full seconds that are
/// left of its time.
pub open spec fn fetched(s: Seq<Entry>, key: Key, now: u64) -> Option<(Seq<u8>, u32)> {
    match kept(s, key) {
        Some((bytes, deadline)) => if now < deadline {
            Some((bytes, ((deadline - now) / NANOS as int % 0x1_0000_0000) as u32))
        } else {
            None
        },
        None => None,
    }
}

/// What is kept after a response has been asked for: one that is given counts as
/// used, and one that has expired is dropped.
pub open spec fn after_fetch(s: Seq<Entry>, key: Key, now: u64) -> Seq<Entry> {
    match kept(s, key) {
        Some((bytes, deadline)) => if now < deadline {
            promoted(s, key)
        } else {
            without(s, key)
        },
        None => s,
    }
}

/// Whether no two entries have the same key.
pub open spec fn keys_differ(s: Seq<Entry>) -> bool {
    forall|i: int, j: int| 0 <= i < j < s.len() ==> (#[trigger] s[i]).0 != (#[trigger] s[j]).0
}

proof fn lemma_place(s: Seq<Entry>, key: Key)
    ensures
        0 <= place(s, key) <= s.len(),
        forall|i: int| 0 <= i < place(s, key) ==> (#[trigger] s[i]).0 != key,
        place(s, key) < s.len() ==> s[place(s, key)].0 == key,
    decreases s.len(),
{
    if s.len() > 0 && s[0].0 != key {
        lemma_place(s.skip(1), key);
        assert forall|i: int| 0 <= i < place(s, key) implies (#[trigger] s[i]).0 != key by {
            if i > 0 {
                assert(s.skip(1)[i - 1] == s[i]);
            }
        }
        if place(s, key) < s.len() {
            assert(s.skip(1)[place(s, key) - 1] == s[place(s, key)]);
        }
    }
}

proof fn lemma_place_is(s: Seq<Entry>, key: Key, at: int)
    requires
        0 <= at <= s.len(),
        forall|i: int| 0 <= i < at ==> (#[trigger] s[i]).0 != key,
        at < s.len() ==> s[at].0 == key,
    ensures
        place(s, key) == at,
{
    lemma_place(s, key);
    if place(s, key) < at {
        assert(s[place(s, key)].0 != key);
    }
}

proof fn lemma_with_entry(s: Seq<Entry>, limit: nat, key: Key, value: (Seq<u8>, u128))
    requires
        keys_differ(s),
        s.len() <= limit,
        limit > 0,
    ensures
        keys_differ(with_entry(s, limit, key, value)),
        with_entry(s, limit, key, value).len() <= limit,
{
    lemma_place(s, key);
    let at = place(s, key);
    if at < s.len() {
        let rest = s.remove(at);
        assert forall|i: int| 0 <= i < rest.len() implies (#[trigger] rest[i]).0 != key by {
            if i < at {
                assert(rest[i] == s[i]);
            } else {
                assert(rest[i] == s[i + 1]);
                assert(s[at].0 != s[i + 1].0);
            }
        }
    }
}

proof fn lemma_promoted(s: Seq<Entry>, key: Key)
    requires
        keys_differ(s),
    ensures
        keys_differ(promoted(s, key)),
        promoted(s, key).len() == s.len(),
{
    lemma_place(s, key);
    let at = place(s, key);
    if at < s.len() {
        let rest = s.remove(at);
        assert forall|i: int| 0 <= i < rest.len() implies (#[trigger] rest[i]).0 != key by {
            if i < at {
                assert(rest[i] == s[i]);
            } else {
                assert(rest[i] == s[i + 1]);
                assert(s[at].0 != s[i + 1].0);
            }
        }
    }
}

/// The responses that are kept, from the one that was given or put last to the
/// one for which that is longest ago.
pub struct Cache {
    lru: LruCache<(String, u16, u16), (Vec<u8>, u128)>,
}

impl View for Cache {
    type V = Seq<Entry>;

    closed spec fn view(&self) -> Seq<Entry> {
        held(self.lru)
    }
}

/// Gives what the response to a question is kept under.
fn key(query: &QueryInfo) -> (r: (String, u16, u16))
    ensures
        key_model(r) == key_of(query@),
{
    (to_ascii_lowercase(query.qname.as_str()), query.qtype, query.qclass)
}

impl Cache {
    /// How many responses are kept at most.
    pub closed spec fn limit(self) -> nat {
        limit_of(self.lru)
    }

    /// Whether each question has one response and there is room for all.
    pub open spec fn wf(self) -> bool {
        &&& keys_differ(self@)
        &&& self@.len() <= self.limit()
        &&& self.limit() > 0
    }

    /// Makes room for a number of responses.
    pub fn init(max_entries: usize) -> (r: Cache)
        requires
            0 < max_entries <= usize::MAX / 128,
        ensures
            r@ == Seq::<Entry>::empty(),
            r.limit() == max_entries,
            r.wf(),
    {
        Cache { lru: lru_new(max_entries) }
    }

    /// Gives the response to a question and the full seconds that are left of
    /// its time. Drops the response where it has expired, and otherwise counts it
    /// as used.
    pub fn get(&mut self, query: &QueryInfo, now: u64) -> (r: Option<(Vec<u8>, u32)>)
        ensures
            match fetched(old(self)@, key_of(query@), now) {
                Some((bytes, seconds)) => r matches Some((v, s)) && v@ == bytes && s == seconds,
                None => r is None,
            },
            final(self)@ == after_fetch(old(self)@, key_of(query@), now),
            final(self).limit() == old(self).limit(),
            old(self).wf() ==> final(self).wf(),
    {
        let key: (String, u16, u16) = key(query);
        proof {
            lemma_place(self@, key_model(key));
            if self.wf() {
                lemma_promoted(self@, key_model(key));
            }
        }
        let found: Option<(Vec<u8>, u32)> = match lru_peek(&self.lru, &key) {
            None => {
                return None;
            },
            Some((value, deadline)) => {
                if (now as u128) < *deadline {
                    let seconds: u128 = (*deadline - now as u128) / NANOS;
                    let mut bytes: Vec<u8> = Vec::new();
                    push_range(&mut bytes, value.as_slice(), 0, value.len());
                    assert(bytes@ =~= value@);
                    Some((bytes, (seconds % 0x1_0000_0000) as u32))
                } else {
                    None
                }
            },
        };
        if found.is_some() {
            lru_promote(&mut self.lru, &key);
        } else {
            lru_pop(&mut self.lru, &key);
        }
        found
    }

    /// Keeps the response to a question for some seconds.
    pub fn insert(&mut self, query: &QueryInfo, value: Vec<u8>, ttl_seconds: u32, now: u64)
        ensures
            final(self)@ == with_entry(
                old(self)@,
                old(self).limit(),
                key_of(query@),
                (value@, deadline_of(now, ttl_seconds)),
            ),
            final(self).limit() == old(self).limit(),
            old(self).wf() ==> final(self).wf(),
    {
        let deadline: u128 = now as u128 + ttl_seconds as u128 * NANOS;
        let key: (String, u16, u16) = key(query);
        proof {
            if self.wf() {
                lemma_with_entry(self@, self.limit(), key_model(key), (value@, deadline));
            }
        }
        lru_put(&mut self.lru, key, (value, deadline));
    }
}

/// A response is given back until it expires, with the full seconds that are
/// left of its time, and not afterwards.
pub proof fn law_kept_until_it_expires(
    s: Seq<Entry>,
    limit: nat,
    key: Key,
    bytes: Seq<u8>,
    ttl_seconds: u32,
    now: u64,
    later: u64,
)
    requires
        now <= later,
    ensures
        ({
            let after = with_entry(s, limit, key, (bytes, deadline_of(now, ttl_seconds)));
            let end = now + ttl_seconds * NANOS;
            &&& kept(after, key) == Some((bytes, deadline_of(now, ttl_seconds)))
            &&& later < end ==> fetched(after, key, later) == Some(
                (bytes, ((end - later) / NANOS as int) as u32),
            ) && (end - later) / NANOS as int <= ttl_seconds
            &&& later >= end ==> fetched(after, key, later) is None
        }),
{
    let after = with_entry(s, limit, key, (bytes, deadline_of(now, ttl_seconds)));
    assert(after[0].0 == key);
}

/// Of the other responses, none is lost when one is put, but for the least
/// recently used one, where there is no room for a new one.
pub proof fn law_put_drops_only_the_least_recently_used(
    s: Seq<Entry>,
    limit: nat,
    key: Key,
    value: (Seq<u8>, u128),
    other: Key,
)
    requires
        keys_differ(s),
        s.len() <= limit,
        limit > 0,
        other != key,
    ensures
        ({
            let full = place(s, key) == s.len() && s.len() == limit;
            &&& !full || place(s, other) != s.len() - 1 ==> kept(
                with_entry(s, limit, key, value),
                other,
            ) == kept(s, other)
            &&& full && place(s, other) == s.len() - 1 ==> kept(
                with_entry(s, limit, key, value),
                other,
            ) is None
        }),
{
    let after = with_entry(s, limit, key, value);
    let at = place(s, key);
    let p = place(s, other);
    lemma_place(s, key);
    lemma_place(s, other);
    let q = if p == s.len() {
        after.len() as int
    } else if at < s.len() && at < p {
        p
    } else {
        p + 1
    };
    assert forall|i: int| 0 <= i < q && i < after.len() implies (#[trigger] after[i]).0
        != other by {
        if i > 0 {
            if at < s.len() && at < i {
                assert(after[i] == s[i]);
            } else {
                assert(after[i] == s[i - 1]);
            }
        }
    }
    if q <= after.len() {
        lemma_place_is(after, other, q);
    }
}

/// Asking for one response changes nothing about another.
pub proof fn law_fetch_keeps_the_others(s: Seq<Entry>, key: Key, now: u64, other: Key)
    requires
        other != key,
    ensures
        kept(after_fetch(s, key, now), other) == kept(s, other),
{
    let after = after_fetch(s, key, now);
    let at = place(s, key);
    let p = place(s, other);
    lemma_place(s, key);
    lemma_place(s, other);
    if kept(s, key) is Some {
        let front: int = if now < kept(s, key)->Some_0.1 {
            1
        } else {
            0
        };
        let q = if at < p {
            p - 1 + front
        } else {
            p + front
        };
        assert forall|i: int| 0 <= i < q implies (#[trigger] after[i]).0 != other by {
            if i >= front {
                if i - front < at {
                    assert(after[i] == s[i - front]);
                } else {
                    assert(after[i] == s[i - front + 1]);
                }
            }
        }
        lemma_place_is(after, other, q);
    }
}

/// A response that was given is the most recently used one, and the others keep
/// their order. So where there is room for two, the next one that is put does not
/// drop it.
pub proof fn law_a_hit_counts_as_use(
    s: Seq<Entry>,
    limit: nat,
    key: Key,
    now: u64,
    other: Key,
    value: (Seq<u8>, u128),
)
    requires
        keys_differ(s),
        s.len() <= limit,
        limit >= 2,
        fetched(s, key, now) is Some,
        other != key,
    ensures
        place(after_fetch(s, key, now), key) == 0,
        after_fetch(s, key, now).skip(1) == without(s, key),
        kept(after_fetch(s, key, now), key) == kept(s, key),
        kept(with_entry(after_fetch(s, key, now), limit, other, value), key) == kept(s, key),
{
    lemma_place(s, key);
    lemma_promoted(s, key);
    let after = after_fetch(s, key, now);
    assert(after.skip(1) =~= without(s, key));
    lemma_place_is(after, key, 0);
    lemma_place(after, other);
    law_put_drops_only_the_least_recently_used(after, limit, other, value, key);
    if s.len() < 2 {
        assert(after.len() < limit);
    }
}

/// The letter case of a name does not matter.
pub proof fn law_case_does_not_matter(q: Question)
    ensures
        key_of(Question { qname: lower(q.qname), ..q }) == key_of(q),
{
    assert forall|i: int| 0 <= i < q.qname.len() implies lower_char(lower_char(q.qname[i]))
        == lower_char(q.qname[i]) by {}
    assert(lower(lower(q.qname)) =~= lower(q.qname));
}

/// Whether two characters are the same, or one letter of the alphabet from A to Z
/// in the two cases.
pub open spec fn same_letter(a: char, b: char) -> bool {
    ||| a == b
    ||| 'A' <= a <= 'Z' && b as int == a as int + 32
    ||| 'A' <= b <= 'Z' && a as int == b as int + 32
}

/// Whether two names are the same, but for the case of the letters from A to Z.
pub open spec fn same_but_for_case(a: Seq<char>, b: Seq<char>) -> bool {
    a.len() == b.len() && forall|i: int| 0 <= i < a.len() ==> same_letter(#[trigger] a[i], b[i])
}

/// Two questions share a key just when they ask for the same type and class of
/// names that are the same but for the case of their letters.
pub proof fn law_keys_tell_questions_apart(a: Question, b: Question)
    ensures
        key_of(a) == key_of(b) <==> same_but_for_case(a.qname, b.qname) && a.qtype == b.qtype
            && a.qclass == b.qclass,
{
    let (x, y) = (lower(a.qname), lower(b.qname));
    if key_of(a) == key_of(b) {
        assert(x == y);
        assert forall|i: int| 0 <= i < a.qname.len() implies same_letter(
            #[trigger] a.qname[i],
            b.qname[i],
        ) by {
            assert(x[i] == y[i]);
        }
    }
    if same_but_for_case(a.qname, b.qname) {
        assert forall|i: int| 0 <= i < x.len() implies x[i] == y[i] by {
            assert(same_letter(a.qname[i], b.qname[i]));
        }
        assert(x =~= y);
    }
}

/// What is given for a key was kept under that key and has not expired, and the
/// seconds are the full ones that are left. Where nothing is given, everything
/// kept under the key has expired.
pub proof fn law_only_what_is_kept_is_given(s: Seq<Entry>, key: Key, now: u64)
    requires
        keys_differ(s),
    ensures
        fetched(s, key, now) matches Some((bytes, seconds)) ==> exists|i: int|
            {
                &&& 0 <= i < s.len()
                &&& (#[trigger] s[i]).0 == key
                &&& s[i].1.0 == bytes
                &&& now < s[i].1.1
                &&& s[i].1.1 - now < 0x1_0000_0000 * NANOS ==> seconds * NANOS <= s[i].1.1 - now < (
                seconds + 1) * NANOS
            },
        fetched(s, key, now) is None ==> forall|i: int|
            0 <= i < s.len() && (#[trigger] s[i]).0 == key ==> s[i].1.1 <= now,
{
    lemma_place(s, key);
    let p = place(s, key);
    if fetched(s, key, now) is Some {
        assert(s[p].0 == key);
    } else {
        assert forall|i: int| 0 <= i < s.len() && (#[trigger] s[i]).0 == key implies s[i].1.1
            <= now by {
            if i < p {
                assert(s[i].0 != key);
            } else if i > p {
                assert(s[p].0 != s[i].0);
            }
        }
    }
}

/// Asking for a key drops its response where that has expired, and moves it to
/// the front where it has not. The others stay, in their order.
pub proof fn law_fetch_moves_or_drops(s: Seq<Entry>, key: Key, now: u64, i: int)
    requires
        keys_differ(s),
        0 <= i < s.len(),
        s[i].0 == key,
    ensures
        now < s[i].1.1 ==> after_fetch(s, key, now) == seq![s[i]] + (s.take(i) + s.skip(i + 1)),
        now >= s[i].1.1 ==> after_fetch(s, key, now) == s.take(i) + s.skip(i + 1),
{
    lemma_place(s, key);
    let p = place(s, key);
    if p != i {
        if p < i {
            assert(s[p].0 != s[i].0);
        } else {
            assert(s[i].0 != key);
        }
    }
    assert(s.remove(i) =~= s.take(i) + s.skip(i + 1));
}

/// Asking for a key under which nothing is kept changes nothing.
pub proof fn law_fetch_of_nothing_changes_nothing(s: Seq<Entry>, key: Key, now: u64)
    requires
        forall|i: int| 0 <= i < s.len() ==> (#[trigger] s[i]).0 != key,
    ensures
        fetched(s, key, now) is None,
        after_fetch(s, key, now) == s,
{
    lemma_place(s, key);
}

/// A response that is put stands in front. Behind it stand the others in their
/// order: all but the one with the same key, or all but the last one where there
/// is no such one and no room.
pub proof fn law_put_comes_first(
    s: Seq<Entry>,
    limit: nat,
    key: Key,
    value: (Seq<u8>, u128),
    i: int,
)
    requires
        keys_differ(s),
        s.len() <= limit,
        limit > 0,
    ensures
        with_entry(s, limit, key, value).len() > 0,
        with_entry(s, limit, key, value)[0] == (key, value),
        with_entry(s, limit, key, value).len() <= limit,
        0 <= i < s.len() && s[i].0 == key ==> with_entry(s, limit, key, value).skip(1) == s.take(i)
            + s.skip(i + 1),
        (forall|k: int| 0 <= k < s.len() ==> (#[trigger] s[k]).0 != key) ==> with_entry(
            s,
            limit,
            key,
            value,
        ).skip(1) == (if s.len() < limit {
            s
        } else {
            s.take(s.len() - 1)
        }),
{
    lemma_place(s, key);
    lemma_with_entry(s, limit, key, value);
    let p = place(s, key);
    let after = with_entry(s, limit, key, value);
    if 0 <= i < s.len() && s[i].0 == key {
        if p < i {
            assert(s[p].0 != s[i].0);
        } else if p > i {
            assert(s[i].0 != key);
        }
        assert(after.skip(1) =~= s.take(i) + s.skip(i + 1));
    }
    if forall|k: int| 0 <= k < s.len() ==> (#[trigger] s[k]).0 != key {
        if p < s.len() {
            assert(s[p].0 != key);
        }
        if s.len() < limit {
            assert(after.skip(1) =~= s);
        } else {
            assert(after.skip(1) =~= s.take(s.len() - 1));
        }
    }
}

} // verus!
