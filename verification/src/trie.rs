//! A map from domains to values that is asked by domain suffixes.
use crate::text::{
    find, law_join_of_split, lemma_find, lemma_split_concat, lemma_split_len, lemma_split_single,
    split, split_text, texts,
};
use vstd::hash_map::StringHashMap;
use vstd::prelude::*;

verus! {

/// A name without its first label and the dot behind it.
pub open spec fn parent(name: Seq<char>) -> Seq<char> {
    name.skip(find(name, '.') + 1)
}

/// The value of the longest suffix of a name that is in the map, where a suffix
/// is the name itself or what stands behind one of its dots.
pub open spec fn lookup<V>(m: Map<Seq<char>, V>, name: Seq<char>) -> Option<V>
    decreases name.len(),
{
    if m.contains_key(name) {
        Some(m[name])
    } else if 0 <= find(name, '.') < name.len() {
        lookup(m, parent(name))
    } else {
        None
    }
}

/// Whether a key is a name itself or stands behind one of its dots.
pub open spec fn covers(key: Seq<char>, name: Seq<char>) -> bool {
    ||| key == name
    ||| {
        &&& key.len() < name.len()
        &&& name[name.len() - key.len() - 1] == '.'
        &&& name.skip(name.len() - key.len()) == key
    }
}

/// A key covers a name just when it is the name or covers its parent.
proof fn lemma_covers_parent(key: Seq<char>, name: Seq<char>)
    ensures
        find(name, '.') < name.len() ==> (covers(key, name) <==> key == name || covers(
            key,
            parent(name),
        )),
        find(name, '.') >= name.len() ==> (covers(key, name) <==> key == name),
{
    lemma_find(name, '.');
    let f = find(name, '.');
    if f < name.len() {
        let p = parent(name);
        assert(p.len() == name.len() - f - 1);
        if covers(key, name) && key != name {
            let at = name.len() - key.len() - 1;
            assert(name[at] == '.');
            assert(at >= f);
            if at == f {
                assert(key == p);
            } else {
                assert(p[p.len() - key.len() - 1] == name[at]);
                assert(p.skip(p.len() - key.len()) =~= name.skip(name.len() - key.len()));
            }
        }
        if covers(key, p) {
            if key == p {
                assert(name[name.len() - key.len() - 1] == name[f]);
            } else {
                assert(p[p.len() - key.len() - 1] == name[name.len() - key.len() - 1]);
                assert(p.skip(p.len() - key.len()) =~= name.skip(name.len() - key.len()));
            }
        }
    } else if covers(key, name) && key != name {
        assert(name[name.len() - key.len() - 1] == '.');
    }
}

/// A name finds a value just when a key covers it, and the value is that of the
/// longest such key.
pub proof fn law_lookup_is_longest_suffix<V>(m: Map<Seq<char>, V>, name: Seq<char>)
    ensures
        lookup(m, name) is None <==> forall|key: Seq<char>| #[trigger]
            m.contains_key(key) ==> !covers(key, name),
        lookup(m, name) matches Some(v) ==> exists|key: Seq<char>| #[trigger]
            m.contains_key(key) && covers(key, name) && m[key] == v && forall|other: Seq<char>|
             #[trigger]
                m.contains_key(other) && covers(other, name) ==> other.len() <= key.len(),
    decreases name.len(),
{
    if m.contains_key(name) {
        assert(covers(name, name));
    } else {
        lemma_find(name, '.');
        assert forall|key: Seq<char>| #[trigger] m.contains_key(key) implies (covers(key, name)
            <==> find(name, '.') < name.len() && covers(key, parent(name))) by {
            lemma_covers_parent(key, name);
        }
        if find(name, '.') < name.len() {
            law_lookup_is_longest_suffix(m, parent(name));
            if lookup(m, name) is Some {
                let v = lookup(m, name)->Some_0;
                let key = choose|key: Seq<char>| #[trigger]
                    m.contains_key(key) && covers(key, parent(name)) && m[key] == v && forall|
                        other: Seq<char>,
                    | #[trigger]
                        m.contains_key(other) && covers(other, parent(name)) ==> other.len()
                            <= key.len();
                assert(m.contains_key(key) && covers(key, name));
            }
        }
    }
}

/// A longer stored suffix of a name is the name itself, or one of its parent.
proof fn lemma_longer_suffix<V>(m: Map<Seq<char>, V>, domain: Seq<char>, name: Seq<char>)
    ensures
        m.contains_key(name) && name.len() > domain.len() ==> exists|key: Seq<char>| #[trigger]
            m.contains_key(key) && covers(key, name) && key.len() > domain.len(),
        !m.contains_key(name) ==> ((exists|key: Seq<char>| #[trigger]
            m.contains_key(key) && covers(key, name) && key.len() > domain.len()) <==> find(
            name,
            '.',
        ) < name.len() && exists|key: Seq<char>| #[trigger]
            m.contains_key(key) && covers(key, parent(name)) && key.len() > domain.len()),
{
    lemma_find(name, '.');
    if m.contains_key(name) {
        assert(covers(name, name));
    } else {
        assert forall|key: Seq<char>| #[trigger] m.contains_key(key) implies (covers(key, name)
            <==> find(name, '.') < name.len() && covers(key, parent(name))) by {
            lemma_covers_parent(key, name);
        }
    }
}

/// A stored value is found by its domain and by every name that the domain
/// covers and no longer stored one does. A name that the domain does not cover,
/// or a longer stored one does, finds what it found before.
pub proof fn law_insert_is_seen<V>(
    m: Map<Seq<char>, V>,
    domain: Seq<char>,
    value: V,
    name: Seq<char>,
)
    ensures
        lookup(m.insert(domain, value), domain) == Some(value),
        !covers(domain, name) ==> lookup(m.insert(domain, value), name) == lookup(m, name),
        ({
            let longer = exists|key: Seq<char>| #[trigger]
                m.contains_key(key) && covers(key, name) && key.len() > domain.len();
            &&& covers(domain, name) && !longer ==> lookup(m.insert(domain, value), name) == Some(
                value,
            )
            &&& longer ==> lookup(m.insert(domain, value), name) == lookup(m, name)
        }),
    decreases name.len(),
{
    lemma_find(name, '.');
    lemma_covers_parent(domain, name);
    lemma_longer_suffix(m, domain, name);
    if find(name, '.') < name.len() {
        law_insert_is_seen(m, domain, value, parent(name));
    }
}

/// The labels of a name from the last to the first.
spec fn path_of(name: Seq<char>) -> Seq<Seq<char>> {
    split(name, '.').reverse()
}

/// Two names with the same labels are the same name.
proof fn lemma_path_is_unique(a: Seq<char>, b: Seq<char>)
    requires
        path_of(a) == path_of(b),
    ensures
        a == b,
{
    law_join_of_split(a, '.');
    law_join_of_split(b, '.');
    assert(path_of(a).reverse() =~= split(a, '.'));
    assert(path_of(b).reverse() =~= split(b, '.'));
}

/// The parent of a name has all its labels but the first.
proof fn lemma_path_of_parent(name: Seq<char>)
    ensures
        path_of(name).len() >= 1,
        find(name, '.') < name.len() ==> path_of(parent(name)) == path_of(name).drop_last(),
        find(name, '.') >= name.len() ==> path_of(name).len() == 1,
{
    lemma_find(name, '.');
    lemma_split_len(name, '.');
    let f = find(name, '.');
    if f < name.len() {
        let a = name.take(f);
        assert(!a.contains('.'));
        lemma_split_single(a, '.');
        lemma_split_concat(a, parent(name), '.');
        assert(name =~= a.push('.') + parent(name));
        assert(path_of(parent(name)) =~= path_of(name).drop_last());
    } else {
        assert(!name.contains('.'));
        lemma_split_single(name, '.');
    }
}

/// A place in the tree: the places behind it, by their labels, and the domain
/// that ends here with its value.
struct Node<V> {
    children: StringHashMap<usize>,
    value: Option<(String, V)>,
}

/// The places of the tree, the labels that lead to each, and what is stored.
struct Arena<V> {
    nodes: Vec<Node<V>>,
    paths: Ghost<Seq<Seq<Seq<char>>>>,
    entries: Ghost<Map<Seq<char>, V>>,
}

impl<V> Arena<V> {
    /// Whether a place is reached from another by a label.
    spec fn leads(self, k: int, label: Seq<char>, c: int) -> bool {
        &&& 0 <= k < self.nodes@.len()
        &&& self.nodes@[k].children@.contains_key(label)
        &&& self.nodes@[k].children@[label] == c
    }

    /// Whether the value of a name is stored at a place.
    spec fn stores(self, k: int, name: Seq<char>) -> bool {
        &&& 0 <= k < self.nodes@.len()
        &&& self.paths@[k] == path_of(name)
        &&& self.nodes@[k].value matches Some((n, v)) && n@ == name && v == self.entries@[name]
    }

    spec fn wf(self) -> bool {
        &&& self.nodes@.len() == self.paths@.len()
        &&& self.nodes@.len() > 0 ==> self.paths@[0] == Seq::<Seq<char>>::empty()
        &&& forall|k: int, label: Seq<char>|
            #![trigger self.nodes@[k].children@.contains_key(label)]
            0 <= k < self.nodes@.len() && self.nodes@[k].children@.contains_key(label) ==> 0
                <= self.nodes@[k].children@[label] < self.nodes@.len()
                && self.paths@[self.nodes@[k].children@[label] as int] == self.paths@[k].push(label)
        &&& forall|c: int|
            #![trigger self.paths@[c]]
            0 < c < self.nodes@.len() ==> self.paths@[c].len() > 0 && exists|k: int|
                #[trigger]
                self.leads(k, self.paths@[c].last(), c) && self.paths@[k]
                    == self.paths@[c].drop_last()
        &&& forall|i: int, j: int|
            #![trigger self.paths@[i], self.paths@[j]]
            0 <= i < self.nodes@.len() && 0 <= j < self.nodes@.len() && self.paths@[i]
                == self.paths@[j] ==> i == j
        &&& forall|k: int|
            #![trigger self.nodes@[k]]
            0 <= k < self.nodes@.len() ==> (self.nodes@[k].value matches Some((n, v))
                ==> self.entries@.contains_key(n@) && self.stores(k, n@))
        &&& forall|name: Seq<char>| #[trigger]
            self.entries@.contains_key(name) ==> exists|k: int| self.stores(k, name)
    }

    /// Where a place has no child of a label, no place is reached by its labels
    /// and that label.
    proof fn lemma_no_child(self, k: int, label: Seq<char>, c: int)
        requires
            self.wf(),
            0 <= k < self.nodes@.len(),
            !self.nodes@[k].children@.contains_key(label),
            0 <= c < self.nodes@.len(),
        ensures
            self.paths@[c] != self.paths@[k].push(label),
    {
        if self.paths@[c] == self.paths@[k].push(label) {
            assert(self.paths@[c].drop_last() =~= self.paths@[k]);
            assert(self.paths@[c].last() == label);
            assert(c > 0);
            let up = choose|up: int| #[trigger]
                self.leads(up, label, c) && self.paths@[up] == self.paths@[c].drop_last();
            assert(self.paths@[up] == self.paths@[k]);
            assert(up == k);
        }
    }

    /// A place is reached through places.
    proof fn lemma_reached_through(self, c: int, depth: int) -> (k: int)
        requires
            self.wf(),
            0 <= c < self.nodes@.len(),
            0 <= depth <= self.paths@[c].len(),
        ensures
            0 <= k < self.nodes@.len(),
            self.paths@[k] == self.paths@[c].take(depth),
        decreases self.paths@[c].len(),
    {
        if depth == self.paths@[c].len() {
            assert(self.paths@[c].take(depth) =~= self.paths@[c]);
            c
        } else {
            let up = choose|up: int| #[trigger]
                self.leads(up, self.paths@[c].last(), c) && self.paths@[up]
                    == self.paths@[c].drop_last();
            let k = self.lemma_reached_through(up, depth);
            assert(self.paths@[c].drop_last().take(depth) =~= self.paths@[c].take(depth));
            k
        }
    }

    /// Adds a place behind another.
    fn add_child(&mut self, k: usize, label: String) -> (c: usize)
        requires
            old(self).wf(),
            k < old(self).nodes@.len(),
            !old(self).nodes@[k as int].children@.contains_key(label@),
        ensures
            final(self).wf(),
            final(self).entries@ == old(self).entries@,
            c < final(self).nodes@.len(),
            final(self).paths@[c as int] == old(self).paths@[k as int].push(label@),
    {
        let c: usize = self.nodes.len();
        let ghost path = self.paths@[k as int].push(label@);
        let ghost name = label@;
        proof {
            assert forall|i: int| 0 <= i < self.nodes@.len() implies self.paths@[i] != path by {
                self.lemma_no_child(k as int, name, i);
            }
        }
        let ghost before = *self;
        self.nodes[k].children.insert(label, c);
        self.nodes.push(Node { children: StringHashMap::new(), value: None });
        self.paths = Ghost(self.paths@.push(path));
        proof {
            assert(path.drop_last() =~= before.paths@[k as int]);
            assert(self.leads(k as int, name, c as int));
            assert forall|i: int|
                #![trigger self.paths@[i]]
                0 < i < self.nodes@.len() implies self.paths@[i].len() > 0 && exists|up: int|
                #[trigger]
                self.leads(up, self.paths@[i].last(), i) && self.paths@[up]
                    == self.paths@[i].drop_last() by {
                if i == c {
                    assert(self.leads(k as int, self.paths@[i].last(), i));
                } else {
                    assert(self.paths@[i] == before.paths@[i]);
                    let up = choose|up: int| #[trigger]
                        before.leads(up, before.paths@[i].last(), i) && before.paths@[up]
                            == before.paths@[i].drop_last();
                    assert(self.leads(up, self.paths@[i].last(), i));
                }
            }
            assert forall|n: Seq<char>| #[trigger] self.entries@.contains_key(n) implies exists|
                i: int,
            | self.stores(i, n) by {
                let i = choose|i: int| before.stores(i, n);
                assert(self.stores(i, n));
            }
            assert forall|i: int| #![trigger self.nodes@[i]] 0 <= i < self.nodes@.len() implies (
            self.nodes@[i].value matches Some((n, v)) ==> self.entries@.contains_key(n@)
                && self.stores(i, n@)) by {
                if i < c {
                    assert(self.nodes@[i].value == before.nodes@[i].value);
                    if let Some((n, v)) = before.nodes@[i].value {
                        assert(before.stores(i, n@));
                    }
                }
            }
        }
        c
    }

    /// Stores a value at the place of its name.
    fn set_value(&mut self, k: usize, domain: String, value: V)
        requires
            old(self).wf(),
            k < old(self).nodes@.len(),
            old(self).paths@[k as int] == path_of(domain@),
        ensures
            final(self).wf(),
            final(self).entries@ == old(self).entries@.insert(domain@, value),
    {
        let ghost before = *self;
        let ghost name = domain@;
        self.nodes[k].value = Some((domain, value));
        self.entries = Ghost(self.entries@.insert(name, value));
        proof {
            assert(self.stores(k as int, name));
            assert forall|i: int|
                #![trigger self.paths@[i]]
                0 < i < self.nodes@.len() implies self.paths@[i].len() > 0 && exists|up: int|
                #[trigger]
                self.leads(up, self.paths@[i].last(), i) && self.paths@[up]
                    == self.paths@[i].drop_last() by {
                let up = choose|up: int| #[trigger]
                    before.leads(up, before.paths@[i].last(), i) && before.paths@[up]
                        == before.paths@[i].drop_last();
                assert(self.leads(up, self.paths@[i].last(), i));
            }
            assert forall|n: Seq<char>| #[trigger] self.entries@.contains_key(n) implies exists|
                i: int,
            | self.stores(i, n) by {
                if n != name {
                    let i = choose|i: int| before.stores(i, n);
                    if i == k {
                        lemma_path_is_unique(n, name);
                    }
                    assert(self.stores(i, n));
                }
            }
            assert forall|i: int| #![trigger self.nodes@[i]] 0 <= i < self.nodes@.len() implies (
            self.nodes@[i].value matches Some((n, v)) ==> self.entries@.contains_key(n@)
                && self.stores(i, n@)) by {
                if i != k {
                    assert(self.nodes@[i] == before.nodes@[i]);
                    if let Some((n, v)) = before.nodes@[i].value {
                        assert(before.stores(i, n@));
                        if n@ == name {
                            assert(before.paths@[i] == before.paths@[k as int]);
                        }
                    }
                }
            }
        }
    }
}

/// A map from domains to values that is asked by domain suffixes.
pub struct DomainTrie<V> {
    arena: Arena<V>,
}

impl<V> View for DomainTrie<V> {
    type V = Map<Seq<char>, V>;

    closed spec fn view(&self) -> Map<Seq<char>, V> {
        self.arena.entries@
    }
}

/// What stands behind the first `count` dots of a name.
spec fn ancestor(name: Seq<char>, count: nat) -> Seq<char>
    decreases count,
{
    if count == 0 {
        name
    } else {
        parent(ancestor(name, (count - 1) as nat))
    }
}

/// An ancestor has the last labels of its name.
proof fn lemma_path_of_ancestor(name: Seq<char>, count: nat)
    requires
        count < path_of(name).len(),
    ensures
        path_of(ancestor(name, count)) == path_of(name).take(path_of(name).len() - count),
    decreases count,
{
    if count == 0 {
        assert(path_of(name).take(path_of(name).len() as int) =~= path_of(name));
    } else {
        lemma_path_of_ancestor(name, (count - 1) as nat);
        lemma_path_of_parent(ancestor(name, (count - 1) as nat));
        assert(path_of(name).take(path_of(name).len() - count + 1).drop_last() =~= path_of(
            name,
        ).take(path_of(name).len() - count));
    }
}

/// Where no ancestor down to some depth is in the map, the name finds what that
/// ancestor finds.
proof fn lemma_lookup_of_ancestor<V>(m: Map<Seq<char>, V>, name: Seq<char>, count: nat)
    requires
        count < path_of(name).len(),
        forall|i: nat| i < count ==> !m.contains_key(#[trigger] ancestor(name, i)),
    ensures
        lookup(m, name) == lookup(m, ancestor(name, count)),
    decreases count,
{
    if count > 0 {
        let below = (count - 1) as nat;
        lemma_lookup_of_ancestor(m, name, below);
        lemma_path_of_ancestor(name, below);
        lemma_path_of_parent(ancestor(name, below));
        lemma_find(ancestor(name, below), '.');
    }
}

impl<V> DomainTrie<V> {
    #[verifier::type_invariant]
    spec fn inv(self) -> bool {
        self.arena.wf()
    }

    /// The empty map.
    pub fn new() -> (r: Self)
        ensures
            r@ == Map::<Seq<char>, V>::empty(),
    {
        DomainTrie {
            arena: Arena {
                nodes: Vec::new(),
                paths: Ghost(Seq::empty()),
                entries: Ghost(Map::empty()),
            },
        }
    }

    /// Stores the value of a domain, in place of one that it had.
    pub fn insert(&mut self, domain: &str, value: V)
        ensures
            final(self)@ == old(self)@.insert(domain@, value),
    {
        proof {
            use_type_invariant(&*self);
        }
        let mut arena: Arena<V> = Arena {
            nodes: Vec::new(),
            paths: Ghost(Seq::empty()),
            entries: Ghost(Map::empty()),
        };
        std::mem::swap(&mut arena, &mut self.arena);
        let ghost stored = arena.entries@;
        if arena.nodes.len() == 0 {
            let ghost before = arena;
            arena.nodes.push(Node { children: StringHashMap::new(), value: None });
            arena.paths = Ghost(Seq::empty().push(Seq::<Seq<char>>::empty()));
            proof {
                assert forall|n: Seq<char>| #[trigger]
                    arena.entries@.contains_key(n) implies exists|i: int| arena.stores(i, n) by {
                    let i = choose|i: int| before.stores(i, n);
                    assert(false);
                }
            }
        }
        let labels: Vec<String> = split_text(domain, '.');
        let mut left: usize = labels.len();
        let mut k: usize = 0;
        assert(path_of(domain@).take(0) =~= Seq::<Seq<char>>::empty());
        while left > 0
            invariant
                left <= labels@.len(),
                texts(labels@) == split(domain@, '.'),
                arena.wf(),
                arena.entries@ == stored,
                k < arena.nodes@.len(),
                arena.paths@[k as int] == path_of(domain@).take(labels@.len() - left),
            decreases left,
        {
            let ghost depth = labels@.len() - left;
            left -= 1;
            let label: &String = &labels[left];
            assert(texts(labels@)[left as int] == label@);
            assert(path_of(domain@)[depth] == label@);
            assert(path_of(domain@).take(depth + 1) =~= path_of(domain@).take(depth).push(label@));
            let known: Option<usize> = match arena.nodes[k].children.get(label.as_str()) {
                Some(c) => Some(*c),
                None => None,
            };
            match known {
                Some(c) => {
                    k = c;
                },
                None => {
                    k = arena.add_child(k, label.clone());
                },
            }
        }
        assert(path_of(domain@).take(labels@.len() as int) =~= path_of(domain@));
        arena.set_value(k, domain.to_owned(), value);
        self.arena = arena;
    }

    /// The value of the longest suffix of a domain that is in the map.
    pub fn get(&self, domain: &str) -> (r: Option<&V>)
        ensures
            match lookup(self@, domain@) {
                Some(v) => r matches Some(x) && *x == v,
                None => r is None,
            },
    {
        proof {
            use_type_invariant(&*self);
        }
        let labels: Vec<String> = split_text(domain, '.');
        let mut left: usize = labels.len();
        let mut k: usize = 0;
        let mut found: Option<&V> = None;
        let ghost path = path_of(domain@);
        let ghost m = self@;
        proof {
            assert(path.take(0) =~= Seq::<Seq<char>>::empty());
            lemma_split_len(domain@, '.');
            assert(texts(labels@).len() == labels@.len());
        }
        if self.arena.nodes.len() == 0 {
            proof {
                law_lookup_is_longest_suffix(m, domain@);
                if lookup(m, domain@) is Some {
                    let key = choose|key: Seq<char>| #[trigger] m.contains_key(key);
                    let i = choose|i: int| self.arena.stores(i, key);
                    assert(false);
                }
            }
            return None;
        }
        while left > 0
            invariant
                left <= labels@.len(),
                texts(labels@) == split(domain@, '.'),
                self.arena.wf(),
                m == self.arena.entries@,
                path == path_of(domain@),
                path.len() == labels@.len(),
                k < self.arena.nodes@.len(),
                self.arena.paths@[k as int] == path.take(labels@.len() - left),
                left == labels@.len() ==> found is None,
                left < labels@.len() ==> (match lookup(m, ancestor(domain@, left as nat)) {
                    Some(v) => found matches Some(x) && *x == v,
                    None => found is None,
                }),
            decreases left,
        {
            let ghost depth = labels@.len() - left;
            left -= 1;
            let label: &String = &labels[left];
            let ghost name = ancestor(domain@, left as nat);
            proof {
                assert(texts(labels@)[left as int] == label@);
                assert(path[depth] == label@);
                assert(path.take(depth + 1) =~= path.take(depth).push(label@));
                lemma_path_of_ancestor(domain@, left as nat);
                lemma_path_of_parent(name);
                lemma_find(name, '.');
                assert(path_of(name) == path.take(depth + 1));
                if depth > 0 {
                    assert(ancestor(domain@, (left + 1) as nat) == parent(name));
                    assert(find(name, '.') < name.len());
                } else {
                    lemma_path_of_parent(parent(name));
                    assert(find(name, '.') >= name.len());
                }
            }
            match self.arena.nodes[k].children.get(label.as_str()) {
                Some(c) => {
                    k = *c;
                    match &self.arena.nodes[k].value {
                        Some(entry) => {
                            proof {
                                let n = entry.0@;
                                assert(self.arena.stores(k as int, n));
                                lemma_path_is_unique(n, name);
                            }
                            found = Some(&entry.1);
                        },
                        None => {
                            proof {
                                if m.contains_key(name) {
                                    let i = choose|i: int| self.arena.stores(i, name);
                                    assert(self.arena.paths@[i] == self.arena.paths@[k as int]);
                                }
                            }
                        },
                    }
                },
                None => {
                    proof {
                        assert forall|i: nat| i < left + 1 implies !m.contains_key(
                            #[trigger] ancestor(domain@, i),
                        ) by {
                            let longer = ancestor(domain@, i);
                            if m.contains_key(longer) {
                                let c = choose|c: int| self.arena.stores(c, longer);
                                lemma_path_of_ancestor(domain@, i);
                                let up = self.arena.lemma_reached_through(c, depth + 1);
                                assert(path.take(path.len() - i).take(depth + 1) =~= path.take(
                                    depth + 1,
                                ));
                                self.arena.lemma_no_child(k as int, label@, up);
                            }
                        }
                        lemma_lookup_of_ancestor(m, domain@, left as nat);
                    }
                    return found;
                },
            }
        }
        found
    }

    /// All domains with their values, each domain once.
    pub fn iter(&self) -> (r: Vec<&(String, V)>)
        ensures
            forall|i: int|
                0 <= i < r@.len() ==> self@.contains_key((#[trigger] r@[i]).0@) && self@[r@[i].0@]
                    == r@[i].1,
            forall|name: Seq<char>| #[trigger]
                self@.contains_key(name) ==> exists|i: int| 0 <= i < r@.len() && r@[i].0@ == name,
            forall|i: int, j: int|
                0 <= i < j < r@.len() ==> (#[trigger] r@[i]).0@ != (#[trigger] r@[j]).0@,
    {
        proof {
            use_type_invariant(&*self);
        }
        let mut out: Vec<&(String, V)> = Vec::new();
        let ghost mut places: Seq<int> = Seq::empty();
        let mut k: usize = 0;
        while k < self.arena.nodes.len()
            invariant
                k <= self.arena.nodes@.len(),
                places.len() == out@.len(),
                forall|i: int|
                    #![trigger places[i]]
                    0 <= i < places.len() ==> 0 <= places[i] < k
                        && self.arena.nodes@[places[i]].value == Some(*out@[i]),
                forall|i: int, j: int|
                    #![trigger places[i], places[j]]
                    0 <= i < j < places.len() ==> places[i] < places[j],
                forall|at: int|
                    #![trigger self.arena.nodes@[at]]
                    0 <= at < k && self.arena.nodes@[at].value is Some ==> places.contains(at),
            decreases self.arena.nodes@.len() - k,
        {
            let ghost before = places;
            match &self.arena.nodes[k].value {
                Some(entry) => {
                    out.push(entry);
                    proof {
                        places = before.push(k as int);
                        assert(places[before.len() as int] == k);
                        assert forall|at: int| before.contains(at) implies places.contains(at) by {
                            let i = choose|i: int| 0 <= i < before.len() && before[i] == at;
                            assert(places[i] == at);
                        }
                    }
                },
                None => {},
            }
            k += 1;
        }
        proof {
            assert forall|i: int| 0 <= i < out@.len() implies self@.contains_key(
                (#[trigger] out@[i]).0@,
            ) && self@[out@[i].0@] == out@[i].1 && self.arena.stores(places[i], out@[i].0@) by {
                assert(self.arena.nodes@[places[i]].value == Some(*out@[i]));
            }
            assert forall|i: int, j: int| 0 <= i < j < out@.len() implies (#[trigger] out@[i]).0@
                != (#[trigger] out@[j]).0@ by {
                assert(self.arena.stores(places[i], out@[i].0@));
                assert(self.arena.stores(places[j], out@[j].0@));
                assert(places[i] < places[j]);
            }
            assert forall|name: Seq<char>| #[trigger] self@.contains_key(name) implies exists|
                i: int,
            | 0 <= i < out@.len() && out@[i].0@ == name by {
                let at = choose|at: int| self.arena.stores(at, name);
                assert(places.contains(at));
                let i = choose|i: int| 0 <= i < places.len() && places[i] == at;
                assert(out@[i].0@ == name);
            }
        }
        out
    }
}

/// A domain covers itself and every name with more labels in front of it, and no
/// other name.
pub proof fn law_domains_cover_the_names_under_them(
    front: Seq<char>,
    domain: Seq<char>,
    name: Seq<char>,
)
    ensures
        covers(domain, domain),
        covers(domain, front.push('.') + domain),
        covers(domain, name) && name != domain ==> name == name.take(
            name.len() - domain.len() - 1,
        ).push('.') + domain,
        domain.len() > 0 && front.len() > 0 && front.last() != '.' ==> !covers(
            domain,
            front + domain,
        ),
{
    let under = front.push('.') + domain;
    assert(under.skip(under.len() - domain.len()) =~= domain);
    if covers(domain, name) && name != domain {
        assert(name =~= name.take(name.len() - domain.len() - 1).push('.') + domain);
    }
}

} // verus!
