//! In-memory LDP resource store.
//!
//! Resources are addressed by normalised path keys (always starting with
//! `/`). Writing a resource creates every ancestor container that does not
//! exist yet; the root container `/` exists from the start.

use vstd::prelude::*;
use vstd::string::*;

use crate::text::{chars_of, ends_with_slash, starts_with_slash};

verus! {

/// One stored resource entry.
#[derive(Debug)]
pub struct Entry {
    /// Raw body bytes.
    pub body: Vec<u8>,
    /// `Content-Type` string as supplied by the PUT/POST caller.
    pub content_type: String,
    /// True when the path ends with `/` (container semantics).
    pub is_container: bool,
}

/// The mathematical value of an [`Entry`].
pub struct EntryView {
    pub body: Seq<u8>,
    pub content_type: Seq<char>,
    pub is_container: bool,
}

impl View for Entry {
    type V = EntryView;

    open spec fn view(&self) -> EntryView {
        EntryView {
            body: self.body@,
            content_type: self.content_type@,
            is_container: self.is_container,
        }
    }
}

impl Clone for Entry {
    fn clone(&self) -> (res: Self)
        ensures
            res@ == self@,
    {
        let mut body: Vec<u8> = Vec::new();
        for i in 0..self.body.len()
            invariant
                body@ == self.body@.take(i as int),
        {
            body.push(self.body[i]);
            assert(self.body@.take(i + 1) =~= body@);
        }
        assert(body@ =~= self.body@);
        Entry { body, content_type: self.content_type.clone(), is_container: self.is_container }
    }
}

// ── path keys ────────────────────────────────────────────────────────────
/// The key of the root container.
pub open spec fn root_key() -> Seq<char> {
    seq!['/']
}

/// The key that a request path addresses: the path itself when it starts
/// with `/`, otherwise the path with `/` put in front.
pub open spec fn normalize_key(path: Seq<char>) -> Seq<char> {
    if path.len() > 0 && path[0] == '/' {
        path
    } else {
        seq!['/'] + path
    }
}

/// A key names a container when it ends with `/`.
pub open spec fn is_container_key(k: Seq<char>) -> bool {
    k.len() > 0 && k.last() == '/'
}

/// Length of `k` once every trailing `/` is removed.
pub open spec fn trimmed_len(k: Seq<char>) -> nat
    decreases k.len(),
{
    if k.len() == 0 {
        0
    } else if k.last() == '/' {
        trimmed_len(k.drop_last())
    } else {
        k.len()
    }
}

/// Position `q` of `k` holds one of the separators that close an ancestor:
/// a `/` before the trailing run of slashes.
pub open spec fn is_ancestor_slash(k: Seq<char>, q: int) -> bool {
    &&& 0 <= q < trimmed_len(k)
    &&& k[q] == '/'
}

/// The ancestor container closed by the separator at `q`: the prefix of the
/// key up to and including it, where the prefix `//` stands for the root.
pub open spec fn ancestor_at(k: Seq<char>, q: int) -> Seq<char> {
    if k.take(q + 1) == seq!['/', '/'] {
        root_key()
    } else {
        k.take(q + 1)
    }
}

/// The ancestors closed by separators before position `n`, together with the
/// root when the key consists of slashes only.
pub open spec fn ancestors_below(k: Seq<char>, n: int) -> Set<Seq<char>> {
    Set::new(
        |a: Seq<char>|
            (trimmed_len(k) == 0 && a == root_key()) || exists|q: int|
                0 <= q < n && is_ancestor_slash(k, q) && a == ancestor_at(k, q),
    )
}

/// Every ancestor container that writing the key `k` makes sure of.
pub open spec fn ancestors(k: Seq<char>) -> Set<Seq<char>> {
    ancestors_below(k, trimmed_len(k) as int)
}

/// The entry of an automatically created container.
pub open spec fn container_entry() -> EntryView {
    EntryView { body: Seq::empty(), content_type: "text/turtle"@, is_container: true }
}

/// `m` with an empty container added under every key of `s` it lacks.
pub open spec fn with_containers(m: Map<Seq<char>, EntryView>, s: Set<Seq<char>>) -> Map<
    Seq<char>,
    EntryView,
> {
    Map::new(
        |x: Seq<char>| m.contains_key(x) || s.contains(x),
        |x: Seq<char>|
            if m.contains_key(x) {
                m[x]
            } else {
                container_entry()
            },
    )
}

/// The store contents that deleting `path` leads to from `m`: the resource
/// is removed, except the root container, which stays.
pub open spec fn after_delete(m: Map<Seq<char>, EntryView>, path: Seq<char>) -> Map<
    Seq<char>,
    EntryView,
> {
    let k = normalize_key(path);
    if k == root_key() {
        m
    } else {
        m.remove(k)
    }
}

/// The store contents that writing `body` and `content_type` at `path` leads
/// to from `m`.
pub open spec fn after_put(
    m: Map<Seq<char>, EntryView>,
    path: Seq<char>,
    body: Seq<u8>,
    content_type: Seq<char>,
) -> Map<Seq<char>, EntryView> {
    let k = normalize_key(path);
    with_containers(m, ancestors(k)).insert(
        k,
        EntryView { body, content_type, is_container: is_container_key(k) },
    )
}

// ── storage ──────────────────────────────────────────────────────────────
#[derive(Debug)]
struct Slot {
    key: String,
    entry: Entry,
}

spec fn slots_distinct(s: Seq<Slot>) -> bool {
    forall|i: int, j: int| 0 <= i < j < s.len() ==> s[i].key@ != s[j].key@
}

spec fn slots_has(s: Seq<Slot>, k: Seq<char>) -> bool {
    exists|i: int| 0 <= i < s.len() && s[i].key@ == k
}

spec fn slots_map(s: Seq<Slot>) -> Map<Seq<char>, EntryView> {
    Map::new(
        |k: Seq<char>| slots_has(s, k),
        |k: Seq<char>| s[choose|i: int| 0 <= i < s.len() && s[i].key@ == k].entry@,
    )
}

proof fn lemma_slots_lookup(s: Seq<Slot>, i: int)
    requires
        slots_distinct(s),
        0 <= i < s.len(),
    ensures
        slots_map(s).contains_key(s[i].key@),
        slots_map(s)[s[i].key@] == s[i].entry@,
{
    let k = s[i].key@;
    assert(slots_has(s, k));
    let j = choose|j: int| 0 <= j < s.len() && s[j].key@ == k;
    if j != i {
        if j < i {
            assert(s[j].key@ != s[i].key@);
        } else {
            assert(s[i].key@ != s[j].key@);
        }
    }
}

proof fn lemma_slots_push(s: Seq<Slot>, slot: Slot)
    requires
        slots_distinct(s),
        !slots_has(s, slot.key@),
    ensures
        slots_distinct(s.push(slot)),
        slots_map(s.push(slot)) == slots_map(s).insert(slot.key@, slot.entry@),
{
    let t = s.push(slot);
    assert forall|i: int, j: int| 0 <= i < j < t.len() implies t[i].key@ != t[j].key@ by {
        if j == s.len() {
            assert(s[i].key@ != slot.key@);
        }
    }
    assert forall|k: Seq<char>| #[trigger] slots_has(t, k) == (slots_has(s, k) || k == slot.key@) by {
        if slots_has(s, k) {
            let i = choose|i: int| 0 <= i < s.len() && s[i].key@ == k;
            assert(t[i].key@ == k);
        }
        if k == slot.key@ {
            assert(t[s.len() as int].key@ == k);
        }
        if slots_has(t, k) && k != slot.key@ {
            let i = choose|i: int| 0 <= i < t.len() && t[i].key@ == k;
            assert(s[i].key@ == k);
        }
    }
    assert forall|k: Seq<char>| #[trigger] slots_map(t).contains_key(k) implies slots_map(t)[k]
        == slots_map(s).insert(slot.key@, slot.entry@)[k] by {
        let i = choose|i: int| 0 <= i < t.len() && t[i].key@ == k;
        lemma_slots_lookup(t, i);
        if i < s.len() {
            lemma_slots_lookup(s, i);
        }
    }
    assert(slots_map(t) =~= slots_map(s).insert(slot.key@, slot.entry@));
}

proof fn lemma_slots_update(s: Seq<Slot>, i: int, slot: Slot)
    requires
        slots_distinct(s),
        0 <= i < s.len(),
        s[i].key@ == slot.key@,
    ensures
        slots_distinct(s.update(i, slot)),
        slots_map(s.update(i, slot)) == slots_map(s).insert(slot.key@, slot.entry@),
{
    let t = s.update(i, slot);
    assert forall|a: int, b: int| 0 <= a < b < t.len() implies t[a].key@ != t[b].key@ by {
        assert(s[a].key@ != s[b].key@);
    }
    assert forall|k: Seq<char>| #[trigger] slots_has(t, k) == slots_has(s, k) by {
        if slots_has(s, k) {
            let j = choose|j: int| 0 <= j < s.len() && s[j].key@ == k;
            assert(t[j].key@ == k);
        }
        if slots_has(t, k) {
            let j = choose|j: int| 0 <= j < t.len() && t[j].key@ == k;
            assert(s[j].key@ == k);
        }
    }
    assert forall|k: Seq<char>| #[trigger] slots_map(t).contains_key(k) implies slots_map(t)[k]
        == slots_map(s).insert(slot.key@, slot.entry@)[k] by {
        let j = choose|j: int| 0 <= j < t.len() && t[j].key@ == k;
        lemma_slots_lookup(t, j);
        if j != i {
            lemma_slots_lookup(s, j);
        }
    }
    lemma_slots_lookup(s, i);
    assert(slots_map(t) =~= slots_map(s).insert(slot.key@, slot.entry@));
}

proof fn lemma_slots_remove(s: Seq<Slot>, i: int)
    requires
        slots_distinct(s),
        0 <= i < s.len(),
    ensures
        slots_distinct(s.remove(i)),
        slots_map(s.remove(i)) == slots_map(s).remove(s[i].key@),
{
    let t = s.remove(i);
    let key = s[i].key@;
    assert forall|a: int, b: int| 0 <= a < b < t.len() implies t[a].key@ != t[b].key@ by {
        let a2 = if a < i { a } else { a + 1 };
        let b2 = if b < i { b } else { b + 1 };
        assert(s[a2].key@ != s[b2].key@);
    }
    assert forall|k: Seq<char>| #[trigger] slots_has(t, k) == (slots_has(s, k) && k != key) by {
        if slots_has(s, k) && k != key {
            let j = choose|j: int| 0 <= j < s.len() && s[j].key@ == k;
            if j < i {
                assert(t[j].key@ == k);
            } else {
                assert(t[j - 1].key@ == k);
            }
        }
        if slots_has(t, k) {
            let j = choose|j: int| 0 <= j < t.len() && t[j].key@ == k;
            let j2 = if j < i { j } else { j + 1 };
            assert(s[j2].key@ == k);
            if j2 != i {
                if j2 < i {
                    assert(s[j2].key@ != s[i].key@);
                } else {
                    assert(s[i].key@ != s[j2].key@);
                }
            }
        }
    }
    assert forall|k: Seq<char>| #[trigger] slots_map(t).contains_key(k) implies slots_map(t)[k]
        == slots_map(s).remove(key)[k] by {
        let j = choose|j: int| 0 <= j < t.len() && t[j].key@ == k;
        lemma_slots_lookup(t, j);
        let j2 = if j < i { j } else { j + 1 };
        lemma_slots_lookup(s, j2);
    }
    assert(slots_map(t) =~= slots_map(s).remove(key));
}

fn find_slot(slots: &Vec<Slot>, k: &String) -> (r: Option<usize>)
    ensures
        match r {
            Some(i) => i < slots.len() && slots@[i as int].key@ == k@,
            None => !slots_has(slots@, k@),
        },
{
    for i in 0..slots.len()
        invariant
            forall|j: int| 0 <= j < i ==> slots@[j].key@ != k@,
    {
        if slots[i].key == *k {
            return Some(i);
        }
    }
    None
}

/// Puts `entry` under `key`, replacing any entry that is there.
fn set_slot(slots: &mut Vec<Slot>, key: String, entry: Entry) -> (created: bool)
    requires
        slots_distinct(old(slots)@),
    ensures
        slots_distinct(final(slots)@),
        slots_map(final(slots)@) == slots_map(old(slots)@).insert(key@, entry@),
        created == !slots_map(old(slots)@).contains_key(key@),
{
    match find_slot(slots, &key) {
        Some(i) => {
            let slot = Slot { key, entry };
            proof {
                lemma_slots_update(slots@, i as int, slot);
                lemma_slots_lookup(slots@, i as int);
            }
            slots.set(i, slot);
            false
        },
        None => {
            let slot = Slot { key, entry };
            proof {
                lemma_slots_push(slots@, slot);
            }
            slots.push(slot);
            true
        },
    }
}

fn new_container_entry() -> (e: Entry)
    ensures
        e@ == container_entry(),
{
    let e = Entry {
        body: Vec::new(),
        content_type: String::from_str("text/turtle"),
        is_container: true,
    };
    assert(e.body@ =~= Seq::<u8>::empty());
    e
}

/// Adds an empty container under `key` unless the key is taken.
fn add_container(slots: &mut Vec<Slot>, key: String)
    requires
        slots_distinct(old(slots)@),
    ensures
        slots_distinct(final(slots)@),
        slots_map(final(slots)@) == with_containers(slots_map(old(slots)@), set![key@]),
{
    let ghost m = slots_map(slots@);
    match find_slot(slots, &key) {
        Some(i) => {
            proof {
                lemma_slots_lookup(slots@, i as int);
            }
            assert(slots_map(slots@) =~= with_containers(m, set![key@]));
        },
        None => {
            let slot = Slot { key, entry: new_container_entry() };
            proof {
                lemma_slots_push(slots@, slot);
            }
            slots.push(slot);
            assert(slots_map(slots@) =~= with_containers(m, set![slot.key@]));
        },
    }
}

proof fn lemma_with_containers_insert(m: Map<Seq<char>, EntryView>, s: Set<Seq<char>>, a: Seq<char>)
    ensures
        with_containers(with_containers(m, s), set![a]) == with_containers(m, s.insert(a)),
{
    assert(with_containers(with_containers(m, s), set![a]) =~= with_containers(m, s.insert(a)));
}

proof fn lemma_trimmed_len_take(k: Seq<char>, t: int)
    requires
        0 < t <= k.len(),
        k[t - 1] == '/',
    ensures
        trimmed_len(k.take(t)) == trimmed_len(k.take(t - 1)),
{
    assert(k.take(t).drop_last() =~= k.take(t - 1));
}

/// Makes sure that every ancestor container of `key` exists.
fn ensure_ancestors(slots: &mut Vec<Slot>, key: &String)
    requires
        slots_distinct(old(slots)@),
        key@.len() > 0,
        key@[0] == '/',
    ensures
        slots_distinct(final(slots)@),
        slots_map(final(slots)@) == with_containers(slots_map(old(slots)@), ancestors(key@)),
{
    let ghost k = key@;
    let ghost m = slots_map(slots@);
    let chars = chars_of(key.as_str());
    let mut t = chars.len();
    assert(k.take(t as int) =~= k);
    while t > 0 && chars[t - 1] == '/'
        invariant
            t <= chars.len(),
            chars@ == k,
            trimmed_len(k) == trimmed_len(k.take(t as int)),
        decreases t,
    {
        proof {
            lemma_trimmed_len_take(k, t as int);
        }
        t -= 1;
    }
    assert(trimmed_len(k) == t) by {
        if t > 0 {
            assert(k.take(t as int).last() == k[t - 1]);
        }
    }
    if t == 0 {
        let root = String::from_str("/");
        proof {
            reveal_strlit("/");
            assert(root@ =~= root_key());
        }
        add_container(slots, root);
        assert(ancestors_below(k, 0) =~= set![root_key()]);
        assert(slots_map(slots@) == with_containers(m, ancestors_below(k, 0)));
    } else {
        assert(ancestors_below(k, 0) =~= Set::empty());
        assert(with_containers(m, Set::empty()) =~= m);
    }
    let mut i: usize = 0;
    while i < t
        invariant
            t == trimmed_len(k),
            t <= chars.len(),
            chars@ == k,
            key@ == k,
            k.len() > 0,
            k[0] == '/',
            i <= t,
            slots_distinct(slots@),
            slots_map(slots@) == with_containers(m, ancestors_below(k, i as int)),
        decreases t - i,
    {
        if chars[i] == '/' {
            let a = if i == 1 {
                proof {
                    reveal_strlit("/");
                    assert(k.take(2) =~= seq!['/', '/']);
                }
                String::from_str("/")
            } else {
                let sub = key.as_str().substring_char(0, i + 1);
                sub.to_owned()
            };
            assert(a@ == ancestor_at(k, i as int));
            assert(is_ancestor_slash(k, i as int));
            proof {
                lemma_with_containers_insert(m, ancestors_below(k, i as int), a@);
            }
            add_container(slots, a);
            assert(ancestors_below(k, i as int).insert(a@) =~= ancestors_below(k, i + 1));
        } else {
            assert(!is_ancestor_slash(k, i as int));
            assert(ancestors_below(k, i as int) =~= ancestors_below(k, i + 1));
        }
        i += 1;
    }
}

proof fn lemma_trimmed_len(k: Seq<char>)
    ensures
        trimmed_len(k) <= k.len(),
        trimmed_len(k) > 0 ==> k[trimmed_len(k) - 1] != '/',
    decreases k.len(),
{
    if k.len() > 0 && k.last() == '/' {
        lemma_trimmed_len(k.drop_last());
    }
}

/// A key other than the root is never one of its own ancestors.
proof fn lemma_key_not_own_ancestor(k: Seq<char>)
    requires
        k != root_key(),
    ensures
        !ancestors(k).contains(k),
{
    lemma_trimmed_len(k);
    if ancestors(k).contains(k) {
        if !(trimmed_len(k) == 0 && k == root_key()) {
            let q = choose|q: int|
                0 <= q < trimmed_len(k) && is_ancestor_slash(k, q) && k == ancestor_at(k, q);
            assert(q != trimmed_len(k) - 1);
            assert(k.take(q + 1).len() == q + 1);
        }
    }
}

/// The in-memory store of LDP resources, keyed by normalised path.
#[derive(Debug)]
pub struct LdpStore {
    slots: Vec<Slot>,
}

impl LdpStore {
    #[verifier::type_invariant]
    spec fn inv(self) -> bool {
        slots_distinct(self.slots@)
    }
}

impl View for LdpStore {
    type V = Map<Seq<char>, EntryView>;

    closed spec fn view(&self) -> Map<Seq<char>, EntryView> {
        slots_map(self.slots@)
    }
}

impl Default for LdpStore {
    /// The same as [`LdpStore::new`]: the root container always exists.
    fn default() -> (s: Self)
        ensures
            s@ == map![root_key() => container_entry()],
    {
        LdpStore::new()
    }
}

impl LdpStore {
    /// Create a new store pre-seeded with the root container `/`.
    pub fn new() -> (s: Self)
        ensures
            s@ == map![root_key() => container_entry()],
    {
        let mut slots: Vec<Slot> = Vec::new();
        let root = String::from_str("/");
        proof {
            reveal_strlit("/");
            assert(root@ =~= root_key());
            assert(slots_map(slots@) =~= Map::<Seq<char>, EntryView>::empty());
        }
        add_container(&mut slots, root);
        let s = LdpStore { slots };
        assert(s@ =~= map![root_key() => container_entry()]);
        s
    }

    /// Normalise a URL path key (always starts with `/`).
    fn key(path: &str) -> (k: String)
        ensures
            k@ == normalize_key(path@),
    {
        if starts_with_slash(path) {
            path.to_owned()
        } else {
            let mut k = String::from_str("/");
            proof {
                reveal_strlit("/");
            }
            k.append(path);
            k
        }
    }

    /// Retrieve a resource.
    pub fn get(&self, path: &str) -> (r: Option<Entry>)
        ensures
            match r {
                Some(e) => self@.contains_key(normalize_key(path@)) && e@ == self@[normalize_key(
                    path@,
                )],
                None => !self@.contains_key(normalize_key(path@)),
            },
    {
        proof {
            use_type_invariant(self);
        }
        let k = Self::key(path);
        match find_slot(&self.slots, &k) {
            Some(i) => {
                proof {
                    lemma_slots_lookup(self.slots@, i as int);
                }
                Some(self.slots[i].entry.clone())
            },
            None => None,
        }
    }

    /// Check existence without cloning the body.
    pub fn contains(&self, path: &str) -> (found: bool)
        ensures
            found == self@.contains_key(normalize_key(path@)),
    {
        proof {
            use_type_invariant(self);
        }
        let k = Self::key(path);
        match find_slot(&self.slots, &k) {
            Some(i) => {
                proof {
                    lemma_slots_lookup(self.slots@, i as int);
                }
                true
            },
            None => false,
        }
    }

    /// Store a resource.  Returns `true` if this was a create (did not exist).
    /// Auto-creates every ancestor container.
    pub fn put(&mut self, path: &str, body: Vec<u8>, content_type: String) -> (created: bool)
        ensures
            final(self)@ == after_put(old(self)@, path@, body@, content_type@),
            created == !old(self)@.contains_key(normalize_key(path@)),
    {
        proof {
            use_type_invariant(&*self);
        }
        let k = Self::key(path);
        let is_container = ends_with_slash(k.as_str());
        let created = find_slot(&self.slots, &k).is_none();
        let mut slots: Vec<Slot> = Vec::new();
        std::mem::swap(&mut slots, &mut self.slots);
        ensure_ancestors(&mut slots, &k);
        let entry = Entry { body, content_type, is_container };
        set_slot(&mut slots, k, entry);
        self.slots = slots;
        created
    }

    /// Delete a resource.  Returns `true` if the resource existed.
    /// The root container is never deleted: deleting it changes nothing and
    /// returns `false`.
    pub fn delete(&mut self, path: &str) -> (removed: bool)
        ensures
            final(self)@ == after_delete(old(self)@, path@),
            removed == (normalize_key(path@) != root_key() && old(self)@.contains_key(
                normalize_key(path@),
            )),
    {
        proof {
            use_type_invariant(&*self);
        }
        let k = Self::key(path);
        let root = String::from_str("/");
        proof {
            reveal_strlit("/");
            assert(root@ =~= root_key());
        }
        if k == root {
            return false;
        }
        let mut slots: Vec<Slot> = Vec::new();
        std::mem::swap(&mut slots, &mut self.slots);
        let removed = match find_slot(&slots, &k) {
            Some(i) => {
                proof {
                    lemma_slots_remove(slots@, i as int);
                    lemma_slots_lookup(slots@, i as int);
                }
                slots.remove(i);
                true
            },
            None => {
                assert(slots_map(slots@).remove(k@) =~= slots_map(slots@));
                false
            },
        };
        self.slots = slots;
        removed
    }

    /// Whether `path` addresses a container, that is whether its key ends
    /// with `/`.
    pub fn is_container(&self, path: &str) -> (b: bool)
        ensures
            b == is_container_key(normalize_key(path@)),
    {
        let k = Self::key(path);
        ends_with_slash(k.as_str())
    }
}

// ── laws ─────────────────────────────────────────────────────────────────
/// Every key starts with `/`, and normalising a key changes nothing.
pub proof fn law_keys_are_normal(path: Seq<char>)
    ensures
        normalize_key(normalize_key(path)) == normalize_key(path),
        normalize_key(path).len() > 0,
        normalize_key(path)[0] == '/',
{
}

/// A request path without a leading `/` addresses the same resource as the
/// path with one.
pub proof fn law_leading_slash_optional(path: Seq<char>)
    requires
        !(path.len() > 0 && path[0] == '/'),
    ensures
        normalize_key(seq!['/'] + path) == normalize_key(path),
{
    assert((seq!['/'] + path)[0] == '/');
}

/// A read after a write at a path gives back what was written, marked as a
/// container exactly when the path ends with `/`.
pub proof fn law_get_after_put(
    m: Map<Seq<char>, EntryView>,
    path: Seq<char>,
    body: Seq<u8>,
    content_type: Seq<char>,
)
    ensures
        after_put(m, path, body, content_type).contains_key(normalize_key(path)),
        after_put(m, path, body, content_type)[normalize_key(path)] == (EntryView {
            body,
            content_type,
            is_container: is_container_key(normalize_key(path)),
        }),
{
}

/// Writing a resource leaves every other stored resource as it was.
pub proof fn law_put_keeps_others(
    m: Map<Seq<char>, EntryView>,
    path: Seq<char>,
    body: Seq<u8>,
    content_type: Seq<char>,
    other: Seq<char>,
)
    requires
        m.contains_key(other),
        other != normalize_key(path),
    ensures
        after_put(m, path, body, content_type).contains_key(other),
        after_put(m, path, body, content_type)[other] == m[other],
{
}

/// After a write, every ancestor container of the written path exists; the
/// ones that did not exist before are empty `text/turtle` containers.
pub proof fn law_put_creates_ancestors(
    m: Map<Seq<char>, EntryView>,
    path: Seq<char>,
    body: Seq<u8>,
    content_type: Seq<char>,
    a: Seq<char>,
)
    requires
        ancestors(normalize_key(path)).contains(a),
    ensures
        after_put(m, path, body, content_type).contains_key(a),
        !m.contains_key(a) && a != normalize_key(path) ==> after_put(m, path, body, content_type)[a]
            == container_entry(),
{
}

/// The ancestors of a path are containers whose keys begin the path's key,
/// the root among them; the key itself is one only when it is the root.
pub proof fn law_ancestors_enclose(path: Seq<char>, a: Seq<char>)
    ensures
        ancestors(normalize_key(path)).contains(root_key()),
        ancestors(normalize_key(path)).contains(a) ==> {
            &&& is_container_key(a)
            &&& a.len() <= normalize_key(path).len()
            &&& normalize_key(path).take(a.len() as int) == a
        },
        normalize_key(path) != root_key() ==> !ancestors(normalize_key(path)).contains(
            normalize_key(path),
        ),
{
    let k = normalize_key(path);
    law_keys_are_normal(path);
    lemma_trimmed_len(k);
    if trimmed_len(k) > 0 {
        assert(is_ancestor_slash(k, 0)) by {
            assert(k.take(0) =~= Seq::<char>::empty());
        }
        assert(k.take(1) =~= root_key());
        assert(ancestor_at(k, 0) == root_key());
    }
    if ancestors(k).contains(a) {
        if trimmed_len(k) == 0 && a == root_key() {
            assert(k.take(1) =~= root_key());
        } else {
            let q = choose|q: int|
                0 <= q < trimmed_len(k) && is_ancestor_slash(k, q) && a == ancestor_at(k, q);
            if k.take(q + 1) == seq!['/', '/'] {
                assert(k.take(1) =~= root_key());
            } else {
                assert(k.take(q + 1).take(q + 1) =~= k.take(q + 1));
            }
        }
    }
    if k != root_key() {
        lemma_key_not_own_ancestor(k);
    }
}

/// The root container exists after every write, whatever was deleted
/// before.
pub proof fn law_root_after_put(
    m: Map<Seq<char>, EntryView>,
    path: Seq<char>,
    body: Seq<u8>,
    content_type: Seq<char>,
)
    ensures
        after_put(m, path, body, content_type).contains_key(root_key()),
{
    law_ancestors_enclose(path, root_key());
}

/// Writing a path a second time reports no creation, and what was written
/// last is what is stored.
pub proof fn law_put_twice(
    m: Map<Seq<char>, EntryView>,
    path: Seq<char>,
    body1: Seq<u8>,
    content_type1: Seq<char>,
    body2: Seq<u8>,
    content_type2: Seq<char>,
)
    ensures
        after_put(m, path, body1, content_type1).contains_key(normalize_key(path)),
        after_put(after_put(m, path, body1, content_type1), path, body2, content_type2)[normalize_key(
            path,
        )] == (EntryView {
            body: body2,
            content_type: content_type2,
            is_container: is_container_key(normalize_key(path)),
        }),
{
}

/// Deleting a resource that was just written removes it, unless it is the
/// root, and keeps its ancestor containers.
pub proof fn law_delete_after_put(
    m: Map<Seq<char>, EntryView>,
    path: Seq<char>,
    body: Seq<u8>,
    content_type: Seq<char>,
    a: Seq<char>,
)
    ensures
        after_put(m, path, body, content_type).contains_key(normalize_key(path)),
        normalize_key(path) != root_key() ==> !after_delete(
            after_put(m, path, body, content_type),
            path,
        ).contains_key(normalize_key(path)),
        ancestors(normalize_key(path)).contains(a) && a != normalize_key(path) ==> after_delete(
            after_put(m, path, body, content_type),
            path,
        ).contains_key(a),
{
}

/// Making sure of the ancestors of a key a second time changes nothing.
pub proof fn law_ancestors_idempotent(m: Map<Seq<char>, EntryView>, key: Seq<char>)
    ensures
        with_containers(with_containers(m, ancestors(key)), ancestors(key)) == with_containers(
            m,
            ancestors(key),
        ),
{
    assert(with_containers(with_containers(m, ancestors(key)), ancestors(key)) =~= with_containers(
        m,
        ancestors(key),
    ));
}

/// One mutation of a store.
pub enum StoreOp {
    Put { path: Seq<char>, body: Seq<u8>, content_type: Seq<char> },
    Delete { path: Seq<char> },
}

/// The store contents after `op` from `m`.
pub open spec fn apply_op(m: Map<Seq<char>, EntryView>, op: StoreOp) -> Map<Seq<char>, EntryView> {
    match op {
        StoreOp::Put { path, body, content_type } => after_put(m, path, body, content_type),
        StoreOp::Delete { path } => after_delete(m, path),
    }
}

/// The store contents after the mutations `ops`, in order, from `m`.
pub open spec fn apply_ops(m: Map<Seq<char>, EntryView>, ops: Seq<StoreOp>) -> Map<
    Seq<char>,
    EntryView,
>
    decreases ops.len(),
{
    if ops.len() == 0 {
        m
    } else {
        apply_ops(apply_op(m, ops[0]), ops.drop_first())
    }
}

proof fn lemma_op_keeps_root(m: Map<Seq<char>, EntryView>, op: StoreOp)
    requires
        m.contains_key(root_key()),
        m[root_key()].is_container,
    ensures
        apply_op(m, op).contains_key(root_key()),
        apply_op(m, op)[root_key()].is_container,
{
    match op {
        StoreOp::Put { path, body, content_type } => {
            law_keys_are_normal(path);
            if normalize_key(path) == root_key() {
                assert(is_container_key(root_key()));
            }
        },
        StoreOp::Delete { path } => {},
    }
}

proof fn lemma_ops_keep_root(m: Map<Seq<char>, EntryView>, ops: Seq<StoreOp>)
    requires
        m.contains_key(root_key()),
        m[root_key()].is_container,
    ensures
        apply_ops(m, ops).contains_key(root_key()),
        apply_ops(m, ops)[root_key()].is_container,
    decreases ops.len(),
{
    if ops.len() > 0 {
        lemma_op_keeps_root(m, ops[0]);
        lemma_ops_keep_root(apply_op(m, ops[0]), ops.drop_first());
    }
}

/// Every store reached from a new store by writes and deletes holds the
/// root container.
pub proof fn law_root_always_held(ops: Seq<StoreOp>)
    ensures
        apply_ops(map![root_key() => container_entry()], ops).contains_key(root_key()),
        apply_ops(map![root_key() => container_entry()], ops)[root_key()].is_container,
{
    lemma_ops_keep_root(map![root_key() => container_entry()], ops);
}

proof fn lemma_non_slash_before_trim(k: Seq<char>, r: int)
    requires
        0 <= r < k.len(),
        k[r] != '/',
    ensures
        r < trimmed_len(k),
    decreases k.len(),
{
    if k.last() == '/' {
        lemma_non_slash_before_trim(k.drop_last(), r);
    }
}

/// Writing a resource creates every container that its key passes through:
/// for each `/` of the key that some other character follows, the prefix
/// ending at that `/` exists afterwards (with `//` standing for the root),
/// whatever characters the key holds; one that did not exist is an empty
/// `text/turtle` container.
pub proof fn law_every_enclosing_container_exists(
    m: Map<Seq<char>, EntryView>,
    path: Seq<char>,
    body: Seq<u8>,
    content_type: Seq<char>,
    q: int,
    r: int,
)
    requires
        0 <= q < r < normalize_key(path).len(),
        normalize_key(path)[q] == '/',
        normalize_key(path)[r] != '/',
    ensures
        ({
            let k = normalize_key(path);
            let c = if k.take(q + 1) == seq!['/', '/'] {
                seq!['/']
            } else {
                k.take(q + 1)
            };
            &&& after_put(m, path, body, content_type).contains_key(c)
            &&& !m.contains_key(c) ==> after_put(m, path, body, content_type)[c] == (EntryView {
                body: Seq::empty(),
                content_type: "text/turtle"@,
                is_container: true,
            })
        }),
{
    let k = normalize_key(path);
    lemma_non_slash_before_trim(k, r);
    assert(is_ancestor_slash(k, q));
    assert(ancestors(k).contains(ancestor_at(k, q)));
    let c = ancestor_at(k, q);
    assert(c.len() < k.len()) by {
        if k.take(q + 1) != seq!['/', '/'] {
            assert(k.take(q + 1).len() == q + 1);
        }
    }
}

/// A written resource is a container exactly when its key ends with `/`.
pub proof fn law_written_container_flag(
    m: Map<Seq<char>, EntryView>,
    path: Seq<char>,
    body: Seq<u8>,
    content_type: Seq<char>,
)
    ensures
        after_put(m, path, body, content_type)[normalize_key(path)].is_container <==> normalize_key(
            path,
        )[normalize_key(path).len() - 1] == '/',
        path.len() > 0 && path[0] == '/' ==> normalize_key(path) == path,
{
    law_keys_are_normal(path);
}

} // verus!
