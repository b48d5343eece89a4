//! The namespace registry: a deduplicating table from prefix to id and URI.

use vstd::prelude::*;

verus! {

/// The number of distinct prefixes a registry can hold.
pub const MAX_NAMESPACES: usize = 65536;

/// What the registry holds, one `(prefix, uri)` per id.
pub type RegistryView = Seq<(Seq<char>, Seq<char>)>;

/// No prefix occurs twice.
pub open spec fn prefixes_unique(s: RegistryView) -> bool {
    forall|i: int, j: int|
        0 <= i < s.len() && 0 <= j < s.len() && i != j ==> #[trigger] s[i].0 != #[trigger] s[j].0
}

/// Entry `k` holds prefix `p`.
pub open spec fn prefix_at(s: RegistryView, p: Seq<char>, k: int) -> bool {
    0 <= k < s.len() && s[k].0 == p
}

/// Some entry holds prefix `p`.
pub open spec fn knows_prefix(s: RegistryView, p: Seq<char>) -> bool {
    exists|k: int| prefix_at(s, p, k)
}

/// The id of prefix `p`, when it is registered.
pub open spec fn id_of(s: RegistryView, p: Seq<char>) -> Option<u16> {
    if knows_prefix(s, p) {
        Some((choose|k: int| prefix_at(s, p, k)) as u16)
    } else {
        None
    }
}

/// The registry after registering `p` with `u`, and the id handed back:
/// a known prefix keeps its id and its first URI; a new one gets the next id
/// unless the registry is full.
pub open spec fn register_result(s: RegistryView, p: Seq<char>, u: Seq<char>) -> (
    RegistryView,
    Option<u16>,
) {
    if knows_prefix(s, p) {
        (s, id_of(s, p))
    } else if s.len() < MAX_NAMESPACES {
        (s.push((p, u)), Some(s.len() as u16))
    } else {
        (s, None)
    }
}

/// Registering a prefix a second time, with any URI, changes nothing and
/// hands back the same id as the first time.
pub proof fn law_register_is_idempotent(s: RegistryView, p: Seq<char>, u1: Seq<char>, u2: Seq<char>)
    requires
        s.len() <= MAX_NAMESPACES,
        prefixes_unique(s),
    ensures
        ({
            let (s1, a) = register_result(s, p, u1);
            let (s2, b) = register_result(s1, p, u2);
            a == b && s2 == s1
        }),
{
    if !knows_prefix(s, p) && s.len() < MAX_NAMESPACES {
        let s1 = s.push((p, u1));
        let n = s.len() as int;
        assert(prefix_at(s1, p, n));
        let k = choose|k: int| prefix_at(s1, p, k);
        if k != n {
            assert(prefix_at(s, p, k));
        }
    }
}

/// Prefixes with ids given in first-seen order; ids stay stable.
pub struct Namespaces {
    entries: Vec<(String, String)>,
}

impl View for Namespaces {
    type V = RegistryView;

    closed spec fn view(&self) -> RegistryView {
        self.entries@.map_values(|e: (String, String)| (e.0@, e.1@))
    }
}

impl Namespaces {
    pub open spec fn wf(&self) -> bool {
        &&& self@.len() <= MAX_NAMESPACES
        &&& prefixes_unique(self@)
    }

    pub fn new() -> (r: Namespaces)
        ensures
            r.wf(),
            r@ == Seq::<(Seq<char>, Seq<char>)>::empty(),
    {
        let r = Namespaces { entries: Vec::new() };
        assert(r@ =~= Seq::<(Seq<char>, Seq<char>)>::empty());
        r
    }

    pub fn len(&self) -> (r: usize)
        ensures
            r == self@.len(),
    {
        self.entries.len()
    }

    /// The id registered for `prefix`, if any.
    pub fn lookup(&self, prefix: &str) -> (r: Option<u16>)
        requires
            self.wf(),
        ensures
            match r {
                Some(k) => prefix_at(self@, prefix@, k as int),
                None => !knows_prefix(self@, prefix@),
            },
            r == id_of(self@, prefix@),
    {
        let p = prefix.to_owned();
        let mut i: usize = 0;
        while i < self.entries.len()
            invariant
                self.wf(),
                i <= self.entries@.len(),
                p@ == prefix@,
                forall|k: int| 0 <= k < i ==> #[trigger] self@[k].0 != prefix@,
            decreases self.entries@.len() - i,
        {
            if self.entries[i].0 == p {
                assert(prefix_at(self@, prefix@, i as int));
                let ghost c = choose|k: int| prefix_at(self@, prefix@, k);
                assert(c == i as int);
                return Some(i as u16);
            }
            assert(self@[i as int].0 != prefix@);
            i += 1;
        }
        None
    }

    /// Registers `prefix` with `uri`. A known prefix keeps its id and its
    /// first URI; a new one gets the next id, unless the registry is full.
    pub fn register(&mut self, prefix: String, uri: String) -> (r: Option<u16>)
        requires
            old(self).wf(),
        ensures
            final(self).wf(),
            (final(self)@, r) == register_result(old(self)@, prefix@, uri@),
            knows_prefix(old(self)@, prefix@) ==> final(self)@ == old(self)@ && r == id_of(
                old(self)@,
                prefix@,
            ) && prefix_at(old(self)@, prefix@, r->0 as int),
            !knows_prefix(old(self)@, prefix@) && old(self)@.len() < MAX_NAMESPACES ==> r == Some(
                old(self)@.len() as u16,
            ) && final(self)@ == old(self)@.push((prefix@, uri@)),
            !knows_prefix(old(self)@, prefix@) && old(self)@.len() >= MAX_NAMESPACES ==> r is None
                && final(self)@ == old(self)@,
    {
        if let Some(k) = self.lookup(prefix.as_str()) {
            return Some(k);
        }
        let id = self.entries.len();
        if id >= MAX_NAMESPACES {
            return None;
        }
        let ghost before = self@;
        self.entries.push((prefix, uri));
        assert(self@ =~= before.push((prefix@, uri@)));
        assert(prefixes_unique(self@)) by {
            assert forall|i: int, j: int|
                0 <= i < self@.len() && 0 <= j < self@.len() && i != j implies #[trigger] self@[i].0
                != #[trigger] self@[j].0 by {
                if i == id as int {
                    assert(!prefix_at(before, prefix@, j));
                } else if j == id as int {
                    assert(!prefix_at(before, prefix@, i));
                }
            }
        }
        Some(id as u16)
    }

    /// The `(prefix, uri)` pair registered under `id`.
    pub fn get(&self, id: u16) -> (r: Option<(&str, &str)>)
        ensures
            r is Some <==> (id as int) < self@.len(),
            r matches Some(pair) ==> pair.0@ == self@[id as int].0 && pair.1@ == self@[id as int].1,
    {
        let i = id as usize;
        if i < self.entries.len() {
            let e = &self.entries[i];
            Some((e.0.as_str(), e.1.as_str()))
        } else {
            None
        }
    }
}

} // verus!
