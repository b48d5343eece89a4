//! The attributes of a tag, keyed by local name.

use vstd::prelude::*;
use vstd::utf8::{decode_utf8, encode_utf8, encode_utf8_decode_utf8};

verus! {

/// One attribute value with the namespace it was resolved to.
pub struct XAttribute {
    pub namespace: Option<u16>,
    pub value: String,
}

pub type AttributeView = (Option<u16>, Seq<char>);

impl View for XAttribute {
    type V = AttributeView;

    open spec fn view(&self) -> AttributeView {
        (self.namespace, self.value@)
    }
}

pub type AttributesView = Seq<(Seq<char>, AttributeView)>;

/// Byte-wise lexicographic order: the order of `str`.
pub open spec fn bytes_less(a: Seq<u8>, b: Seq<u8>) -> bool
    decreases a.len(),
{
    if a.len() == 0 || b.len() == 0 {
        a.len() == 0 && b.len() > 0
    } else if a[0] != b[0] {
        a[0] < b[0]
    } else {
        bytes_less(a.drop_first(), b.drop_first())
    }
}

/// Names ordered by their UTF-8 bytes.
pub open spec fn name_less(a: Seq<char>, b: Seq<char>) -> bool {
    bytes_less(encode_utf8(a), encode_utf8(b))
}

/// Entries in strictly increasing order of name.
pub open spec fn sorted_by_name(s: AttributesView) -> bool {
    forall|i: int, j: int| 0 <= i < j < s.len() ==> name_less(#[trigger] s[i].0, #[trigger] s[j].0)
}

pub proof fn lemma_less_irreflexive(a: Seq<u8>)
    ensures
        !bytes_less(a, a),
    decreases a.len(),
{
    if a.len() > 0 {
        lemma_less_irreflexive(a.drop_first());
    }
}

pub proof fn lemma_less_asymmetric(a: Seq<u8>, b: Seq<u8>)
    requires
        bytes_less(a, b),
    ensures
        !bytes_less(b, a),
    decreases a.len(),
{
    if a.len() > 0 && b.len() > 0 && a[0] == b[0] {
        lemma_less_asymmetric(a.drop_first(), b.drop_first());
    }
}

pub proof fn lemma_less_transitive(a: Seq<u8>, b: Seq<u8>, c: Seq<u8>)
    requires
        bytes_less(a, b),
        bytes_less(b, c),
    ensures
        bytes_less(a, c),
    decreases a.len(),
{
    if a.len() > 0 && b.len() > 0 && c.len() > 0 && a[0] == b[0] && b[0] == c[0] {
        lemma_less_transitive(a.drop_first(), b.drop_first(), c.drop_first());
    }
}

pub proof fn lemma_less_total(a: Seq<u8>, b: Seq<u8>)
    requires
        a != b,
    ensures
        bytes_less(a, b) || bytes_less(b, a),
    decreases a.len(),
{
    if a.len() > 0 && b.len() > 0 && a[0] == b[0] {
        if a.drop_first() == b.drop_first() {
            assert(a =~= seq![a[0]] + a.drop_first());
            assert(b =~= seq![b[0]] + b.drop_first());
        }
        lemma_less_total(a.drop_first(), b.drop_first());
    } else if a.len() == 0 && b.len() == 0 {
        assert(a =~= b);
    }
}

pub proof fn lemma_less_after_common(a: Seq<u8>, b: Seq<u8>, i: int)
    requires
        0 <= i <= a.len(),
        i <= b.len(),
        a.take(i) == b.take(i),
    ensures
        bytes_less(a, b) == bytes_less(a.skip(i), b.skip(i)),
    decreases i,
{
    if i > 0 {
        assert(a[0] == a.take(i)[0]);
        assert(b[0] == b.take(i)[0]);
        assert(a.drop_first().take(i - 1) =~= a.take(i).drop_first());
        assert(b.drop_first().take(i - 1) =~= b.take(i).drop_first());
        lemma_less_after_common(a.drop_first(), b.drop_first(), i - 1);
        assert(a.drop_first().skip(i - 1) =~= a.skip(i));
        assert(b.drop_first().skip(i - 1) =~= b.skip(i));
    } else {
        assert(a.skip(0) =~= a);
        assert(b.skip(0) =~= b);
    }
}

pub proof fn lemma_names_distinct(a: Seq<char>, b: Seq<char>)
    requires
        name_less(a, b),
    ensures
        a != b,
{
    lemma_less_irreflexive(encode_utf8(a));
}

/// Compares two byte strings: -1, 0 or 1 as `a` is below, equal to or
/// above `b`.
fn compare_bytes(a: &[u8], b: &[u8]) -> (r: i8)
    ensures
        r == -1 <==> bytes_less(a@, b@),
        r == 0 <==> a@ == b@,
        r == 1 <==> bytes_less(b@, a@),
        r == -1 || r == 0 || r == 1,
{
    let mut i: usize = 0;
    while i < a.len() && i < b.len()
        invariant
            i <= a@.len(),
            i <= b@.len(),
            a@.take(i as int) == b@.take(i as int),
        decreases a@.len() - i,
    {
        if a[i] != b[i] {
            proof {
                lemma_less_after_common(a@, b@, i as int);
                lemma_less_after_common(b@, a@, i as int);
                assert(a@.skip(i as int)[0] == a@[i as int]);
                assert(b@.skip(i as int)[0] == b@[i as int]);
                assert(a@[i as int] != b@[i as int]);
            }
            if a[i] < b[i] {
                return -1;
            } else {
                return 1;
            }
        }
        assert(a@.take(i + 1) =~= a@.take(i as int).push(a@[i as int]));
        assert(b@.take(i + 1) =~= b@.take(i as int).push(b@[i as int]));
        i += 1;
    }
    proof {
        lemma_less_after_common(a@, b@, i as int);
        lemma_less_after_common(b@, a@, i as int);
    }
    if a.len() == b.len() {
        assert(a@ =~= a@.take(i as int));
        assert(b@ =~= b@.take(i as int));
        proof {
            lemma_less_irreflexive(a@);
        }
        0
    } else if a.len() < b.len() {
        assert(a@.skip(i as int).len() == 0);
        assert(a@ != b@);
        -1
    } else {
        assert(b@.skip(i as int).len() == 0);
        assert(a@ != b@);
        1
    }
}

pub proof fn lemma_sorted_unique(s: AttributesView)
    requires
        sorted_by_name(s),
    ensures
        names_unique(s),
{
    assert forall|i: int, j: int|
        0 <= i < s.len() && 0 <= j < s.len() && i != j implies #[trigger] s[i].0 != #[trigger] s[j].0 by {
        if i < j {
            lemma_names_distinct(s[i].0, s[j].0);
        } else {
            lemma_names_distinct(s[j].0, s[i].0);
        }
    }
}

/// No local name occurs twice.
pub open spec fn names_unique(s: AttributesView) -> bool {
    forall|i: int, j: int|
        0 <= i < s.len() && 0 <= j < s.len() && i != j ==> #[trigger] s[i].0 != #[trigger] s[j].0
}

/// Some entry has local name `name`.
pub open spec fn has_name(s: AttributesView, name: Seq<char>) -> bool {
    exists|k: int| 0 <= k < s.len() && #[trigger] s[k].0 == name
}

/// What the entries say, as a map from local name to attribute.
pub open spec fn attr_map(s: AttributesView) -> Map<Seq<char>, AttributeView> {
    Map::new(
        |k: Seq<char>| has_name(s, k),
        |k: Seq<char>| s[choose|i: int| 0 <= i < s.len() && #[trigger] s[i].0 == k].1,
    )
}

pub proof fn lemma_attr_map_value(s: AttributesView, i: int)
    requires
        names_unique(s),
        0 <= i < s.len(),
    ensures
        attr_map(s).contains_key(s[i].0),
        attr_map(s)[s[i].0] == s[i].1,
{
    let k = s[i].0;
    assert(has_name(s, k));
    let j = choose|j: int| 0 <= j < s.len() && #[trigger] s[j].0 == k;
    assert(j == i);
}

/// A mapping from local name to attribute; a later value for a name
/// replaces the earlier one.
pub struct Attributes {
    entries: Vec<(String, XAttribute)>,
}

impl View for Attributes {
    type V = AttributesView;

    closed spec fn view(&self) -> AttributesView {
        self.entries@.map_values(|e: (String, XAttribute)| (e.0@, e.1@))
    }
}

impl Attributes {
    pub open spec fn wf(&self) -> bool {
        &&& names_unique(self@)
        &&& sorted_by_name(self@)
    }

    pub fn new() -> (r: Attributes)
        ensures
            r.wf(),
            r@.len() == 0,
            attr_map(r@) == Map::<Seq<char>, AttributeView>::empty(),
    {
        let r = Attributes { entries: Vec::new() };
        assert(attr_map(r@) =~= Map::<Seq<char>, AttributeView>::empty());
        r
    }

    pub fn len(&self) -> (r: usize)
        ensures
            r == self@.len(),
    {
        self.entries.len()
    }

    pub fn is_empty(&self) -> (r: bool)
        ensures
            r == (self@.len() == 0),
    {
        self.entries.len() == 0
    }

    /// Position of the entry named `name`.
    fn position(&self, name: &String) -> (r: Option<usize>)
        requires
            self.wf(),
        ensures
            match r {
                Some(k) => k < self@.len() && self@[k as int].0 == name@,
                None => !has_name(self@, name@),
            },
    {
        let mut i: usize = 0;
        while i < self.entries.len()
            invariant
                i <= self.entries@.len(),
                forall|k: int| 0 <= k < i ==> #[trigger] self@[k].0 != name@,
            decreases self.entries@.len() - i,
        {
            if self.entries[i].0 == *name {
                return Some(i);
            }
            i += 1;
        }
        None
    }

    /// Where `name` is, or where it belongs: every entry before the position
    /// has a smaller name.
    fn locate(&self, name: &String) -> (r: (usize, bool))
        requires
            self.wf(),
        ensures
            r.0 <= self@.len(),
            forall|k: int| 0 <= k < r.0 ==> name_less(#[trigger] self@[k].0, name@),
            r.1 ==> r.0 < self@.len() && self@[r.0 as int].0 == name@,
            !r.1 ==> r.0 == self@.len() || name_less(name@, self@[r.0 as int].0),
    {
        let key = name.as_str().as_bytes();
        let mut i: usize = 0;
        while i < self.entries.len()
            invariant
                i <= self@.len(),
                key@ == encode_utf8(name@),
                forall|k: int| 0 <= k < i ==> name_less(#[trigger] self@[k].0, name@),
            decreases self@.len() - i,
        {
            let c = compare_bytes(self.entries[i].0.as_str().as_bytes(), key);
            if c == 0 {
                proof {
                    encode_utf8_decode_utf8(self@[i as int].0);
                    encode_utf8_decode_utf8(name@);
                }
                return (i, true);
            }
            if c == 1 {
                return (i, false);
            }
            i += 1;
        }
        (i, false)
    }

    /// Sets the attribute `name`, replacing any earlier value of it; a new
    /// name takes its place in name order.
    pub fn insert(&mut self, name: String, attr: XAttribute)
        requires
            old(self).wf(),
        ensures
            final(self).wf(),
            forall|e: (Seq<char>, AttributeView)| #[trigger]
                final(self)@.contains(e) <==> (e == (name@, attr@) || (e.0 != name@ && old(
                    self,
                )@.contains(e))),
            attr_map(final(self)@) == attr_map(old(self)@).insert(name@, attr@),
    {
        let ghost before = self@;
        let ghost entry = (name@, attr@);
        let ghost v = attr@;
        let (k, found) = self.locate(&name);
        if found {
            self.entries.set(k, (name, attr));
            assert(self@ =~= before.update(k as int, entry));
            assert forall|e: (Seq<char>, AttributeView)| #[trigger]
                self@.contains(e) <==> (e == entry || (e.0 != entry.0 && before.contains(e))) by {
                if self@.contains(e) {
                    let j = choose|j: int| 0 <= j < self@.len() && self@[j] == e;
                    if j != k {
                        assert(before[j] == e);
                    }
                }
                if e.0 != entry.0 && before.contains(e) {
                    let j = choose|j: int| 0 <= j < before.len() && before[j] == e;
                    assert(self@[j] == e);
                }
                if e == entry {
                    assert(self@[k as int] == e);
                }
            }
            assert forall|i: int, j: int| 0 <= i < j < self@.len() implies name_less(
                #[trigger] self@[i].0,
                #[trigger] self@[j].0,
            ) by {
                assert(self@[i].0 == before[i].0);
                assert(self@[j].0 == before[j].0);
            }
        } else {
            proof {
                assert forall|j: int| 0 <= j < before.len() implies #[trigger] before[j].0 != name@ by {
                    if j < k {
                        lemma_names_distinct(before[j].0, name@);
                    } else {
                        if j > k {
                            lemma_less_transitive(
                                encode_utf8(name@),
                                encode_utf8(before[k as int].0),
                                encode_utf8(before[j].0),
                            );
                        }
                        lemma_names_distinct(name@, before[j].0);
                    }
                }
            }
            self.entries.insert(k, (name, attr));
            assert(self@ =~= before.insert(k as int, entry));
            assert forall|e: (Seq<char>, AttributeView)| #[trigger]
                self@.contains(e) <==> (e == entry || (e.0 != entry.0 && before.contains(e))) by {
                if self@.contains(e) {
                    let j = choose|j: int| 0 <= j < self@.len() && self@[j] == e;
                    if j < k {
                        assert(before[j] == e);
                    } else if j > k {
                        assert(before[j - 1] == e);
                    }
                }
                if before.contains(e) {
                    let j = choose|j: int| 0 <= j < before.len() && before[j] == e;
                    if j < k {
                        assert(self@[j] == e);
                    } else {
                        assert(self@[j + 1] == e);
                    }
                }
                if e == entry {
                    assert(self@[k as int] == e);
                }
            }
            assert forall|i: int, j: int| 0 <= i < j < self@.len() implies name_less(
                #[trigger] self@[i].0,
                #[trigger] self@[j].0,
            ) by {
                let ki = k as int;
                if j < ki {
                } else if j == ki {
                } else if i < ki {
                    lemma_less_transitive(
                        encode_utf8(before[i].0),
                        encode_utf8(name@),
                        encode_utf8(before[ki].0),
                    );
                    if j - 1 > ki {
                        lemma_less_transitive(
                            encode_utf8(before[i].0),
                            encode_utf8(before[ki].0),
                            encode_utf8(before[j - 1].0),
                        );
                    }
                } else if i == ki {
                    if j - 1 > ki {
                        lemma_less_transitive(
                            encode_utf8(name@),
                            encode_utf8(before[ki].0),
                            encode_utf8(before[j - 1].0),
                        );
                    }
                } else {
                    assert(self@[i].0 == before[i - 1].0);
                    assert(self@[j].0 == before[j - 1].0);
                }
            }
        }
        proof {
            lemma_sorted_unique(self@);
            Self::lemma_map_after(before, self@, entry.0, v);
        }
    }

    proof fn lemma_map_after(before: AttributesView, after: AttributesView, name: Seq<char>, v: AttributeView)
        requires
            names_unique(before),
            names_unique(after),
            forall|e: (Seq<char>, AttributeView)| #[trigger]
                after.contains(e) <==> (e == (name, v) || (e.0 != name && before.contains(e))),
        ensures
            attr_map(after) == attr_map(before).insert(name, v),
    {
        let m = attr_map(before).insert(name, v);
        assert forall|k: Seq<char>| #[trigger] attr_map(after).contains_key(k) <==> m.contains_key(k) by {
            if has_name(after, k) {
                let i = choose|i: int| 0 <= i < after.len() && #[trigger] after[i].0 == k;
                assert(after.contains(after[i]));
                if k != name {
                    let j = choose|j: int| 0 <= j < before.len() && before[j] == after[i];
                    assert(before[j].0 == k);
                }
            }
            if k == name {
                assert(after.contains((name, v)));
                let i = choose|i: int| 0 <= i < after.len() && after[i] == (name, v);
                assert(after[i].0 == k);
            } else if has_name(before, k) {
                let j = choose|j: int| 0 <= j < before.len() && #[trigger] before[j].0 == k;
                assert(before.contains(before[j]));
                assert(after.contains(before[j]));
                let i = choose|i: int| 0 <= i < after.len() && after[i] == before[j];
                assert(after[i].0 == k);
            }
        }
        assert forall|k: Seq<char>| #[trigger] attr_map(after).contains_key(k) implies attr_map(after)[k]
            == m[k] by {
            let i = choose|i: int| 0 <= i < after.len() && #[trigger] after[i].0 == k;
            lemma_attr_map_value(after, i);
            assert(after.contains(after[i]));
            if k != name {
                let j = choose|j: int| 0 <= j < before.len() && before[j] == after[i];
                lemma_attr_map_value(before, j);
            }
        }
        assert(attr_map(after) =~= m);
    }

    /// The attribute named `name`.
    pub fn get(&self, name: &str) -> (r: Option<&XAttribute>)
        requires
            self.wf(),
        ensures
            match r {
                Some(a) => attr_map(self@).contains_key(name@) && attr_map(self@)[name@] == a@,
                None => !attr_map(self@).contains_key(name@),
            },
    {
        let n = name.to_owned();
        match self.position(&n) {
            Some(k) => {
                let a = &self.entries[k].1;
                proof {
                    lemma_attr_map_value(self@, k as int);
                }
                Some(a)
            },
            None => None,
        }
    }

    /// The `i`-th attribute in name order, with its name.
    pub fn entry(&self, i: usize) -> (r: Option<(&str, &XAttribute)>)
        ensures
            r is Some <==> i < self@.len(),
            r matches Some(p) ==> (p.0@, p.1@) == self@[i as int],
    {
        if i < self.entries.len() {
            let e = &self.entries[i];
            Some((e.0.as_str(), &e.1))
        } else {
            None
        }
    }
}

} // verus!
