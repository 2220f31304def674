//! The output side of extraction: a removed annotation paired with the index
//! of its node, and the map from exact annotation identifiers to the ordered
//! entries that share that identifier.

use vstd::prelude::*;

use crate::ast::{AnnV, Annotation};
use crate::text::str_eq;

verus! {

/// A removed annotation together with the holder of the node it came from.
/// The annotation is exclusively owned here — it no longer sits on the node —
/// while the node itself stays shared: `item` is whatever handle the caller
/// chose, a node index in this library.
#[derive(Debug, Clone, PartialEq, Eq, Hash)]
pub struct MarkedItem<T> {
    pub mark: Annotation,
    pub item: T,
}

impl<T> MarkedItem<T> {
    /// Pairs a removed annotation with a node handle.
    pub fn new(mark: Annotation, item: T) -> (r: Self)
        ensures
            r.mark == mark,
            r.item == item,
    {
        Self { mark, item }
    }
}

/// A marked entry whose node handle is an index into the declaration
/// container, so that the entry and the container share the node.
pub type SharedMarkedItem = MarkedItem<usize>;

/// Mathematical model of a shared marked entry: the removed annotation and
/// the index of its node.
#[verifier::ext_equal]
pub ghost struct EntryV {
    pub ann: AnnV,
    pub node: int,
}

/// The model of one entry.
pub open spec fn entry_view(m: SharedMarkedItem) -> EntryV {
    EntryV { ann: m.mark@, node: m.item as int }
}

/// The models of a sequence of entries, pointwise.
pub open spec fn entries_view(s: Seq<SharedMarkedItem>) -> Seq<EntryV> {
    Seq::new(s.len(), |i: int| entry_view(s[i]))
}

/// One bucket of the group map: the exact identifier text and the entries
/// whose removed annotation carries that identifier, in insertion order.
#[derive(Debug, Clone)]
pub struct Group {
    pub key: String,
    pub entries: Vec<SharedMarkedItem>,
}

/// The entries of the first bucket carrying `key`; the empty sequence when no
/// bucket does.
pub open spec fn bucket_of(g: Seq<Group>, key: Seq<char>) -> Seq<EntryV>
    decreases g.len(),
{
    if g.len() == 0 {
        Seq::empty()
    } else if g[0].key@ == key {
        entries_view(g[0].entries@)
    } else {
        bucket_of(g.subrange(1, g.len() as int), key)
    }
}

/// A map from exact annotation identifiers to their marked entries, with
/// create-on-first-insert buckets that keep insertion order.
#[derive(Debug, Clone)]
pub struct GroupMap {
    pub groups: Vec<Group>,
}

impl GroupMap {
    /// Well-formed: bucket keys are pairwise distinct and no bucket is empty,
    /// so a key maps to exactly one bucket and an empty bucket result means
    /// the key is absent.
    pub open spec fn wf(&self) -> bool {
        &&& forall|i: int, j: int|
            0 <= i < j < self.groups@.len() ==> self.groups@[i].key@ != self.groups@[j].key@
        &&& forall|i: int| 0 <= i < self.groups@.len() ==> self.groups@[i].entries@.len() > 0
    }

    /// The entries grouped under `key`; empty when the key is absent.
    pub open spec fn bucket(&self, key: Seq<char>) -> Seq<EntryV> {
        bucket_of(self.groups@, key)
    }

    /// The empty map.
    pub fn new() -> (r: GroupMap)
        ensures
            r.wf(),
            r.groups@.len() == 0,
            forall|key: Seq<char>| r.bucket(key) == Seq::<EntryV>::empty(),
    {
        GroupMap { groups: Vec::new() }
    }

    /// The number of buckets, that is of distinct identifiers observed.
    pub fn len(&self) -> (n: usize)
        ensures
            n == self.groups@.len(),
    {
        self.groups.len()
    }

    /// Whether the map holds no bucket at all.
    pub fn is_empty(&self) -> (r: bool)
        ensures
            r == (self.groups@.len() == 0),
    {
        self.groups.len() == 0
    }

    /// The entries grouped under `key`, in insertion order, or `None` when no
    /// annotation with that exact identifier was extracted.
    pub fn get<'a>(&'a self, key: &str) -> (r: Option<&'a Vec<SharedMarkedItem>>)
        ensures
            match r {
                Some(v) => entries_view(v@) == self.bucket(key@),
                None => self.bucket(key@) == Seq::<EntryV>::empty(),
            },
    {
        let n = self.groups.len();
        let mut i: usize = 0;
        while i < n
            invariant
                n == self.groups@.len(),
                i <= n,
                forall|t: int| 0 <= t < i ==> self.groups@[t].key@ != key@,
            decreases n - i,
        {
            if str_eq(self.groups[i].key.as_str(), key) {
                proof {
                    lemma_bucket_of_first(self.groups@, key@, i as int);
                }
                return Some(&self.groups[i].entries);
            }
            i += 1;
        }
        proof {
            lemma_bucket_of_absent(self.groups@, key@);
        }
        None
    }

    /// Appends an entry to the bucket keyed by `key`, creating the bucket on
    /// first use; no other bucket changes.
    pub fn push_entry(&mut self, key: String, m: SharedMarkedItem)
        requires
            old(self).wf(),
        ensures
            final(self).wf(),
            final(self).bucket(key@) == old(self).bucket(key@).push(entry_view(m)),
            forall|k: Seq<char>| k != key@ ==> final(self).bucket(k) == old(self).bucket(k),
    {
        let ghost g0 = self.groups@;
        let n = self.groups.len();
        let mut i: usize = 0;
        while i < n
            invariant
                self.groups@ == g0,
                g0 == old(self).groups@,
                old(self).wf(),
                n == g0.len(),
                i <= n,
                forall|t: int| 0 <= t < i ==> g0[t].key@ != key@,
            decreases n - i,
        {
            if str_eq(self.groups[i].key.as_str(), key.as_str()) {
                let mut g = self.groups.remove(i);
                g.entries.push(m);
                let ghost g1 = g;
                self.groups.insert(i, g);
                proof {
                    let j = i as int;
                    assert(g1.key@ == key@);
                    assert(self.groups@ =~= g0.update(j, g1)) by {
                        g0.remove_ensures(j);
                        g0.remove(j).insert_ensures(j, g1);
                    }
                    assert(self.groups@ == g0.update(j, g1));
                    assert(entries_view(g1.entries@) =~= entries_view(g0[j].entries@).push(
                        entry_view(m),
                    ));
                    lemma_bucket_of_first(g0, key@, j);
                    lemma_bucket_of_first(g0.update(j, g1), key@, j);
                    assert(self.bucket(key@) == old(self).bucket(key@).push(entry_view(m)));
                    assert forall|k2: Seq<char>| k2 != key@ implies bucket_of(
                        self.groups@,
                        k2,
                    ) == bucket_of(g0, k2) by {
                        lemma_bucket_of_update_one(g0, j, g1, k2);
                    }
                    assert forall|a: int, b: int|
                        0 <= a < b < self.groups@.len() implies self.groups@[a].key@
                        != self.groups@[b].key@ by {
                        assert(g0[a].key@ != g0[b].key@);
                    }
                    assert(forall|t: int|
                        0 <= t < self.groups@.len() ==> self.groups@[t].entries@.len() > 0);
                }
                return ;
            }
            i += 1;
        }
        let mut entries: Vec<SharedMarkedItem> = Vec::new();
        entries.push(m);
        let ghost ng = Group { key, entries };
        proof {
            assert(entries_view(ng.entries@) =~= Seq::<EntryV>::empty().push(entry_view(m)));
        }
        self.groups.push(Group { key, entries });
        proof {
            let ghost len0 = g0.len() as int;
            assert(self.groups@ =~= g0.push(ng));
            assert(self.groups@ == g0.push(ng));
            lemma_bucket_of_absent(g0, ng.key@);
            assert(g0.push(ng)[len0] == ng);
            lemma_bucket_of_first(g0.push(ng), ng.key@, len0);
            assert(self.bucket(key@) == old(self).bucket(key@).push(entry_view(m)));
            assert forall|k2: Seq<char>| k2 != key@ implies bucket_of(self.groups@, k2)
                == bucket_of(g0, k2) by {
                lemma_bucket_of_extend(g0, ng, k2);
            }
            assert forall|a: int, b: int|
                0 <= a < b < self.groups@.len() implies self.groups@[a].key@
                != self.groups@[b].key@ by {
                if b < len0 {
                    assert(g0[a].key@ != g0[b].key@);
                } else {
                    assert(g0[a].key@ != ng.key@);
                }
            }
            assert(forall|t: int|
                0 <= t < self.groups@.len() ==> self.groups@[t].entries@.len() > 0);
        }
    }
}

/// When the first occurrence of `key` among the bucket keys is at `i`, the
/// bucket under `key` is exactly that bucket's entries.
proof fn lemma_bucket_of_first(g: Seq<Group>, key: Seq<char>, i: int)
    requires
        0 <= i < g.len(),
        g[i].key@ == key,
        forall|t: int| 0 <= t < i ==> g[t].key@ != key,
    ensures
        bucket_of(g, key) == entries_view(g[i].entries@),
    decreases i,
{
    if i > 0 {
        let rest = g.subrange(1, g.len() as int);
        assert(forall|t: int| 0 <= t < rest.len() ==> rest[t] == g[t + 1]);
        lemma_bucket_of_first(rest, key, i - 1);
    }
}

/// When no bucket carries `key`, the bucket under `key` is empty.
proof fn lemma_bucket_of_absent(g: Seq<Group>, key: Seq<char>)
    requires
        forall|t: int| 0 <= t < g.len() ==> g[t].key@ != key,
    ensures
        bucket_of(g, key) == Seq::<EntryV>::empty(),
    decreases g.len(),
{
    if g.len() > 0 {
        let rest = g.subrange(1, g.len() as int);
        assert(forall|t: int| 0 <= t < rest.len() ==> rest[t] == g[t + 1]);
        lemma_bucket_of_absent(rest, key);
    }
}

/// Replacing the bucket at `i` by one with the same key changes no bucket
/// under any other key.
proof fn lemma_bucket_of_update_one(g: Seq<Group>, i: int, g2: Group, k2: Seq<char>)
    requires
        0 <= i < g.len(),
        g2.key@ == g[i].key@,
        k2 != g[i].key@,
    ensures
        bucket_of(g.update(i, g2), k2) == bucket_of(g, k2),
    decreases g.len(),
{
    let u = g.update(i, g2);
    if i == 0 {
        assert(u.subrange(1, u.len() as int) =~= g.subrange(1, g.len() as int));
    } else {
        let rest = g.subrange(1, g.len() as int);
        assert(u.subrange(1, u.len() as int) =~= rest.update(i - 1, g2));
        lemma_bucket_of_update_one(rest, i - 1, g2, k2);
    }
}

/// Appending a bucket whose key differs from `k2` leaves the bucket under
/// `k2` unchanged.
proof fn lemma_bucket_of_extend(g: Seq<Group>, ng: Group, k2: Seq<char>)
    requires
        k2 != ng.key@,
    ensures
        bucket_of(g.push(ng), k2) == bucket_of(g, k2),
    decreases g.len(),
{
    if g.len() == 0 {
        assert(g.push(ng)[0] == ng);
        assert(g.push(ng).subrange(1, 1) =~= Seq::<Group>::empty());
        assert(bucket_of(Seq::<Group>::empty(), k2) == Seq::<EntryV>::empty());
    } else {
        let rest = g.subrange(1, g.len() as int);
        assert(g.push(ng)[0] == g[0]);
        assert(g.push(ng).subrange(1, g.len() as int + 1) =~= rest.push(ng));
        lemma_bucket_of_extend(rest, ng, k2);
    }
}

} // verus!
