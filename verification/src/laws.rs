//! The guarantees of a whole extraction pass, stated and proved over the
//! models: what lands in which bucket, what order entries keep, what happens
//! to the container, and what a repeated pass finds.
//!
//! Every law speaks of a group map `r` about which only the engine's
//! postcondition `extract_post(items, mark, r)` is assumed, so each law holds
//! of every result of `get_items_by_mark_prefix`.

use vstd::prelude::*;

use crate::ast::{ann_ident, is_eligible, item_inv, ItemV};
use crate::engine::{extract_post, filter_by_ident, matched_entries, stripped_items};
use crate::extract::{ann_matches, lemma_find_attr_spec, node_match, stripped_item};
use crate::groups::{entries_view, EntryV, GroupMap};
use crate::text::lemma_contains_self;

verus! {

/// The entry records the first qualifying annotation of the node it points
/// at.
spec fn is_match_entry_of(items: Seq<ItemV>, mark: Seq<char>, e: EntryV) -> bool {
    &&& 0 <= e.node < items.len()
    &&& node_match(items[e.node], mark) is Some
    &&& e.ann == items[e.node].attrs[node_match(items[e.node], mark)->Some_0]
}

/// Every matched entry points into the scanned sequence, records that node's
/// first qualifying annotation, and entries appear in strictly increasing
/// node order.
proof fn lemma_matched_entries_shape(items: Seq<ItemV>, mark: Seq<char>)
    ensures
        forall|i: int|
            0 <= i < matched_entries(items, mark).len() ==> is_match_entry_of(
                items,
                mark,
                #[trigger] matched_entries(items, mark)[i],
            ),
        forall|i: int, j: int|
            0 <= i < j < matched_entries(items, mark).len()
                ==> #[trigger] matched_entries(items, mark)[i].node
                < #[trigger] matched_entries(items, mark)[j].node,
    decreases items.len(),
{
    if items.len() > 0 {
        let dl = items.drop_last();
        let md = matched_entries(dl, mark);
        lemma_matched_entries_shape(dl, mark);
        assert(forall|t: int| 0 <= t < dl.len() ==> dl[t] == items[t]);
        assert forall|i: int| 0 <= i < md.len() implies is_match_entry_of(items, mark, md[i])
            && md[i].node < items.len() - 1 by {
            assert(is_match_entry_of(dl, mark, md[i]));
            assert(md[i].node < dl.len());
        }
        match node_match(items[items.len() - 1], mark) {
            Some(j) => {
                let e = EntryV { ann: items[items.len() - 1].attrs[j], node: items.len() - 1 };
                assert(matched_entries(items, mark) == md.push(e));
                assert(is_match_entry_of(items, mark, e));
            }
            None => {
                assert(matched_entries(items, mark) == md);
            }
        }
    }
}

/// A node whose scan finds a qualifying annotation contributes its entry to
/// the matched sequence.
proof fn lemma_matched_entries_has_node(items: Seq<ItemV>, mark: Seq<char>, k: int)
    requires
        0 <= k < items.len(),
        node_match(items[k], mark) is Some,
    ensures
        matched_entries(items, mark).contains(
            EntryV {
                ann: items[k].attrs[node_match(items[k], mark)->Some_0],
                node: k,
            },
        ),
    decreases items.len(),
{
    let e = EntryV { ann: items[k].attrs[node_match(items[k], mark)->Some_0], node: k };
    let m = matched_entries(items, mark);
    let dl = items.drop_last();
    if k == items.len() - 1 {
        assert(m[m.len() - 1] == e);
    } else {
        assert(dl[k] == items[k]);
        lemma_matched_entries_has_node(dl, mark, k);
        let md = matched_entries(dl, mark);
        let t = choose|t: int| 0 <= t < md.len() && md[t] == e;
        assert(m[t] == e);
    }
}

/// The matched sequence is empty exactly when no node's scan finds a
/// qualifying annotation.
proof fn lemma_matched_entries_empty(items: Seq<ItemV>, mark: Seq<char>)
    ensures
        (matched_entries(items, mark).len() == 0) <==> (forall|k: int|
            0 <= k < items.len() ==> node_match(#[trigger] items[k], mark) is None),
    decreases items.len(),
{
    if items.len() > 0 {
        let dl = items.drop_last();
        lemma_matched_entries_empty(dl, mark);
        assert(forall|t: int| 0 <= t < dl.len() ==> dl[t] == items[t]);
        if matched_entries(items, mark).len() == 0 {
            assert(matched_entries(dl, mark).len() == 0);
            assert forall|k: int| 0 <= k < items.len() implies node_match(
                items[k],
                mark,
            ) is None by {
                if k < items.len() - 1 {
                    assert(node_match(dl[k], mark) is None);
                }
            }
        }
    }
}

/// Every entry the filter keeps carries exactly the filter's key and stems
/// from the filtered sequence.
proof fn lemma_filter_sub(s: Seq<EntryV>, key: Seq<char>)
    ensures
        forall|i: int|
            0 <= i < filter_by_ident(s, key).len() ==> ann_ident(
                #[trigger] filter_by_ident(s, key)[i].ann,
            ) == Some(key),
        forall|i: int|
            0 <= i < filter_by_ident(s, key).len() ==> exists|t: int|
                0 <= t < s.len() && s[t] == #[trigger] filter_by_ident(s, key)[i],
    decreases s.len(),
{
    if s.len() > 0 {
        let dl = s.drop_last();
        let fd = filter_by_ident(dl, key);
        let f = filter_by_ident(s, key);
        lemma_filter_sub(dl, key);
        assert(forall|t: int| 0 <= t < dl.len() ==> dl[t] == s[t]);
        assert forall|i: int| 0 <= i < f.len() implies ann_ident(f[i].ann) == Some(key)
            && exists|t: int| 0 <= t < s.len() && s[t] == f[i] by {
            if i < fd.len() {
                assert(f[i] == fd[i]);
                let t = choose|t: int| 0 <= t < dl.len() && dl[t] == fd[i];
                assert(s[t] == f[i]);
            } else {
                assert(f[i] == s.last());
                assert(s[s.len() - 1] == f[i]);
            }
        }
    }
}

/// An entry of the filtered sequence whose annotation carries the key
/// survives the filter.
proof fn lemma_filter_contains(s: Seq<EntryV>, key: Seq<char>, e: EntryV)
    requires
        s.contains(e),
        ann_ident(e.ann) == Some(key),
    ensures
        filter_by_ident(s, key).contains(e),
    decreases s.len(),
{
    let f = filter_by_ident(s, key);
    let dl = s.drop_last();
    let fd = filter_by_ident(dl, key);
    if s.last() == e {
        assert(f[f.len() - 1] == e);
    } else {
        let t = choose|t: int| 0 <= t < s.len() && s[t] == e;
        assert(dl[t] == e);
        lemma_filter_contains(dl, key, e);
        let i = choose|i: int| 0 <= i < fd.len() && fd[i] == e;
        assert(f[i] == e);
    }
}

/// Filtering keeps the strictly increasing node order.
proof fn lemma_filter_increasing(s: Seq<EntryV>, key: Seq<char>)
    requires
        forall|i: int, j: int| 0 <= i < j < s.len() ==> #[trigger] s[i].node < #[trigger] s[j].node,
    ensures
        forall|i: int, j: int|
            0 <= i < j < filter_by_ident(s, key).len() ==> #[trigger] filter_by_ident(
                s,
                key,
            )[i].node < #[trigger] filter_by_ident(s, key)[j].node,
    decreases s.len(),
{
    if s.len() > 0 {
        let dl = s.drop_last();
        let fd = filter_by_ident(dl, key);
        let f = filter_by_ident(s, key);
        assert(forall|t: int| 0 <= t < dl.len() ==> dl[t] == s[t]);
        lemma_filter_increasing(dl, key);
        lemma_filter_sub(dl, key);
        assert forall|i: int, j: int| 0 <= i < j < f.len() implies f[i].node < f[j].node by {
            if j < fd.len() {
                assert(f[i] == fd[i] && f[j] == fd[j]);
            } else if ann_ident(s.last().ann) == Some(key) && j == fd.len() {
                assert(f[i] == fd[i]);
                let t = choose|t: int| 0 <= t < dl.len() && dl[t] == fd[i];
                assert(s[t].node < s[s.len() - 1].node);
                assert(f[j] == s.last());
            }
        }
    }
}

/// A well-formed group map with at least one bucket has a nonempty bucket.
proof fn lemma_groupmap_first_bucket(r: GroupMap)
    requires
        r.wf(),
        r.groups@.len() > 0,
    ensures
        r.bucket(r.groups@[0].key@).len() > 0,
{
    assert(r.bucket(r.groups@[0].key@) == entries_view(r.groups@[0].entries@));
}

/// A pass that matched nothing produced an empty group map: no bucket at
/// all, not merely empty buckets.
proof fn lemma_no_matches_empty_map(items: Seq<ItemV>, mark: Seq<char>, r: GroupMap)
    requires
        extract_post(items, mark, r),
        matched_entries(items, mark).len() == 0,
    ensures
        r.groups@.len() == 0,
{
    if r.groups@.len() > 0 {
        lemma_groupmap_first_bucket(r);
        let key = r.groups@[0].key@;
        assert(r.bucket(key) == filter_by_ident(matched_entries(items, mark), key));
    }
}

/// A container with no eligible declaration yields an empty group map,
/// whatever the prefix.
pub proof fn law_no_eligible_yields_empty(items: Seq<ItemV>, mark: Seq<char>, r: GroupMap)
    requires
        forall|k: int| 0 <= k < items.len() ==> item_inv(#[trigger] items[k]),
        forall|k: int| 0 <= k < items.len() ==> !is_eligible(#[trigger] items[k]),
        extract_post(items, mark, r),
    ensures
        r.groups@.len() == 0,
{
    assert forall|k: int| 0 <= k < items.len() implies node_match(items[k], mark) is None by {
        lemma_find_attr_spec(items[k].attrs, mark);
    }
    lemma_matched_entries_empty(items, mark);
    lemma_no_matches_empty_map(items, mark, r);
}

/// A declaration whose scan finds a qualifying annotation lands, with that
/// annotation, in the bucket keyed by the annotation's full identifier, and
/// in no other bucket.
pub proof fn law_match_in_exact_bucket(items: Seq<ItemV>, mark: Seq<char>, r: GroupMap, k: int)
    requires
        extract_post(items, mark, r),
        0 <= k < items.len(),
        node_match(items[k], mark) is Some,
    ensures
        ({
            let e = EntryV {
                ann: items[k].attrs[node_match(items[k], mark)->Some_0],
                node: k,
            };
            &&& ann_ident(e.ann) is Some
            &&& r.bucket(ann_ident(e.ann)->Some_0).contains(e)
            &&& forall|key: Seq<char>|
                key != ann_ident(e.ann)->Some_0 ==> !r.bucket(key).contains(e)
        }),
{
    let j = node_match(items[k], mark)->Some_0;
    let e = EntryV { ann: items[k].attrs[j], node: k };
    lemma_find_attr_spec(items[k].attrs, mark);
    assert(ann_matches(e.ann, mark));
    let id = ann_ident(e.ann)->Some_0;
    lemma_matched_entries_has_node(items, mark, k);
    let m = matched_entries(items, mark);
    lemma_filter_contains(m, id, e);
    assert(r.bucket(id) == filter_by_ident(m, id));
    assert forall|key: Seq<char>| key != id implies !r.bucket(key).contains(e) by {
        lemma_filter_sub(m, key);
        assert(r.bucket(key) == filter_by_ident(m, key));
        if r.bucket(key).contains(e) {
            let i = choose|i: int| 0 <= i < r.bucket(key).len() && r.bucket(key)[i] == e;
            assert(ann_ident(filter_by_ident(m, key)[i].ann) == Some(key));
        }
    }
}

/// A declaration whose first qualifying annotation's identifier equals the
/// prefix itself lands in the bucket keyed by the prefix.
pub proof fn law_exact_identifier_is_grouped(
    items: Seq<ItemV>,
    mark: Seq<char>,
    r: GroupMap,
    k: int,
    j: int,
)
    requires
        extract_post(items, mark, r),
        0 <= k < items.len(),
        0 <= j < items[k].attrs.len(),
        ann_ident(items[k].attrs[j]) == Some(mark),
        forall|t: int| 0 <= t < j ==> !ann_matches(#[trigger] items[k].attrs[t], mark),
    ensures
        r.bucket(mark).contains(EntryV { ann: items[k].attrs[j], node: k }),
{
    lemma_contains_self(mark);
    assert(ann_matches(items[k].attrs[j], mark));
    lemma_find_attr_spec(items[k].attrs, mark);
    assert(node_match(items[k], mark) == Some(j));
    law_match_in_exact_bucket(items, mark, r, k);
}

/// A declaration whose first qualifying annotation's identifier contains the
/// prefix properly lands under that full identifier and not under the
/// prefix.
pub proof fn law_proper_substring_keys_full_identifier(
    items: Seq<ItemV>,
    mark: Seq<char>,
    r: GroupMap,
    k: int,
)
    requires
        extract_post(items, mark, r),
        0 <= k < items.len(),
        node_match(items[k], mark) is Some,
        ann_ident(items[k].attrs[node_match(items[k], mark)->Some_0]) != Some(mark),
    ensures
        ({
            let e = EntryV {
                ann: items[k].attrs[node_match(items[k], mark)->Some_0],
                node: k,
            };
            &&& r.bucket(ann_ident(e.ann)->Some_0).contains(e)
            &&& !r.bucket(mark).contains(e)
        }),
{
    law_match_in_exact_bucket(items, mark, r, k);
}

/// Once a pass over a container yields an empty map, the pass changed no
/// node, and a second pass with the same prefix yields an empty map again.
pub proof fn law_idempotent_once_exhausted(
    items: Seq<ItemV>,
    mark: Seq<char>,
    r1: GroupMap,
    r2: GroupMap,
)
    requires
        extract_post(items, mark, r1),
        r1.groups@.len() == 0,
        extract_post(stripped_items(items, mark), mark, r2),
    ensures
        stripped_items(items, mark) == items,
        r2.groups@.len() == 0,
{
    let m = matched_entries(items, mark);
    lemma_matched_entries_shape(items, mark);
    if m.len() > 0 {
        let e = m[0];
        assert(is_match_entry_of(items, mark, e));
        lemma_find_attr_spec(items[e.node].attrs, mark);
        assert(ann_matches(e.ann, mark));
        let id = ann_ident(e.ann)->Some_0;
        lemma_filter_contains(m, id, e);
        assert(r1.bucket(id) == filter_by_ident(m, id));
        assert(r1.bucket(id).len() > 0);
        assert(r1.bucket(id) == Seq::<EntryV>::empty());
    }
    lemma_matched_entries_empty(items, mark);
    assert(stripped_items(items, mark) =~= items);
    lemma_matched_entries_empty(stripped_items(items, mark), mark);
    lemma_no_matches_empty_map(stripped_items(items, mark), mark, r2);
}

/// Entries within one bucket keep the relative source order of their nodes.
pub proof fn law_bucket_preserves_order(
    items: Seq<ItemV>,
    mark: Seq<char>,
    r: GroupMap,
    key: Seq<char>,
    a: int,
    b: int,
)
    requires
        extract_post(items, mark, r),
        0 <= a < b < r.bucket(key).len(),
    ensures
        r.bucket(key)[a].node < r.bucket(key)[b].node,
{
    let m = matched_entries(items, mark);
    lemma_matched_entries_shape(items, mark);
    lemma_filter_increasing(m, key);
    assert(r.bucket(key) == filter_by_ident(m, key));
}

/// A successful scan step removes exactly one annotation and keeps the
/// node's kind; a re-scan of the stripped node can only find an annotation
/// that stood strictly later in the original list — never the removed one.
pub proof fn law_removal_destructive(it: ItemV, mark: Seq<char>)
    requires
        node_match(it, mark) is Some,
    ensures
        stripped_item(it, mark).kind == it.kind,
        stripped_item(it, mark).attrs.len() == it.attrs.len() - 1,
        match node_match(stripped_item(it, mark), mark) {
            Some(j2) => {
                let j = node_match(it, mark)->Some_0;
                &&& j <= j2
                &&& stripped_item(it, mark).attrs[j2] == it.attrs[j2 + 1]
            },
            None => true,
        },
{
    let j = node_match(it, mark)->Some_0;
    lemma_find_attr_spec(it.attrs, mark);
    let rest = it.attrs.remove(j);
    it.attrs.remove_ensures(j);
    lemma_find_attr_spec(rest, mark);
    match node_match(stripped_item(it, mark), mark) {
        Some(j2) => {
            assert(j2 >= j) by {
                if j2 < j {
                    assert(rest[j2] == it.attrs[j2]);
                }
            }
        }
        None => {}
    }
}

/// An ineligible declaration is never returned through any bucket and its
/// node passes through the scan unchanged.
pub proof fn law_ineligible_untouched(items: Seq<ItemV>, mark: Seq<char>, r: GroupMap, k: int)
    requires
        extract_post(items, mark, r),
        0 <= k < items.len(),
        !is_eligible(items[k]),
        item_inv(items[k]),
    ensures
        stripped_item(items[k], mark) == items[k],
        forall|key: Seq<char>, i: int|
            0 <= i < r.bucket(key).len() ==> (#[trigger] r.bucket(key)[i]).node != k,
{
    lemma_find_attr_spec(items[k].attrs, mark);
    let m = matched_entries(items, mark);
    lemma_matched_entries_shape(items, mark);
    assert forall|key: Seq<char>, i: int|
        0 <= i < r.bucket(key).len() implies (#[trigger] r.bucket(key)[i]).node != k by {
        lemma_filter_sub(m, key);
        assert(r.bucket(key) == filter_by_ident(m, key));
        let e = filter_by_ident(m, key)[i];
        let t = choose|t: int| 0 <= t < m.len() && m[t] == e;
        assert(is_match_entry_of(items, mark, m[t]));
    }
}

/// Every entry in every bucket stems from the scan: its node lies in the
/// container, the entry carries that node's first qualifying annotation, and
/// the annotation's identifier is the bucket's key — no entry is fabricated.
pub proof fn law_entries_genuine(
    items: Seq<ItemV>,
    mark: Seq<char>,
    r: GroupMap,
    key: Seq<char>,
    i: int,
)
    requires
        extract_post(items, mark, r),
        0 <= i < r.bucket(key).len(),
    ensures
        ({
            let e = r.bucket(key)[i];
            &&& 0 <= e.node < items.len()
            &&& node_match(items[e.node], mark) is Some
            &&& e.ann == items[e.node].attrs[node_match(items[e.node], mark)->Some_0]
            &&& ann_ident(e.ann) == Some(key)
        }),
{
    let m = matched_entries(items, mark);
    lemma_matched_entries_shape(items, mark);
    lemma_filter_sub(m, key);
    assert(r.bucket(key) == filter_by_ident(m, key));
    let e = filter_by_ident(m, key)[i];
    let t = choose|t: int| 0 <= t < m.len() && m[t] == e;
    assert(is_match_entry_of(items, mark, m[t]));
}

/// The key set is exactly the set of identifiers observed: the bucket under
/// `key` is nonempty exactly when some node's first qualifying annotation
/// carries the identifier `key`. A prefix that matched nothing owns no key.
pub proof fn law_key_set_exact(items: Seq<ItemV>, mark: Seq<char>, r: GroupMap, key: Seq<char>)
    requires
        extract_post(items, mark, r),
    ensures
        r.bucket(key).len() > 0 <==> exists|k: int|
            0 <= k < items.len() && #[trigger] node_match(items[k], mark) is Some && ann_ident(
                items[k].attrs[node_match(items[k], mark)->Some_0],
            ) == Some(key),
{
    if r.bucket(key).len() > 0 {
        law_entries_genuine(items, mark, r, key, 0);
        let e = r.bucket(key)[0];
        assert(node_match(items[e.node], mark) is Some);
    }
    if exists|k: int|
        0 <= k < items.len() && #[trigger] node_match(items[k], mark) is Some && ann_ident(
            items[k].attrs[node_match(items[k], mark)->Some_0],
        ) == Some(key) {
        let k = choose|k: int|
            0 <= k < items.len() && #[trigger] node_match(items[k], mark) is Some && ann_ident(
                items[k].attrs[node_match(items[k], mark)->Some_0],
            ) == Some(key);
        let e = EntryV { ann: items[k].attrs[node_match(items[k], mark)->Some_0], node: k };
        lemma_matched_entries_has_node(items, mark, k);
        lemma_filter_contains(matched_entries(items, mark), key, e);
        assert(r.bucket(key) == filter_by_ident(matched_entries(items, mark), key));
        let i = choose|i: int| 0 <= i < r.bucket(key).len() && r.bucket(key)[i] == e;
        assert(r.bucket(key).len() > 0);
    }
}

/// No node yields two entries in one pass: any two distinct bucket positions
/// across the whole map point at distinct nodes.
pub proof fn law_entries_unique(
    items: Seq<ItemV>,
    mark: Seq<char>,
    r: GroupMap,
    key1: Seq<char>,
    key2: Seq<char>,
    i1: int,
    i2: int,
)
    requires
        extract_post(items, mark, r),
        0 <= i1 < r.bucket(key1).len(),
        0 <= i2 < r.bucket(key2).len(),
        key1 != key2 || i1 != i2,
    ensures
        r.bucket(key1)[i1].node != r.bucket(key2)[i2].node,
{
    let m = matched_entries(items, mark);
    lemma_matched_entries_shape(items, mark);
    lemma_filter_sub(m, key1);
    lemma_filter_sub(m, key2);
    lemma_filter_increasing(m, key1);
    assert(r.bucket(key1) == filter_by_ident(m, key1));
    assert(r.bucket(key2) == filter_by_ident(m, key2));
    let e1 = filter_by_ident(m, key1)[i1];
    let e2 = filter_by_ident(m, key2)[i2];
    if e1.node == e2.node {
        let t1 = choose|t: int| 0 <= t < m.len() && m[t] == e1;
        let t2 = choose|t: int| 0 <= t < m.len() && m[t] == e2;
        assert(t1 == t2) by {
            if t1 < t2 {
                assert(m[t1].node < m[t2].node);
            }
            if t2 < t1 {
                assert(m[t2].node < m[t1].node);
            }
        }
        assert(e1 == e2);
        assert(ann_ident(e1.ann) == Some(key1));
        assert(ann_ident(e2.ann) == Some(key2));
        assert(key1 == key2);
        if i1 != i2 {
            law_bucket_preserves_order(items, mark, r, key1, if i1 < i2 { i1 } else { i2 },
                if i1 < i2 { i2 } else { i1 });
        }
    }
}

} // verus!

