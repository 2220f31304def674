//! The extraction engine: a single synchronous pass over the declaration
//! container that removes, from each node, the first annotation whose
//! identifier contains the marker prefix, and groups the removed annotations
//! by their exact identifier text.

use vstd::prelude::*;

use crate::ast::{ann_ident, items_view, ItemV, MacroScope};
use crate::extract::{node_match, strip_first_match, stripped_item};
use crate::groups::{entry_view, EntryV, GroupMap, MarkedItem};

verus! {

/// The marked entries a scan produces, in node order: one entry per node
/// whose annotation list holds a qualifying annotation, pairing the first
/// such annotation with the node's index.
pub open spec fn matched_entries(items: Seq<ItemV>, mark: Seq<char>) -> Seq<EntryV>
    decreases items.len(),
{
    if items.len() == 0 {
        Seq::empty()
    } else {
        let prev = matched_entries(items.drop_last(), mark);
        let k = items.len() - 1;
        match node_match(items[k], mark) {
            Some(j) => prev.push(EntryV { ann: items[k].attrs[j], node: k }),
            None => prev,
        }
    }
}

/// The subsequence of entries whose removed annotation carries exactly the
/// identifier `key`, in unchanged order.
pub open spec fn filter_by_ident(s: Seq<EntryV>, key: Seq<char>) -> Seq<EntryV>
    decreases s.len(),
{
    if s.len() == 0 {
        Seq::empty()
    } else {
        let prev = filter_by_ident(s.drop_last(), key);
        if ann_ident(s.last().ann) == Some(key) {
            prev.push(s.last())
        } else {
            prev
        }
    }
}

/// What a finished extraction pass guarantees of its group map, relative to
/// the container's nodes as they stood before the pass: the map is
/// well-formed and every bucket holds exactly the matched entries carrying
/// its key, in scan order.
pub open spec fn extract_post(items: Seq<ItemV>, mark: Seq<char>, r: GroupMap) -> bool {
    &&& r.wf()
    &&& forall|key: Seq<char>|
        r.bucket(key) == filter_by_ident(matched_entries(items, mark), key)
}

/// The container's nodes after a scan for `mark`, pointwise.
pub open spec fn stripped_items(items: Seq<ItemV>, mark: Seq<char>) -> Seq<ItemV> {
    Seq::new(items.len(), |k: int| stripped_item(items[k], mark))
}

/// Appending one entry extends exactly the filter of its own identifier.
pub proof fn lemma_filter_by_ident_push(s: Seq<EntryV>, e: EntryV, key: Seq<char>)
    ensures
        filter_by_ident(s.push(e), key) == if ann_ident(e.ann) == Some(key) {
            filter_by_ident(s, key).push(e)
        } else {
            filter_by_ident(s, key)
        },
{
    assert(s.push(e).drop_last() =~= s);
    assert(s.push(e).last() == e);
}

/// Scans every node of the container in source order; for each node whose
/// annotation list holds an annotation whose identifier contains `mark` as a
/// substring, removes the first such annotation from the node in place and
/// appends it, paired with the node's index, to the bucket keyed by the full
/// identifier text. Nodes of ineligible kinds and nodes without a qualifying
/// annotation stay untouched; a prefix matching nothing yields an empty map.
pub fn get_items_by_mark_prefix(scope: &mut MacroScope, mark: &str) -> (r: GroupMap)
    requires
        mark@.len() > 0,
    ensures
        final(scope)@.len() == old(scope)@.len(),
        forall|k: int|
            0 <= k < old(scope)@.len() ==> final(scope)@[k] == stripped_item(
                old(scope)@[k],
                mark@,
            ),
        extract_post(old(scope)@, mark@, r),
{
    let ghost orig: Seq<ItemV> = scope@;
    let mut groups = GroupMap::new();
    let n = scope.items.len();
    proof {
        assert(orig.subrange(0, 0) =~= Seq::<ItemV>::empty());
    }
    let mut k: usize = 0;
    while k < n
        invariant
            orig == old(scope)@,
            n == scope.items@.len(),
            orig.len() == n,
            k <= n,
            forall|t: int| k <= t < n ==> scope@[t] == orig[t],
            forall|t: int| 0 <= t < k ==> scope@[t] == stripped_item(orig[t], mark@),
            groups.wf(),
            forall|key: Seq<char>|
                groups.bucket(key) == filter_by_ident(
                    matched_entries(orig.subrange(0, k as int), mark@),
                    key,
                ),
        decreases n - k,
    {
        let ghost kk = k as int;
        let ghost items0 = scope.items@;
        let ghost me_k = matched_entries(orig.subrange(0, kk), mark@);
        proof {
            assert(scope@ == items_view(items0));
        }
        let it = scope.items.remove(k);
        proof {
            assert(items_view(items0)[kk] == items0[kk]@);
            assert(it@ == orig[kk]);
        }
        let (stripped, res) = strip_first_match(it, mark);
        scope.items.insert(k, stripped);
        proof {
            assert(scope.items@ =~= items0.update(kk, stripped)) by {
                items0.remove_ensures(kk);
                items0.remove(kk).insert_ensures(kk, stripped);
            }
            assert forall|t: int| 0 <= t <= kk implies scope@[t] == stripped_item(
                orig[t],
                mark@,
            ) by {
                assert(scope@[t] == scope.items@[t]@);
                if t < kk {
                    assert(scope.items@[t] == items0[t]);
                    assert(items_view(items0)[t] == items0[t]@);
                } else {
                    assert(scope.items@[kk] == stripped);
                }
            }
            assert forall|t: int| kk < t < n implies scope@[t] == orig[t] by {
                assert(scope@[t] == scope.items@[t]@);
                assert(scope.items@[t] == items0[t]);
                assert(items_view(items0)[t] == items0[t]@);
            }
            assert(orig.subrange(0, kk + 1).drop_last() =~= orig.subrange(0, kk));
            assert(orig.subrange(0, kk + 1).last() == orig[kk]);
        }
        let ghost me_k1 = matched_entries(orig.subrange(0, kk + 1), mark@);
        match res {
            Some((ann, ident)) => {
                let ghost e = EntryV { ann: ann@, node: kk };
                proof {
                    assert(me_k1 == me_k.push(e));
                }
                let entry = MarkedItem::new(ann, k);
                groups.push_entry(ident, entry);
                proof {
                    assert(entry_view(entry) == e);
                    assert forall|key: Seq<char>|
                        groups.bucket(key) == filter_by_ident(me_k1, key) by {
                        lemma_filter_by_ident_push(me_k, e, key);
                    }
                }
            }
            None => {
                proof {
                    assert(me_k1 == me_k);
                }
            }
        }
        k += 1;
    }
    proof {
        assert(orig.subrange(0, n as int) =~= orig);
    }
    groups
}

} // verus!
