//! The scan step on a single declaration node: find the first annotation
//! whose identifier contains the marker prefix, and remove it in place.

use vstd::prelude::*;

use crate::ast::{ann_ident, anns_view, AnnV, Annotation, Item, ItemKind, ItemV};
use crate::text::{contains_substr, str_contains};

verus! {

/// The annotation qualifies for the marker prefix: it has a plain identifier
/// and that identifier contains the prefix as a substring.
pub open spec fn ann_matches(a: AnnV, mark: Seq<char>) -> bool {
    match ann_ident(a) {
        Some(id) => contains_substr(id, mark),
        None => false,
    }
}

/// Index of the first qualifying annotation in the list, if any.
pub open spec fn find_attr_spec(attrs: Seq<AnnV>, mark: Seq<char>) -> Option<int>
    decreases attrs.len(),
{
    if attrs.len() == 0 {
        None
    } else if ann_matches(attrs[0], mark) {
        Some(0int)
    } else {
        match find_attr_spec(attrs.subrange(1, attrs.len() as int), mark) {
            Some(j) => Some(j + 1),
            None => None,
        }
    }
}

/// `find_attr_spec` returns exactly the position of the first qualifying
/// annotation: the position qualifies and no earlier one does; `None` means
/// no position qualifies.
pub proof fn lemma_find_attr_spec(attrs: Seq<AnnV>, mark: Seq<char>)
    ensures
        match find_attr_spec(attrs, mark) {
            Some(j) => 0 <= j < attrs.len() && ann_matches(attrs[j], mark) && (forall|t: int|
                0 <= t < j ==> !ann_matches(attrs[t], mark)),
            None => forall|t: int| 0 <= t < attrs.len() ==> !ann_matches(attrs[t], mark),
        },
    decreases attrs.len(),
{
    if attrs.len() == 0 {
    } else if ann_matches(attrs[0], mark) {
    } else {
        let rest = attrs.subrange(1, attrs.len() as int);
        lemma_find_attr_spec(rest, mark);
        match find_attr_spec(rest, mark) {
            Some(jr) => {
                assert(rest[jr] == attrs[jr + 1]);
                assert forall|t: int| 0 <= t < jr + 1 implies !ann_matches(attrs[t], mark) by {
                    if t > 0 {
                        assert(rest[t - 1] == attrs[t]);
                    }
                }
            }
            None => {
                assert forall|t: int| 0 <= t < attrs.len() implies !ann_matches(attrs[t], mark) by {
                    if t > 0 {
                        assert(rest[t - 1] == attrs[t]);
                    }
                }
            }
        }
    }
}

/// Index and identifier of the first annotation whose identifier contains
/// `name`, scanning the list in order; `None` when no annotation qualifies.
pub fn find_attribute(attrs: &Vec<Annotation>, name: &str) -> (r: Option<(usize, String)>)
    ensures
        match r {
            Some((i, id)) => {
                &&& find_attr_spec(anns_view(attrs@), name@) == Some(i as int)
                &&& i < attrs@.len()
                &&& ann_ident(attrs@[i as int]@) == Some(id@)
            },
            None => find_attr_spec(anns_view(attrs@), name@) is None,
        },
{
    let ghost av = anns_view(attrs@);
    let mut index: usize = 0;
    while index < attrs.len()
        invariant
            av == anns_view(attrs@),
            index <= attrs@.len(),
            forall|t: int| 0 <= t < index ==> !ann_matches(av[t], name@),
        decreases attrs@.len() - index,
    {
        match attrs[index].ident() {
            Some(ident) => {
                if str_contains(ident.as_str(), name) {
                    proof {
                        lemma_find_attr_spec(av, name@);
                        assert(ann_matches(av[index as int], name@));
                    }
                    return Some((index, ident.clone()));
                }
            }
            None => {}
        }
        index += 1;
    }
    proof {
        lemma_find_attr_spec(av, name@);
    }
    None
}

/// Removes the first annotation qualifying for `mark` from the list, handing
/// back the removed annotation and its identifier text; the list is left
/// unchanged when no annotation qualifies.
pub fn take_first_match(attrs: &mut Vec<Annotation>, mark: &str) -> (r: Option<(Annotation, String)>)
    ensures
        match find_attr_spec(anns_view(old(attrs)@), mark@) {
            Some(j) => {
                &&& r is Some
                &&& (r->Some_0).0 == old(attrs)@[j]
                &&& ann_ident(old(attrs)@[j]@) == Some((r->Some_0).1@)
                &&& final(attrs)@ == old(attrs)@.remove(j)
                &&& anns_view(final(attrs)@) =~= anns_view(old(attrs)@).remove(j)
            },
            None => *final(attrs) == *old(attrs) && r is None,
        },
{
    match find_attribute(attrs, mark) {
        Some((index, ident)) => {
            let a = attrs.remove(index);
            proof {
                let j = index as int;
                let pre = anns_view(old(attrs)@);
                lemma_find_attr_spec(pre, mark@);
                assert(anns_view(attrs@) =~= pre.remove(j)) by {
                    pre.remove_ensures(j);
                    old(attrs)@.remove_ensures(j);
                }
            }
            Some((a, ident))
        }
        None => None,
    }
}

/// Outcome of `find_attr_spec` on the node's own annotation list; a node of
/// an ineligible kind has no list and therefore no match.
pub open spec fn node_match(it: ItemV, mark: Seq<char>) -> Option<int> {
    find_attr_spec(it.attrs, mark)
}

/// The node after one scan step: its first qualifying annotation removed, or
/// the node unchanged when none qualifies.
pub open spec fn stripped_item(it: ItemV, mark: Seq<char>) -> ItemV {
    match node_match(it, mark) {
        Some(j) => ItemV { kind: it.kind, attrs: it.attrs.remove(j) },
        None => it,
    }
}

/// One scan step on one node: removes the node's first annotation qualifying
/// for `mark` and hands it back with its identifier text. A node of an
/// ineligible kind, or one with no qualifying annotation, passes through
/// unchanged.
pub fn strip_first_match(it: Item, mark: &str) -> (r: (Item, Option<(Annotation, String)>))
    ensures
        r.0@ =~= stripped_item(it@, mark@),
        match node_match(it@, mark@) {
            Some(j) => {
                &&& r.1 is Some
                &&& (r.1->Some_0).0@ == it@.attrs[j]
                &&& ann_ident(it@.attrs[j]) == Some((r.1->Some_0).1@)
            },
            None => r.1 is None,
        },
{
    let ghost itv = it@;
    let (kind, mut attrs) = item_parts(it);
    let ghost attrs0 = attrs@;
    let r = take_first_match(&mut attrs, mark);
    proof {
        assert(itv.attrs == anns_view(attrs0));
        if kind is Other {
            assert(anns_view(attrs0).len() == 0);
        }
    }
    let rebuilt = item_build(kind, attrs);
    proof {
        lemma_find_attr_spec(itv.attrs, mark@);
        match find_attr_spec(itv.attrs, mark@) {
            Some(j) => {
                assert(anns_view(attrs0)[j] == attrs0[j]@);
                assert(anns_view(attrs@) =~= itv.attrs.remove(j));
                assert(rebuilt@ =~= stripped_item(itv, mark@));
            }
            None => {
                assert(rebuilt@ =~= stripped_item(itv, mark@));
            }
        }
    }
    (rebuilt, r)
}

/// Splits a node into its kind and its annotation list; an ineligible node
/// yields an empty list.
fn item_parts(it: Item) -> (r: (ItemKind, Vec<Annotation>))
    ensures
        r.0 == it@.kind,
        anns_view(r.1@) == it@.attrs,
        r.0 is Other ==> r.1@.len() == 0,
{
    let r = match it {
        Item::Struct { attrs } => (ItemKind::Struct, attrs),
        Item::Trait { attrs } => (ItemKind::Trait, attrs),
        Item::Module { attrs } => (ItemKind::Module, attrs),
        Item::Enum { attrs } => (ItemKind::Enum, attrs),
        Item::Function { attrs } => (ItemKind::Function, attrs),
        Item::Other => (ItemKind::Other, Vec::new()),
    };
    proof {
        if it@.kind is Other {
            assert(anns_view(r.1@) =~= it@.attrs);
        }
    }
    r
}

/// Rebuilds a node of the given kind around an annotation list; the inverse
/// of `item_parts`.
fn item_build(kind: ItemKind, attrs: Vec<Annotation>) -> (r: Item)
    requires
        kind is Other ==> attrs@.len() == 0,
    ensures
        r@ =~= (ItemV { kind, attrs: anns_view(attrs@) }),
{
    proof {
        if kind is Other {
            assert(anns_view(attrs@) =~= Seq::<AnnV>::empty());
        }
    }
    match kind {
        ItemKind::Struct => Item::Struct { attrs },
        ItemKind::Trait => Item::Trait { attrs },
        ItemKind::Module => Item::Module { attrs },
        ItemKind::Enum => Item::Enum { attrs },
        ItemKind::Function => Item::Function { attrs },
        ItemKind::Other => Item::Other,
    }
}

} // verus!
