//! The declaration model: annotations, declaration nodes, and the container
//! that owns the nodes of one parsed module body.
//!
//! A node is identified by its index in the container; every holder of a node
//! (the container itself, and each marked entry produced by extraction) stores
//! that index, so an in-place change to a node is visible to all holders.

use vstd::prelude::*;

verus! {

/// An annotation attached to a declaration, as a path of plain segment names.
/// Only a path of exactly one segment yields an identifier that the marker
/// matcher considers.
#[derive(Debug, Clone, PartialEq, Eq, Hash)]
pub struct Annotation {
    pub path: Vec<String>,
}

/// Mathematical model of an `Annotation`: the segment texts.
#[verifier::ext_equal]
pub ghost struct AnnV {
    pub path: Seq<Seq<char>>,
}

impl View for Annotation {
    type V = AnnV;

    open spec fn view(&self) -> AnnV {
        AnnV { path: Seq::new(self.path@.len(), |i: int| self.path@[i]@) }
    }
}

/// The plain identifier of an annotation: defined exactly when the path has a
/// single segment; a multi-segment path has none and never matches a marker.
pub open spec fn ann_ident(a: AnnV) -> Option<Seq<char>> {
    if a.path.len() == 1 {
        Some(a.path[0])
    } else {
        None
    }
}

impl Annotation {
    /// Builds an annotation from its path segments.
    pub fn new(path: Vec<String>) -> (r: Annotation)
        ensures
            r.path == path,
    {
        Annotation { path }
    }

    /// The plain identifier, when the path has exactly one segment.
    pub fn ident(&self) -> (r: Option<&String>)
        ensures
            match r {
                Some(s) => ann_ident(self@) == Some(s@),
                None => ann_ident(self@) is None,
            },
    {
        if self.path.len() == 1 {
            Some(&self.path[0])
        } else {
            None
        }
    }
}

/// The kind of a declaration node. Exactly five kinds carry an annotation
/// list; `Other` stands for every remaining kind and carries none.
#[derive(Debug, Clone, Copy, PartialEq, Eq, Hash, Structural)]
pub enum ItemKind {
    Struct,
    Trait,
    Module,
    Enum,
    Function,
    Other,
}

/// A declaration node parsed from a module body. The five annotation-bearing
/// kinds own their ordered annotation list; any other declaration is inert.
#[derive(Debug, Clone, PartialEq, Eq, Hash)]
pub enum Item {
    Struct { attrs: Vec<Annotation> },
    Trait { attrs: Vec<Annotation> },
    Module { attrs: Vec<Annotation> },
    Enum { attrs: Vec<Annotation> },
    Function { attrs: Vec<Annotation> },
    Other,
}

/// Mathematical model of an `Item`: its kind and its annotation list.
/// An `Other` node models with an empty list.
#[verifier::ext_equal]
pub ghost struct ItemV {
    pub kind: ItemKind,
    pub attrs: Seq<AnnV>,
}

/// Lifts a sequence of annotations to their models, pointwise.
pub open spec fn anns_view(attrs: Seq<Annotation>) -> Seq<AnnV> {
    Seq::new(attrs.len(), |i: int| attrs[i]@)
}

impl View for Item {
    type V = ItemV;

    open spec fn view(&self) -> ItemV {
        match self {
            Item::Struct { attrs } => ItemV { kind: ItemKind::Struct, attrs: anns_view(attrs@) },
            Item::Trait { attrs } => ItemV { kind: ItemKind::Trait, attrs: anns_view(attrs@) },
            Item::Module { attrs } => ItemV { kind: ItemKind::Module, attrs: anns_view(attrs@) },
            Item::Enum { attrs } => ItemV { kind: ItemKind::Enum, attrs: anns_view(attrs@) },
            Item::Function { attrs } => ItemV {
                kind: ItemKind::Function,
                attrs: anns_view(attrs@),
            },
            Item::Other => ItemV { kind: ItemKind::Other, attrs: Seq::empty() },
        }
    }
}

/// A node of kind `Other` is never eligible for marking.
pub open spec fn is_eligible(it: ItemV) -> bool {
    !(it.kind is Other)
}

/// Validity of a node model: an ineligible node carries no annotation list,
/// so its model's list is empty.
pub open spec fn item_inv(it: ItemV) -> bool {
    it.kind is Other ==> it.attrs.len() == 0
}

/// The model of every executable node is valid.
pub proof fn lemma_item_view_inv(it: Item)
    ensures
        item_inv(it@),
{
    match it {
        Item::Other => {
            assert(it@.attrs.len() == 0);
        }
        _ => {}
    }
}

/// Lifts a sequence of items to their models, pointwise.
pub open spec fn items_view(items: Seq<Item>) -> Seq<ItemV> {
    Seq::new(items.len(), |i: int| items[i]@)
}

/// The container of the declaration nodes of one module body, in source
/// order. A node is addressed by its index, which stays stable: extraction
/// mutates nodes in place and never reorders, inserts, or removes them.
#[derive(Debug, Clone)]
pub struct MacroScope {
    pub items: Vec<Item>,
}

impl View for MacroScope {
    type V = Seq<ItemV>;

    open spec fn view(&self) -> Seq<ItemV> {
        items_view(self.items@)
    }
}

impl MacroScope {
    /// Builds the container from the content of a parsed module: a module
    /// declared without inline content yields an empty container, which is a
    /// valid degenerate case, not an error.
    pub fn from_content(content: Option<Vec<Item>>) -> (r: MacroScope)
        ensures
            match content {
                Some(items) => r.items == items,
                None => r@ == Seq::<ItemV>::empty(),
            },
    {
        match content {
            Some(items) => MacroScope { items },
            None => MacroScope { items: Vec::new() },
        }
    }

    /// The number of declaration nodes held.
    pub fn len(&self) -> (n: usize)
        ensures
            n == self@.len(),
    {
        self.items.len()
    }

    /// Read access to the node at `index`.
    pub fn node(&self, index: usize) -> (r: &Item)
        requires
            index < self@.len(),
        ensures
            r@ == self@[index as int],
    {
        &self.items[index]
    }
}

impl Default for MacroScope {
    /// The empty container.
    fn default() -> (r: Self)
        ensures
            r@ == Seq::<ItemV>::empty(),
    {
        MacroScope { items: Vec::new() }
    }
}

} // verus!
