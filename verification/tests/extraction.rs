use mark_extract::ast::{Annotation, Item, MacroScope};
use mark_extract::engine::get_items_by_mark_prefix;
use mark_extract::extract::find_attribute;
use mark_extract::groups::MarkedItem;
use mark_extract::text::{str_contains, str_eq};

fn ann(name: &str) -> Annotation {
    Annotation::new(vec![name.to_string()])
}

fn ann_segments(segments: &[&str]) -> Annotation {
    Annotation::new(segments.iter().map(|s| s.to_string()).collect())
}

fn attrs_of(item: &Item) -> Vec<String> {
    let list = match item {
        Item::Struct { attrs } => attrs,
        Item::Trait { attrs } => attrs,
        Item::Module { attrs } => attrs,
        Item::Enum { attrs } => attrs,
        Item::Function { attrs } => attrs,
        Item::Other => return Vec::new(),
    };
    list.iter().map(|a| a.path.join("::")).collect()
}

#[test]
fn empty_module_body_yields_empty_map() {
    let mut scope = MacroScope::from_content(None);
    let map = get_items_by_mark_prefix(&mut scope, "mark");
    assert!(map.is_empty());
    assert_eq!(map.len(), 0);
    assert!(map.get("mark").is_none());
}

#[test]
fn empty_item_list_yields_empty_map() {
    let mut scope = MacroScope::from_content(Some(Vec::new()));
    let map = get_items_by_mark_prefix(&mut scope, "mark");
    assert!(map.is_empty());
}

#[test]
fn ineligible_only_yields_empty_map() {
    let mut scope = MacroScope::from_content(Some(vec![Item::Other, Item::Other]));
    let map = get_items_by_mark_prefix(&mut scope, "mark");
    assert!(map.is_empty());
    assert_eq!(scope.items, vec![Item::Other, Item::Other]);
}

#[test]
fn exact_identifier_lands_in_own_bucket() {
    let mut scope =
        MacroScope::from_content(Some(vec![Item::Struct { attrs: vec![ann("mark")] }]));
    let map = get_items_by_mark_prefix(&mut scope, "mark");
    assert_eq!(map.len(), 1);
    let bucket = map.get("mark").expect("bucket for the exact identifier");
    assert_eq!(bucket.len(), 1);
    assert_eq!(bucket[0].item, 0);
    assert_eq!(bucket[0].mark.path, vec!["mark".to_string()]);
    assert_eq!(attrs_of(&scope.items[0]), Vec::<String>::new());
}

#[test]
fn proper_substring_keys_full_identifier() {
    let mut scope =
        MacroScope::from_content(Some(vec![Item::Struct { attrs: vec![ann("my_mark_v2")] }]));
    let map = get_items_by_mark_prefix(&mut scope, "mark");
    assert!(map.get("mark").is_none());
    let bucket = map.get("my_mark_v2").expect("bucket under the full identifier");
    assert_eq!(bucket.len(), 1);
    assert_eq!(bucket[0].item, 0);
    assert_eq!(bucket[0].mark.path, vec!["my_mark_v2".to_string()]);
}

#[test]
fn second_pass_after_exhaustion_is_empty() {
    let mut scope = MacroScope::from_content(Some(vec![
        Item::Struct { attrs: vec![ann("mark_x")] },
        Item::Function { attrs: vec![ann("mark_y")] },
    ]));
    let first = get_items_by_mark_prefix(&mut scope, "mark");
    assert_eq!(first.len(), 2);
    let items_after_first = scope.items.clone();
    let second = get_items_by_mark_prefix(&mut scope, "mark");
    assert!(second.is_empty());
    assert_eq!(scope.items, items_after_first);
}

#[test]
fn bucket_keeps_source_order() {
    let mut scope = MacroScope::from_content(Some(vec![
        Item::Struct { attrs: vec![ann("mark_x")] },
        Item::Struct { attrs: Vec::new() },
        Item::Enum { attrs: vec![ann("mark_x")] },
        Item::Other,
        Item::Function { attrs: vec![ann("mark_x")] },
    ]));
    let map = get_items_by_mark_prefix(&mut scope, "mark");
    let bucket = map.get("mark_x").expect("bucket");
    let nodes: Vec<usize> = bucket.iter().map(|e| e.item).collect();
    assert_eq!(nodes, vec![0, 2, 4]);
}

#[test]
fn removal_is_destructive_and_local() {
    let mut scope = MacroScope::from_content(Some(vec![Item::Trait {
        attrs: vec![ann("plain"), ann("mark_a"), ann("mark_b")],
    }]));
    let map = get_items_by_mark_prefix(&mut scope, "mark");
    let bucket = map.get("mark_a").expect("first qualifying annotation");
    assert_eq!(bucket.len(), 1);
    assert_eq!(
        attrs_of(&scope.items[0]),
        vec!["plain".to_string(), "mark_b".to_string()]
    );
    let again = get_items_by_mark_prefix(&mut scope, "mark");
    assert!(again.get("mark_a").is_none());
    let bucket_b = again.get("mark_b").expect("next annotation on the re-scan");
    assert_eq!(bucket_b.len(), 1);
    assert_eq!(attrs_of(&scope.items[0]), vec!["plain".to_string()]);
}

#[test]
fn multi_annotation_node_takes_two_calls() {
    let mut scope = MacroScope::from_content(Some(vec![Item::Struct {
        attrs: vec![ann("feature_a"), ann("feature_b")],
    }]));
    let first = get_items_by_mark_prefix(&mut scope, "feature");
    assert_eq!(first.len(), 1);
    let a = first.get("feature_a").expect("first call removes the first annotation");
    assert_eq!(a[0].item, 0);
    assert!(first.get("feature_b").is_none());
    assert_eq!(attrs_of(&scope.items[0]), vec!["feature_b".to_string()]);
    let second = get_items_by_mark_prefix(&mut scope, "feature");
    let b = second.get("feature_b").expect("second call removes the second annotation");
    assert_eq!(b[0].item, 0);
    assert!(second.get("feature_a").is_none());
    assert_eq!(attrs_of(&scope.items[0]), Vec::<String>::new());
    let third = get_items_by_mark_prefix(&mut scope, "feature");
    assert!(third.is_empty());
}

#[test]
fn tie_break_takes_first_in_list_order() {
    let mut scope = MacroScope::from_content(Some(vec![Item::Module {
        attrs: vec![ann("mark_b"), ann("mark_a")],
    }]));
    let map = get_items_by_mark_prefix(&mut scope, "mark");
    assert!(map.get("mark_b").is_some());
    assert!(map.get("mark_a").is_none());
    assert_eq!(attrs_of(&scope.items[0]), vec!["mark_a".to_string()]);
}

#[test]
fn ineligible_kind_is_never_returned() {
    let mut scope = MacroScope::from_content(Some(vec![
        Item::Other,
        Item::Struct { attrs: vec![ann("mark_x")] },
    ]));
    let map = get_items_by_mark_prefix(&mut scope, "mark");
    let bucket = map.get("mark_x").expect("bucket");
    assert_eq!(bucket.len(), 1);
    assert_eq!(bucket[0].item, 1);
    assert_eq!(scope.items[0], Item::Other);
}

#[test]
fn module_body_scenario() {
    // { #[mark_x] struct A; struct B; #[mark_y] fn c() {} }
    let mut scope = MacroScope::from_content(Some(vec![
        Item::Struct { attrs: vec![ann("mark_x")] },
        Item::Struct { attrs: Vec::new() },
        Item::Function { attrs: vec![ann("mark_y")] },
    ]));
    let map = get_items_by_mark_prefix(&mut scope, "mark");
    assert_eq!(map.len(), 2);
    let x = map.get("mark_x").expect("mark_x bucket");
    assert_eq!(x.len(), 1);
    assert_eq!(x[0].item, 0);
    assert_eq!(x[0].mark.path, vec!["mark_x".to_string()]);
    let y = map.get("mark_y").expect("mark_y bucket");
    assert_eq!(y.len(), 1);
    assert_eq!(y[0].item, 2);
    assert_eq!(y[0].mark.path, vec!["mark_y".to_string()]);
    assert_eq!(scope.items[0], Item::Struct { attrs: Vec::new() });
    assert_eq!(scope.items[1], Item::Struct { attrs: Vec::new() });
    assert_eq!(scope.items[2], Item::Function { attrs: Vec::new() });
}

#[test]
fn multi_segment_path_never_matches() {
    let mut scope = MacroScope::from_content(Some(vec![Item::Struct {
        attrs: vec![ann_segments(&["outer", "mark_x"]), ann_segments(&[])],
    }]));
    let map = get_items_by_mark_prefix(&mut scope, "mark");
    assert!(map.is_empty());
    assert_eq!(
        attrs_of(&scope.items[0]),
        vec!["outer::mark_x".to_string(), String::new()]
    );
}

#[test]
fn annotation_ident_is_the_single_segment() {
    assert_eq!(ann("mark").ident(), Some(&"mark".to_string()));
    assert_eq!(ann_segments(&["a", "b"]).ident(), None);
    assert_eq!(ann_segments(&[]).ident(), None);
}

#[test]
fn find_attribute_reports_first_match_and_identifier() {
    let attrs = vec![ann("plain"), ann_segments(&["path", "mark"]), ann("foo_mark"), ann("mark")];
    assert_eq!(find_attribute(&attrs, "mark"), Some((2, "foo_mark".to_string())));
    assert_eq!(find_attribute(&attrs, "absent"), None);
    assert_eq!(find_attribute(&Vec::new(), "mark"), None);
}

#[test]
fn marked_item_new_keeps_its_parts() {
    let m = MarkedItem::new(ann("mark_x"), 7usize);
    assert_eq!(m.mark, ann("mark_x"));
    assert_eq!(m.item, 7);
}

#[test]
fn from_content_keeps_source_order() {
    let items = vec![
        Item::Enum { attrs: vec![ann("a")] },
        Item::Other,
        Item::Trait { attrs: Vec::new() },
    ];
    let scope = MacroScope::from_content(Some(items.clone()));
    assert_eq!(scope.items, items);
    assert_eq!(scope.len(), 3);
    assert_eq!(scope.node(1), &Item::Other);
    let empty = MacroScope::default();
    assert_eq!(empty.len(), 0);
}

#[test]
fn string_predicates() {
    assert!(str_contains("my_mark_v2", "mark"));
    assert!(str_contains("mark", "mark"));
    assert!(str_contains("anything", ""));
    assert!(!str_contains("mar", "mark"));
    assert!(!str_contains("Mark", "mark"));
    assert!(str_eq("mark", "mark"));
    assert!(!str_eq("mark", "mark_x"));
}
