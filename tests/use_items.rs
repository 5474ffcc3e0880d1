use refactor_core::error::RewriteError;
use refactor_core::use_tree::{create_use_tree, UseEntry, UseKey, UseTree, UseTreeKind, UseValue};

fn idx(i: i64, s: &str) -> UseEntry {
    UseEntry { key: UseKey::Index(i), value: UseValue::Text(s.to_string()) }
}

fn named(n: &str, v: UseValue) -> UseEntry {
    UseEntry { key: UseKey::Name(n.to_string()), value: v }
}

fn path(p: &[&str]) -> Vec<String> {
    p.iter().map(|s| s.to_string()).collect()
}

#[test]
fn single_name_is_simple() {
    let t = create_use_tree(&vec![idx(1, "a")], None).unwrap();
    assert_eq!(t, UseTree { prefix: path(&["a"]), kind: UseTreeKind::Simple });
}

#[test]
fn several_names_nest_under_empty_prefix() {
    let t = create_use_tree(&vec![idx(1, "a"), idx(2, "b")], None).unwrap();
    assert_eq!(t.prefix, path(&[""]));
    match t.kind {
        UseTreeKind::Nested(v) => {
            assert_eq!(v.len(), 2);
            assert_eq!(v[1], UseTree { prefix: path(&["b"]), kind: UseTreeKind::Simple });
        }
        _ => panic!("expected a nested tree"),
    }
}

#[test]
fn module_table_prefixes_its_item() {
    let t = create_use_tree(&vec![named("std", UseValue::Table(vec![idx(1, "fmt")]))], None).unwrap();
    assert_eq!(t, UseTree { prefix: path(&["std", "fmt"]), kind: UseTreeKind::Simple });
}

#[test]
fn star_is_a_glob() {
    let t = create_use_tree(&vec![named("io", UseValue::Text("*".to_string()))], None).unwrap();
    assert_eq!(t, UseTree { prefix: path(&["io"]), kind: UseTreeKind::Glob });
}

#[test]
fn nested_module_with_several_items() {
    let t = create_use_tree(&vec![named("std", UseValue::Table(vec![idx(1, "fmt"), idx(2, "io")]))], None).unwrap();
    assert_eq!(t.prefix, path(&["std"]));
    assert!(matches!(t.kind, UseTreeKind::Nested(ref v) if v.len() == 2));
}

#[test]
fn wrong_shapes_are_errors() {
    assert_eq!(create_use_tree(&vec![named("io", UseValue::Text("x".to_string()))], None), Err(RewriteError::UseTreeValue));
    assert_eq!(create_use_tree(&vec![UseEntry { key: UseKey::Index(1), value: UseValue::Table(vec![]) }], None), Err(RewriteError::UseTreeValue));
    assert_eq!(create_use_tree(&vec![named("io", UseValue::Other)], None), Err(RewriteError::UseTreeValue));
    assert_eq!(create_use_tree(&vec![UseEntry { key: UseKey::Other, value: UseValue::Text("a".to_string()) }], None), Err(RewriteError::UseTreeKey));
}
