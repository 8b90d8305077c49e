use cdn::snapshot::Snapshot;
use cdn::store::{css_body, list_body, watcher_step, CacheStore};

fn pairs(raw: Vec<(&str, &str)>) -> Vec<(String, String)> {
    let mut out = Vec::new();
    for (k, v) in raw {
        out.push((k.to_string(), v.to_string()));
    }
    out
}

#[test]
fn store_serves_the_current_snapshot() {
    let store = CacheStore::new(Snapshot::from_pairs(pairs(vec![
        ("button:primary", "a"),
        ("button:secondary", "b"),
    ])));
    assert_eq!(css_body(&store, "button:primary|secondary".to_string()), "ab");
    assert_eq!(list_body(&store), "button:primary\nbutton:secondary");
}

#[test]
fn successful_compile_replaces_the_snapshot_wholesale() {
    let store = CacheStore::new(Snapshot::from_pairs(pairs(vec![("a", "old")])));
    assert_eq!(css_body(&store, "a".to_string()), "old");
    let installed = watcher_step(&store, Some(pairs(vec![("a", "new"), ("b", "2")])));
    assert!(installed);
    assert_eq!(css_body(&store, "a,b".to_string()), "new2");
    assert_eq!(list_body(&store), "a\nb");
}

#[test]
fn failed_compile_keeps_the_previous_snapshot() {
    let store = CacheStore::new(Snapshot::from_pairs(pairs(vec![("a", "1")])));
    let installed = watcher_step(&store, None);
    assert!(!installed);
    assert_eq!(css_body(&store, "a".to_string()), "1");
    assert_eq!(list_body(&store), "a");
}

#[test]
fn reads_see_one_snapshot_whole_never_a_mix() {
    let store = CacheStore::new(Snapshot::from_pairs(pairs(vec![
        ("x", "old1"),
        ("y", "old2"),
    ])));
    assert_eq!(css_body(&store, "x,y".to_string()), "old1old2");
    watcher_step(&store, Some(pairs(vec![("x", "new1"), ("y", "new2")])));
    let body = css_body(&store, "x,y".to_string());
    assert!(body == "new1new2" || body == "old1old2");
    assert_eq!(body, "new1new2");
}

#[test]
fn store_starts_empty_before_the_first_compile() {
    let store = CacheStore::new(Snapshot::new());
    assert_eq!(css_body(&store, "a|b".to_string()), "");
    assert_eq!(list_body(&store), "");
}
