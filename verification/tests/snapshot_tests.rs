use cdn::snapshot::Snapshot;

fn pairs(raw: Vec<(&str, &str)>) -> Vec<(String, String)> {
    let mut out = Vec::new();
    for (k, v) in raw {
        out.push((k.to_string(), v.to_string()));
    }
    out
}

#[test]
fn keys_come_out_sorted() {
    let snap = Snapshot::from_pairs(pairs(vec![("b", "2"), ("a", "1"), ("c", "3")]));
    assert_eq!(snap.keys(), vec!["a", "b", "c"]);
}

#[test]
fn later_pair_for_same_key_wins() {
    let snap = Snapshot::from_pairs(pairs(vec![("k", "old"), ("k", "new")]));
    assert_eq!(snap.keys(), vec!["k"]);
    assert_eq!(snap.get(&"k".to_string()), Some(&"new".to_string()));
}

#[test]
fn get_present_and_absent() {
    let snap = Snapshot::from_pairs(pairs(vec![("button:primary", "a")]));
    assert_eq!(
        snap.get(&"button:primary".to_string()),
        Some(&"a".to_string())
    );
    assert_eq!(snap.get(&"button:secondary".to_string()), None);
}

#[test]
fn empty_snapshot_has_no_keys() {
    let snap = Snapshot::new();
    assert_eq!(snap.keys(), Vec::<String>::new());
    assert_eq!(snap.get(&"anything".to_string()), None);
}
