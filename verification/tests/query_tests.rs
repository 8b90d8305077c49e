use cdn::query::query_to_paths;

#[test]
fn test_query_to_paths() {
    assert_eq!(
        query_to_paths("button:primary".to_string()),
        vec!["button:primary"]
    );
    assert_eq!(
        query_to_paths("button:primary|secondary".to_string()),
        vec!["button:primary", "button:secondary"]
    );
}

#[test]
fn scoped_pipe_branching_preserves_order() {
    assert_eq!(
        query_to_paths("card:top|middle|bottom".to_string()),
        vec!["card:top", "card:middle", "card:bottom"]
    );
}

#[test]
fn top_level_pipe_branching() {
    assert_eq!(query_to_paths("reset|base".to_string()), vec!["reset", "base"]);
}

#[test]
fn fragments_expand_independently_in_order() {
    assert_eq!(
        query_to_paths("X,Y:a|b".to_string()),
        vec!["X", "Y:a", "Y:b"]
    );
    assert_eq!(
        query_to_paths("nav:wide|narrow,reset,footer:dark".to_string()),
        vec!["nav:wide", "nav:narrow", "reset", "footer:dark"]
    );
}

#[test]
fn empty_query_yields_no_keys() {
    assert_eq!(query_to_paths("".to_string()), Vec::<String>::new());
}

#[test]
fn empty_fragments_are_dropped() {
    assert_eq!(query_to_paths("a,,b".to_string()), vec!["a", "b"]);
    assert_eq!(query_to_paths("a,".to_string()), vec!["a"]);
    assert_eq!(query_to_paths(",a".to_string()), vec!["a"]);
}

#[test]
fn split_happens_at_the_last_colon() {
    assert_eq!(
        query_to_paths("a:b:c|d".to_string()),
        vec!["a:b:c", "a:b:d"]
    );
}

#[test]
fn pipe_alone_yields_empty_names() {
    assert_eq!(query_to_paths("|".to_string()), vec!["", ""]);
}
