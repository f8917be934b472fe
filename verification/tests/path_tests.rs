use pathrouter::path::same_texts;
use pathrouter::{join_path, split_path};

fn list(items: &[&str]) -> Vec<String> {
    items.iter().map(|s| s.to_string()).collect()
}

#[test]
fn split_path_drops_empty_components() {
    assert_eq!(split_path("/x/y"), list(&["x", "y"]));
    assert_eq!(split_path("x/y"), list(&["x", "y"]));
    assert_eq!(split_path("/x//y/"), list(&["x", "y"]));
    assert_eq!(split_path("///"), list(&[]));
    assert_eq!(split_path(""), list(&[]));
    assert_eq!(split_path("/"), list(&[]));
    assert_eq!(split_path("x"), list(&["x"]));
}

#[test]
fn split_path_reads_text_by_characters() {
    assert_eq!(split_path("/caf\u{e9}/\u{fc}ber"), list(&["caf\u{e9}", "\u{fc}ber"]));
}

#[test]
fn join_path_puts_one_slash_between_neighbours() {
    assert_eq!(join_path(&list(&[])), "");
    assert_eq!(join_path(&list(&["a"])), "a");
    assert_eq!(join_path(&list(&["a", "42"])), "a/42");
    assert_eq!(join_path(&list(&["a", "b", "c"])), "a/b/c");
}

#[test]
fn split_then_join_gives_canonical_path() {
    assert_eq!(join_path(&split_path("/x//y/")), "x/y");
    assert_eq!(join_path(&split_path("x/y")), "x/y");
    assert_eq!(join_path(&split_path("a/b/c")), "a/b/c");
}

#[test]
fn join_then_split_gives_back_segments() {
    let segments = list(&["a", "42", "x"]);
    assert_eq!(split_path(&join_path(&segments)), segments);
}

#[test]
fn same_texts_compares_in_order() {
    assert!(same_texts(&list(&["a", "b"]), &list(&["a", "b"])));
    assert!(!same_texts(&list(&["a", "b"]), &list(&["b", "a"])));
    assert!(!same_texts(&list(&["a"]), &list(&["a", "b"])));
    assert!(same_texts(&list(&[]), &list(&[])));
}
