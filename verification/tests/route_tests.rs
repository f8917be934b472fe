use pathrouter::{Route, RouteMatch};

fn path_of(items: &[&str]) -> Vec<String> {
    items.iter().map(|s| s.to_string()).collect()
}

fn first_view() -> u32 {
    1
}

fn second_view() -> u32 {
    2
}

fn route(pattern: &str) -> Route<fn() -> u32> {
    Route::new(pattern, first_view)
}

#[test]
fn match_with_param_and_remainder() {
    let r = route("a/{id}/...");
    let m = r.matches(&path_of(&["a", "42", "x", "y"])).unwrap();
    assert_eq!(m.path(), "a/42");
    assert_eq!(m.param("id").map(|s| s.as_str()), Some("42"));
    assert_eq!(m.param("other"), None);
    assert_eq!(m.remainder(), path_of(&["x", "y"]));
}

#[test]
fn closed_pattern_rejects_other_lengths() {
    let r = route("a/{id}");
    assert!(r.matches(&path_of(&["a"])).is_none());
    assert!(r.matches(&path_of(&["a", "1", "x"])).is_none());
    assert!(r.matches(&path_of(&[])).is_none());
    assert!(r.matches(&path_of(&["a", "1"])).is_some());
}

#[test]
fn static_segment_must_be_equal() {
    let r = route("a/b");
    assert!(r.matches(&path_of(&["a", "b"])).is_some());
    assert!(r.matches(&path_of(&["a", "c"])).is_none());
    assert!(r.matches(&path_of(&["b", "a"])).is_none());
}

#[test]
fn closed_match_has_empty_remainder() {
    let m = route("a/b").matches(&path_of(&["a", "b"])).unwrap();
    assert_eq!(m.path(), "a/b");
    assert_eq!(m.remainder(), path_of(&[]));
}

#[test]
fn wildcard_takes_no_or_many_segments() {
    let r = route("a/...");
    let none_left = r.matches(&path_of(&["a"])).unwrap();
    assert_eq!(none_left.path(), "a");
    assert_eq!(none_left.remainder(), path_of(&[]));
    let many_left = r.matches(&path_of(&["a", "x", "y", "z"])).unwrap();
    assert_eq!(many_left.path(), "a");
    assert_eq!(many_left.remainder(), path_of(&["x", "y", "z"]));
    assert!(r.matches(&path_of(&[])).is_none());
    assert!(r.matches(&path_of(&["b", "x"])).is_none());
}

#[test]
fn lone_wildcard_matches_every_path() {
    let r = route("...");
    let empty = r.matches(&path_of(&[])).unwrap();
    assert_eq!(empty.path(), "");
    assert_eq!(empty.remainder(), path_of(&[]));
    let full = r.matches(&path_of(&["x", "y"])).unwrap();
    assert_eq!(full.path(), "");
    assert_eq!(full.remainder(), path_of(&["x", "y"]));
}

#[test]
fn empty_pattern_matches_only_empty_path() {
    let r = route("");
    assert!(r.matches(&path_of(&[])).is_some());
    assert!(r.matches(&path_of(&["x"])).is_none());
}

#[test]
fn repeated_param_name_keeps_last_value() {
    let m = route("{x}/{x}").matches(&path_of(&["1", "2"])).unwrap();
    assert_eq!(m.param("x").map(|s| s.as_str()), Some("2"));
    assert_eq!(m.path(), "1/2");
}

#[test]
fn first_matching_route_in_list_wins() {
    let by_id: Route<fn() -> u32> = Route::new("a/{id}", first_view);
    let by_name: Route<fn() -> u32> = Route::new("a/b", second_view);
    let sample = path_of(&["a", "b"]);
    assert!(by_id.matches(&sample).is_some());
    assert!(by_name.matches(&sample).is_some());

    let routes = vec![by_id.clone(), by_name.clone()];
    let found = routes.iter().find_map(|r| r.matches(&sample)).unwrap();
    assert_eq!(found.route().resolve(), 1);
    assert_eq!(found.param("id").map(|s| s.as_str()), Some("b"));

    let routes = vec![by_name, by_id];
    let found = routes.iter().find_map(|r| r.matches(&sample)).unwrap();
    assert_eq!(found.route().resolve(), 2);
    assert_eq!(found.param("id"), None);
}

#[test]
fn matching_again_gives_equal_match() {
    let r = route("a/{id}/...");
    let sample = path_of(&["a", "42", "x"]);
    let first = r.matches(&sample).unwrap();
    let second = r.matches(&sample).unwrap();
    assert!(first == second);
    assert_eq!(first.path(), second.path());
    assert_eq!(first.remainder(), second.remainder());
    assert_eq!(first.param("id"), second.param("id"));
    assert!(r.matches(&path_of(&["b"])).is_none());
    assert!(r.matches(&path_of(&["b"])).is_none());
}

#[test]
fn matches_are_equal_by_consumed_path_alone() {
    let sample = path_of(&["a", "1", "x"]);
    let with_id = route("a/{id}/...").matches(&sample).unwrap();
    let with_name = route("a/{name}").matches(&path_of(&["a", "1"])).unwrap();
    assert!(with_id == with_name);
    assert_eq!(with_id.remainder(), path_of(&["x"]));
    assert_eq!(with_name.remainder(), path_of(&[]));
    assert_eq!(with_name.param("id"), None);
    let other = route("a/{id}/...").matches(&path_of(&["a", "2", "x"])).unwrap();
    assert!(with_id != other);
}

#[test]
fn fresh_match_is_empty() {
    let r = route("a/{id}");
    let fresh = RouteMatch::from(&r);
    assert_eq!(fresh.path(), "");
    assert_eq!(fresh.remainder(), path_of(&[]));
    assert_eq!(fresh.param("id"), None);
    assert!(fresh.route().matches(&path_of(&["a", "1"])).is_some());
}

#[test]
fn match_keeps_its_route() {
    let r: Route<fn() -> u32> = Route::new("a/{id}", second_view);
    let m = r.matches(&path_of(&["a", "7"])).unwrap();
    assert_eq!(m.route().resolve(), 2);
    assert!(m.route().matches(&path_of(&["a", "8"])).is_some());
    assert!(m.route().matches(&path_of(&["b", "8"])).is_none());
}

#[test]
fn resolve_calls_the_resolver() {
    assert_eq!(route("a").resolve(), 1);
    let counted = Route::new("a", || 40 + 2);
    assert_eq!(counted.resolve(), 42);
}

#[test]
fn route_clone_matches_alike() {
    let r = route("a/{id}/...");
    let copy = r.clone();
    let sample = path_of(&["a", "1", "z"]);
    assert!(r.matches(&sample).unwrap() == copy.matches(&sample).unwrap());
    assert_eq!(copy.resolve(), 1);
}

#[test]
fn remainder_feeds_a_nested_route() {
    let parent = route("shop/...");
    let child = route("item/{id}");
    let outer = parent.matches(&path_of(&["shop", "item", "9"])).unwrap();
    let inner = child.matches(&outer.remainder()).unwrap();
    assert_eq!(inner.path(), "item/9");
    assert_eq!(inner.param("id").map(|s| s.as_str()), Some("9"));
}

#[test]
fn match_divides_the_path() {
    let sample = path_of(&["a", "42", "x", "y"]);
    let m = route("a/{id}/...").matches(&sample).unwrap();
    let mut whole = pathrouter::split_path(&m.path());
    whole.extend(m.remainder());
    assert_eq!(whole, sample);
}

#[test]
fn match_compares_text_by_characters() {
    let r = route("caf\u{e9}/{n}");
    let m = r.matches(&path_of(&["caf\u{e9}", "\u{fc}"])).unwrap();
    assert_eq!(m.path(), "caf\u{e9}/\u{fc}");
    assert_eq!(m.param("n").map(|s| s.as_str()), Some("\u{fc}"));
    assert!(r.matches(&path_of(&["cafe", "x"])).is_none());
}
