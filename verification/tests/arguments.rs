use imgap::args::{is_interactive, parse_args, resolve_paths};

fn strings(args: &[&str]) -> Vec<String> {
    args.iter().map(|a| a.to_string()).collect()
}

#[test]
fn options_may_stand_anywhere() {
    let a = parse_args(&strings(&["imgap", "a.png", "-r", "kitty", "b.png", "-i"])).unwrap();
    assert_eq!(a.renderer, Some("kitty".to_string()));
    assert!(a.interactive);
    assert_eq!(a.others, strings(&["a.png", "b.png"]));
}

#[test]
fn last_renderer_counts() {
    let a = parse_args(&strings(&["imgap", "-r", "kitty", "-r", "-i", "x"])).unwrap();
    assert_eq!(a.renderer, Some("-i".to_string()));
    assert!(!a.interactive);
    assert_eq!(a.others, strings(&["x"]));
}

#[test]
fn plain_arguments_keep_their_order() {
    let a = parse_args(&strings(&["imgap", "3", "1", "2"])).unwrap();
    assert_eq!(a.others, strings(&["3", "1", "2"]));
    assert_eq!(a.renderer, None);
    assert!(!a.interactive);
    assert!(parse_args(&strings(&["imgap"])).unwrap().others.is_empty());
    assert!(parse_args(&Vec::new()).unwrap().others.is_empty());
}

#[test]
fn renderer_needs_a_value() {
    assert!(parse_args(&strings(&["imgap", "a", "-r"])).is_none());
    assert!(parse_args(&strings(&["imgap", "-i", "a", "b", "-r"])).is_none());
}

#[test]
fn paths_come_from_the_arguments() {
    let two = strings(&["a", "b"]);
    assert_eq!(
        resolve_paths(&two, Some("l".to_string()), Some("r".to_string())),
        Some(("a".to_string(), "b".to_string()))
    );
    let seven = strings(&["path", "old", "hex", "mode", "new", "hex", "mode"]);
    assert_eq!(resolve_paths(&seven, None, None), Some(("old".to_string(), "new".to_string())));
}

#[test]
fn paths_come_from_the_variables_without_arguments() {
    let none = Vec::new();
    let (l, r) = (Some("l".to_string()), Some("r".to_string()));
    assert_eq!(
        resolve_paths(&none, l.clone(), r.clone()),
        Some(("l".to_string(), "r".to_string()))
    );
    assert_eq!(resolve_paths(&none, l.clone(), None), None);
    assert_eq!(resolve_paths(&none, None, r.clone()), None);
    assert_eq!(resolve_paths(&strings(&["a"]), l.clone(), r.clone()), None);
    assert_eq!(resolve_paths(&strings(&["a", "b", "c"]), l, r), None);
}

#[test]
fn difftool_is_interactive() {
    assert!(!is_interactive(false, false));
    assert!(is_interactive(true, false));
    assert!(is_interactive(false, true));
    assert!(is_interactive(true, true));
}
