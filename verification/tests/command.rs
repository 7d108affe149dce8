use dataflow::command::extract;

fn args(list: &[&str]) -> Vec<String> {
    list.iter().map(|s| s.to_string()).collect()
}

#[test]
fn the_name_follows_the_marker() {
    assert_eq!(extract(args(&["program", "name=word-count"])), Some("word-count".to_string()));
    assert_eq!(extract(args(&["name=iteration"])), Some("iteration".to_string()));
}

#[test]
fn without_a_marker_there_is_no_name() {
    assert_eq!(extract(args(&[])), None);
    assert_eq!(extract(args(&["program", "-w", "2"])), None);
    assert_eq!(extract(args(&["name", "ame=x", "nam=e", "NAME=x", ""])), None);
}

#[test]
fn the_first_argument_with_a_marker_decides() {
    assert_eq!(
        extract(args(&["program", "none", "name=first", "name=second"])),
        Some("first".to_string())
    );
}

#[test]
fn the_marker_may_stand_anywhere_in_the_argument() {
    assert_eq!(extract(args(&["--name=progress"])), Some("progress".to_string()));
    assert_eq!(extract(args(&["xname=name=y"])), Some("name=y".to_string()));
    assert_eq!(extract(args(&["name="])), Some(String::new()));
    assert_eq!(extract(args(&["nname="])), Some(String::new()));
    assert_eq!(extract(args(&["é→name=ß∂"])), Some("ß∂".to_string()));
}
