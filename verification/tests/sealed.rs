use dataflow::sealed::{ClosedBox, OpenBox};

#[test]
fn an_open_box_shows_its_contents() {
    let mut open = OpenBox { contents: "public information" };
    assert_eq!(open.contents, "public information");
    open.contents = "changed";
    assert_eq!(open.contents, "changed");
}

#[test]
fn a_closed_box_is_built_by_its_constructor() {
    let _closed: ClosedBox<&str> = ClosedBox::new("classified information");
    let _nested = ClosedBox::new(OpenBox { contents: 7u8 });
}
