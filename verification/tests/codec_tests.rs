use todos::codec::parse;
use todos::codec::serialize;
use todos::codec::ParseError;
use todos::todo::Todo;

fn item(title: &str, description: Option<&str>, done: bool) -> Todo {
    Todo::new(
        title.to_string(),
        description.map(|d| d.to_string()),
        Some(done),
    )
}

#[test]
fn empty_list_serializes_to_empty_document() {
    let todos: Vec<Todo> = Vec::new();
    assert_eq!(serialize(&todos), "");
}

#[test]
fn empty_document_parses_to_empty_list() {
    let parsed = parse("").expect("empty document must parse");
    assert_eq!(parsed.len(), 0);
}

#[test]
fn single_item_block_layout() {
    let todos = vec![item("Buy milk", None, false)];
    assert_eq!(serialize(&todos), "# [ ] Buy milk\n");
}

#[test]
fn done_item_serializes_with_x_marker() {
    let todos = vec![item("Buy milk", None, true)];
    assert_eq!(serialize(&todos), "# [X] Buy milk\n");
}

#[test]
fn two_items_are_joined_by_the_divider() {
    let todos = vec![item("a", Some("first"), false), item("b", None, true)];
    assert_eq!(serialize(&todos), "# [ ] a\nfirst\n\n<!---->\n\n# [X] b\n");
}

#[test]
fn round_trip_preserves_title_description_done() {
    let todos = vec![
        item("Buy milk", None, false),
        item("Write report", Some("two pages\nby monday"), true),
        item("Call [home] later", Some("after 6"), false),
    ];
    let parsed = parse(&serialize(&todos)).expect("round trip must parse");
    assert_eq!(parsed.len(), todos.len());
    for (a, b) in todos.iter().zip(parsed.iter()) {
        assert_eq!(a.title, b.title);
        assert_eq!(a.description, b.description);
        assert_eq!(a.done, b.done);
        assert_eq!(b.id, None);
    }
}

#[test]
fn completion_marker_other_than_x_parses_as_not_done() {
    for doc in ["# [ ] t\n", "# [x] t\n", "# [?] t\n", "# [] t\n"] {
        let parsed = parse(doc).expect("header must parse");
        assert_eq!(parsed.len(), 1);
        assert!(!parsed[0].done, "doc {:?} must parse as not done", doc);
        assert_eq!(parsed[0].title, "t");
    }
    let parsed = parse("# [X] t\n").expect("header must parse");
    assert!(parsed[0].done);
}

#[test]
fn empty_description_serializes_like_absent_description() {
    let with_empty = vec![item("t", Some(""), false)];
    let with_none = vec![item("t", None, false)];
    assert_eq!(serialize(&with_empty), serialize(&with_none));
    let parsed = parse(&serialize(&with_empty)).expect("must parse");
    assert_eq!(parsed[0].description, None);
}

#[test]
fn malformed_header_fails_the_whole_parse() {
    let r = parse("not a valid header");
    assert!(matches!(r, Err(ParseError::MalformedHeader)));
}

#[test]
fn malformed_second_block_returns_no_items() {
    let doc = "# [ ] fine\n\n\n<!---->\n\nnot a valid header";
    let r = parse(doc);
    assert!(matches!(r, Err(ParseError::MalformedHeader)));
}

#[test]
fn only_the_first_closing_bracket_is_honoured() {
    let parsed = parse("# [X] do [not] drop this\n").expect("must parse");
    assert_eq!(parsed[0].title, "do [not] drop this");
    assert!(parsed[0].done);
}

#[test]
fn blank_lines_in_a_block_are_dropped() {
    let parsed = parse("# [ ] t\n\ndesc line").expect("must parse");
    assert_eq!(parsed[0].description.as_deref(), Some("desc line"));
}

#[test]
fn description_is_trimmed_and_empty_normalized() {
    let parsed = parse("# [ ] t\n   hello   ").expect("must parse");
    assert_eq!(parsed[0].description.as_deref(), Some("hello"));
    let parsed = parse("# [ ] t\n   \t  ").expect("must parse");
    assert_eq!(parsed[0].description, None);
}

#[test]
fn header_whitespace_between_parts_is_accepted() {
    let parsed = parse("#   [X]   spaced title\n").expect("must parse");
    assert_eq!(parsed[0].title, "spaced title");
    assert!(parsed[0].done);
}

#[test]
fn to_md_matches_the_serialized_block() {
    let t = item("Buy milk", Some("semi-skimmed"), false);
    assert_eq!(t.to_md(), "# [ ] Buy milk\nsemi-skimmed");
    let d = item("x", None, true);
    assert_eq!(d.to_md(), "# [X] x\n");
}
