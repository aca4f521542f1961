use todos::action::parse_id;
use todos::action::todo_from_params;
use todos::action::Action;
use todos::codec::serialize;
use todos::codec::ParseError;
use todos::codec::TodoMarkdown;
use todos::store::TodoStore;
use todos::todo::Todo;

fn item(title: &str, description: Option<&str>, done: bool) -> Todo {
    Todo::new(
        title.to_string(),
        description.map(|d| d.to_string()),
        Some(done),
    )
}

#[test]
fn add_then_list_then_done_end_to_end() {
    let mut store = TodoStore::new();
    let id = store.add(&item("Buy milk", None, false));
    assert_eq!(id, 1);

    let all = store.get_all();
    assert_eq!(all.len(), 1);
    assert_eq!(all[0].title, "Buy milk");
    assert_eq!(all[0].description, None);
    assert!(!all[0].done);
    assert_eq!(all[0].id, Some(1));
    assert_eq!(serialize(&all), "# [ ] Buy milk\n");

    store.done(id);
    let all = store.get_all();
    assert!(all[0].done);
    assert_eq!(serialize(&all), "# [X] Buy milk\n");
}

#[test]
fn add_normalizes_an_empty_description_to_absent() {
    let mut store = TodoStore::new();
    store.add(&item("t", Some(""), false));
    assert_eq!(store.get_all()[0].description, None);
}

#[test]
fn selections_split_done_from_undone() {
    let mut store = TodoStore::new();
    store.add(&item("a", None, false));
    store.add(&item("b", None, true));
    store.add(&item("c", None, false));
    let done: Vec<String> = store.get_all_done().iter().map(|t| t.title.clone()).collect();
    let undone: Vec<String> = store.get_all_undone().iter().map(|t| t.title.clone()).collect();
    assert_eq!(done, vec!["b".to_string()]);
    assert_eq!(undone, vec!["a".to_string(), "c".to_string()]);
}

#[test]
fn done_and_undone_touch_only_the_named_id() {
    let mut store = TodoStore::new();
    let a = store.add(&item("a", None, false));
    let b = store.add(&item("b", None, false));
    store.done(b);
    let all = store.get_all();
    assert!(!all[0].done);
    assert!(all[1].done);
    store.undone(b);
    store.done(a);
    let all = store.get_all();
    assert!(all[0].done);
    assert!(!all[1].done);
}

#[test]
fn remove_all_empties_the_day() {
    let mut store = TodoStore::new();
    store.add(&item("a", None, false));
    store.remove_all();
    assert_eq!(store.get_all().len(), 0);
}

#[test]
fn apply_edit_replaces_the_day_on_success() {
    let mut store = TodoStore::new();
    store.add(&item("old", None, false));
    let doc = "# [X] first\nkeep this\n\n<!---->\n\n# [ ] second\n";
    store.apply_edit(doc).expect("well-formed document must commit");
    let all = store.get_all();
    assert_eq!(all.len(), 2);
    assert_eq!(all[0].title, "first");
    assert_eq!(all[0].description.as_deref(), Some("keep this"));
    assert!(all[0].done);
    assert_eq!(all[0].id, Some(1));
    assert_eq!(all[1].title, "second");
    assert_eq!(all[1].description, None);
    assert!(!all[1].done);
    assert_eq!(all[1].id, Some(2));
}

#[test]
fn failed_commit_leaves_the_store_exactly_as_before() {
    let mut store = TodoStore::new();
    store.add(&item("keep me", Some("precious"), false));
    store.add(&item("me too", None, true));
    let before: Vec<(Option<i32>, String, Option<String>, bool)> = store
        .get_all()
        .iter()
        .map(|t| (t.id, t.title.clone(), t.description.clone(), t.done))
        .collect();

    let r = store.apply_edit("not a valid header");
    assert!(matches!(r, Err(ParseError::MalformedHeader)));

    let after: Vec<(Option<i32>, String, Option<String>, bool)> = store
        .get_all()
        .iter()
        .map(|t| (t.id, t.title.clone(), t.description.clone(), t.done))
        .collect();
    assert_eq!(before, after);
}

#[test]
fn session_serializes_and_reparses_the_day() {
    let todos = vec![item("a", Some("d"), false)];
    let mut session = TodoMarkdown::save("todos.md", &todos);
    assert_eq!(session.filepath, "/tmp/todos.md");
    assert_eq!(session.document(), "# [ ] a\nd");

    session
        .save_edit("# [X] a\nd edited")
        .expect("edited document must parse");
    assert_eq!(session.todos.len(), 1);
    assert!(session.todos[0].done);
    assert_eq!(session.todos[0].description.as_deref(), Some("d edited"));

    let before = session.todos[0].title.clone();
    let r = session.save_edit("broken");
    assert!(r.is_err());
    assert_eq!(session.todos[0].title, before);
}

#[test]
fn verbs_resolve_ignoring_ascii_case() {
    assert_eq!(Action::from_str("add"), Some(Action::Add));
    assert_eq!(Action::from_str("ADD"), Some(Action::Add));
    assert_eq!(Action::from_str("Done"), Some(Action::Done));
    assert_eq!(Action::from_str("unDONE"), Some(Action::Undone));
    assert_eq!(Action::from_str("list"), Some(Action::List));
    assert_eq!(Action::from_str("edit"), Some(Action::Edit));
    assert_eq!(Action::from_str("help"), Some(Action::Help));
    assert_eq!(Action::from_str("drop"), None);
    assert_eq!(Action::from_str(""), None);
    assert_eq!(Action::from_str("addd"), None);
}

#[test]
fn verb_names_are_their_canonical_spellings() {
    assert_eq!(Action::Add.name(), "add");
    assert_eq!(Action::Done.name(), "done");
    assert_eq!(Action::Undone.name(), "undone");
    assert_eq!(Action::List.name(), "list");
    assert_eq!(Action::Edit.name(), "edit");
    assert_eq!(Action::Help.name(), "help");
}

#[test]
fn ids_parse_as_signed_32_bit_decimals() {
    assert_eq!(parse_id("42"), Some(42));
    assert_eq!(parse_id("0"), Some(0));
    assert_eq!(parse_id("0012"), Some(12));
    assert_eq!(parse_id("-7"), Some(-7));
    assert_eq!(parse_id("+7"), Some(7));
    assert_eq!(parse_id("2147483647"), Some(i32::MAX));
    assert_eq!(parse_id("2147483648"), None);
    assert_eq!(parse_id("-2147483648"), Some(i32::MIN));
    assert_eq!(parse_id("-2147483649"), None);
    assert_eq!(parse_id("99999999999999999999"), None);
    assert_eq!(parse_id(""), None);
    assert_eq!(parse_id("-"), None);
    assert_eq!(parse_id("12a"), None);
    assert_eq!(parse_id(" 42"), None);
}

#[test]
fn add_parameters_become_title_and_description() {
    assert!(todo_from_params(&Vec::new()).is_none());
    let t = todo_from_params(&vec!["title".to_string()]).unwrap();
    assert_eq!(t.title, "title");
    assert_eq!(t.description, None);
    assert!(!t.done);
    assert_eq!(t.id, None);
    let t = todo_from_params(&vec!["title".to_string(), "desc".to_string()]).unwrap();
    assert_eq!(t.description.as_deref(), Some("desc"));
}
