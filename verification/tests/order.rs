use githttp_fs::order::{
    directory_entry, directory_of_order_file, display_directory, entry_name, is_order_file,
    order_file_path, parse, path_in, serialize, split_parent, validate_order,
};

fn strings(list: &[&str]) -> Vec<String> {
    list.iter().map(|text| text.to_string()).collect()
}

fn refusal(list: &[&str]) -> String {
    validate_order(&strings(list)).unwrap_err().message()
}

#[test]
fn index_paths_round_trip() {
    assert_eq!(order_file_path(""), ".order.json");
    assert_eq!(order_file_path("docs/guide"), "docs/guide/.order.json");
    assert_eq!(directory_of_order_file(".order.json"), Some(""));
    assert_eq!(directory_of_order_file("docs/guide/.order.json"), Some("docs/guide"));
    assert_eq!(directory_of_order_file("docs/order.json"), None);
    assert!(is_order_file("a/.order.json"));
    assert!(!is_order_file("a/.order.json.bak"));
}

#[test]
fn parents_and_leaves_rejoin() {
    assert_eq!(split_parent("a/b/c.md"), ("a/b", "c.md"));
    assert_eq!(split_parent("c.md"), ("", "c.md"));
    assert_eq!(split_parent("/c.md"), ("", "c.md"));
    assert_eq!(path_in("a/b", "c.md"), "a/b/c.md");
    assert_eq!(path_in("", "c.md"), "c.md");
}

#[test]
fn directories_are_spelled_with_a_slash() {
    assert_eq!(directory_entry("guide"), "guide/");
    assert_eq!(entry_name("guide/"), "guide");
    assert_eq!(entry_name("intro.md"), "intro.md");
    assert_eq!(display_directory(""), "/");
    assert_eq!(display_directory("docs"), "docs");
}

#[test]
fn stored_document_has_its_exact_text() {
    let order = strings(&["b.md", "a/"]);
    assert_eq!(serialize(&order), "{\n  \"order\": [\n    \"b.md\",\n    \"a/\"\n  ]\n}\n");
}

#[test]
fn stored_document_reads_back() {
    for list in [vec![], vec!["b.md"], vec!["\"quoted\"", "tab\t", "é/"]] {
        let order = strings(&list);
        assert_eq!(parse(&serialize(&order)), Some(order));
    }
}

#[test]
fn other_documents_are_no_order() {
    assert_eq!(parse("not json"), None);
    assert_eq!(parse("{}"), None);
    assert_eq!(parse("{\"order\": \"a\"}"), None);
    assert_eq!(parse("{\"order\": [1]}"), None);
    assert_eq!(parse("[\"a\"]"), None);
    assert_eq!(parse("[[\"a\"], 1]"), None);
    assert_eq!(parse("[[\"a\"]] x"), None);
}

#[test]
fn orders_in_other_spellings() {
    let order = Some(strings(&["a"]));
    assert_eq!(parse("{\"order\": [\"a\"], \"extra\": 1}"), order);
    assert_eq!(parse("{\"extra\": 1e999, \"order\": [\"a\"]}"), order);
    let deep = format!("{}{}", "[".repeat(200), "]".repeat(200));
    assert_eq!(parse(&format!("{{\"extra\": {}, \"order\": [\"a\"]}}", deep)), order);
    assert_eq!(parse(" [[\"a\"]]\n"), order);
    assert_eq!(parse("\t{\r\n \"\\u006frder\" : [ \"a\" ]\n}\n "), order);
    assert_eq!(parse("{\"x\": {\"order\": [\"b\"]}, \"order\": [\"a\"]}"), order);
    assert_eq!(parse("{\"x\": \"}, \\\"order\\\": [\", \"order\": [\"a\"]}"), order);
    assert_eq!(parse("{\"x\": 1, \"x\": null, \"order\": [\"a\"]}"), order);
}

#[test]
fn a_repeated_order_is_none() {
    assert_eq!(parse("{\"order\": [\"a\"], \"order\": [\"b\"]}"), None);
    assert_eq!(parse("{\"order\": [\"a\"], \"x\": 1, \"order\": [\"a\"]}"), None);
    assert_eq!(parse("{\"order\": [\"a\"], \"\\u006frder\": [\"a\"]}"), None);
}

#[test]
fn malformed_documents_are_none() {
    for text in [
        "{\"order\": [\"a\"]",
        "{\"order\": [\"a\"],}",
        "{\"order\": [\"a\"]} x",
        "{\"order\": [\"a\"] \"x\": 1}",
        "{\"order\" [\"a\"]}",
        "{order: [\"a\"]}",
        "{1: 2, \"order\": [\"a\"]}",
        "{\"x\": 01, \"order\": [\"a\"]}",
        "{\"x\": , \"order\": [\"a\"]}",
        "{\"\\ud800\": 1, \"order\": [\"a\"]}",
        "{,\"order\": [\"a\"]}",
        "{} {}",
        "{",
        "",
    ] {
        assert_eq!(parse(text), None, "{}", text);
    }
}

#[test]
fn accepted_orders() {
    assert!(validate_order(&strings(&["a.md", "b/", "c"])).is_ok());
    assert!(validate_order(&strings(&[".hidden"])).is_ok());
}

#[test]
fn refused_orders() {
    assert_eq!(
        refusal(&[]),
        "invalid operation: order must contain at least one entry; delete the index instead of writing an empty order"
    );
    assert_eq!(refusal(&["a", ""]), "invalid operation: order entries must not be empty");
    assert_eq!(refusal(&["/"]), "invalid operation: order entries must not be empty");
    assert_eq!(
        refusal(&["a/b"]),
        "invalid operation: order entries must be leaf names, not paths: a/b"
    );
    assert_eq!(
        refusal(&["../"]),
        "invalid operation: order entry must not be a relative reference: ../"
    );
    assert_eq!(
        refusal(&["."]),
        "invalid operation: order entry must not be a relative reference: ."
    );
    assert_eq!(refusal(&[".git"]), "invalid operation: order entry must not reference .git");
    assert_eq!(
        refusal(&[".order.json"]),
        "invalid operation: order entry must not reference the index itself: .order.json"
    );
    assert_eq!(
        refusal(&["a", "b", "a/"]),
        "invalid operation: order entries must be unique: 'a' is listed twice"
    );
}
