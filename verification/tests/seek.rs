use githttp_fs::seek::{SeekBody, SeekBodyToPrefixes, SeekFilter, SeekOptions, SEEK_TO_FROM_META};

const TEXT: &str = "intro\n# One\na\n## Sub\nb\n# Two\nc\n";

fn list(prefixes: &[&str]) -> Option<Vec<String>> {
    Some(prefixes.iter().map(|text| text.to_string()).collect())
}

fn query(from: Option<&str>, to: Option<&str>, maximum: Option<usize>) -> SeekOptions {
    SeekOptions {
        seek_from_line_starts_with: from.map(str::to_string),
        seek_to_line_starts_with: to.map(str::to_string),
        seek_lines_maximum: maximum,
    }
}

fn body(from: Option<Vec<String>>, to: Option<SeekBodyToPrefixes>, maximum: Option<usize>) -> SeekBody {
    SeekBody { from_line_starts_with: from, to_line_starts_with: to, lines_maximum: maximum }
}

fn window(filter: &SeekFilter, content: &str) -> String {
    filter.apply_reader(content.as_bytes(), "a.md").unwrap()
}

fn refusal(options: SeekOptions) -> String {
    options.parse().unwrap_err().message()
}

#[test]
fn no_filter_keeps_everything() {
    let filter = query(None, None, None).parse().unwrap();
    assert!(filter.is_noop());
    assert_eq!(window(&filter, TEXT), TEXT);
    assert_eq!(window(&filter, ""), "");
    assert_eq!(window(&SeekFilter::all(), TEXT), TEXT);
}

#[test]
fn window_runs_from_marker_to_marker() {
    let filter = query(Some("[\"# One\"]"), Some("[\"# \"]"), None).parse().unwrap();
    assert!(!filter.is_noop());
    assert_eq!(window(&filter, TEXT), "# One\na\n## Sub\nb\n# Two\n");
}

#[test]
fn window_without_opening_is_empty() {
    let filter = query(Some("[\"# Three\"]"), None, None).parse().unwrap();
    assert_eq!(window(&filter, TEXT), "");
}

#[test]
fn window_is_cut_at_its_maximum() {
    let filter = query(Some("[\"# One\"]"), None, Some(2)).parse().unwrap();
    assert_eq!(window(&filter, TEXT), "# One\na\n");
    let first = query(None, None, Some(1)).parse().unwrap();
    assert_eq!(window(&first, TEXT), "intro\n");
}

#[test]
fn meta_value_stands_for_the_opening_prefix() {
    let bare = query(Some("[\"## \", \"# \"]"), Some(SEEK_TO_FROM_META), None).parse().unwrap();
    assert_eq!(window(&bare, TEXT), "# One\na\n## Sub\nb\n# Two\n");
    let in_body = body(
        list(&["## ", "# "]),
        Some(SeekBodyToPrefixes::Value(SEEK_TO_FROM_META.to_string())),
        None,
    )
    .parse()
    .unwrap();
    assert_eq!(window(&in_body, TEXT), window(&bare, TEXT));
}

#[test]
fn query_and_body_agree() {
    let from_query = query(Some("[\"# \"]"), Some("[\"## \"]"), Some(9)).parse().unwrap();
    let from_body = body(
        list(&["# "]),
        Some(SeekBodyToPrefixes::Values(vec!["## ".to_string()])),
        Some(9),
    )
    .parse()
    .unwrap();
    assert_eq!(format!("{:?}", from_query), format!("{:?}", from_body));
    assert_eq!(window(&from_body, TEXT), "# One\na\n## Sub\n");
    assert_eq!(format!("{:?}", from_body.copy()), format!("{:?}", from_body));
}

#[test]
fn only_the_window_has_to_be_text() {
    let content = b"\xff\xfe\n# One\na\n".to_vec();
    let filter = query(Some("[\"# \"]"), None, None).parse().unwrap();
    assert_eq!(filter.apply_reader(&content, "a.md").unwrap(), "# One\na\n");
    let all = SeekFilter::all().apply_reader(&content, "a.md").unwrap_err();
    assert_eq!(all.message(), "file content is not valid UTF-8 at path: a.md");
    assert_eq!(all.status(), 422);
}

#[test]
fn refused_query_windows() {
    assert_eq!(
        refusal(query(Some("# "), None, None)),
        "invalid operation: seek_from_line_starts_with must be a JSON array of strings, e.g. [\"## \"]"
    );
    assert_eq!(
        refusal(query(None, Some("[1]"), None)),
        "invalid operation: seek_to_line_starts_with must be a JSON array of strings, e.g. [\"## \"]"
    );
    assert_eq!(
        refusal(query(Some("[]"), None, None)),
        "invalid operation: seek_from_line_starts_with must contain at least one prefix"
    );
    assert_eq!(
        refusal(query(Some("[\"\"]"), None, None)),
        "invalid operation: seek_from_line_starts_with prefixes must not be empty"
    );
    assert_eq!(
        refusal(query(None, Some(SEEK_TO_FROM_META), None)),
        "invalid operation: seek_to_line_starts_with uses $seek_from_line_starts_with but seek_from_line_starts_with is not set"
    );
    assert_eq!(
        refusal(query(None, None, Some(0))),
        "invalid operation: seek_lines_maximum must be at least 1"
    );
}

#[test]
fn refused_body_windows() {
    let bare = body(None, Some(SeekBodyToPrefixes::Value("# ".to_string())), None);
    assert_eq!(
        bare.parse().unwrap_err().message(),
        "invalid operation: seek.to_line_starts_with must be a JSON array of strings, or the bare meta value $seek_from_line_starts_with"
    );
    let none = body(None, None, Some(0));
    assert_eq!(
        none.parse().unwrap_err().message(),
        "invalid operation: seek.lines_maximum must be at least 1"
    );
}
