use upvotes::link::parse_next_url;

fn parse(header: &str) -> Option<String> {
    parse_next_url(header.as_bytes()).map(|u| String::from_utf8(u).unwrap())
}

#[test]
fn next_url_is_extracted_among_other_relations() {
    let header =
        "<https://api.example/issues?page=2>; rel=\"next\", <https://api.example/issues?page=1>; rel=\"prev\"";
    assert_eq!(parse(header).as_deref(), Some("https://api.example/issues?page=2"));
}

#[test]
fn extraction_is_independent_of_segment_order() {
    let header =
        "<https://api.example/issues?page=1>; rel=\"prev\", <https://api.example/issues?page=2>; rel=\"next\"";
    assert_eq!(parse(header).as_deref(), Some("https://api.example/issues?page=2"));
}

#[test]
fn absent_next_relation_yields_none() {
    let header = "<https://api.example/issues?page=1>; rel=\"prev\"";
    assert_eq!(parse(header), None);
}

#[test]
fn empty_header_yields_none() {
    assert_eq!(parse(""), None);
}

#[test]
fn whitespace_and_brackets_are_trimmed() {
    let header = "  <https://api.example/x>  ;  rel=\"next\"  ";
    assert_eq!(parse(header).as_deref(), Some("https://api.example/x"));
}

#[test]
fn url_without_brackets_is_kept_as_written() {
    let header = "https://api.example/x; rel=\"next\"";
    assert_eq!(parse(header).as_deref(), Some("https://api.example/x"));
}

#[test]
fn first_next_segment_wins() {
    let header = "<https://a/1>; rel=\"next\", <https://a/2>; rel=\"next\"";
    assert_eq!(parse(header).as_deref(), Some("https://a/1"));
}

#[test]
fn relation_must_match_exactly() {
    let header = "<https://a/1>; rel=\"nexts\", <https://a/2>; rel=\"prev\"";
    assert_eq!(parse(header), None);
}

#[test]
fn extra_parameters_do_not_hide_next() {
    let header = "<https://a/1>; title=\"p\"; rel=\"next\"";
    assert_eq!(parse(header).as_deref(), Some("https://a/1"));
}
