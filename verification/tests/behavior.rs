use httpclient::request::{ParseError, Request};
use httpclient::select_request_indexes;
use httpclient::worker::{FileParser, HTTPParser};

#[test]
fn marker_count_gives_one_more_request() {
    let result = FileParser {}.parse_many("###\n###").unwrap();
    assert_eq!(result.len(), 3);
    let result = FileParser {}.parse_many("GET https://a.example").unwrap();
    assert_eq!(result.len(), 1);
}

#[test]
fn unknown_first_token_falls_back_to_get() {
    let mut hrp = HTTPParser::new().unwrap();
    hrp.parse("FETCH https://it.wikipedia.org").unwrap();
    assert_eq!(&hrp.request.method, "GET");
    assert_eq!(&hrp.request.url, "https://it.wikipedia.org");
}

#[test]
fn lowercase_method_is_not_recognized() {
    let mut hrp = HTTPParser::new().unwrap();
    hrp.parse("post https://it.wikipedia.org").unwrap();
    assert_eq!(&hrp.request.method, "GET");
}

#[test]
fn no_blank_line_means_empty_body() {
    let mut hrp = HTTPParser::new().unwrap();
    hrp.parse("POST https://x.example\nHead: v\nOther: w").unwrap();
    assert_eq!(&hrp.request.body, "");
}

#[test]
fn comments_never_reach_headers_or_body() {
    let contents = "POST https://x.example\n#Skipped: yes\n\nreal\n//gone\nlines";
    let mut hrp = HTTPParser::new().unwrap();
    hrp.parse(contents).unwrap();
    assert!(!hrp.request.contains_header("#Skipped"));
    assert_eq!(hrp.request.headers.len(), 0);
    assert_eq!(&hrp.request.body, "real\nlines");
}

#[test]
fn four_requests_in_order() {
    let contents = "GET https://it.wikipedia.org
Authorization: Basic none

### Create
POST https://it.wikipedia.org/something

payload=my_payload

### Delete
DELETE https://it.wikipedia.org/something

### Test
GET https://it.wikipedia.org/something";
    let result = FileParser {}.parse_many(contents).unwrap();
    assert_eq!(result.len(), 4);
    assert_eq!(&result[0].method, "GET");
    assert_eq!(&result[1].method, "POST");
    assert_eq!(&result[2].method, "DELETE");
    assert_eq!(&result[3].method, "GET");
    assert_eq!(&result[1].body, "payload=my_payload");
}

#[test]
fn protocol_token_is_read_off_the_head_line() {
    let mut hrp = HTTPParser::new().unwrap();
    hrp.parse("POST https://x.example HTTP/1.0").unwrap();
    assert_eq!(&hrp.request.protocol, "HTTP/1.0");
    assert_eq!(&hrp.request.url, "https://x.example");

    let mut hrp = HTTPParser::new().unwrap();
    hrp.parse("GET https://x.example HTTP/2").unwrap();
    assert_eq!(&hrp.request.protocol, "HTTP/2");
    assert_eq!(&hrp.request.url, "https://x.example");
}

#[test]
fn protocol_defaults_to_http_1_1() {
    let mut hrp = HTTPParser::new().unwrap();
    hrp.parse("GET https://x.example").unwrap();
    assert_eq!(&hrp.request.protocol, "HTTP/1.1");
}

#[test]
fn protocol_without_url_is_invalid() {
    let mut hrp = HTTPParser::new().unwrap();
    let err = hrp.parse("POST HTTP/1.1").unwrap_err();
    assert!(matches!(err, ParseError::InvalidURL(_)));

    let mut hrp = HTTPParser::new().unwrap();
    let err = hrp.parse("HTTP/1.1").unwrap_err();
    assert!(matches!(err, ParseError::InvalidURL(_)));
}

#[test]
fn header_without_colon_is_invalid() {
    let mut hrp = HTTPParser::new().unwrap();
    let err = hrp.parse("POST https://x.example\nBadHeader").unwrap_err();
    assert!(matches!(err, ParseError::InvalidHeader(_)));
}

#[test]
fn parameter_without_separator_is_invalid() {
    let mut hrp = HTTPParser::new().unwrap();
    let err = hrp.parse("POST https://x.example\n  ?foo").unwrap_err();
    assert!(matches!(err, ParseError::InvalidURLParameter(_)));
}

#[test]
fn parameter_with_empty_side_is_invalid() {
    let mut worker = HTTPParser::new().unwrap();
    let err = worker.parse_url_parameter("  ?foo=").unwrap_err();
    assert!(matches!(err, ParseError::InvalidURLParameter(_)));

    let mut worker = HTTPParser::new().unwrap();
    let err = worker.parse_url_parameter("  =bar").unwrap_err();
    assert!(matches!(err, ParseError::InvalidURLParameter(_)));
}

#[test]
fn parameter_value_keeps_further_equals_signs() {
    let mut worker = HTTPParser::new().unwrap();
    worker.parse_url_parameter("  ?a=b=c").unwrap();
    assert_eq!(worker.request.url_parameters[0].0, "a");
    assert_eq!(worker.request.url_parameters[0].1, "b=c");
}

#[test]
fn duplicate_parameters_are_kept_in_order() {
    let contents = "GET https://x.example\n  ?a=1\n  ?a=2\n  ?b=3";
    let mut hrp = HTTPParser::new().unwrap();
    hrp.parse(contents).unwrap();
    let ps = &hrp.request.url_parameters;
    assert_eq!(ps.len(), 3);
    assert_eq!((ps[0].0.as_str(), ps[0].1.as_str()), ("a", "1"));
    assert_eq!((ps[1].0.as_str(), ps[1].1.as_str()), ("a", "2"));
    assert_eq!((ps[2].0.as_str(), ps[2].1.as_str()), ("b", "3"));
}

#[test]
fn header_value_keeps_embedded_colons() {
    let mut hrp = HTTPParser::new().unwrap();
    hrp.parse("POST https://x.example\nTime: 10:30:00").unwrap();
    assert_eq!(hrp.request.get_header("Time"), Some(&"10:30:00".to_string()));
}

#[test]
fn duplicate_header_last_write_wins() {
    let mut hrp = HTTPParser::new().unwrap();
    hrp.parse("POST https://x.example\nA: 1\nA: 2").unwrap();
    assert_eq!(hrp.request.get_header("A"), Some(&"2".to_string()));
    assert_eq!(hrp.request.headers.len(), 1);
}

#[test]
fn body_is_trimmed_of_surrounding_whitespace() {
    let mut hrp = HTTPParser::new().unwrap();
    hrp.parse("POST https://x.example\n\n\nbody text\n\n").unwrap();
    assert_eq!(&hrp.request.body, "body text");
}

#[test]
fn missing_variable_fails_the_parse() {
    let env: Vec<(String, String)> = Vec::new();
    let err = FileParser {}
        .parse_with_env("GET https://{{MISSING}}/x", &env)
        .unwrap_err();
    match err {
        ParseError::MissingVariable(name) => assert_eq!(name, "MISSING"),
        other => panic!("expected MissingVariable, got {:?}", other),
    }
}

#[test]
fn placeholders_expand_from_the_environment() {
    let env = vec![
        ("HOST".to_string(), "example.org".to_string()),
        ("TOKEN".to_string(), "abc123".to_string()),
    ];
    let result = FileParser {}
        .parse_with_env("GET https://{{HOST}}/x\nAuth: {{TOKEN}}{{TOKEN}}", &env)
        .unwrap();
    assert_eq!(&result[0].url, "https://example.org/x");
    assert_eq!(result[0].get_header("Auth"), Some(&"abc123abc123".to_string()));
}

#[test]
fn replacement_values_are_not_rescanned() {
    let env = vec![
        ("A".to_string(), "{{B}}".to_string()),
        ("B".to_string(), "b".to_string()),
    ];
    let result = FileParser {}
        .parse_with_env("GET https://h/{{A}}{{B}}", &env)
        .unwrap();
    assert_eq!(&result[0].url, "https://h/{{B}}b");
}

#[test]
fn parameter_key_always_loses_its_first_character() {
    let mut worker = HTTPParser::new().unwrap();
    worker.parse_url_parameter("  key=val").unwrap();
    assert_eq!(worker.request.url_parameters[0].0, "ey");
    assert_eq!(worker.request.url_parameters[0].1, "val");
}

#[test]
fn expanded_value_can_introduce_new_lines_and_blocks() {
    let env = vec![(
        "REST".to_string(),
        "###\nPOST https://y.example".to_string(),
    )];
    let result = FileParser {}
        .parse_with_env("GET https://x.example\n{{REST}}", &env)
        .unwrap();
    assert_eq!(result.len(), 2);
    assert_eq!(&result[0].url, "https://x.example");
    assert_eq!(&result[1].method, "POST");
    assert_eq!(&result[1].url, "https://y.example");
}

#[test]
fn fresh_request_is_empty() {
    let r = Request::new();
    assert_eq!(&r.method, "");
    assert_eq!(&r.url, "");
    assert_eq!(&r.protocol, "HTTP/1.1");
    assert_eq!(&r.body, "");
    assert_eq!(r.headers.len(), 0);
    assert_eq!(r.url_parameters.len(), 0);
}

#[test]
fn insert_header_overwrites_by_name() {
    let mut r = Request::new();
    r.insert_header("A".to_string(), "1".to_string());
    r.insert_header("B".to_string(), "2".to_string());
    r.insert_header("A".to_string(), "3".to_string());
    assert_eq!(r.headers.len(), 2);
    assert_eq!(r.get_header("A"), Some(&"3".to_string()));
    assert_eq!(r.get_header("B"), Some(&"2".to_string()));
    assert_eq!(r.get_header("C"), None);
}

#[test]
fn request_index_selection() {
    assert_eq!(select_request_indexes(3, -1), Some(vec![0, 1, 2]));
    assert_eq!(select_request_indexes(3, 1), Some(vec![1]));
    assert_eq!(select_request_indexes(3, 0), Some(vec![0]));
    assert_eq!(select_request_indexes(3, 3), None);
    assert_eq!(select_request_indexes(3, -2), None);
    assert_eq!(select_request_indexes(0, -1), Some(vec![]));
}

#[test]
fn all_comment_block_yields_empty_request() {
    let result = FileParser {}.parse_many("# just a comment\n//another").unwrap();
    assert_eq!(result.len(), 1);
    assert_eq!(&result[0].method, "");
    assert_eq!(&result[0].url, "");
    assert_eq!(&result[0].body, "");
}
