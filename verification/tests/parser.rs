use httpclient::worker::{FileParser, HTTPParser};

#[test]
fn uri_header() {
    let contents = "POST https://it.wikipedia.org\nAuth: nooone\nHead: true";
    let mut hrp = HTTPParser::new().unwrap();
    hrp.parse(contents).unwrap();
    assert_eq!(&hrp.request.method, "POST");
    assert_eq!(&hrp.request.url, "https://it.wikipedia.org");
    assert!(hrp.request.contains_header("Auth"));
    assert_eq!(hrp.request.get_header("Auth"), Some(&"nooone".to_string()));
    assert_eq!(hrp.request.get_header("Head"), Some(&"true".to_string()));
}

#[test]
fn uri_post() {
    let contents = "POST https://it.wikipedia.org";
    let mut hrp = HTTPParser::new().unwrap();
    hrp.parse(contents).unwrap();
    assert_eq!(&hrp.request.method, "POST");
    assert_eq!(&hrp.request.url, "https://it.wikipedia.org");
}

#[test]
fn uri_post_2() {
    let contents = "POST https://it.wikipedia.org\n\n{\"a\":1}\n## this is a comment";
    let mut hrp = HTTPParser::new().unwrap();
    hrp.parse(contents).unwrap();
    assert_eq!(&hrp.request.method, "POST");
    assert_eq!(&hrp.request.url, "https://it.wikipedia.org");
    assert_eq!(&hrp.request.body, "{\"a\":1}");
}

#[test]
fn uri() {
    let contents = "https://it.wikipedia.org";
    let mut hrp = HTTPParser::new().unwrap();
    hrp.parse(contents).unwrap();
    assert_eq!(&hrp.request.method, "GET");
    assert_eq!(&hrp.request.url, "https://it.wikipedia.org");
}

#[test]
fn uri_blank_lines() {
    let contents = "\n  \n\nPOST https://it.wikipedia.org";
    let mut hrp = HTTPParser::new().unwrap();
    hrp.parse(contents).unwrap();
    assert_eq!(&hrp.request.method, "POST");
    assert_eq!(&hrp.request.url, "https://it.wikipedia.org");
}

#[test]
fn body() {
    let contents = "POST https://it.wikipedia.org\n#comment\n\nthis is\nthe body";
    let mut hrp = HTTPParser::new().unwrap();
    hrp.parse(contents).unwrap();
    assert_eq!(&hrp.request.body, "this is\nthe body");
}

#[test]
fn url_parameters() {
    let input_text = "  ?foo=bar";
    let mut worker = HTTPParser::new().unwrap();
    worker
        .parse_url_parameter(input_text)
        .expect("should be able to parse");
    assert_eq!(worker.request.url_parameters.len(), 1);
    assert_eq!(worker.request.url_parameters[0].0, "foo");
    assert_eq!(worker.request.url_parameters[0].1, "bar");
}

#[test]
fn multi_requests() {
    let contents = "https://it.wikipedia.org\n###\nPOST https://en.wikipedia.org";
    let hrp = FileParser {};
    let result = hrp.parse_many(contents).unwrap();
    assert_eq!(&result[0].url, "https://it.wikipedia.org");
    assert_eq!(&result[0].method, "GET");
    assert_eq!(&result[0].body, "");
    assert_eq!(&result[1].url, "https://en.wikipedia.org");
    assert_eq!(&result[1].method, "POST");
}

#[test]
fn long_multi_requests() {
    let contents = "GET https://it.wikipedia.org
Authorization: Basic none

### Create
POST https://it.wikipedia.org/something
Authorization: Basic none
Content-Type: application/x-www-form-urlencoded

payload=my_payload

### Delete
DELETE https://it.wikipedia.org/something
Authorization: Basic none

### Test
GET https://it.wikipedia.org/something";
    let hrp = FileParser {};
    let result = hrp.parse_many(contents).unwrap();
    assert_eq!(&result[0].url, "https://it.wikipedia.org");
    assert_eq!(&result[0].method, "GET");
    assert!(result[0].contains_header("Authorization"));
    assert_eq!(
        result[0].get_header("Authorization"),
        Some(&"Basic none".to_string())
    );
    assert_eq!(&result[0].body, "");
    assert_eq!(&result[1].url, "https://it.wikipedia.org/something");
    assert_eq!(&result[1].method, "POST");
    assert_eq!(&result[1].body, "payload=my_payload");
    assert_eq!(&result[2].url, "https://it.wikipedia.org/something");
    assert_eq!(&result[2].method, "DELETE");
}
