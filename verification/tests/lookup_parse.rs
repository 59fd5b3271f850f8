use git_glance::errors::GlanceError;
use git_glance::lookup::parse_lookup_response;

fn full_reply() -> String {
    let head = "[{\"number\": 42, \"title\": \"Add retry logic\", \"body\": \"Retries flaky network calls.\", \"author\": {\"login\": \"dev\"}, \"comments\": [], \"commits\": [";
    let commits = "{\"oid\": \"bbbbbb02\", \"messageHeadline\": \"Add retry\", \"messageBody\": \"Add retry\\n\"}, {\"oid\": \"cccccc03\", \"messageHeadline\": \"Fix retry test\", \"messageBody\": \"\"}";
    let tail = "], \"url\": \"https://github.com/example/repo/pull/42\", \"updatedAt\": \"2024-06-14T00:00:00Z\", \"mergedAt\": \"2024-06-14T00:00:00Z\"}]";
    format!("{}{}{}", head, commits, tail)
}

#[test]
fn full_reply_yields_the_record() {
    let pr = parse_lookup_response(&full_reply()).unwrap().unwrap();
    assert_eq!(pr.number, 42);
    assert_eq!(pr.title, "Add retry logic".to_string());
    assert_eq!(pr.body, "Retries flaky network calls.".to_string());
    assert_eq!(pr.author, "dev".to_string());
    assert_eq!(pr.url, "https://github.com/example/repo/pull/42".to_string());
    assert_eq!(pr.updated_at, "2024-06-14T00:00:00Z".to_string());
    assert_eq!(pr.merged_at, "2024-06-14T00:00:00Z".to_string());
    assert_eq!(pr.comments.len(), 0);
    assert_eq!(pr.commits.len(), 2);
    assert_eq!(pr.commits[0].oid, "bbbbbb02".to_string());
    assert_eq!(pr.commits[0].headline, "Add retry".to_string());
    assert_eq!(pr.commits[0].body, "Add retry\n".to_string());
    assert_eq!(pr.commits[0].pr, Some(42));
    assert_eq!(pr.commits[1].pr, Some(42));
}

#[test]
fn empty_array_means_standalone() {
    assert!(parse_lookup_response("[]").unwrap().is_none());
}

#[test]
fn null_first_element_means_standalone() {
    assert!(parse_lookup_response("[null]").unwrap().is_none());
}

#[test]
fn unparseable_reply_is_malformed() {
    let r = parse_lookup_response("gh: network timeout");
    match r {
        Err(GlanceError::MalformedResponse(f)) => assert_eq!(f, "response".to_string()),
        _ => panic!("expected a malformed-response error"),
    }
}

#[test]
fn non_array_reply_is_malformed() {
    let r = parse_lookup_response("{\"number\": 42}");
    match r {
        Err(GlanceError::MalformedResponse(f)) => assert_eq!(f, "response".to_string()),
        _ => panic!("expected a malformed-response error"),
    }
}

#[test]
fn missing_title_names_the_field() {
    let reply = "[{\"number\": 42}]";
    match parse_lookup_response(reply) {
        Err(GlanceError::MalformedResponse(f)) => assert_eq!(f, "title".to_string()),
        _ => panic!("expected a malformed-response error"),
    }
}

#[test]
fn missing_number_names_the_field() {
    let reply = "[{\"title\": \"x\"}]";
    match parse_lookup_response(reply) {
        Err(GlanceError::MalformedResponse(f)) => assert_eq!(f, "number".to_string()),
        _ => panic!("expected a malformed-response error"),
    }
}

#[test]
fn negative_number_is_malformed() {
    let reply = "[{\"number\": -1, \"title\": \"x\"}]";
    match parse_lookup_response(reply) {
        Err(GlanceError::MalformedResponse(f)) => assert_eq!(f, "number".to_string()),
        _ => panic!("expected a malformed-response error"),
    }
}

#[test]
fn commit_missing_a_field_is_malformed() {
    let reply = "[{\"number\": 42, \"title\": \"t\", \"body\": \"b\", \"author\": {\"login\": \"dev\"}, \"url\": \"u\", \"updatedAt\": \"x\", \"mergedAt\": \"y\", \"commits\": [{\"oid\": \"bbbbbb02\", \"messageHeadline\": \"h\"}]}]";
    match parse_lookup_response(reply) {
        Err(GlanceError::MalformedResponse(f)) => assert_eq!(f, "commits".to_string()),
        _ => panic!("expected a malformed-response error"),
    }
}

#[test]
fn author_login_is_required() {
    let reply = "[{\"number\": 42, \"title\": \"t\", \"body\": \"b\", \"author\": \"dev\", \"url\": \"u\", \"updatedAt\": \"x\", \"mergedAt\": \"y\", \"commits\": []}]";
    match parse_lookup_response(reply) {
        Err(GlanceError::MalformedResponse(f)) => assert_eq!(f, "author".to_string()),
        _ => panic!("expected a malformed-response error"),
    }
}
