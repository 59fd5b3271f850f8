use git_glance::errors::GlanceError;
use git_glance::records::{CommitRecord, PullRequestRecord};
use git_glance::summarize::{build_prompt, clean_response, make_tagged_summary, parse_summary_response};

fn pr() -> PullRequestRecord {
    PullRequestRecord {
        number: 42,
        title: "Add retry logic".to_string(),
        body: "Retries flaky network calls.".to_string(),
        author: "dev".to_string(),
        comments: vec![],
        commits: vec![
            CommitRecord {
                oid: "bbbbbb02".to_string(),
                headline: "Add retry".to_string(),
                body: "Add retry\n".to_string(),
                pr: Some(42),
            },
            CommitRecord {
                oid: "cccccc03".to_string(),
                headline: "Fix retry test".to_string(),
                body: "Fix retry test\n".to_string(),
                pr: Some(42),
            },
        ],
        url: "https://github.com/example/repo/pull/42".to_string(),
        updated_at: "2024-06-14T00:00:00Z".to_string(),
        merged_at: "2024-06-14T00:00:00Z".to_string(),
    }
}

#[test]
fn fenced_reply_parses_like_a_bare_one() {
    let body = "{\"tag\": \"feature\", \"summary\": \"add retry logic for flaky network calls\"}";
    let fenced = format!("```json\n{}\n```", body);
    let a = parse_summary_response(&fenced).unwrap();
    let b = parse_summary_response(body).unwrap();
    assert_eq!(a, b);
    assert_eq!(a.0, "feature".to_string());
    assert_eq!(a.1, "add retry logic for flaky network calls".to_string());
}

#[test]
fn bare_fence_markers_are_stripped_too() {
    let reply = "```\n{\"tag\": \"bugfix\", \"summary\": \"fix it\"}\n```";
    let (tag, summary) = parse_summary_response(reply).unwrap();
    assert_eq!(tag, "bugfix".to_string());
    assert_eq!(summary, "fix it".to_string());
}

#[test]
fn clean_response_strips_fences_and_trims() {
    let cleaned = clean_response("```json\n{\"tag\": \"misc\"}\n```");
    assert_eq!(cleaned, "{\"tag\": \"misc\"}".to_string());
    assert_eq!(clean_response("  x  "), "x".to_string());
    assert_eq!(clean_response(""), "".to_string());
}

#[test]
fn non_json_reply_is_a_parse_error() {
    let r = parse_summary_response("the pull request adds retry logic");
    assert!(matches!(r, Err(GlanceError::SummaryParse)));
}

#[test]
fn missing_tag_or_summary_is_a_parse_error() {
    assert!(matches!(
        parse_summary_response("{\"summary\": \"no tag here\"}"),
        Err(GlanceError::SummaryParse)
    ));
    assert!(matches!(
        parse_summary_response("{\"tag\": \"feature\"}"),
        Err(GlanceError::SummaryParse)
    ));
    // present but not strings
    assert!(matches!(
        parse_summary_response("{\"tag\": 3, \"summary\": \"x\"}"),
        Err(GlanceError::SummaryParse)
    ));
}

#[test]
fn unknown_tag_is_kept_verbatim() {
    let ts = make_tagged_summary(&pr(), "{\"tag\": \"chore\", \"summary\": \"tidy up\"}").unwrap();
    assert_eq!(ts.tag, "chore".to_string());
    assert_eq!(ts.summary, "tidy up".to_string());
    assert_eq!(ts.number, 42);
    assert_eq!(ts.url, "https://github.com/example/repo/pull/42".to_string());
}

#[test]
fn prompt_embeds_title_body_and_commit_bullets() {
    let p = build_prompt(&pr());
    let expected = "You are a senior software developer writing a one line summary and tag for a pull request.\nI will give you a Pull Request title, body and a list of the commit messages.\nWrite me a tag and one line summary for that pull request in the following json format:\n\n```\n{\n    'tag': 'feature',\n    'summary': 'updated the css to remove all tailwind references'\n}\n```\n\nThe tag in parenthesis should be one of: feature, bugfix, documentation, test, misc.\n\nHere is the pull request information:\n\nTitle: Add retry logic\nBody: \nRetries flaky network calls.\n\nCommit Summaries:\n* Add retry\n* Fix retry test\n\nPlease respond with only the json data of tag and summary";
    assert_eq!(p, expected.to_string());
}

#[test]
fn prompt_with_no_commits_has_empty_bullet_list() {
    let mut record = pr();
    record.commits = vec![];
    let p = build_prompt(&record);
    assert!(p.contains("Commit Summaries:\n\n\nPlease respond"));
}
