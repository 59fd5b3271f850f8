//! The summarization oracle adapter: builds the deterministic prompt for a
//! pull request and parses the oracle's reply under a strict contract —
//! fence markers are stripped, the rest must be a JSON object with string
//! fields `tag` and `summary`.
//!
//! The oracle call itself is I/O and lives with the embedding program; this
//! module pins what is sent and what any reply means.

use vstd::prelude::*;
use vstd::string::StringExecFns;
use crate::errors::GlanceError;
use crate::jsonval::{
    json_as_str, json_get, json_text_parses, json_text_value, parse_json, value_entry, value_str,
};
use crate::records::{CommitModel, PullRequestModel, PullRequestRecord, TaggedSummary};
use crate::text::{
    chars_of, lemma_remove_clean, lemma_remove_no_occurrence, lemma_remove_prefix,
    lemma_remove_self, lemma_remove_skip_clean, lemma_remove_too_short, lemma_trim_ws_prefix,
    lemma_trim_ws_suffix, remove_pattern, remove_seq, string_from_chars, trim_chars, trim_seq,
};

verus! {

/// The fence marker the oracle tends to open a reply with.
pub open spec fn fence_json_seq() -> Seq<char> {
    seq!['`', '`', '`', 'j', 's', 'o', 'n', '\n']
}

/// A bare fence marker.
pub open spec fn fence_seq() -> Seq<char> {
    seq!['`', '`', '`']
}

/// An oracle reply after fence stripping: every tagged fence marker, then
/// every bare one, is removed, and the ends are trimmed of whitespace.
pub open spec fn cleaned(s: Seq<char>) -> Seq<char> {
    trim_seq(remove_seq(remove_seq(s, fence_json_seq()), fence_seq()))
}

/// An oracle reply after fence stripping.
pub fn clean_response(s: &str) -> (r: String)
    ensures
        r@ == cleaned(s@),
{
    let cs = chars_of(s);
    let p1: Vec<char> = vec!['`', '`', '`', 'j', 's', 'o', 'n', '\n'];
    let p2: Vec<char> = vec!['`', '`', '`'];
    proof {
        assert(p1@ =~= fence_json_seq());
        assert(p2@ =~= fence_seq());
    }
    let r1 = remove_pattern(&cs, &p1);
    let r2 = remove_pattern(&r1, &p2);
    let t = trim_chars(&r2);
    string_from_chars(&t)
}

/// The tag and summary a cleaned reply carries: present exactly when the
/// text parses as JSON holding string members `tag` and `summary`.
pub open spec fn summary_fields(t: Seq<char>) -> Option<(Seq<char>, Seq<char>)> {
    if !json_text_parses(t) {
        None
    } else {
        let v = json_text_value(t);
        match value_entry(v, "tag"@) {
            Some(tv) => match value_str(tv) {
                Some(tag) => match value_entry(v, "summary"@) {
                    Some(sv) => match value_str(sv) {
                        Some(sum) => Some((tag, sum)),
                        None => None,
                    },
                    None => None,
                },
                None => None,
            },
            None => None,
        }
    }
}

/// Parse an oracle reply into its tag and summary, stripping fence markers
/// first. Fails with `SummaryParse` exactly when the cleaned reply carries
/// no tag/summary object.
pub fn parse_summary_response(s: &str) -> (r: Result<(String, String), GlanceError>)
    ensures
        match r {
            Ok(p) => summary_fields(cleaned(s@)) == Some((p.0@, p.1@)),
            Err(e) => summary_fields(cleaned(s@)) is None && e is SummaryParse,
        },
{
    let text = clean_response(s);
    let v = match parse_json(text.as_str()) {
        Some(v) => v,
        None => {
            return Err(GlanceError::SummaryParse);
        },
    };
    let tag = match json_get(&v, "tag") {
        Some(tv) => match json_as_str(tv) {
            Some(t) => t,
            None => {
                return Err(GlanceError::SummaryParse);
            },
        },
        None => {
            return Err(GlanceError::SummaryParse);
        },
    };
    let summary = match json_get(&v, "summary") {
        Some(sv) => match json_as_str(sv) {
            Some(t) => t,
            None => {
                return Err(GlanceError::SummaryParse);
            },
        },
        None => {
            return Err(GlanceError::SummaryParse);
        },
    };
    Ok((tag.to_owned(), summary.to_owned()))
}

/// A reply wrapped in a tagged fenced block means the same as the bare
/// reply: stripping the fences of `"```json\n" + body + "\n```"` leaves
/// exactly the trimmed body, for a body free of backticks.
pub proof fn lemma_fenced_equals_plain(body: Seq<char>)
    requires
        forall|i: int| 0 <= i < body.len() ==> body[i] != '`',
    ensures
        cleaned(fence_json_seq() + body + seq!['\n'] + fence_seq()) == cleaned(body),
        cleaned(body) == trim_seq(body),
{
    let p1 = fence_json_seq();
    let p2 = fence_seq();
    let a = body + seq!['\n'];
    let w = p1 + body + seq!['\n'] + p2;
    assert(w =~= p1 + (a + p2));
    // first removal: the opening marker goes, nothing else matches it
    lemma_remove_prefix(a + p2, p1);
    assert(forall|i: int| 0 <= i < a.len() ==> a[i] != p1[0]);
    lemma_remove_skip_clean(a, p2, p1);
    lemma_remove_too_short(p2, p1);
    assert(remove_seq(w, p1) == a + p2);
    // second removal: the closing marker goes
    lemma_remove_skip_clean(a, p2, p2);
    lemma_remove_self(p2);
    assert(a + Seq::<char>::empty() =~= a);
    assert(remove_seq(a + p2, p2) == a);
    // trimming eats the newline left behind by the closing line
    assert(a =~= body.push('\n'));
    lemma_trim_ws_suffix(body, '\n');
    assert(cleaned(w) == trim_seq(body));
    // the bare reply is untouched by both removals
    lemma_remove_clean(body, p1);
    lemma_remove_clean(body, p2);
    assert(cleaned(body) == trim_seq(body));
}

/// A reply wrapped in a tagged fenced block parses to the same tag and
/// summary as the bare reply.
pub proof fn lemma_fenced_response_parses_identically(body: Seq<char>)
    requires
        forall|i: int| 0 <= i < body.len() ==> body[i] != '`',
    ensures
        summary_fields(cleaned(fence_json_seq() + body + seq!['\n'] + fence_seq()))
            == summary_fields(cleaned(body)),
{
    lemma_fenced_equals_plain(body);
}


/// A reply wrapped in an untagged fenced block means the same as the bare
/// reply: stripping the fences of `"```\n" + body + "\n```"` leaves
/// exactly the trimmed body, for a body free of backticks.
pub proof fn lemma_untagged_fenced_equals_plain(body: Seq<char>)
    requires
        forall|i: int| 0 <= i < body.len() ==> body[i] != '`',
    ensures
        cleaned(fence_seq() + seq!['\n'] + body + seq!['\n'] + fence_seq()) == cleaned(body),
{
    let p1 = fence_json_seq();
    let p2 = fence_seq();
    let mid = seq!['\n'] + body + seq!['\n'];
    let w = fence_seq() + seq!['\n'] + body + seq!['\n'] + fence_seq();
    assert(w =~= p2 + (mid + p2));
    assert(w.len() == mid.len() + 6);
    // every char of the middle section is free of backticks
    assert forall|k: int| 0 <= k < mid.len() implies mid[k] != '`' by {
        if 1 <= k < mid.len() - 1 {
            assert(mid[k] == body[k - 1]);
        }
    }
    // the tagged marker occurs nowhere: its fourth char is 'j', while any
    // window opening on a backtick reads '\n' there or runs out of text
    assert forall|i: int|
        0 <= i <= w.len() - p1.len() implies #[trigger] w.subrange(i, i + p1.len() as int)
        != p1 by {
        let win = w.subrange(i, i + p1.len() as int);
        if i == 0 {
            assert(win[3] == w[3]);
            assert(w[3] == mid[0]);
            assert(p1[3] == 'j');
        } else if i == 1 {
            assert(win[2] == w[3]);
            assert(w[3] == mid[0]);
            assert(p1[2] == '`');
        } else if i == 2 {
            assert(win[1] == w[3]);
            assert(w[3] == mid[0]);
            assert(p1[1] == '`');
        } else {
            assert(i + 8 <= w.len());
            assert(3 <= i < mid.len() + 3);
            assert(win[0] == w[i]);
            assert(w[i] == mid[i - 3]);
            assert(p1[0] == '`');
        }
    }
    lemma_remove_no_occurrence(w, p1);
    assert(remove_seq(w, p1) == w);
    // the bare markers at both ends go
    lemma_remove_prefix(mid + p2, p2);
    lemma_remove_skip_clean(mid, p2, p2);
    lemma_remove_self(p2);
    assert(mid + Seq::<char>::empty() =~= mid);
    assert(remove_seq(w, p2) == mid);
    // trimming eats the newlines the fence lines left behind
    assert(mid =~= seq!['\n'] + body.push('\n'));
    lemma_trim_ws_prefix(body.push('\n'), '\n');
    lemma_trim_ws_suffix(body, '\n');
    assert(cleaned(w) == trim_seq(body));
    lemma_remove_clean(body, p1);
    lemma_remove_clean(body, p2);
}

/// One bullet line per commit headline, joined by newlines.
pub open spec fn bullet_lines(commits: Seq<CommitModel>) -> Seq<char>
    decreases commits.len(),
{
    if commits.len() == 0 {
        Seq::empty()
    } else if commits.len() == 1 {
        "* "@ + commits[0].headline
    } else {
        bullet_lines(commits.drop_last()) + "\n"@ + "* "@ + commits.last().headline
    }
}

/// The whole prompt for one pull request.
pub open spec fn prompt_seq(pr: PullRequestModel) -> Seq<char> {
    "You are a senior software developer writing a one line summary and tag for a pull request.\nI will give you a Pull Request title, body and a list of the commit messages.\nWrite me a tag and one line summary for that pull request in the following json format:\n\n```\n{\n    'tag': 'feature',\n    'summary': 'updated the css to remove all tailwind references'\n}\n```\n\nThe tag in parenthesis should be one of: feature, bugfix, documentation, test, misc.\n\nHere is the pull request information:\n\nTitle: "@
        + pr.title + "\nBody: \n"@ + pr.body + "\n\nCommit Summaries:\n"@ + bullet_lines(pr.commits)
        + "\n\nPlease respond with only the json data of tag and summary"@
}

/// Build the prompt that embeds the pull request's title, body, and commit
/// headlines, in the record's commit order.
pub fn build_prompt(pr: &PullRequestRecord) -> (r: String)
    ensures
        r@ == prompt_seq(pr@),
{
    let mut out: String =
        "You are a senior software developer writing a one line summary and tag for a pull request.\nI will give you a Pull Request title, body and a list of the commit messages.\nWrite me a tag and one line summary for that pull request in the following json format:\n\n```\n{\n    'tag': 'feature',\n    'summary': 'updated the css to remove all tailwind references'\n}\n```\n\nThe tag in parenthesis should be one of: feature, bugfix, documentation, test, misc.\n\nHere is the pull request information:\n\nTitle: ".to_owned();
    out.append(pr.title.as_str());
    out.append("\nBody: \n");
    out.append(pr.body.as_str());
    out.append("\n\nCommit Summaries:\n");
    let ghost before_bullets = out@;
    let mut i: usize = 0;
    while i < pr.commits.len()
        invariant
            i <= pr.commits@.len(),
            out@ == before_bullets + bullet_lines(pr@.commits.subrange(0, i as int)),
        decreases pr.commits@.len() - i,
    {
        if i > 0 {
            out.append("\n");
        }
        out.append("* ");
        out.append(pr.commits[i].headline.as_str());
        i = i + 1;
        proof {
            let sub = pr@.commits.subrange(0, i as int);
            assert(sub.drop_last() =~= pr@.commits.subrange(0, i as int - 1));
            assert(sub.last() == pr@.commits[i as int - 1]);
            if i as int == 1 {
                assert(bullet_lines(sub) == "* "@ + pr@.commits[0].headline);
                assert(before_bullets + Seq::<char>::empty() =~= before_bullets);
                assert(out@ =~= before_bullets + bullet_lines(sub));
            } else {
                assert(bullet_lines(sub) == bullet_lines(sub.drop_last()) + "\n"@ + "* "@
                    + sub.last().headline);
                assert(out@ =~= before_bullets + bullet_lines(sub));
            }
        }
    }
    out.append("\n\nPlease respond with only the json data of tag and summary");
    proof {
        assert(pr@.commits.subrange(0, pr.commits@.len() as int) =~= pr@.commits);
        assert(out@ =~= prompt_seq(pr@));
    }
    out
}

/// Turn an oracle reply for `pr` into its tagged summary. The tag is taken
/// verbatim — an unrecognized tag is kept and becomes its own group later,
/// never dropped. Fails with `SummaryParse` exactly when the cleaned reply
/// carries no tag/summary object; the caller reports that and leaves `pr`
/// out of the grouped output for this run.
pub fn make_tagged_summary(pr: &PullRequestRecord, response: &str) -> (r: Result<
    TaggedSummary,
    GlanceError,
>)
    ensures
        match r {
            Ok(ts) => summary_fields(cleaned(response@)) == Some((ts@.tag, ts@.summary))
                && ts@.number == pr@.number && ts@.url == pr@.url,
            Err(e) => summary_fields(cleaned(response@)) is None && e is SummaryParse,
        },
{
    match parse_summary_response(response) {
        Ok((tag, summary)) => Ok(
            TaggedSummary { number: pr.number, tag, summary, url: pr.url.clone() },
        ),
        Err(_) => Err(GlanceError::SummaryParse),
    }
}

} // verus!
