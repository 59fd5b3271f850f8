//! Parsing of the PR-lookup collaborator's reply: an array whose first
//! element (or null) is a merged pull request with its commits. Required
//! fields are validated once, here; a missing or ill-shaped field is a
//! `MalformedResponse` naming it. The reply text is handed in by the
//! embedding program, which ran the external query.

use vstd::prelude::*;
use vstd::string::StringExecFns;
use crate::errors::GlanceError;
use crate::jsonval::{
    json_as_array, json_as_str, json_as_u64, json_get, json_is_null, json_text_parses,
    json_text_value, parse_json, value_elems, value_entry, value_is_null, value_str, value_u64,
};
use crate::records::{CommitModel, CommitRecord, PullRequestModel, PullRequestRecord};

verus! {

/// The string member of object `v` under `key`, where there is one.
pub open spec fn str_field(v: serde_json::Value, key: Seq<char>) -> Option<Seq<char>> {
    match value_entry(v, key) {
        Some(f) => value_str(f),
        None => None,
    }
}

fn get_str_field<'a>(v: &'a serde_json::Value, key: &str) -> (r: Option<&'a str>)
    ensures
        r is Some <==> str_field(*v, key@) is Some,
        r matches Some(s) ==> str_field(*v, key@) == Some(s@),
{
    match json_get(v, key) {
        Some(f) => json_as_str(f),
        None => None,
    }
}

/// The oid, headline, and body of one commit object of a pull request.
pub open spec fn raw_commit_of(v: serde_json::Value) -> Option<(Seq<char>, Seq<char>, Seq<char>)> {
    match str_field(v, "oid"@) {
        Some(oid) => match str_field(v, "messageHeadline"@) {
            Some(headline) => match str_field(v, "messageBody"@) {
                Some(body) => Some((oid, headline, body)),
                None => None,
            },
            None => None,
        },
        None => None,
    }
}

/// The commit triples of a commit array, present only when every element
/// carries all three required string fields.
pub open spec fn raw_commits_of(vs: Seq<serde_json::Value>) -> Option<
    Seq<(Seq<char>, Seq<char>, Seq<char>)>,
>
    decreases vs.len(),
{
    if vs.len() == 0 {
        Some(Seq::empty())
    } else {
        match raw_commits_of(vs.drop_last()) {
            Some(acc) => match raw_commit_of(vs.last()) {
                Some(rc) => Some(acc.push(rc)),
                None => None,
            },
            None => None,
        }
    }
}

/// The pull-request record a lookup reply's first element denotes, or the
/// name of the first required field it is missing.
pub open spec fn pr_of(p: serde_json::Value) -> Result<Option<PullRequestModel>, Seq<char>> {
    match value_entry(p, "number"@) {
        None => Err("number"@),
        Some(nv) => match value_u64(nv) {
            None => Err("number"@),
            Some(n) => match str_field(p, "title"@) {
                None => Err("title"@),
                Some(title) => match str_field(p, "body"@) {
                    None => Err("body"@),
                    Some(body) => match value_entry(p, "author"@) {
                        None => Err("author"@),
                        Some(av) => match str_field(av, "login"@) {
                            None => Err("author"@),
                            Some(author) => match str_field(p, "url"@) {
                                None => Err("url"@),
                                Some(url) => match str_field(p, "updatedAt"@) {
                                    None => Err("updatedAt"@),
                                    Some(updated_at) => match str_field(p, "mergedAt"@) {
                                        None => Err("mergedAt"@),
                                        Some(merged_at) => match value_entry(p, "commits"@) {
                                            None => Err("commits"@),
                                            Some(cv) => match value_elems(cv) {
                                                None => Err("commits"@),
                                                Some(cs) => match raw_commits_of(cs) {
                                                    None => Err("commits"@),
                                                    Some(rcs) => Ok(
                                                        Some(
                                                            PullRequestModel {
                                                                number: n,
                                                                title,
                                                                body,
                                                                author,
                                                                comments: Seq::empty(),
                                                                commits: Seq::new(
                                                                    rcs.len(),
                                                                    |i: int|
                                                                        CommitModel {
                                                                            oid: rcs[i].0,
                                                                            headline: rcs[i].1,
                                                                            body: rcs[i].2,
                                                                            pr: Some(n),
                                                                        },
                                                                ),
                                                                url,
                                                                updated_at,
                                                                merged_at,
                                                            },
                                                        ),
                                                    ),
                                                },
                                            },
                                        },
                                    },
                                },
                            },
                        },
                    },
                },
            },
        },
    }
}

/// What a lookup reply means: no merged pull request (an empty array or a
/// null first element), a full record, or the name of the missing field.
pub open spec fn lookup_outcome(s: Seq<char>) -> Result<Option<PullRequestModel>, Seq<char>> {
    if !json_text_parses(s) {
        Err("response"@)
    } else {
        match value_elems(json_text_value(s)) {
            None => Err("response"@),
            Some(es) => if es.len() == 0 || value_is_null(es[0]) {
                Ok(None)
            } else {
                pr_of(es[0])
            },
        }
    }
}

/// Parse a lookup reply. `Ok(None)` means the queried commit is standalone;
/// `Err` carries `MalformedResponse` with the first missing field's name,
/// exactly as `lookup_outcome` lays it down.
pub fn parse_lookup_response(s: &str) -> (r: Result<Option<PullRequestRecord>, GlanceError>)
    ensures
        match r {
            Ok(Some(p)) => lookup_outcome(s@) == Ok::<Option<PullRequestModel>, Seq<char>>(
                Some(p@),
            ),
            Ok(None) => lookup_outcome(s@) == Ok::<Option<PullRequestModel>, Seq<char>>(None),
            Err(e) => e matches GlanceError::MalformedResponse(f) && lookup_outcome(s@)
                == Err::<Option<PullRequestModel>, Seq<char>>(f@),
        },
{
    let v = match parse_json(s) {
        Some(v) => v,
        None => {
            return Err(GlanceError::MalformedResponse("response".to_owned()));
        },
    };
    let es = match json_as_array(&v) {
        Some(es) => es,
        None => {
            return Err(GlanceError::MalformedResponse("response".to_owned()));
        },
    };
    if es.len() == 0 {
        return Ok(None);
    }
    let p = &es[0];
    proof {
        assert(value_elems(json_text_value(s@)) matches Some(elems) && elems[0] == *p);
    }
    if json_is_null(p) {
        return Ok(None);
    }
    let nv = match json_get(p, "number") {
        Some(nv) => nv,
        None => {
            return Err(GlanceError::MalformedResponse("number".to_owned()));
        },
    };
    let number = match json_as_u64(nv) {
        Some(n) => n,
        None => {
            return Err(GlanceError::MalformedResponse("number".to_owned()));
        },
    };
    let title = match get_str_field(p, "title") {
        Some(t) => t.to_owned(),
        None => {
            return Err(GlanceError::MalformedResponse("title".to_owned()));
        },
    };
    let body = match get_str_field(p, "body") {
        Some(t) => t.to_owned(),
        None => {
            return Err(GlanceError::MalformedResponse("body".to_owned()));
        },
    };
    let av = match json_get(p, "author") {
        Some(av) => av,
        None => {
            return Err(GlanceError::MalformedResponse("author".to_owned()));
        },
    };
    let author = match get_str_field(av, "login") {
        Some(t) => t.to_owned(),
        None => {
            return Err(GlanceError::MalformedResponse("author".to_owned()));
        },
    };
    let url = match get_str_field(p, "url") {
        Some(t) => t.to_owned(),
        None => {
            return Err(GlanceError::MalformedResponse("url".to_owned()));
        },
    };
    let updated_at = match get_str_field(p, "updatedAt") {
        Some(t) => t.to_owned(),
        None => {
            return Err(GlanceError::MalformedResponse("updatedAt".to_owned()));
        },
    };
    let merged_at = match get_str_field(p, "mergedAt") {
        Some(t) => t.to_owned(),
        None => {
            return Err(GlanceError::MalformedResponse("mergedAt".to_owned()));
        },
    };
    let cv = match json_get(p, "commits") {
        Some(cv) => cv,
        None => {
            return Err(GlanceError::MalformedResponse("commits".to_owned()));
        },
    };
    let cs = match json_as_array(cv) {
        Some(cs) => cs,
        None => {
            return Err(GlanceError::MalformedResponse("commits".to_owned()));
        },
    };
    let ghost pv = *p;
    let ghost cvv = *cv;
    let ghost avv = *av;
    let mut commits: Vec<CommitRecord> = Vec::new();
    let mut i: usize = 0;
    proof {
        assert(cs@.subrange(0, 0) =~= Seq::<serde_json::Value>::empty());
    }
    while i < cs.len()
        invariant
            i <= cs@.len(),
            json_text_parses(s@),
            value_elems(json_text_value(s@)) matches Some(ess) && ess.len() > 0 && ess[0] == pv,
            !value_is_null(pv),
            value_entry(pv, "number"@) matches Some(nvv) && value_u64(nvv) == Some(number),
            str_field(pv, "title"@) == Some(title@),
            str_field(pv, "body"@) == Some(body@),
            value_entry(pv, "author"@) == Some(avv),
            str_field(avv, "login"@) == Some(author@),
            str_field(pv, "url"@) == Some(url@),
            str_field(pv, "updatedAt"@) == Some(updated_at@),
            str_field(pv, "mergedAt"@) == Some(merged_at@),
            value_entry(pv, "commits"@) == Some(cvv),
            value_elems(cvv) == Some(cs@),
            raw_commits_of(cs@.subrange(0, i as int)) matches Some(rcs) && rcs.len()
                == commits@.len() && forall|j: int|
                0 <= j < commits@.len() ==> commits@[j]@ == (CommitModel {
                    oid: rcs[j].0,
                    headline: rcs[j].1,
                    body: rcs[j].2,
                    pr: Some(number),
                }),
        decreases cs@.len() - i,
    {
        let cobj = &cs[i];
        let oid = match get_str_field(cobj, "oid") {
            Some(t) => t.to_owned(),
            None => {
                proof {
                    lemma_raw_commits_prefix_failure(cs@, i as int);
                }
                return Err(GlanceError::MalformedResponse("commits".to_owned()));
            },
        };
        let headline = match get_str_field(cobj, "messageHeadline") {
            Some(t) => t.to_owned(),
            None => {
                proof {
                    lemma_raw_commits_prefix_failure(cs@, i as int);
                }
                return Err(GlanceError::MalformedResponse("commits".to_owned()));
            },
        };
        let cbody = match get_str_field(cobj, "messageBody") {
            Some(t) => t.to_owned(),
            None => {
                proof {
                    lemma_raw_commits_prefix_failure(cs@, i as int);
                }
                return Err(GlanceError::MalformedResponse("commits".to_owned()));
            },
        };
        commits.push(
            CommitRecord { oid, headline, body: cbody, pr: Some(number) },
        );
        i = i + 1;
        proof {
            assert(cs@.subrange(0, i as int).drop_last() =~= cs@.subrange(0, i as int - 1));
            assert(cs@.subrange(0, i as int).last() == cs@[i as int - 1]);
        }
    }
    proof {
        assert(cs@.subrange(0, cs@.len() as int) =~= cs@);
    }
    let pr = PullRequestRecord {
        number,
        title,
        body,
        author,
        comments: Vec::new(),
        commits,
        url,
        updated_at,
        merged_at,
    };
    proof {
        let outcome = pr_of(value_elems(json_text_value(s@))->Some_0[0]);
        assert(outcome matches Ok(op) && op matches Some(m) && pr@.commits =~= m.commits);
        assert(pr@.comments =~= Seq::<Seq<char>>::empty());
        assert(outcome == Ok::<Option<PullRequestModel>, Seq<char>>(Some(pr@))) by {
            assert(pr@ =~= outcome->Ok_0->Some_0);
        }
    }
    Ok(Some(pr))
}

/// A commit array fails as a whole as soon as one element fails, whatever
/// parses after it.
proof fn lemma_raw_commits_prefix_failure(
    vs: Seq<serde_json::Value>,
    i: int,
)
    requires
        0 <= i < vs.len(),
        raw_commits_of(vs.subrange(0, i)) is Some,
        raw_commit_of(vs[i]) is None,
    ensures
        raw_commits_of(vs) is None,
    decreases vs.len(),
{
    if vs.len() == i + 1 {
        assert(vs.drop_last() =~= vs.subrange(0, i));
        assert(vs.last() == vs[i]);
    } else {
        assert(vs.drop_last().subrange(0, i) =~= vs.subrange(0, i));
        assert(vs.drop_last()[i] == vs[i]);
        lemma_raw_commits_prefix_failure(vs.drop_last(), i);
    }
}

} // verus!
