//! The data the pipeline reconciles and renders: per-commit records,
//! pull-request records, and the derived tagged summaries.
//!
//! Each executable record type has a ghost model over `Seq<char>` and plain
//! values; contracts throughout the crate speak of these models.

use vstd::prelude::*;

verus! {

/// A commit examined by the pipeline, as the cache stores it: commit id,
/// first message line, full message, and the pull request it resolved to.
/// `pr: None` on a persisted record means the commit is known standalone;
/// a commit never examined has no record at all.
pub struct CommitRecord {
    pub oid: String,
    pub headline: String,
    pub body: String,
    pub pr: Option<u64>,
}

pub ghost struct CommitModel {
    pub oid: Seq<char>,
    pub headline: Seq<char>,
    pub body: Seq<char>,
    pub pr: Option<u64>,
}

impl View for CommitRecord {
    type V = CommitModel;

    open spec fn view(&self) -> CommitModel {
        CommitModel {
            oid: self.oid@,
            headline: self.headline@,
            body: self.body@,
            pr: self.pr,
        }
    }
}

impl Clone for CommitRecord {
    fn clone(&self) -> (r: Self)
        ensures
            r@ == self@,
    {
        CommitRecord {
            oid: self.oid.clone(),
            headline: self.headline.clone(),
            body: self.body.clone(),
            pr: self.pr,
        }
    }
}

/// A merged pull request as the lookup collaborator reports it, owning a
/// copy of every commit it contains.
pub struct PullRequestRecord {
    pub number: u64,
    pub title: String,
    pub body: String,
    pub author: String,
    pub comments: Vec<String>,
    pub commits: Vec<CommitRecord>,
    pub url: String,
    pub updated_at: String,
    pub merged_at: String,
}

pub ghost struct PullRequestModel {
    pub number: u64,
    pub title: Seq<char>,
    pub body: Seq<char>,
    pub author: Seq<char>,
    pub comments: Seq<Seq<char>>,
    pub commits: Seq<CommitModel>,
    pub url: Seq<char>,
    pub updated_at: Seq<char>,
    pub merged_at: Seq<char>,
}

impl View for PullRequestRecord {
    type V = PullRequestModel;

    open spec fn view(&self) -> PullRequestModel {
        PullRequestModel {
            number: self.number,
            title: self.title@,
            body: self.body@,
            author: self.author@,
            comments: Seq::new(self.comments@.len(), |i: int| self.comments@[i]@),
            commits: Seq::new(self.commits@.len(), |i: int| self.commits@[i]@),
            url: self.url@,
            updated_at: self.updated_at@,
            merged_at: self.merged_at@,
        }
    }
}

impl Clone for PullRequestRecord {
    fn clone(&self) -> (r: Self)
        ensures
            r@ == self@,
    {
        let mut comments: Vec<String> = Vec::new();
        let mut i: usize = 0;
        while i < self.comments.len()
            invariant
                i <= self.comments.len(),
                comments@.len() == i as int,
                forall|j: int| 0 <= j < i as int ==> comments@[j]@ == self.comments@[j]@,
            decreases self.comments.len() - i,
        {
            comments.push(self.comments[i].clone());
            i = i + 1;
        }
        let mut commits: Vec<CommitRecord> = Vec::new();
        let mut i: usize = 0;
        while i < self.commits.len()
            invariant
                i <= self.commits.len(),
                commits@.len() == i as int,
                forall|j: int| 0 <= j < i as int ==> commits@[j]@ == self.commits@[j]@,
            decreases self.commits.len() - i,
        {
            commits.push(self.commits[i].clone());
            i = i + 1;
        }
        let r = PullRequestRecord {
            number: self.number,
            title: self.title.clone(),
            body: self.body.clone(),
            author: self.author.clone(),
            comments,
            commits,
            url: self.url.clone(),
            updated_at: self.updated_at.clone(),
            merged_at: self.merged_at.clone(),
        };
        proof {
            assert(r@.comments =~= self@.comments);
            assert(r@.commits =~= self@.commits);
            assert(r@ =~= self@);
        }
        r
    }
}

/// The derived, per-run summary of one pull request: a change-category tag,
/// a one-line summary, and enough to render a link.
pub struct TaggedSummary {
    pub number: u64,
    pub tag: String,
    pub summary: String,
    pub url: String,
}

pub ghost struct TaggedSummaryModel {
    pub number: u64,
    pub tag: Seq<char>,
    pub summary: Seq<char>,
    pub url: Seq<char>,
}

impl View for TaggedSummary {
    type V = TaggedSummaryModel;

    open spec fn view(&self) -> TaggedSummaryModel {
        TaggedSummaryModel {
            number: self.number,
            tag: self.tag@,
            summary: self.summary@,
            url: self.url@,
        }
    }
}

impl Clone for TaggedSummary {
    fn clone(&self) -> (r: Self)
        ensures
            r@ == self@,
    {
        TaggedSummary {
            number: self.number,
            tag: self.tag.clone(),
            summary: self.summary.clone(),
            url: self.url.clone(),
        }
    }
}

} // verus!
