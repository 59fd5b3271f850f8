//! The reconciliation cache: a durable mapping from commit id to commit
//! record and from pull-request number to pull-request record.
//!
//! The store is a value; persistence (one entry per key under the
//! repository's metadata directory) is the embedding program's concern.
//! Writes are idempotent overwrites, last write wins, and entries never
//! expire. Concurrent runs against one persisted cache are explicitly not
//! guaranteed consistent.

use vstd::prelude::*;
use crate::records::{CommitModel, CommitRecord, PullRequestModel, PullRequestRecord};

verus! {

pub open spec fn commit_keys_unique(s: Seq<CommitModel>) -> bool {
    forall|i: int, j: int| 0 <= i < j < s.len() ==> s[i].oid != s[j].oid
}

pub open spec fn pr_keys_unique(s: Seq<PullRequestModel>) -> bool {
    forall|i: int, j: int| 0 <= i < j < s.len() ==> s[i].number != s[j].number
}

pub open spec fn commit_map_of(s: Seq<CommitModel>) -> Map<Seq<char>, CommitModel>
    decreases s.len(),
{
    if s.len() == 0 {
        Map::empty()
    } else {
        commit_map_of(s.drop_last()).insert(s.last().oid, s.last())
    }
}

pub open spec fn pr_map_of(s: Seq<PullRequestModel>) -> Map<u64, PullRequestModel>
    decreases s.len(),
{
    if s.len() == 0 {
        Map::empty()
    } else {
        pr_map_of(s.drop_last()).insert(s.last().number, s.last())
    }
}

pub proof fn lemma_commit_map_contains(s: Seq<CommitModel>, k: Seq<char>)
    ensures
        commit_map_of(s).contains_key(k) <==> exists|i: int| 0 <= i < s.len() && s[i].oid == k,
    decreases s.len(),
{
    if s.len() > 0 {
        lemma_commit_map_contains(s.drop_last(), k);
        if commit_map_of(s).contains_key(k) {
            if s.last().oid == k {
                assert(s[s.len() - 1].oid == k);
            } else {
                let i = choose|i: int| 0 <= i < s.drop_last().len() && s.drop_last()[i].oid == k;
                assert(s[i].oid == k);
            }
        }
        if exists|i: int| 0 <= i < s.len() && s[i].oid == k {
            let i = choose|i: int| 0 <= i < s.len() && s[i].oid == k;
            if i < s.len() - 1 {
                assert(s.drop_last()[i].oid == k);
            }
        }
    }
}

pub proof fn lemma_commit_map_at(s: Seq<CommitModel>, i: int)
    requires
        commit_keys_unique(s),
        0 <= i < s.len(),
    ensures
        commit_map_of(s).contains_key(s[i].oid),
        commit_map_of(s)[s[i].oid] == s[i],
    decreases s.len(),
{
    if i == s.len() - 1 {
    } else {
        lemma_commit_map_at(s.drop_last(), i);
        assert(s.drop_last()[i] == s[i]);
        assert(s.last().oid != s[i].oid);
    }
}

pub proof fn lemma_commit_map_push(s: Seq<CommitModel>, v: CommitModel)
    ensures
        commit_map_of(s.push(v)) == commit_map_of(s).insert(v.oid, v),
{
    assert(s.push(v).drop_last() =~= s);
    assert(s.push(v).last() == v);
}

pub proof fn lemma_commit_map_update(s: Seq<CommitModel>, i: int, v: CommitModel)
    requires
        commit_keys_unique(s),
        0 <= i < s.len(),
        s[i].oid == v.oid,
    ensures
        commit_map_of(s.update(i, v)) == commit_map_of(s).insert(v.oid, v),
    decreases s.len(),
{
    let t = s.update(i, v);
    if i == s.len() - 1 {
        assert(t.drop_last() =~= s.drop_last());
        assert(t.last() == v);
        assert(commit_map_of(s.drop_last()).insert(v.oid, v) =~= commit_map_of(s).insert(
            v.oid,
            v,
        ));
    } else {
        assert(t.drop_last() =~= s.drop_last().update(i, v));
        assert(t.last() == s.last());
        lemma_commit_map_update(s.drop_last(), i, v);
        assert(s.last().oid != v.oid);
        assert(commit_map_of(s.drop_last()).insert(v.oid, v).insert(s.last().oid, s.last())
            =~= commit_map_of(s.drop_last()).insert(s.last().oid, s.last()).insert(v.oid, v));
    }
}

pub proof fn lemma_pr_map_contains(s: Seq<PullRequestModel>, k: u64)
    ensures
        pr_map_of(s).contains_key(k) <==> exists|i: int| 0 <= i < s.len() && s[i].number == k,
    decreases s.len(),
{
    if s.len() > 0 {
        lemma_pr_map_contains(s.drop_last(), k);
        if pr_map_of(s).contains_key(k) {
            if s.last().number == k {
                assert(s[s.len() - 1].number == k);
            } else {
                let i = choose|i: int|
                    0 <= i < s.drop_last().len() && s.drop_last()[i].number == k;
                assert(s[i].number == k);
            }
        }
        if exists|i: int| 0 <= i < s.len() && s[i].number == k {
            let i = choose|i: int| 0 <= i < s.len() && s[i].number == k;
            if i < s.len() - 1 {
                assert(s.drop_last()[i].number == k);
            }
        }
    }
}

pub proof fn lemma_pr_map_at(s: Seq<PullRequestModel>, i: int)
    requires
        pr_keys_unique(s),
        0 <= i < s.len(),
    ensures
        pr_map_of(s).contains_key(s[i].number),
        pr_map_of(s)[s[i].number] == s[i],
    decreases s.len(),
{
    if i == s.len() - 1 {
    } else {
        lemma_pr_map_at(s.drop_last(), i);
        assert(s.drop_last()[i] == s[i]);
        assert(s.last().number != s[i].number);
    }
}

pub proof fn lemma_pr_map_push(s: Seq<PullRequestModel>, v: PullRequestModel)
    ensures
        pr_map_of(s.push(v)) == pr_map_of(s).insert(v.number, v),
{
    assert(s.push(v).drop_last() =~= s);
    assert(s.push(v).last() == v);
}

pub proof fn lemma_pr_map_update(s: Seq<PullRequestModel>, i: int, v: PullRequestModel)
    requires
        pr_keys_unique(s),
        0 <= i < s.len(),
        s[i].number == v.number,
    ensures
        pr_map_of(s.update(i, v)) == pr_map_of(s).insert(v.number, v),
    decreases s.len(),
{
    let t = s.update(i, v);
    if i == s.len() - 1 {
        assert(t.drop_last() =~= s.drop_last());
        assert(t.last() == v);
        assert(pr_map_of(s.drop_last()).insert(v.number, v) =~= pr_map_of(s).insert(v.number, v));
    } else {
        assert(t.drop_last() =~= s.drop_last().update(i, v));
        assert(t.last() == s.last());
        lemma_pr_map_update(s.drop_last(), i, v);
        assert(s.last().number != v.number);
        assert(pr_map_of(s.drop_last()).insert(v.number, v).insert(s.last().number, s.last())
            =~= pr_map_of(s.drop_last()).insert(s.last().number, s.last()).insert(
            v.number,
            v,
        ));
    }
}

/// The reconciliation cache. `commit_map()` and `pr_map()` are its
/// abstraction; both stores keep one record per key.
pub struct GlanceCache {
    commits: Vec<CommitRecord>,
    prs: Vec<PullRequestRecord>,
}

impl GlanceCache {
    pub closed spec fn commit_seq(&self) -> Seq<CommitModel> {
        Seq::new(self.commits@.len(), |i: int| self.commits@[i]@)
    }

    pub closed spec fn pr_seq(&self) -> Seq<PullRequestModel> {
        Seq::new(self.prs@.len(), |i: int| self.prs@[i]@)
    }

    pub open spec fn commit_map(&self) -> Map<Seq<char>, CommitModel> {
        commit_map_of(self.commit_seq())
    }

    pub open spec fn pr_map(&self) -> Map<u64, PullRequestModel> {
        pr_map_of(self.pr_seq())
    }

    pub closed spec fn wf(&self) -> bool {
        commit_keys_unique(self.commit_seq()) && pr_keys_unique(self.pr_seq())
    }

    pub fn new() -> (r: Self)
        ensures
            r.wf(),
            r.commit_map() == Map::<Seq<char>, CommitModel>::empty(),
            r.pr_map() == Map::<u64, PullRequestModel>::empty(),
    {
        let r = GlanceCache { commits: Vec::new(), prs: Vec::new() };
        proof {
            assert(r.commit_seq() =~= Seq::<CommitModel>::empty());
            assert(r.pr_seq() =~= Seq::<PullRequestModel>::empty());
        }
        r
    }

    /// Absent means "never examined".
    pub fn get_commit(&self, oid: &String) -> (r: Option<&CommitRecord>)
        requires
            self.wf(),
        ensures
            match r {
                Some(c) => self.commit_map().contains_key(oid@) && c@ == self.commit_map()[oid@],
                None => !self.commit_map().contains_key(oid@),
            },
    {
        let mut i: usize = 0;
        while i < self.commits.len()
            invariant
                self.wf(),
                i <= self.commits@.len(),
                forall|j: int| 0 <= j < i as int ==> self.commit_seq()[j].oid != oid@,
            decreases self.commits@.len() - i,
        {
            if self.commits[i].oid == *oid {
                proof {
                    lemma_commit_map_at(self.commit_seq(), i as int);
                }
                return Some(&self.commits[i]);
            }
            i = i + 1;
        }
        proof {
            lemma_commit_map_contains(self.commit_seq(), oid@);
        }
        None
    }

    /// Absent is only possible for a number no cached commit points at;
    /// a pointing commit with no record here is cache corruption.
    pub fn get_pr(&self, number: u64) -> (r: Option<&PullRequestRecord>)
        requires
            self.wf(),
        ensures
            match r {
                Some(p) => self.pr_map().contains_key(number) && p@ == self.pr_map()[number],
                None => !self.pr_map().contains_key(number),
            },
    {
        let mut i: usize = 0;
        while i < self.prs.len()
            invariant
                self.wf(),
                i <= self.prs@.len(),
                forall|j: int| 0 <= j < i as int ==> self.pr_seq()[j].number != number,
            decreases self.prs@.len() - i,
        {
            if self.prs[i].number == number {
                proof {
                    lemma_pr_map_at(self.pr_seq(), i as int);
                }
                return Some(&self.prs[i]);
            }
            i = i + 1;
        }
        proof {
            lemma_pr_map_contains(self.pr_seq(), number);
        }
        None
    }

    /// Idempotent overwrite: last write wins.
    pub fn put_commit(&mut self, rec: CommitRecord)
        requires
            old(self).wf(),
        ensures
            final(self).wf(),
            final(self).commit_map() == old(self).commit_map().insert(rec.oid@, rec@),
            final(self).pr_map() == old(self).pr_map(),
    {
        let ghost old_seq = old(self).commit_seq();
        proof {
            assert(self.commit_seq() =~= old_seq);
        }
        let mut i: usize = 0;
        while i < self.commits.len()
            invariant
                self.wf(),
                old_seq == old(self).commit_seq(),
                self.commit_seq() == old_seq,
                self.pr_seq() == old(self).pr_seq(),
                i <= self.commits@.len(),
                forall|j: int| 0 <= j < i as int ==> self.commit_seq()[j].oid != rec.oid@,
            decreases self.commits@.len() - i,
        {
            if self.commits[i].oid == rec.oid {
                let ghost v = rec@;
                self.commits.set(i, rec);
                proof {
                    assert(old_seq[i as int].oid == v.oid);
                    assert(self.commit_seq() =~= old_seq.update(i as int, v));
                    lemma_commit_map_update(old_seq, i as int, v);
                    assert(self.commit_map() == commit_map_of(old_seq).insert(v.oid, v));

                    assert forall|a: int|
                        0 <= a < self.commit_seq().len() implies self.commit_seq()[a].oid
                        == old_seq[a].oid by {}
                    assert(commit_keys_unique(self.commit_seq()));
                    assert(self.pr_seq() =~= old(self).pr_seq());
                }
                return ;
            }
            i = i + 1;
        }
        let ghost v = rec@;
        self.commits.push(rec);
        proof {
            assert(self.commit_seq() =~= old_seq.push(v));
            lemma_commit_map_push(old_seq, v);
            assert forall|a: int, b: int|
                0 <= a < b < self.commit_seq().len() implies self.commit_seq()[a].oid
                != self.commit_seq()[b].oid by {
                if b == self.commit_seq().len() - 1 {
                    assert(self.commit_seq()[a] == old_seq[a]);
                }
            }
            assert(self.pr_seq() =~= old(self).pr_seq());
        }
    }

    /// Idempotent overwrite: last write wins.
    pub fn put_pr(&mut self, rec: PullRequestRecord)
        requires
            old(self).wf(),
        ensures
            final(self).wf(),
            final(self).pr_map() == old(self).pr_map().insert(rec.number, rec@),
            final(self).commit_map() == old(self).commit_map(),
    {
        let ghost old_seq = old(self).pr_seq();
        proof {
            assert(self.pr_seq() =~= old_seq);
        }
        let number = rec.number;
        let mut i: usize = 0;
        while i < self.prs.len()
            invariant
                self.wf(),
                old_seq == old(self).pr_seq(),
                self.pr_seq() == old_seq,
                self.commit_seq() == old(self).commit_seq(),
                i <= self.prs@.len(),
                forall|j: int| 0 <= j < i as int ==> self.pr_seq()[j].number != number,
                number == rec.number,
            decreases self.prs@.len() - i,
        {
            if self.prs[i].number == number {
                let ghost v = rec@;
                self.prs.set(i, rec);
                proof {
                    assert(old_seq[i as int].number == v.number);
                    assert(self.pr_seq() =~= old_seq.update(i as int, v));
                    lemma_pr_map_update(old_seq, i as int, v);
                    assert(self.pr_map() == pr_map_of(old_seq).insert(v.number, v));

                    assert forall|a: int|
                        0 <= a < self.pr_seq().len() implies self.pr_seq()[a].number
                        == old_seq[a].number by {}
                    assert(pr_keys_unique(self.pr_seq()));
                    assert(self.commit_seq() =~= old(self).commit_seq());
                }
                return ;
            }
            i = i + 1;
        }
        let ghost v = rec@;
        self.prs.push(rec);
        proof {
            assert(self.pr_seq() =~= old_seq.push(v));
            lemma_pr_map_push(old_seq, v);
            assert forall|a: int, b: int|
                0 <= a < b < self.pr_seq().len() implies self.pr_seq()[a].number
                != self.pr_seq()[b].number by {
                if b == self.pr_seq().len() - 1 {
                    assert(self.pr_seq()[a] == old_seq[a]);
                }
            }
            assert(self.commit_seq() =~= old(self).commit_seq());
        }
    }

    /// The stored commit records, for the embedding program to persist.
    pub fn commit_records(&self) -> (r: &Vec<CommitRecord>)
        ensures
            r@.len() == self.commit_seq().len(),
            forall|i: int| 0 <= i < r@.len() ==> r@[i]@ == self.commit_seq()[i],
    {
        &self.commits
    }

    /// The stored pull-request records, for the embedding program to persist.
    pub fn pr_records(&self) -> (r: &Vec<PullRequestRecord>)
        ensures
            r@.len() == self.pr_seq().len(),
            forall|i: int| 0 <= i < r@.len() ==> r@[i]@ == self.pr_seq()[i],
    {
        &self.prs
    }
}

} // verus!
