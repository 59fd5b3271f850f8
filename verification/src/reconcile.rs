//! The commit/PR reconciler: per commit, the cache decides or an external
//! lookup is applied, and the commit set splits into pull-request groups
//! and standalone commits.
//!
//! The lookup itself is I/O and runs in the embedding program's loop; this
//! module holds the decisions. `probe_cache` reads the cache's verdict for
//! one commit, `apply_lookup` writes a lookup's result back — every commit
//! of a resolved pull request at once — and `RunPartition` accumulates the
//! run's outcome keyed by pull-request number and commit id.

use vstd::prelude::*;
use crate::cache::GlanceCache;
use crate::errors::GlanceError;
use crate::records::{CommitModel, CommitRecord, PullRequestModel, PullRequestRecord};

verus! {

/// What the cache knows of one commit.
pub enum CacheProbe {
    /// The commit belongs to this cached pull request.
    Grouped(PullRequestRecord),
    /// The commit is cached as belonging to no pull request.
    Standalone(CommitRecord),
    /// The commit was never examined: an external lookup is due.
    Miss,
}

pub ghost enum ProbeModel {
    Grouped(PullRequestModel),
    Standalone(CommitModel),
    Miss,
    Corrupt(u64),
}

/// The cache's verdict for `oid` over the two maps.
pub open spec fn spec_probe(
    cm: Map<Seq<char>, CommitModel>,
    pm: Map<u64, PullRequestModel>,
    oid: Seq<char>,
) -> ProbeModel {
    if !cm.contains_key(oid) {
        ProbeModel::Miss
    } else {
        match cm[oid].pr {
            Some(n) => if pm.contains_key(n) {
                ProbeModel::Grouped(pm[n])
            } else {
                ProbeModel::Corrupt(n)
            },
            None => ProbeModel::Standalone(cm[oid]),
        }
    }
}

/// Ask the cache about one commit. A commit record pointing at a missing
/// pull-request record is cache corruption and surfaces as an error.
pub fn probe_cache(cache: &GlanceCache, oid: &String) -> (r: Result<CacheProbe, GlanceError>)
    requires
        cache.wf(),
    ensures
        match r {
            Ok(probe) => match probe {
                CacheProbe::Grouped(p) => spec_probe(cache.commit_map(), cache.pr_map(), oid@)
                    == ProbeModel::Grouped(p@),
                CacheProbe::Standalone(c) => spec_probe(cache.commit_map(), cache.pr_map(), oid@)
                    == ProbeModel::Standalone(c@),
                CacheProbe::Miss => spec_probe(cache.commit_map(), cache.pr_map(), oid@)
                    == ProbeModel::Miss,
            },
            Err(e) => e matches GlanceError::CacheCorrupted(n) && spec_probe(
                cache.commit_map(),
                cache.pr_map(),
                oid@,
            ) == ProbeModel::Corrupt(n),
        },
{
    match cache.get_commit(oid) {
        None => Ok(CacheProbe::Miss),
        Some(c) => match c.pr {
            None => Ok(CacheProbe::Standalone(c.clone())),
            Some(n) => match cache.get_pr(n) {
                Some(p) => Ok(CacheProbe::Grouped(p.clone())),
                None => Err(GlanceError::CacheCorrupted(n)),
            },
        },
    }
}

/// `c` pointing at pull request `n`.
pub open spec fn with_pr(c: CommitModel, n: u64) -> CommitModel {
    CommitModel { pr: Some(n), ..c }
}

/// `c` pointing at no pull request.
pub open spec fn without_pr(c: CommitModel) -> CommitModel {
    CommitModel { pr: None, ..c }
}

/// The commit store after writing, for every commit of a pull request, a
/// record pointing at it.
pub open spec fn entries_after_pr(
    cm: Map<Seq<char>, CommitModel>,
    cs: Seq<CommitModel>,
    n: u64,
) -> Map<Seq<char>, CommitModel>
    decreases cs.len(),
{
    if cs.len() == 0 {
        cm
    } else {
        entries_after_pr(cm, cs.drop_last(), n).insert(cs.last().oid, with_pr(cs.last(), n))
    }
}

/// The commit store after a lookup for `q` came back with `res`.
pub open spec fn cache_after_lookup(
    cm: Map<Seq<char>, CommitModel>,
    q: CommitModel,
    res: Option<PullRequestModel>,
) -> Map<Seq<char>, CommitModel> {
    match res {
        Some(pr) => entries_after_pr(cm.insert(q.oid, with_pr(q, pr.number)), pr.commits, pr.number),
        None => cm.insert(q.oid, without_pr(q)),
    }
}

pub proof fn lemma_entries_after_pr(cm: Map<Seq<char>, CommitModel>, cs: Seq<CommitModel>, n: u64)
    ensures
        forall|i: int|
            0 <= i < cs.len() ==> entries_after_pr(cm, cs, n).contains_key(#[trigger] cs[i].oid)
                && entries_after_pr(cm, cs, n)[cs[i].oid].pr == Some(n),
        forall|k: Seq<char>|
            #[trigger] entries_after_pr(cm, cs, n).contains_key(k) <==> cm.contains_key(k) || (
            exists|i: int| 0 <= i < cs.len() && cs[i].oid == k),
        forall|k: Seq<char>|
            #[trigger] entries_after_pr(cm, cs, n).contains_key(k) ==> ((cm.contains_key(k)
                && entries_after_pr(cm, cs, n)[k] == cm[k]) || (exists|i: int|
                0 <= i < cs.len() && cs[i].oid == k && entries_after_pr(cm, cs, n)[k] == with_pr(
                    cs[i],
                    n,
                ))),
    decreases cs.len(),
{
    if cs.len() > 0 {
        lemma_entries_after_pr(cm, cs.drop_last(), n);
        let r0 = entries_after_pr(cm, cs.drop_last(), n);
        let r = entries_after_pr(cm, cs, n);
        assert(r == r0.insert(cs.last().oid, with_pr(cs.last(), n)));
        assert forall|i: int|
            0 <= i < cs.len() implies r.contains_key(#[trigger] cs[i].oid) && r[cs[i].oid].pr
            == Some(n) by {
            if cs[i].oid == cs.last().oid {
            } else {
                assert(cs.drop_last()[i] == cs[i]);
            }
        }
        assert forall|k: Seq<char>|
            #[trigger] r.contains_key(k) implies cm.contains_key(k) || (exists|i: int|
            0 <= i < cs.len() && cs[i].oid == k) by {
            if k == cs.last().oid {
                assert(cs[cs.len() - 1].oid == k);
            } else {
                assert(r0.contains_key(k));
                if !cm.contains_key(k) {
                    let i = choose|i: int|
                        0 <= i < cs.drop_last().len() && cs.drop_last()[i].oid == k;
                    assert(cs[i].oid == k);
                }
            }
        }
        assert forall|k: Seq<char>|
            cm.contains_key(k) || (exists|i: int| 0 <= i < cs.len() && cs[i].oid == k)
            implies #[trigger] r.contains_key(k) by {
            if k != cs.last().oid {
                if !cm.contains_key(k) {
                    let i = choose|i: int| 0 <= i < cs.len() && cs[i].oid == k;
                    assert(i < cs.len() - 1);
                    assert(cs.drop_last()[i].oid == k);
                }
            }
        }
        assert forall|k: Seq<char>|
            #[trigger] r.contains_key(k) implies ((cm.contains_key(k) && r[k] == cm[k]) || (
        exists|i: int| 0 <= i < cs.len() && cs[i].oid == k && r[k] == with_pr(cs[i], n))) by {
            if k == cs.last().oid {
                assert(cs[cs.len() - 1].oid == k && r[k] == with_pr(cs[cs.len() - 1], n));
            } else {
                if !(cm.contains_key(k) && r0[k] == cm[k]) {
                    let i = choose|i: int|
                        0 <= i < cs.drop_last().len() && cs.drop_last()[i].oid == k && r0[k]
                            == with_pr(cs.drop_last()[i], n);
                    assert(cs[i].oid == k && r[k] == with_pr(cs[i], n));
                }
            }
        }
    }
}

/// Write a lookup's outcome for commit `queried` back to the cache. When a
/// pull request came back, every commit id it lists — not only the queried
/// one — is recorded as pointing at it, and the pull request itself is
/// stored, before the call returns: one lookup resolves the whole group.
pub fn apply_lookup(
    cache: &mut GlanceCache,
    queried: CommitRecord,
    found: Option<PullRequestRecord>,
)
    requires
        old(cache).wf(),
    ensures
        final(cache).wf(),
        found matches Some(pr) ==> final(cache).commit_map() == cache_after_lookup(
            old(cache).commit_map(),
            queried@,
            Some(pr@),
        ) && final(cache).pr_map() == old(cache).pr_map().insert(pr@.number, pr@),
        found is None ==> final(cache).commit_map() == cache_after_lookup(
            old(cache).commit_map(),
            queried@,
            None,
        ) && final(cache).pr_map() == old(cache).pr_map(),
        // the cache-population guarantee: the queried commit and every
        // commit of the found pull request now point at it, and it is
        // present under its number
        found matches Some(pr) ==> final(cache).pr_map().contains_key(pr@.number)
            && final(cache).pr_map()[pr@.number] == pr@
            && final(cache).commit_map().contains_key(queried@.oid)
            && final(cache).commit_map()[queried@.oid].pr == Some(pr@.number) && forall|i: int|
            0 <= i < pr@.commits.len() ==> final(cache).commit_map().contains_key(
                #[trigger] pr@.commits[i].oid,
            ) && final(cache).commit_map()[pr@.commits[i].oid].pr == Some(pr@.number),
        found is None ==> final(cache).commit_map().contains_key(queried@.oid)
            && final(cache).commit_map()[queried@.oid].pr is None,
{
    match found {
        None => {
            let mut q = queried;
            q.pr = None;
            cache.put_commit(q);
        },
        Some(pr) => {
            let n = pr.number;
            let mut q = queried;
            q.pr = Some(n);
            cache.put_commit(q);
            let ghost base = old(cache).commit_map().insert(queried@.oid, with_pr(queried@, n));
            proof {
                assert(cache.commit_map() == base);
                assert(pr@.commits.subrange(0, 0) =~= Seq::<CommitModel>::empty());
            }
            let mut i: usize = 0;
            while i < pr.commits.len()
                invariant
                    cache.wf(),
                    i <= pr.commits@.len(),
                    n == pr.number,
                    cache.commit_map() == entries_after_pr(
                        base,
                        pr@.commits.subrange(0, i as int),
                        n,
                    ),
                    cache.pr_map() == old(cache).pr_map(),
                decreases pr.commits@.len() - i,
            {
                let mut c = pr.commits[i].clone();
                c.pr = Some(n);
                cache.put_commit(c);
                i = i + 1;
                proof {
                    let sub = pr@.commits.subrange(0, i as int);
                    assert(sub.drop_last() =~= pr@.commits.subrange(0, i as int - 1));
                    assert(sub.last() == pr@.commits[i as int - 1]);
                }
            }
            proof {
                assert(pr@.commits.subrange(0, pr.commits@.len() as int) =~= pr@.commits);
            }
            cache.put_pr(pr);
            proof {
                lemma_entries_after_pr(base, pr@.commits, n);
            }
        },
    }
}

/// The run's outcome: resolved pull requests keyed by number, standalone
/// commits keyed by commit id.
pub struct RunPartition {
    store: GlanceCache,
}

impl RunPartition {
    pub closed spec fn grouped_map(&self) -> Map<u64, PullRequestModel> {
        self.store.pr_map()
    }

    pub closed spec fn standalone_map(&self) -> Map<Seq<char>, CommitModel> {
        self.store.commit_map()
    }

    pub closed spec fn wf(&self) -> bool {
        self.store.wf()
    }

    pub fn new() -> (r: Self)
        ensures
            r.wf(),
            r.grouped_map() == Map::<u64, PullRequestModel>::empty(),
            r.standalone_map() == Map::<Seq<char>, CommitModel>::empty(),
    {
        RunPartition { store: GlanceCache::new() }
    }

    /// Record that the run resolved this pull request; recording the same
    /// number again keeps a single entry.
    pub fn add_grouped(&mut self, pr: PullRequestRecord)
        requires
            old(self).wf(),
        ensures
            final(self).wf(),
            final(self).grouped_map() == old(self).grouped_map().insert(pr.number, pr@),
            final(self).standalone_map() == old(self).standalone_map(),
    {
        self.store.put_pr(pr);
    }

    /// Record a standalone commit.
    pub fn add_standalone(&mut self, c: CommitRecord)
        requires
            old(self).wf(),
        ensures
            final(self).wf(),
            final(self).standalone_map() == old(self).standalone_map().insert(c.oid@, c@),
            final(self).grouped_map() == old(self).grouped_map(),
    {
        self.store.put_commit(c);
    }

    /// The resolved pull requests, one record per number.
    pub fn grouped(&self) -> (r: &Vec<PullRequestRecord>)
        ensures
            forall|i: int| 0 <= i < r@.len() ==> self.grouped_map().dom().contains(r@[i]@.number),
    {
        let r = self.store.pr_records();
        proof {
            assert forall|i: int|
                0 <= i < r@.len() implies self.grouped_map().dom().contains(r@[i]@.number) by {
                assert(self.store.pr_seq()[i] == r@[i]@);
                crate::cache::lemma_pr_map_contains(self.store.pr_seq(), r@[i]@.number);
                assert(self.store.pr_map().contains_key(r@[i]@.number));
            }
        }
        r
    }

    /// The standalone commits, one record per commit id.
    pub fn standalone(&self) -> (r: &Vec<CommitRecord>)
        ensures
            forall|i: int| 0 <= i < r@.len() ==> self.standalone_map().dom().contains(r@[i]@.oid),
    {
        let r = self.store.commit_records();
        proof {
            assert forall|i: int|
                0 <= i < r@.len() implies self.standalone_map().dom().contains(r@[i]@.oid) by {
                assert(self.store.commit_seq()[i] == r@[i]@);
                crate::cache::lemma_commit_map_contains(self.store.commit_seq(), r@[i]@.oid);
                assert(self.store.commit_map().contains_key(r@[i]@.oid));
            }
        }
        r
    }
}

/// What one commit contributes to the partition: a pull-request group, a
/// standalone commit, or nothing (only cache corruption is skipped).
pub ghost enum Contribution {
    AddPr(PullRequestModel),
    AddStandalone(CommitModel),
    Skip,
}

/// The contribution of commit `c` given the cache's maps and, on a miss,
/// the lookup's answer `o`. A commit cached as standalone contributes the
/// freshly read metadata `c`, as the run does.
pub open spec fn contribution(
    cm: Map<Seq<char>, CommitModel>,
    pm: Map<u64, PullRequestModel>,
    c: CommitModel,
    o: Option<PullRequestModel>,
) -> Contribution {
    if cm.contains_key(c.oid) {
        match cm[c.oid].pr {
            Some(n) => if pm.contains_key(n) {
                Contribution::AddPr(pm[n])
            } else {
                Contribution::Skip
            },
            None => Contribution::AddStandalone(c),
        }
    } else {
        match o {
            Some(pr) => Contribution::AddPr(pr),
            None => Contribution::AddStandalone(c),
        }
    }
}

/// The cache maps after one commit is reconciled against oracle `o`: a hit
/// writes nothing, a miss applies the lookup's answer.
pub open spec fn step_maps(
    cm: Map<Seq<char>, CommitModel>,
    pm: Map<u64, PullRequestModel>,
    c: CommitModel,
    o: Map<Seq<char>, Option<PullRequestModel>>,
) -> (Map<Seq<char>, CommitModel>, Map<u64, PullRequestModel>) {
    if cm.contains_key(c.oid) {
        (cm, pm)
    } else {
        match o[c.oid] {
            Some(pr) => (cache_after_lookup(cm, c, Some(pr)), pm.insert(pr.number, pr)),
            None => (cache_after_lookup(cm, c, None), pm),
        }
    }
}

/// The cache maps after a whole run over `cs`.
pub open spec fn run_maps(
    cm: Map<Seq<char>, CommitModel>,
    pm: Map<u64, PullRequestModel>,
    cs: Seq<CommitModel>,
    o: Map<Seq<char>, Option<PullRequestModel>>,
) -> (Map<Seq<char>, CommitModel>, Map<u64, PullRequestModel>)
    decreases cs.len(),
{
    if cs.len() == 0 {
        (cm, pm)
    } else {
        let s = step_maps(cm, pm, cs[0], o);
        run_maps(s.0, s.1, cs.drop_first(), o)
    }
}

pub open spec fn apply_contribution(
    gp: Map<u64, PullRequestModel>,
    sa: Map<Seq<char>, CommitModel>,
    k: Contribution,
) -> (Map<u64, PullRequestModel>, Map<Seq<char>, CommitModel>) {
    match k {
        Contribution::AddPr(pr) => (gp.insert(pr.number, pr), sa),
        Contribution::AddStandalone(c) => (gp, sa.insert(c.oid, c)),
        Contribution::Skip => (gp, sa),
    }
}

/// The partition a run over `cs` accumulates, starting from the given
/// cache maps: pull requests keyed by number, standalone commits by id.
pub open spec fn run_partition_model(
    cm: Map<Seq<char>, CommitModel>,
    pm: Map<u64, PullRequestModel>,
    gp: Map<u64, PullRequestModel>,
    sa: Map<Seq<char>, CommitModel>,
    cs: Seq<CommitModel>,
    o: Map<Seq<char>, Option<PullRequestModel>>,
) -> (Map<u64, PullRequestModel>, Map<Seq<char>, CommitModel>)
    decreases cs.len(),
{
    if cs.len() == 0 {
        (gp, sa)
    } else {
        let k = contribution(cm, pm, cs[0], o[cs[0].oid]);
        let acc = apply_contribution(gp, sa, k);
        let s = step_maps(cm, pm, cs[0], o);
        run_partition_model(s.0, s.1, acc.0, acc.1, cs.drop_first(), o)
    }
}

/// The contribution the oracle alone assigns a commit, no cache consulted.
pub open spec fn canonical_contribution(c: CommitModel, o: Option<PullRequestModel>) -> Contribution {
    match o {
        Some(pr) => Contribution::AddPr(pr),
        None => Contribution::AddStandalone(c),
    }
}

/// The partition the oracle alone assigns a commit set.
pub open spec fn canonical_run(
    gp: Map<u64, PullRequestModel>,
    sa: Map<Seq<char>, CommitModel>,
    cs: Seq<CommitModel>,
    o: Map<Seq<char>, Option<PullRequestModel>>,
) -> (Map<u64, PullRequestModel>, Map<Seq<char>, CommitModel>)
    decreases cs.len(),
{
    if cs.len() == 0 {
        (gp, sa)
    } else {
        let acc = apply_contribution(gp, sa, canonical_contribution(cs[0], o[cs[0].oid]));
        canonical_run(acc.0, acc.1, cs.drop_first(), o)
    }
}

/// An oracle that answers like the external review system: when it puts a
/// commit in a pull request, it puts every commit of that pull request in
/// it. A commit claimed by two different pull requests violates this.
pub open spec fn oracle_coherent(o: Map<Seq<char>, Option<PullRequestModel>>) -> bool {
    forall|k: Seq<char>|
        #[trigger] o.contains_key(k) ==> match o[k] {
            Some(pr) => forall|i: int|
                0 <= i < pr.commits.len() ==> o.contains_key(#[trigger] pr.commits[i].oid)
                    && o[pr.commits[i].oid] == Some(pr),
            None => true,
        }
}

/// One pull-request number names one record throughout the oracle.
pub open spec fn oracle_numbers_consistent(o: Map<Seq<char>, Option<PullRequestModel>>) -> bool {
    forall|k1: Seq<char>, k2: Seq<char>|
        #[trigger] o.contains_key(k1) && #[trigger] o.contains_key(k2) ==> match (o[k1], o[k2]) {
            (Some(p1), Some(p2)) => p1.number == p2.number ==> p1 == p2,
            _ => true,
        }
}

/// The cache agrees with the oracle: entries the oracle also knows carry
/// the association it would report, and no entry points at a missing pull
/// request.
pub open spec fn state_coherent(
    cm: Map<Seq<char>, CommitModel>,
    pm: Map<u64, PullRequestModel>,
    o: Map<Seq<char>, Option<PullRequestModel>>,
) -> bool {
    &&& forall|k: Seq<char>|
        #[trigger] cm.contains_key(k) && o.contains_key(k) ==> match o[k] {
            Some(pr) => cm[k].pr == Some(pr.number) && pm.contains_key(pr.number) && pm[pr.number]
                == pr,
            None => cm[k].pr is None,
        }
    &&& forall|k: Seq<char>|
        #[trigger] cm.contains_key(k) ==> match cm[k].pr {
            Some(n) => pm.contains_key(n),
            None => true,
        }
}

/// The run's inputs: fresh metadata (no association yet) for commits the
/// oracle has an answer for.
pub open spec fn inputs_wf(cs: Seq<CommitModel>, o: Map<Seq<char>, Option<PullRequestModel>>) -> bool {
    forall|i: int| 0 <= i < cs.len() ==> o.contains_key(#[trigger] cs[i].oid) && cs[i].pr is None
}

/// Under coherence, the cache never changes what a commit contributes: hit
/// or miss, the contribution is the oracle's.
proof fn lemma_contribution_canonical(
    cm: Map<Seq<char>, CommitModel>,
    pm: Map<u64, PullRequestModel>,
    c: CommitModel,
    o: Map<Seq<char>, Option<PullRequestModel>>,
)
    requires
        state_coherent(cm, pm, o),
        o.contains_key(c.oid),
    ensures
        contribution(cm, pm, c, o[c.oid]) == canonical_contribution(c, o[c.oid]),
{
    if cm.contains_key(c.oid) {
        assert(cm.contains_key(c.oid) && o.contains_key(c.oid));
    }
}

/// One reconciliation step keeps the cache coherent with the oracle.
proof fn lemma_step_coherent(
    cm: Map<Seq<char>, CommitModel>,
    pm: Map<u64, PullRequestModel>,
    c: CommitModel,
    o: Map<Seq<char>, Option<PullRequestModel>>,
)
    requires
        state_coherent(cm, pm, o),
        oracle_coherent(o),
        oracle_numbers_consistent(o),
        o.contains_key(c.oid),
        c.pr is None,
    ensures
        state_coherent(step_maps(cm, pm, c, o).0, step_maps(cm, pm, c, o).1, o),
{
    if !cm.contains_key(c.oid) {
        match o[c.oid] {
            None => {
                let cm1 = cm.insert(c.oid, without_pr(c));
                assert forall|k: Seq<char>|
                    #[trigger] cm1.contains_key(k) && o.contains_key(k) implies match o[k] {
                    Some(pr) => cm1[k].pr == Some(pr.number) && pm.contains_key(pr.number)
                        && pm[pr.number] == pr,
                    None => cm1[k].pr is None,
                } by {
                    if k != c.oid {
                        assert(cm.contains_key(k));
                    }
                }
            },
            Some(pr) => {
                let base = cm.insert(c.oid, with_pr(c, pr.number));
                let cm1 = entries_after_pr(base, pr.commits, pr.number);
                let pm1 = pm.insert(pr.number, pr);
                lemma_entries_after_pr(base, pr.commits, pr.number);
                assert forall|k: Seq<char>|
                    #[trigger] cm1.contains_key(k) && o.contains_key(k) implies match o[k] {
                    Some(pr2) => cm1[k].pr == Some(pr2.number) && pm1.contains_key(pr2.number)
                        && pm1[pr2.number] == pr2,
                    None => cm1[k].pr is None,
                } by {
                    if exists|i: int|
                        0 <= i < pr.commits.len() && pr.commits[i].oid == k && cm1[k] == with_pr(
                            pr.commits[i],
                            pr.number,
                        ) {
                        let i = choose|i: int|
                            0 <= i < pr.commits.len() && pr.commits[i].oid == k && cm1[k]
                                == with_pr(pr.commits[i], pr.number);
                        assert(o.contains_key(c.oid));
                        assert(o[pr.commits[i].oid] == Some(pr));
                        assert(o[k] == Some(pr));
                        assert(cm1[k].pr == Some(pr.number));
                    } else {
                        assert(base.contains_key(k) && cm1[k] == base[k]);
                        if k == c.oid {
                            assert(cm1[k] == with_pr(c, pr.number));
                            assert(o[k] == Some(pr));
                        } else {
                            assert(cm.contains_key(k) && cm1[k] == cm[k]);
                            match o[k] {
                                Some(pr2) => {
                                    assert(cm[k].pr == Some(pr2.number) && pm.contains_key(
                                        pr2.number,
                                    ) && pm[pr2.number] == pr2);
                                    if pr2.number == pr.number {
                                        assert(o.contains_key(k) && o.contains_key(c.oid));
                                        assert(pr2 == pr);
                                    }
                                },
                                None => {},
                            }
                        }
                    }
                }
                assert forall|k: Seq<char>|
                    #[trigger] cm1.contains_key(k) implies match cm1[k].pr {
                    Some(n) => pm1.contains_key(n),
                    None => true,
                } by {
                    if exists|i: int|
                        0 <= i < pr.commits.len() && pr.commits[i].oid == k && cm1[k] == with_pr(
                            pr.commits[i],
                            pr.number,
                        ) {
                    } else {
                        assert(base.contains_key(k) && cm1[k] == base[k]);
                        if k != c.oid {
                            assert(cm.contains_key(k));
                        }
                    }
                }
            },
        }
    }
}

/// A whole run keeps the cache coherent with the oracle.
proof fn lemma_run_maps_coherent(
    cm: Map<Seq<char>, CommitModel>,
    pm: Map<u64, PullRequestModel>,
    cs: Seq<CommitModel>,
    o: Map<Seq<char>, Option<PullRequestModel>>,
)
    requires
        state_coherent(cm, pm, o),
        oracle_coherent(o),
        oracle_numbers_consistent(o),
        inputs_wf(cs, o),
    ensures
        state_coherent(run_maps(cm, pm, cs, o).0, run_maps(cm, pm, cs, o).1, o),
    decreases cs.len(),
{
    if cs.len() > 0 {
        assert(o.contains_key(cs[0].oid) && cs[0].pr is None);
        lemma_step_coherent(cm, pm, cs[0], o);
        let s = step_maps(cm, pm, cs[0], o);
        assert forall|i: int|
            0 <= i < cs.drop_first().len() implies o.contains_key(
            #[trigger] cs.drop_first()[i].oid,
        ) && cs.drop_first()[i].pr is None by {
            assert(cs.drop_first()[i] == cs[i + 1]);
        }
        lemma_run_maps_coherent(s.0, s.1, cs.drop_first(), o);
    }
}

/// Under coherence the partition is the oracle's alone: whatever the cache
/// held to begin with, the run partitions the set as the oracle dictates.
proof fn lemma_run_partition_canonical(
    cm: Map<Seq<char>, CommitModel>,
    pm: Map<u64, PullRequestModel>,
    gp: Map<u64, PullRequestModel>,
    sa: Map<Seq<char>, CommitModel>,
    cs: Seq<CommitModel>,
    o: Map<Seq<char>, Option<PullRequestModel>>,
)
    requires
        state_coherent(cm, pm, o),
        oracle_coherent(o),
        oracle_numbers_consistent(o),
        inputs_wf(cs, o),
    ensures
        run_partition_model(cm, pm, gp, sa, cs, o) == canonical_run(gp, sa, cs, o),
    decreases cs.len(),
{
    if cs.len() > 0 {
        assert(o.contains_key(cs[0].oid) && cs[0].pr is None);
        lemma_contribution_canonical(cm, pm, cs[0], o);
        lemma_step_coherent(cm, pm, cs[0], o);
        let k = contribution(cm, pm, cs[0], o[cs[0].oid]);
        let acc = apply_contribution(gp, sa, k);
        let s = step_maps(cm, pm, cs[0], o);
        assert forall|i: int|
            0 <= i < cs.drop_first().len() implies o.contains_key(
            #[trigger] cs.drop_first()[i].oid,
        ) && cs.drop_first()[i].pr is None by {
            assert(cs.drop_first()[i] == cs[i + 1]);
        }
        lemma_run_partition_canonical(s.0, s.1, acc.0, acc.1, cs.drop_first(), o);
    }
}

/// Reconciliation is idempotent: running it again over the cache the first
/// run left behind, with the external responses unchanged, yields the very
/// same partition of pull-request groups and standalone commits.
pub proof fn lemma_reconcile_idempotent(
    cm: Map<Seq<char>, CommitModel>,
    pm: Map<u64, PullRequestModel>,
    cs: Seq<CommitModel>,
    o: Map<Seq<char>, Option<PullRequestModel>>,
)
    requires
        state_coherent(cm, pm, o),
        oracle_coherent(o),
        oracle_numbers_consistent(o),
        inputs_wf(cs, o),
    ensures
        ({
            let after = run_maps(cm, pm, cs, o);
            run_partition_model(
                after.0,
                after.1,
                Map::<u64, PullRequestModel>::empty(),
                Map::<Seq<char>, CommitModel>::empty(),
                cs,
                o,
            ) == run_partition_model(
                cm,
                pm,
                Map::<u64, PullRequestModel>::empty(),
                Map::<Seq<char>, CommitModel>::empty(),
                cs,
                o,
            )
        }),
{
    let after = run_maps(cm, pm, cs, o);
    lemma_run_maps_coherent(cm, pm, cs, o);
    lemma_run_partition_canonical(
        after.0,
        after.1,
        Map::<u64, PullRequestModel>::empty(),
        Map::<Seq<char>, CommitModel>::empty(),
        cs,
        o,
    );
    lemma_run_partition_canonical(
        cm,
        pm,
        Map::<u64, PullRequestModel>::empty(),
        Map::<Seq<char>, CommitModel>::empty(),
        cs,
        o,
    );
}

/// The executable layer and the run model agree: what `probe_cache` sees
/// in the cache determines the commit's contribution to the partition,
/// with a miss deferring to the lookup's answer `o`.
pub proof fn lemma_probe_contribution(
    cm: Map<Seq<char>, CommitModel>,
    pm: Map<u64, PullRequestModel>,
    c: CommitModel,
    o: Option<PullRequestModel>,
)
    ensures
        match spec_probe(cm, pm, c.oid) {
            ProbeModel::Grouped(pr) => contribution(cm, pm, c, o) == Contribution::AddPr(pr),
            ProbeModel::Standalone(_) => contribution(cm, pm, c, o) == Contribution::AddStandalone(
                c,
            ),
            ProbeModel::Miss => contribution(cm, pm, c, o) == canonical_contribution(c, o),
            ProbeModel::Corrupt(_) => contribution(cm, pm, c, o) == Contribution::Skip,
        },
{
}

/// An empty commit range reconciles to an empty partition, whatever the
/// cache holds.
pub proof fn lemma_empty_run(
    cm: Map<Seq<char>, CommitModel>,
    pm: Map<u64, PullRequestModel>,
    o: Map<Seq<char>, Option<PullRequestModel>>,
)
    ensures
        run_partition_model(
            cm,
            pm,
            Map::<u64, PullRequestModel>::empty(),
            Map::<Seq<char>, CommitModel>::empty(),
            Seq::empty(),
            o,
        ) == (
            Map::<u64, PullRequestModel>::empty(),
            Map::<Seq<char>, CommitModel>::empty(),
        ),
{
}

} // verus!
