use git_glance::cache::GlanceCache;
use git_glance::errors::GlanceError;
use git_glance::reconcile::{apply_lookup, probe_cache, CacheProbe, RunPartition};
use git_glance::records::{CommitRecord, PullRequestRecord};

fn meta(oid: &str, headline: &str) -> CommitRecord {
    CommitRecord {
        oid: oid.to_string(),
        headline: headline.to_string(),
        body: format!("{}\n", headline),
        pr: None,
    }
}

fn pr42() -> PullRequestRecord {
    PullRequestRecord {
        number: 42,
        title: "Add retry logic".to_string(),
        body: "Retries flaky network calls.".to_string(),
        author: "dev".to_string(),
        comments: vec![],
        commits: vec![meta("bbbbbb02", "Add retry"), meta("cccccc03", "Fix retry test")],
        url: "https://github.com/example/repo/pull/42".to_string(),
        updated_at: "2024-06-14T00:00:00Z".to_string(),
        merged_at: "2024-06-14T00:00:00Z".to_string(),
    }
}

#[test]
fn cache_get_absent_means_never_examined() {
    let cache = GlanceCache::new();
    assert!(cache.get_commit(&"bbbbbb02".to_string()).is_none());
    assert!(cache.get_pr(42).is_none());
}

#[test]
fn cache_put_then_get_commit() {
    let mut cache = GlanceCache::new();
    let mut c = meta("bbbbbb02", "Add retry");
    c.pr = Some(42);
    cache.put_commit(c);
    let got = cache.get_commit(&"bbbbbb02".to_string()).unwrap();
    assert_eq!(got.headline, "Add retry".to_string());
    assert_eq!(got.pr, Some(42));
}

#[test]
fn cache_overwrite_is_last_write_wins() {
    let mut cache = GlanceCache::new();
    cache.put_commit(meta("bbbbbb02", "old headline"));
    cache.put_commit(meta("bbbbbb02", "new headline"));
    let got = cache.get_commit(&"bbbbbb02".to_string()).unwrap();
    assert_eq!(got.headline, "new headline".to_string());
}

#[test]
fn lookup_populates_every_commit_of_the_pr() {
    // resolving one commit caches the association for all commits the
    // pull request lists, including ones never queried
    let mut cache = GlanceCache::new();
    apply_lookup(&mut cache, meta("bbbbbb02", "Add retry"), Some(pr42()));
    let b = cache.get_commit(&"bbbbbb02".to_string()).unwrap();
    assert_eq!(b.pr, Some(42));
    let c = cache.get_commit(&"cccccc03".to_string()).unwrap();
    assert_eq!(c.pr, Some(42));
    let p = cache.get_pr(42).unwrap();
    assert_eq!(p.title, "Add retry logic".to_string());
    assert_eq!(p.commits.len(), 2);
}

#[test]
fn lookup_miss_caches_standalone() {
    let mut cache = GlanceCache::new();
    apply_lookup(&mut cache, meta("dddddd04", "Fix typo"), None);
    let d = cache.get_commit(&"dddddd04".to_string()).unwrap();
    assert_eq!(d.pr, None);
    match probe_cache(&cache, &"dddddd04".to_string()).unwrap() {
        CacheProbe::Standalone(c) => assert_eq!(c.headline, "Fix typo".to_string()),
        _ => panic!("expected a standalone probe"),
    }
}

#[test]
fn probe_reports_cache_corruption() {
    let mut cache = GlanceCache::new();
    let mut c = meta("bbbbbb02", "Add retry");
    c.pr = Some(42);
    cache.put_commit(c);
    let r = probe_cache(&cache, &"bbbbbb02".to_string());
    assert!(matches!(r, Err(GlanceError::CacheCorrupted(42))));
}

fn run_once(cache: &mut GlanceCache, commits: &[CommitRecord]) -> RunPartition {
    // the embedding loop: cache first, lookup on a miss; here the external
    // responses are fixed: commits b and c belong to pull request 42, d
    // belongs to none
    let mut part = RunPartition::new();
    for m in commits {
        match probe_cache(cache, &m.oid).unwrap() {
            CacheProbe::Grouped(p) => part.add_grouped(p),
            CacheProbe::Standalone(_) => part.add_standalone(m.clone()),
            CacheProbe::Miss => {
                let found = if m.oid == "bbbbbb02" || m.oid == "cccccc03" {
                    Some(pr42())
                } else {
                    None
                };
                match &found {
                    Some(p) => part.add_grouped(p.clone()),
                    None => part.add_standalone(m.clone()),
                }
                apply_lookup(cache, m.clone(), found);
            }
        }
    }
    part
}

#[test]
fn reconciliation_is_idempotent_on_a_warm_cache() {
    let commits = vec![
        meta("bbbbbb02", "Add retry"),
        meta("cccccc03", "Fix retry test"),
        meta("dddddd04", "Fix typo"),
    ];
    let mut cache = GlanceCache::new();
    let first = run_once(&mut cache, &commits);
    let second = run_once(&mut cache, &commits);

    let g1 = first.grouped();
    let g2 = second.grouped();
    assert_eq!(g1.len(), 1);
    assert_eq!(g2.len(), 1);
    assert_eq!(g1[0].number, g2[0].number);
    assert_eq!(g1[0].title, g2[0].title);

    let s1 = first.standalone();
    let s2 = second.standalone();
    assert_eq!(s1.len(), 1);
    assert_eq!(s2.len(), 1);
    assert_eq!(s1[0].oid, s2[0].oid);
    assert_eq!(s1[0].headline, s2[0].headline);
}

#[test]
fn one_lookup_resolves_the_whole_group() {
    // after reconciling b, commit c never needs a lookup
    let mut cache = GlanceCache::new();
    apply_lookup(&mut cache, meta("bbbbbb02", "Add retry"), Some(pr42()));
    match probe_cache(&cache, &"cccccc03".to_string()).unwrap() {
        CacheProbe::Grouped(p) => assert_eq!(p.number, 42),
        _ => panic!("expected commit c to be grouped without a lookup"),
    }
}

#[test]
fn partition_keeps_one_entry_per_pr() {
    let mut part = RunPartition::new();
    part.add_grouped(pr42());
    part.add_grouped(pr42());
    assert_eq!(part.grouped().len(), 1);
    part.add_standalone(meta("dddddd04", "Fix typo"));
    part.add_standalone(meta("dddddd04", "Fix typo"));
    assert_eq!(part.standalone().len(), 1);
}
