use git_glance::cache::GlanceCache;
use git_glance::graph::CommitGraph;
use git_glance::reconcile::{apply_lookup, probe_cache, CacheProbe, RunPartition};
use git_glance::records::{CommitRecord, PullRequestRecord, TaggedSummary};
use git_glance::summarize::make_tagged_summary;
use git_glance::render::{capitalize, group_summaries, lex_le_str, render_notes};
use git_glance::text::{prefix_chars, str_eq, u64_to_dec};

fn ts(tag: &str, summary: &str, number: u64) -> TaggedSummary {
    TaggedSummary {
        number,
        tag: tag.to_string(),
        summary: summary.to_string(),
        url: format!("https://github.com/example/repo/pull/{}", number),
    }
}

fn standalone(oid: &str, headline: &str) -> CommitRecord {
    CommitRecord {
        oid: oid.to_string(),
        headline: headline.to_string(),
        body: String::new(),
        pr: None,
    }
}

#[test]
fn groups_follow_the_canonical_order() {
    let ss = vec![
        ts("misc", "m one", 7),
        ts("feature", "f one", 1),
        ts("bugfix", "b one", 2),
        ts("feature", "f two", 3),
    ];
    let groups = group_summaries(&ss);
    assert_eq!(groups.len(), 3);
    assert_eq!(groups[0].tag, "feature".to_string());
    assert_eq!(groups[0].entries.len(), 2);
    assert_eq!(groups[0].entries[0].summary, "f one".to_string());
    assert_eq!(groups[0].entries[1].summary, "f two".to_string());
    assert_eq!(groups[1].tag, "bugfix".to_string());
    assert_eq!(groups[2].tag, "misc".to_string());
}

#[test]
fn unknown_tags_group_alphabetically_after_known_ones() {
    let ss = vec![
        ts("zeta", "z", 1),
        ts("chore", "c", 2),
        ts("feature", "f", 3),
        ts("chore", "c two", 4),
    ];
    let groups = group_summaries(&ss);
    assert_eq!(groups.len(), 3);
    assert_eq!(groups[0].tag, "feature".to_string());
    assert_eq!(groups[1].tag, "chore".to_string());
    assert_eq!(groups[1].entries.len(), 2);
    assert_eq!(groups[2].tag, "zeta".to_string());
}

#[test]
fn rendering_twice_is_byte_identical() {
    let ss = vec![ts("feature", "f", 1), ts("chore", "c", 2)];
    let sa = vec![standalone("d4c3b2a1f0e9", "Fix typo")];
    let groups1 = group_summaries(&ss);
    let groups2 = group_summaries(&ss);
    let release = "v1.1.0".to_string();
    let r1 = render_notes(Some(&release), Some(1718323200), &groups1, &sa);
    let r2 = render_notes(Some(&release), Some(1718323200), &groups2, &sa);
    assert_eq!(r1, r2);
}

#[test]
fn end_to_end_scenario_renders_feature_and_other() {
    // base tag v1.0.0 at commit a, tip HEAD at commit d; b and c belong to
    // merged pull request 42, d is standalone
    let mut g = CommitGraph::new();
    assert!(g.add_commit("aaaaaa01".to_string(), vec![]));
    assert!(g.add_commit("bbbbbb02".to_string(), vec!["aaaaaa01".to_string()]));
    assert!(g.add_commit("cccccc03".to_string(), vec!["bbbbbb02".to_string()]));
    assert!(g.add_commit("d4c3b2a1f0e9".to_string(), vec!["cccccc03".to_string()]));
    assert!(g.is_closed());
    let range = g
        .resolve_range(&"d4c3b2a1f0e9".to_string(), &"aaaaaa01".to_string())
        .unwrap();
    assert_eq!(range.len(), 3);

    let pr42 = PullRequestRecord {
        number: 42,
        title: "Add retry logic".to_string(),
        body: "Retries flaky network calls.".to_string(),
        author: "dev".to_string(),
        comments: vec![],
        commits: vec![
            standalone("bbbbbb02", "Add retry"),
            standalone("cccccc03", "Fix retry test"),
        ],
        url: "https://github.com/example/repo/pull/42".to_string(),
        updated_at: "2024-06-14T00:00:00Z".to_string(),
        merged_at: "2024-06-14T00:00:00Z".to_string(),
    };
    let headlines = vec![
        ("aaaaaa01", "Initial commit"),
        ("bbbbbb02", "Add retry"),
        ("cccccc03", "Fix retry test"),
        ("d4c3b2a1f0e9", "Fix typo"),
    ];
    let mut cache = GlanceCache::new();
    let mut part = RunPartition::new();
    for oid in &range {
        let headline = headlines
            .iter()
            .find(|(o, _)| o == oid)
            .map(|(_, h)| *h)
            .unwrap();
        let meta = standalone(oid, headline);
        match probe_cache(&cache, oid).unwrap() {
            CacheProbe::Grouped(p) => part.add_grouped(p),
            CacheProbe::Standalone(_) => part.add_standalone(meta),
            CacheProbe::Miss => {
                // the lookup collaborator: b resolves to pull request 42,
                // which also claims c; d is in no merged pull request
                let found = if oid == "bbbbbb02" || oid == "cccccc03" {
                    Some(pr42.clone())
                } else {
                    None
                };
                match &found {
                    Some(p) => part.add_grouped(p.clone()),
                    None => part.add_standalone(meta.clone()),
                }
                apply_lookup(&mut cache, meta, found);
            }
        }
    }
    assert_eq!(part.grouped().len(), 1);
    assert_eq!(part.standalone().len(), 1);

    let reply = "```json\n{\"tag\": \"feature\", \"summary\": \"add retry logic for flaky network calls\"}\n```";
    let summary = make_tagged_summary(&part.grouped()[0], reply).unwrap();
    let groups = group_summaries(&vec![summary]);
    let out = render_notes(None, None, &groups, part.standalone());
    let expected = "\n** Feature **\n* add retry logic for flaky network calls [#42](https://github.com/example/repo/pull/42)\n## Other\n* Fix typo (d4c3b2)\n";
    assert_eq!(out, expected.to_string());
}

#[test]
fn empty_run_renders_only_the_header() {
    let groups = group_summaries(&vec![]);
    let release = "v1.0.0".to_string();
    let out = render_notes(Some(&release), None, &groups, &vec![]);
    assert_eq!(out, "**v1.0.0**\n".to_string());
    let bare = render_notes(None, None, &groups, &vec![]);
    assert_eq!(bare, "".to_string());
}

#[test]
fn header_carries_the_tag_date() {
    // 2024-06-14 00:00:00 UTC
    let release = "v1.1.0".to_string();
    let out = render_notes(Some(&release), Some(1718323200), &vec![], &vec![]);
    assert_eq!(out, "**v1.1.0** (June 14, 2024)\n".to_string());
}

#[test]
fn capitalize_upper_cases_the_first_ascii_letter() {
    assert_eq!(capitalize(&"feature".to_string()), "Feature".to_string());
    assert_eq!(capitalize(&"misc".to_string()), "Misc".to_string());
    assert_eq!(capitalize(&"Chore".to_string()), "Chore".to_string());
    assert_eq!(capitalize(&"".to_string()), "".to_string());
}

#[test]
fn lexicographic_order_on_tags() {
    assert!(lex_le_str(&"alpha".to_string(), &"beta".to_string()));
    assert!(!lex_le_str(&"gamma".to_string(), &"beta".to_string()));
    assert!(lex_le_str(&"abc".to_string(), &"abc".to_string()));
    assert!(lex_le_str(&"ab".to_string(), &"abc".to_string()));
}

#[test]
fn decimal_rendering_of_numbers() {
    assert_eq!(u64_to_dec(0), "0".to_string());
    assert_eq!(u64_to_dec(42), "42".to_string());
    assert_eq!(u64_to_dec(10700), "10700".to_string());
    assert_eq!(u64_to_dec(u64::MAX), "18446744073709551615".to_string());
}

#[test]
fn short_id_is_the_first_six_chars() {
    assert_eq!(prefix_chars("d4c3b2a1f0e9", 6), "d4c3b2".to_string());
    assert_eq!(prefix_chars("abc", 6), "abc".to_string());
}

#[test]
fn char_for_char_equality() {
    assert!(str_eq("feature", "feature"));
    assert!(!str_eq("feature", "featurf"));
    assert!(!str_eq("feature", "feat"));
}
