use git_glance::errors::GlanceError;
use git_glance::graph::{choose_baseline, choose_tip, CommitGraph};

fn sample_graph() -> CommitGraph {
    // d -> c -> b -> a (a is the root)
    let mut g = CommitGraph::new();
    assert!(g.add_commit("aaaaaa01".to_string(), vec![]));
    assert!(g.add_commit("bbbbbb02".to_string(), vec!["aaaaaa01".to_string()]));
    assert!(g.add_commit("cccccc03".to_string(), vec!["bbbbbb02".to_string()]));
    assert!(g.add_commit("dddddd04".to_string(), vec!["cccccc03".to_string()]));
    g
}

#[test]
fn range_excludes_base_includes_tip() {
    let g = sample_graph();
    assert!(g.is_closed());
    let ids = g
        .resolve_range(&"dddddd04".to_string(), &"aaaaaa01".to_string())
        .unwrap();
    assert_eq!(ids.len(), 3);
    assert!(ids.contains(&"bbbbbb02".to_string()));
    assert!(ids.contains(&"cccccc03".to_string()));
    assert!(ids.contains(&"dddddd04".to_string()));
    assert!(!ids.contains(&"aaaaaa01".to_string()));
}

#[test]
fn range_empty_when_base_is_tip() {
    let g = sample_graph();
    let ids = g
        .resolve_range(&"dddddd04".to_string(), &"dddddd04".to_string())
        .unwrap();
    assert_eq!(ids.len(), 0);
}

#[test]
fn range_with_merge_commit() {
    // tip merges two branches off the base
    let mut g = CommitGraph::new();
    assert!(g.add_commit("basebase".to_string(), vec![]));
    assert!(g.add_commit("left0001".to_string(), vec!["basebase".to_string()]));
    assert!(g.add_commit("right001".to_string(), vec!["basebase".to_string()]));
    assert!(g.add_commit(
        "merge001".to_string(),
        vec!["left0001".to_string(), "right001".to_string()],
    ));
    assert!(g.is_closed());
    let ids = g
        .resolve_range(&"merge001".to_string(), &"basebase".to_string())
        .unwrap();
    assert_eq!(ids.len(), 3);
    assert!(ids.contains(&"left0001".to_string()));
    assert!(ids.contains(&"right001".to_string()));
    assert!(ids.contains(&"merge001".to_string()));
}

#[test]
fn range_unknown_reference_is_fatal() {
    let g = sample_graph();
    let r = g.resolve_range(&"nosuchid".to_string(), &"aaaaaa01".to_string());
    assert!(matches!(r, Err(GlanceError::UnknownCommit(_))));
    let e = g
        .resolve_range(&"nosuchid".to_string(), &"aaaaaa01".to_string())
        .unwrap_err();
    assert!(e.is_fatal());
}

#[test]
fn reach_set_includes_start_and_ancestors() {
    let g = sample_graph();
    let r = g.reach_set(&"cccccc03".to_string());
    assert_eq!(r.len(), 3);
    assert!(r.contains(&"cccccc03".to_string()));
    assert!(r.contains(&"bbbbbb02".to_string()));
    assert!(r.contains(&"aaaaaa01".to_string()));
}

#[test]
fn duplicate_commit_is_not_added() {
    let mut g = CommitGraph::new();
    assert!(g.add_commit("aaaaaa01".to_string(), vec![]));
    assert!(!g.add_commit("aaaaaa01".to_string(), vec!["bbbbbb02".to_string()]));
}

#[test]
fn tip_defaults_to_head() {
    assert_eq!(
        choose_tip(None, "headhead".to_string()),
        "headhead".to_string()
    );
    assert_eq!(
        choose_tip(Some("v2.0".to_string()), "headhead".to_string()),
        "v2.0".to_string()
    );
}

#[test]
fn baseline_prefers_explicit_then_tag() {
    assert_eq!(
        choose_baseline(Some("v1.0".to_string()), Some("v0.9".to_string())).unwrap(),
        "v1.0".to_string()
    );
    assert_eq!(
        choose_baseline(None, Some("v0.9".to_string())).unwrap(),
        "v0.9".to_string()
    );
}

#[test]
fn no_tags_and_no_base_is_no_baseline() {
    let r = choose_baseline(None, None);
    assert!(matches!(r, Err(GlanceError::NoBaseline)));
    assert!(choose_baseline(None, None).unwrap_err().is_fatal());
}
