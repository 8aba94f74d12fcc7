use giti::diffbase::{Diffbase, DiffbaseJson, MergeRequest};
use giti::error::ErrorKind;
use giti::github;

fn names(v: Vec<&str>) -> Vec<String> {
    v.into_iter().map(|s| s.to_string()).collect()
}

fn empty_store(trunk: &str, branches: Vec<&str>) -> Diffbase {
    Diffbase::new(trunk.to_string(), &names(branches), &Vec::new())
}

#[test]
fn set_diffbase_links_parent_and_child() {
    let mut d = empty_store("main", vec!["main", "a", "b"]);
    assert!(d.set_diffbase("b", "a").is_ok());
    assert_eq!(d.get_parent("b"), Some("a".to_string()));
    assert_eq!(d.get_children("a"), Some(vec!["b".to_string()]));
    assert_eq!(d.get_children("b"), Some(Vec::new()));
}

#[test]
fn set_diffbase_trunk_fails_and_leaves_store_unchanged() {
    let mut d = empty_store("main", vec!["main", "a"]);
    let err = d.set_diffbase("a", "main").unwrap_err();
    assert_eq!(err.kind, ErrorKind::BranchCantBeDiffbase);
    assert_eq!(err.description(), "main cannot be a diffbase.");
    assert_eq!(d.get_parent("a"), None);
    assert_eq!(d.get_children("main"), Some(Vec::new()));
}

#[test]
fn set_diffbase_reparents_and_detaches() {
    let mut d = empty_store("main", vec!["main", "a", "b", "c"]);
    d.set_diffbase("c", "a").unwrap();
    d.set_diffbase("c", "b").unwrap();
    assert_eq!(d.get_parent("c"), Some("b".to_string()));
    assert_eq!(d.get_children("a"), Some(Vec::new()));
    assert_eq!(d.get_children("b"), Some(vec!["c".to_string()]));
}

#[test]
fn set_diffbase_is_idempotent() {
    let mut d = empty_store("main", vec!["main", "a", "b"]);
    d.set_diffbase("b", "a").unwrap();
    d.set_diffbase("b", "a").unwrap();
    assert_eq!(d.get_children("a"), Some(vec!["b".to_string()]));
}

#[test]
fn set_diffbase_creates_missing_entries() {
    let mut d = empty_store("main", vec!["main"]);
    d.set_diffbase("x", "y").unwrap();
    assert_eq!(d.get_parent("x"), Some("y".to_string()));
    assert_eq!(d.get_children("y"), Some(vec!["x".to_string()]));
}

#[test]
fn get_children_distinguishes_unknown_from_empty() {
    let d = empty_store("main", vec!["main"]);
    assert_eq!(d.get_children("main"), Some(Vec::new()));
    assert_eq!(d.get_children("ghost"), None);
}

#[test]
fn get_root_walks_to_parentless_branch() {
    let mut d = empty_store("main", vec!["main", "a", "b", "c"]);
    d.set_diffbase("b", "a").unwrap();
    d.set_diffbase("c", "b").unwrap();
    assert_eq!(d.get_root("c").unwrap(), Some("a".to_string()));
    assert_eq!(d.get_root("a").unwrap(), Some("a".to_string()));
    assert_eq!(d.get_root("ghost").unwrap(), None);
}

#[test]
fn get_root_reports_a_cycle_as_corrupt_state() {
    let mut d = empty_store("main", vec!["main", "a", "b"]);
    d.set_diffbase("a", "b").unwrap();
    d.set_diffbase("b", "a").unwrap();
    let err = d.get_root("a").unwrap_err();
    assert_eq!(err.kind, ErrorKind::CorruptState);
}

#[test]
fn rename_moves_entry_and_rewrites_references() {
    let mut d = empty_store("main", vec!["main", "a", "b", "c"]);
    d.set_diffbase("b", "a").unwrap();
    d.set_diffbase("c", "b").unwrap();
    d.rename("b", "renamed").unwrap();
    assert_eq!(d.get_parent("renamed"), Some("a".to_string()));
    assert_eq!(d.get_children("renamed"), Some(vec!["c".to_string()]));
    assert_eq!(d.get_parent("c"), Some("renamed".to_string()));
    assert_eq!(d.get_children("a"), Some(vec!["renamed".to_string()]));
    assert_eq!(d.get_parent("b"), None);
    assert_eq!(d.get_children("b"), None);
}

#[test]
fn rename_of_unknown_branch_is_refused() {
    let mut d = empty_store("main", vec!["main"]);
    let err = d.rename("ghost", "new").unwrap_err();
    assert_eq!(err.kind, ErrorKind::GeneralError);
    assert_eq!(d.get_children("new"), None);
}

#[test]
fn rename_onto_existing_branch_is_refused() {
    let mut d = empty_store("main", vec!["main", "a", "b"]);
    let err = d.rename("a", "b").unwrap_err();
    assert_eq!(err.kind, ErrorKind::GeneralError);
    assert_eq!(d.get_children("a"), Some(Vec::new()));
}

#[test]
fn merge_request_round_trips_through_accessors() {
    let mut d = empty_store("main", vec!["main", "a"]);
    let pr = github::PullRequestId {
        repo: github::RepoId {
            owner: "owner".to_string(),
            name: "repo".to_string(),
        },
        number: 12,
    };
    d.set_github_pr("a", pr);
    let got = d.get_github_pr("a").unwrap();
    assert_eq!(got.repo.owner, "owner");
    assert_eq!(got.repo.name, "repo");
    assert_eq!(got.number, 12);
    assert!(d.get_github_pr("main").is_none());
    assert!(matches!(
        d.get_merge_request("a"),
        Some(MergeRequest::GitHub(_))
    ));
}

#[test]
fn snapshot_round_trip_reproduces_parents_and_requests() {
    let mut d = empty_store("main", vec!["main", "a", "b", "c"]);
    d.set_diffbase("b", "a").unwrap();
    d.set_diffbase("c", "b").unwrap();
    d.set_github_pr(
        "c",
        github::PullRequestId {
            repo: github::RepoId {
                owner: "o".to_string(),
                name: "r".to_string(),
            },
            number: 3,
        },
    );
    let records = d.to_records();
    let locals = names(vec!["main", "a", "b", "c"]);
    let d2 = Diffbase::new("main".to_string(), &locals, &records);
    assert_eq!(d2.get_parent("b"), Some("a".to_string()));
    assert_eq!(d2.get_parent("c"), Some("b".to_string()));
    assert_eq!(d2.get_parent("a"), None);
    assert_eq!(d2.get_parent("main"), None);
    let pr = d2.get_github_pr("c").unwrap();
    assert_eq!(pr.number, 3);
    assert_eq!(pr.repo.owner, "o");
}

#[test]
fn loading_drops_records_of_vanished_branches() {
    let records = vec![DiffbaseJson {
        branch: "gone".to_string(),
        diffbase: Some("a".to_string()),
        github_pr: None,
    }];
    let d = Diffbase::new("main".to_string(), &names(vec!["main", "a"]), &records);
    assert_eq!(d.get_children("gone"), None);
    assert_eq!(d.get_parent("a"), None);
    assert_eq!(d.get_children("a"), Some(Vec::new()));
}

#[test]
fn loading_drops_unknown_and_trunk_parents() {
    let records = vec![
        DiffbaseJson {
            branch: "a".to_string(),
            diffbase: Some("vanished".to_string()),
            github_pr: None,
        },
        DiffbaseJson {
            branch: "b".to_string(),
            diffbase: Some("main".to_string()),
            github_pr: None,
        },
        DiffbaseJson {
            branch: "c".to_string(),
            diffbase: Some("a".to_string()),
            github_pr: None,
        },
    ];
    let d = Diffbase::new(
        "main".to_string(),
        &names(vec!["main", "a", "b", "c"]),
        &records,
    );
    assert_eq!(d.get_parent("a"), None);
    assert_eq!(d.get_parent("b"), None);
    assert_eq!(d.get_parent("c"), Some("a".to_string()));
}
