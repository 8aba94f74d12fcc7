use giti::diffbase::{
    extract_option, handle_branch, handle_checkout, handle_down, handle_merge,
    handle_pullc, handle_up, CheckoutAction, Diffbase, PullcStep,
};
use giti::error::ErrorKind;

fn names(v: Vec<&str>) -> Vec<String> {
    v.into_iter().map(|s| s.to_string()).collect()
}

fn store(trunk: &str, branches: Vec<&str>) -> Diffbase {
    Diffbase::new(trunk.to_string(), &names(branches), &Vec::new())
}

#[test]
fn test_extract_option() {
    let args = names(vec!["foo", "-m", "blub", "--export", "flah"]);
    let (value, options, positional) = extract_option(Some("-m"), &args);
    assert_eq!(value, Some("blub".to_string()));
    assert_eq!(options, vec!["--export".to_string()]);
    assert_eq!(positional, vec!["foo".to_string(), "flah".to_string()]);
}

#[test]
fn extract_option_reads_the_equals_form() {
    let args = names(vec!["--base=trunk", "rest"]);
    let (value, options, positional) = extract_option(Some("--base"), &args);
    assert_eq!(value, Some("trunk".to_string()));
    assert_eq!(options, Vec::<String>::new());
    assert_eq!(positional, vec!["rest".to_string()]);
}

#[test]
fn extract_option_without_name_buckets_everything() {
    let args = names(vec!["a", "-x", "b"]);
    let (value, options, positional) = extract_option(None, &args);
    assert_eq!(value, None);
    assert_eq!(options, vec!["-x".to_string()]);
    assert_eq!(positional, vec!["a".to_string(), "b".to_string()]);
}

#[test]
fn merge_records_the_diffbase_before_delegating() {
    let mut d = store("main", vec!["main", "a", "b"]);
    handle_merge(&names(vec!["merge", "a"]), "b", &mut d).unwrap();
    assert_eq!(d.get_parent("b"), Some("a".to_string()));
}

#[test]
fn merge_swallows_a_trunk_diffbase() {
    let mut d = store("main", vec!["main", "a"]);
    handle_merge(&names(vec!["merge", "main"]), "a", &mut d).unwrap();
    assert_eq!(d.get_parent("a"), None);
}

#[test]
fn merge_with_extra_arguments_leaves_the_store_alone() {
    let mut d = store("main", vec!["main", "a", "b"]);
    handle_merge(&names(vec!["merge", "--no-ff", "a"]), "b", &mut d).unwrap();
    assert_eq!(d.get_parent("b"), None);
}

#[test]
fn checkout_b_hangs_the_new_branch_off_the_current_one() {
    let mut d = store("main", vec!["main", "a"]);
    let action = handle_checkout(&names(vec!["checkout", "-b", "fresh"]), "a", &mut d).unwrap();
    assert_eq!(d.get_parent("fresh"), Some("a".to_string()));
    assert!(matches!(action, CheckoutAction::Delegate));
}

#[test]
fn plain_checkout_of_one_branch_is_direct() {
    let mut d = store("main", vec!["main", "a"]);
    let action = handle_checkout(&names(vec!["checkout", "a"]), "main", &mut d).unwrap();
    match action {
        CheckoutAction::Plain(b) => assert_eq!(b, "a"),
        CheckoutAction::Delegate => panic!("expected a direct checkout"),
    }
}

#[test]
fn branch_rename_is_recorded() {
    let mut d = store("main", vec!["main", "old"]);
    let renamed = handle_branch(&names(vec!["branch", "-m", "new"]), "old", &mut d).unwrap();
    assert_eq!(renamed, Some("new".to_string()));
    assert_eq!(d.get_children("new"), Some(Vec::new()));
    assert_eq!(d.get_children("old"), None);
}

#[test]
fn up_names_the_parent_or_the_root() {
    let mut d = store("main", vec!["main", "feature-a", "feature-b"]);
    d.set_diffbase("feature-b", "feature-a").unwrap();
    assert_eq!(
        handle_up(&names(vec!["up"]), "feature-b", &d).unwrap(),
        "feature-a"
    );
    assert_eq!(
        handle_up(&names(vec!["up", "--root"]), "feature-b", &d).unwrap(),
        "feature-a"
    );
    let err = handle_up(&names(vec!["up"]), "feature-a", &d).unwrap_err();
    assert_eq!(err.kind, ErrorKind::GeneralError);
    assert_eq!(err.description(), "feature-a has no diffbase.");
}

#[test]
fn down_requires_a_unique_child() {
    let mut d = store("main", vec!["main", "a", "b", "c"]);
    d.set_diffbase("b", "a").unwrap();
    assert_eq!(handle_down("a", &d).unwrap(), "b");

    let none = handle_down("b", &d).unwrap_err();
    assert_eq!(
        none.description(),
        "b has no branches that have it as diffbase."
    );

    d.set_diffbase("c", "a").unwrap();
    let many = handle_down("a", &d).unwrap_err();
    assert_eq!(
        many.description(),
        "a has no unique branch that has it as diffbase. Contenders are b, c."
    );
}

#[test]
fn stacked_branches_navigate_up_and_down() {
    // The trunk may not be declared as a diffbase, so `feature-a` is the
    // root of its tree even though git branched it off `main`.
    let mut d = store("main", vec!["main", "feature-a", "feature-b"]);
    let err = d.set_diffbase("feature-a", "main").unwrap_err();
    assert_eq!(err.kind, ErrorKind::BranchCantBeDiffbase);
    d.set_diffbase("feature-b", "feature-a").unwrap();

    assert_eq!(
        handle_up(&names(vec!["up", "--root"]), "feature-b", &d).unwrap(),
        "feature-a"
    );
    assert_eq!(handle_down("feature-a", &d).unwrap(), "feature-b");
    assert!(handle_down("main", &d).is_err());
    assert!(handle_down("feature-b", &d).is_err());
}

#[test]
fn pullc_plans_the_whole_tree_walk() {
    let mut d = store("main", vec!["main", "a", "b", "c"]);
    d.set_diffbase("b", "a").unwrap();
    d.set_diffbase("c", "b").unwrap();
    let ups = names(vec!["a", "c"]);
    let plan = handle_pullc(&names(vec!["pullc", "--push"]), "b", &d, &ups).unwrap();

    let mut expect: Vec<PullcStep> = Vec::new();
    expect.push(PullcStep::Fetch);
    expect.push(PullcStep::Checkout("a".to_string()));
    expect.push(PullcStep::Pull);
    expect.push(PullcStep::Push);
    expect.push(PullcStep::Checkout("b".to_string()));
    expect.push(PullcStep::Merge("a".to_string()));
    expect.push(PullcStep::Checkout("c".to_string()));
    expect.push(PullcStep::Pull);
    expect.push(PullcStep::Merge("b".to_string()));
    expect.push(PullcStep::Push);
    expect.push(PullcStep::Checkout("b".to_string()));

    assert_eq!(plan.len(), expect.len());
    for (got, want) in plan.iter().zip(expect.iter()) {
        match (got, want) {
            (PullcStep::Fetch, PullcStep::Fetch) => {}
            (PullcStep::Pull, PullcStep::Pull) => {}
            (PullcStep::Push, PullcStep::Push) => {}
            (PullcStep::Checkout(a), PullcStep::Checkout(b)) => assert_eq!(a, b),
            (PullcStep::Merge(a), PullcStep::Merge(b)) => assert_eq!(a, b),
            _ => panic!("plan step differs"),
        }
    }
}

#[test]
fn pullc_reports_a_cycle() {
    let mut d = store("main", vec!["main", "a", "b"]);
    d.set_diffbase("a", "b").unwrap();
    d.set_diffbase("b", "a").unwrap();
    let err = handle_pullc(&names(vec!["pullc"]), "a", &d, &Vec::new()).unwrap_err();
    assert_eq!(err.kind, ErrorKind::CorruptState);
}

#[test]
fn checkout_b_swallows_a_trunk_current_branch() {
    let mut d = store("main", vec!["main"]);
    let action = handle_checkout(&names(vec!["checkout", "-b", "fresh"]), "main", &mut d).unwrap();
    assert!(matches!(action, CheckoutAction::Delegate));
    assert_eq!(d.get_parent("fresh"), None);
    assert_eq!(d.get_children("fresh"), None);
}

#[test]
fn up_rejects_unknown_options() {
    let d = store("main", vec!["main"]);
    let err = handle_up(&names(vec!["up", "--sideways"]), "main", &d).unwrap_err();
    assert_eq!(err.kind, ErrorKind::GeneralError);
}
