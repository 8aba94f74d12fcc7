use giti::error::{Error, ErrorKind};
use giti::git;
use giti::github;
use giti::gitlab;
use giti::text;

#[test]
fn decimal_formatting_is_exact() {
    assert_eq!(text::u64_to_string(0), "0");
    assert_eq!(text::u64_to_string(7), "7");
    assert_eq!(text::u64_to_string(90210), "90210");
    assert_eq!(text::i64_to_string(-42), "-42");
    assert_eq!(text::i64_to_string(i64::MIN), "-9223372036854775808");
    assert_eq!(text::u64_to_string(u64::MAX), "18446744073709551615");
}

#[test]
fn decimal_parsing_accepts_the_largest_value() {
    assert_eq!(
        text::try_parse_usize("18446744073709551615"),
        Some(usize::MAX)
    );
    assert_eq!(text::try_parse_usize("18446744073709551616"), None);
}

#[test]
fn decimal_parsing_is_exact() {
    assert_eq!(text::try_parse_usize("0"), Some(0));
    assert_eq!(text::try_parse_usize("00123"), Some(123));
    assert_eq!(text::try_parse_usize(""), None);
    assert_eq!(text::try_parse_usize("12a"), None);
    assert_eq!(text::try_parse_usize("99999999999999999999999"), None);
}

#[test]
fn subcommand_fail_formats_the_exit_code() {
    let e = Error::subcommand_fail("git", 129);
    assert_eq!(e.kind, ErrorKind::SubcommandFailed);
    assert_eq!(e.description(), "git exited with 129");
}

#[test]
fn main_branch_is_last_component_of_head_ref() {
    let out = "refs/remotes/origin/master\n";
    assert_eq!(git::get_main_branch(out), Some("master".to_string()));
    assert_eq!(git::get_main_branch(""), None);
    assert_eq!(
        git::get_main_branch("  refs/remotes/origin/main  \nmore\n"),
        Some("main".to_string())
    );
}

#[test]
fn remote_classification_follows_the_hosting_domain() {
    let gh = git::Remote {
        url: "git@github.com:SirVer/giti.git".to_string(),
    };
    assert!(matches!(gh.repository(), git::RepositoryType::GitHub(_)));
    assert_eq!(gh.project(), "giti.git");

    let gl = git::Remote {
        url: "https://gitlab.com/my/project.git".to_string(),
    };
    assert!(matches!(gl.repository(), git::RepositoryType::GitLab(_)));

    let other = git::Remote {
        url: "https://example.com/elsewhere.git".to_string(),
    };
    assert!(matches!(other.repository(), git::RepositoryType::Unknown));
}

#[test]
fn github_repository_identity_from_ssh_and_https_urls() {
    let ssh = git::GitHubRepository {
        url: "git@github.com:SirVer/giti.git".to_string(),
    };
    assert_eq!(ssh.owner(), "SirVer");
    let id = ssh.repository();
    assert_eq!(id.owner, "SirVer");
    assert_eq!(id.name, "giti");

    let https = git::GitHubRepository {
        url: "https://github.com/softprops/hubcaps".to_string(),
    };
    assert_eq!(https.owner(), "softprops");
    assert_eq!(https.repository().name, "hubcaps");
}

#[test]
fn gitlab_repository_project_path() {
    let r = git::GitLabRepository {
        url: "git@gitlab.com:group/sub/project.git".to_string(),
    };
    assert_eq!(r.project(), "group/sub/project");
}

#[test]
fn remotes_are_parsed_from_fetch_lines() {
    let out = "origin\tgit@github.com:SirVer/giti.git (fetch)\n\
               origin\tgit@github.com:SirVer/giti.git (push)\n\
               fork\thttps://github.com/other/giti.git (fetch)\n";
    let remotes = git::get_remotes(out);
    assert_eq!(remotes.len(), 2);
    assert_eq!(remotes[0].name, "origin");
    assert_eq!(remotes[0].remote.url, "git@github.com:SirVer/giti.git");
    assert_eq!(remotes[1].name, "fork");
    assert_eq!(remotes[1].remote.url, "https://github.com/other/giti.git");
}

#[test]
fn status_classifies_deleted_and_modified() {
    let out = " M src/a.rs\n D gone.txt\nM kept name.txt\n";
    let (deleted, modified) = git::status(out).unwrap();
    assert_eq!(deleted, vec!["gone.txt".to_string()]);
    assert_eq!(
        modified,
        vec!["src/a.rs".to_string(), "kept name.txt".to_string()]
    );
}

#[test]
fn status_reports_unexpected_lines() {
    let err = git::status("?? untracked.txt\n").unwrap_err();
    assert_eq!(err.kind, ErrorKind::GeneralError);
    assert_eq!(
        err.description(),
        "unexpected git status output: '?? untracked.txt'"
    );
}

#[test]
fn dirty_working_directory_lists_the_files() {
    let deleted = vec!["a.txt".to_string()];
    let changed = vec!["b.txt".to_string()];
    assert!(git::expect_working_directory_clean(&Vec::new(), &Vec::new()).is_ok());
    let err = git::expect_working_directory_clean(&deleted, &changed).unwrap_err();
    assert_eq!(
        err.description(),
        "You cannot have pending changes for this command. Changed files:\n\n  a.txt\n  b.txt\n\n"
    );
}

#[test]
fn aliases_expand_to_their_tokens() {
    let aliases = vec![
        git::AliasEntry {
            name: "co".to_string(),
            value: "checkout -b".to_string(),
        },
        git::AliasEntry {
            name: "st".to_string(),
            value: "status".to_string(),
        },
    ];
    assert_eq!(
        git::replace_aliases("co", &aliases),
        vec!["checkout".to_string(), "-b".to_string()]
    );
    assert_eq!(git::replace_aliases("up", &aliases), vec!["up".to_string()]);
}

#[test]
fn clone_shorthand_becomes_a_github_url() {
    let args = vec![
        "clone".to_string(),
        "SirVer/giti".to_string(),
        "https://example.com/x.git".to_string(),
    ];
    let expanded = git::expand_clone_args(&args);
    assert_eq!(expanded[0], "clone");
    assert_eq!(expanded[1], "git@github.com:SirVer/giti.git");
    assert_eq!(expanded[2], "https://example.com/x.git");
    assert!(!git::is_github_shorthand("a/b"));
    assert!(git::is_github_shorthand("a/bc"));
    assert!(!git::is_github_shorthand("-a/bc"));
}

#[test]
fn commands_route_by_their_leading_token() {
    assert_eq!(git::classify_command("clone"), git::Command::Clone);
    assert_eq!(git::classify_command("pullc"), git::Command::Pullc);
    assert_eq!(git::classify_command("pr"), git::Command::Pr);
    assert_eq!(git::classify_command("push"), git::Command::Delegate);
}

#[test]
fn fix_picks_the_formatter_by_extension() {
    assert_eq!(git::fix_tool_for("x.cc", "cc"), git::FixTool::ClangFormat);
    assert_eq!(git::fix_tool_for("x.h", "h"), git::FixTool::ClangFormat);
    assert_eq!(git::fix_tool_for("x.proto", "proto"), git::FixTool::ClangFormat);
    assert_eq!(git::fix_tool_for("BUILD", ""), git::FixTool::Buildifier);
    assert_eq!(git::fix_tool_for("x.BUILD", "BUILD"), git::FixTool::Buildifier);
    assert_eq!(git::fix_tool_for("main.rs", "rs"), git::FixTool::NoTool);
}

#[test]
fn cleanup_decisions_follow_the_marker_and_the_request_state() {
    assert_eq!(
        git::cleanup_local_action("x", "x"),
        git::CleanupLocal::Keep
    );
    assert_eq!(
        git::cleanup_local_action("|other/b", "x"),
        git::CleanupLocal::DeleteReviewCopy
    );
    assert_eq!(
        git::cleanup_local_action("feature", "x"),
        git::CleanupLocal::CheckRequest
    );
    assert!(git::cleanup_github_done(github::PullRequestState::Closed));
    assert!(!git::cleanup_github_done(github::PullRequestState::Open));
    assert!(git::cleanup_gitlab_done(gitlab::PullRequestState::Merged));
    assert!(git::cleanup_gitlab_done(gitlab::PullRequestState::Closed));
    assert!(!git::cleanup_gitlab_done(gitlab::PullRequestState::Open));
}

#[test]
fn review_names_are_assembled_and_taken_apart() {
    assert_eq!(git::review_local_branch_name("user", "b"), "|user/b");
    assert_eq!(git::review_fork_ref("user", "b"), "remotes/user/b");
    let (user, branch) = git::review_push_target("|user/feature/x").unwrap();
    assert_eq!(user, "user");
    assert_eq!(branch, "feature/x");
    assert!(git::review_push_target("nodelimiter").is_none());
    let (u2, b2) = git::parse_user_branch("someone:their-branch").unwrap();
    assert_eq!(u2, "someone");
    assert_eq!(b2, "their-branch");
    assert!(git::parse_user_branch("plain").is_none());
}

#[test]
fn pr_message_splits_title_and_body() {
    let (title, body) =
        git::pr_message_from_content("  My title\n\nFirst line.\nSecond line.\n").unwrap();
    assert_eq!(title, "My title");
    assert_eq!(body, Some("First line.\nSecond line.".to_string()));

    let (t2, b2) = git::pr_message_from_content("Only a title\n").unwrap();
    assert_eq!(t2, "Only a title");
    assert_eq!(b2, None);

    let err = git::pr_message_from_content("   \n").unwrap_err();
    assert_eq!(err.description(), "No message, no PR.");
}

#[test]
fn pr_head_depends_on_the_fork() {
    assert_eq!(git::pr_head(true, "owner", "feature"), "feature");
    assert_eq!(git::pr_head(false, "owner", "feature"), "owner:feature");
}

#[test]
fn origin_is_parsed_from_config_output() {
    let o = git::parse_origin("origin\n", "refs/heads/feature\n").unwrap();
    assert_eq!(o.remote, "origin");
    assert_eq!(o.branch, "feature");
    assert!(git::parse_origin("\n", "refs/heads/x\n").is_none());
    assert!(git::parse_origin("origin\n", "\n").is_none());
}

#[test]
fn diff_lines_classify_by_their_letter() {
    let (kind, path) = git::classify_diff_line("A\tsrc/new.rs\n").unwrap();
    assert_eq!(kind, git::DiffKind::Added);
    assert_eq!(path, "src/new.rs");
    let (k2, _) = git::classify_diff_line("D\tgone").unwrap();
    assert_eq!(k2, git::DiffKind::Deleted);
    let (k3, _) = git::classify_diff_line("M\tchanged").unwrap();
    assert_eq!(k3, git::DiffKind::Modified);
    assert!(git::classify_diff_line("X\twhat").is_none());
    assert!(git::classify_diff_line("A").is_none());
}

#[test]
fn github_pull_request_identity() {
    let pr = github::PullRequest {
        target: github::Branch {
            repo: github::RepoId {
                owner: "SirVer".to_string(),
                name: "giti".to_string(),
            },
            name: "master".to_string(),
        },
        source: github::Branch {
            repo: github::RepoId {
                owner: "other".to_string(),
                name: "giti".to_string(),
            },
            name: "feature".to_string(),
        },
        number: 27,
        author_login: "other".to_string(),
        title: "A change".to_string(),
        state: github::PullRequestState::Open,
    };
    let id = pr.id();
    assert_eq!(id.repo.owner, "SirVer");
    assert_eq!(id.number, 27);
    assert_eq!(id.url(), "https://github.com/SirVer/giti/pull/27");
}

#[test]
fn github_branch_from_label() {
    let b = github::Branch::from_label("giti", "SirVer:feature");
    assert_eq!(b.repo.owner, "SirVer");
    assert_eq!(b.repo.name, "giti");
    assert_eq!(b.name, "feature");
}

#[test]
fn github_state_parses_the_wire_words() {
    assert_eq!(
        github::PullRequestState::parse("open").unwrap(),
        github::PullRequestState::Open
    );
    assert_eq!(
        github::PullRequestState::parse("closed").unwrap(),
        github::PullRequestState::Closed
    );
    assert!(github::PullRequestState::parse("draft").is_err());
}

#[test]
fn repo_tuple_takes_the_last_two_path_segments() {
    assert_eq!(
        github::repo_tuple("https://api.github.com/repos/softprops/hubcaps"),
        Some(("softprops".to_string(), "hubcaps".to_string()))
    );
    assert_eq!(
        github::repo_tuple("https://example.com/a/b?page=2"),
        Some(("a".to_string(), "b".to_string()))
    );
    assert_eq!(github::repo_tuple("not a url"), None);
}

#[test]
fn gitlab_identity_from_web_url() {
    let mr = gitlab::MergeRequest {
        title: "T".to_string(),
        number: 123,
        state: gitlab::PullRequestState::Open,
        source_branch: "s".to_string(),
        target_branch: "t".to_string(),
        web_url: "https://gitlab.com/my/cool/project/-/merge_requests/123".to_string(),
    };
    let id = mr.id();
    assert_eq!(id.project(), "my/cool/project");
    assert_eq!(id.number(), 123);
    assert_eq!(id.try_project(), Some("my/cool/project".to_string()));
    assert_eq!(id.try_number(), Some(123));
    let bad = gitlab::PullRequestId {
        url: "https://gitlab.com/short".to_string(),
    };
    assert_eq!(bad.try_project(), None);
    assert_eq!(bad.try_number(), None);
}
