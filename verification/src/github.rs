//! The GitHub side of pull-request tracking: repository and pull-request
//! identities, and the parsing the tool does on GitHub data.

use vstd::prelude::*;
use vstd::string::StringExecFns;
use crate::error::Error;
use crate::error::ErrorKind;
use crate::text::int_str;
use crate::text::i64_to_string;
use crate::text::split_first_char;
use crate::text::split_char;
use crate::text::split_seq;
use crate::text::str_eq;

verus! {

/// Identifies a hosted repository by owner and name.
#[derive(Debug)]
pub struct RepoId {
    pub owner: String,
    pub name: String,
}

impl Clone for RepoId {
    fn clone(&self) -> (r: RepoId)
        ensures
            r == *self,
    {
        RepoId { owner: self.owner.clone(), name: self.name.clone() }
    }
}

impl PartialEq for RepoId {
    fn eq(&self, other: &RepoId) -> (r: bool) {
        self.owner == other.owner && self.name == other.name
    }
}

impl vstd::std_specs::cmp::PartialEqSpecImpl for RepoId {
    open spec fn obeys_eq_spec() -> bool {
        true
    }

    open spec fn eq_spec(&self, other: &RepoId) -> bool {
        self.owner@ == other.owner@ && self.name@ == other.name@
    }
}

/// A branch of a hosted repository.
#[derive(Debug)]
pub struct Branch {
    pub repo: RepoId,
    pub name: String,
}

impl Branch {
    /// Reads a branch out of a GitHub label of the form `owner:branch`.
    pub fn from_label(repo_name: &str, label: &str) -> (b: Branch)
        requires
            label@.contains(':'),
        ensures
            exists|i: int|
                {
                    &&& 0 <= i < label@.len()
                    &&& label@[i] == ':'
                    &&& (forall|j: int| 0 <= j < i ==> label@[j] != ':')
                    &&& b.repo.owner@ == label@.take(i)
                    &&& b.name@ == #[trigger] label@.skip(i + 1)
                },
            b.repo.name@ == repo_name@,
    {
        let parts = split_first_char(label, ':');
        match parts {
            Some((owner, name)) => Branch {
                repo: RepoId { owner, name: String::from_str(repo_name) },
                name,
            },
            None => {
                proof {
                    assert(false);
                }
                Branch {
                    repo: RepoId { owner: String::new(), name: String::new() },
                    name: String::new(),
                }
            },
        }
    }
}

/// Whether a GitHub pull request is still open.
#[derive(Debug, PartialEq, Eq, Structural, Clone, Copy)]
pub enum PullRequestState {
    Open,
    Closed,
}

impl PullRequestState {
    /// Reads the state out of GitHub's wire word for it.
    pub fn parse(s: &str) -> (r: Result<PullRequestState, Error>)
        ensures
            s@ == "open"@ ==> r == Result::<PullRequestState, Error>::Ok(
                PullRequestState::Open,
            ),
            s@ == "closed"@ ==> r == Result::<PullRequestState, Error>::Ok(
                PullRequestState::Closed,
            ),
            s@ != "open"@ && s@ != "closed"@ ==> r is Err && (r->Err_0).kind
                == ErrorKind::GeneralError,
    {
        proof {
            reveal_strlit("open");
            reveal_strlit("closed");
        }
        if str_eq(s, "open") {
            proof {
                assert("open"@.len() == 4);
                assert("closed"@.len() == 6);
                assert(s@ != "closed"@);
            }
            Ok(PullRequestState::Open)
        } else if str_eq(s, "closed") {
            Ok(PullRequestState::Closed)
        } else {
            let d = String::from_str("Invalid brach state: ").concat(s);
            Err(Error::general(d))
        }
    }
}

/// One pull request as the tool sees it.
#[derive(Debug)]
pub struct PullRequest {
    pub target: Branch,
    pub source: Branch,
    pub number: i32,
    pub author_login: String,
    pub title: String,
    pub state: PullRequestState,
}

impl PullRequest {
    /// The durable identity of this pull request.
    pub fn id(&self) -> (r: PullRequestId)
        ensures
            r.repo == self.target.repo,
            r.number == self.number,
    {
        PullRequestId { repo: self.target.repo.clone(), number: self.number }
    }
}

/// Just enough data to uniquely identify a pull request on GitHub.
#[derive(Debug)]
pub struct PullRequestId {
    pub repo: RepoId,
    pub number: i32,
}

impl Clone for PullRequestId {
    fn clone(&self) -> (r: PullRequestId)
        ensures
            r == *self,
    {
        PullRequestId { repo: self.repo.clone(), number: self.number }
    }
}

impl PullRequestId {
    /// The browser address of this pull request.
    pub fn url(&self) -> (r: String)
        ensures
            r@ == "https://github.com/"@ + self.repo.owner@ + "/"@ + self.repo.name@
                + "/pull/"@ + int_str(self.number as int),
    {
        let r = String::from_str("https://github.com/").concat(
            self.repo.owner.as_str(),
        ).concat("/").concat(self.repo.name.as_str()).concat("/pull/").concat(
            i64_to_string(self.number as i64).as_str(),
        );
        proof {
            assert(r@ =~= "https://github.com/"@ + self.repo.owner@ + "/"@
                + self.repo.name@ + "/pull/"@ + int_str(self.number as int));
        }
        r
    }
}

/// Splits pull requests into the still-open ones and the finished ones,
/// keeping each bucket in the order the input listed them.
pub fn partition_prs(prs: Vec<PullRequest>) -> (r: (Vec<PullRequest>, Vec<PullRequest>))
    ensures
        r.0@.len() + r.1@.len() == prs@.len(),
        forall|i: int|
            0 <= i < r.0@.len() ==> (#[trigger] r.0@[i]).state == PullRequestState::Open,
        forall|i: int|
            0 <= i < r.1@.len() ==> (#[trigger] r.1@[i]).state == PullRequestState::Closed,
        r.0@ == prs@.filter(|p: PullRequest| p.state == PullRequestState::Open),
        r.1@ == prs@.filter(|p: PullRequest| p.state != PullRequestState::Open),
{
    let mut open: Vec<PullRequest> = Vec::new();
    let mut closed: Vec<PullRequest> = Vec::new();
    let n = prs.len();
    let mut prs = prs;
    let ghost all = prs@;
    proof {
        assert(all.take(0) =~= Seq::<PullRequest>::empty());
        assert(all.take(0).filter(|p: PullRequest| p.state == PullRequestState::Open)
            =~= Seq::<PullRequest>::empty());
        assert(all.take(0).filter(|p: PullRequest| p.state != PullRequestState::Open)
            =~= Seq::<PullRequest>::empty());
    }
    let mut i: usize = 0;
    while i < n
        invariant
            i <= n,
            n == all.len(),
            prs@ =~= all.skip(i as int),
            open@.len() + closed@.len() == i,
            open@ == all.take(i as int).filter(
                |p: PullRequest| p.state == PullRequestState::Open,
            ),
            closed@ == all.take(i as int).filter(
                |p: PullRequest| p.state != PullRequestState::Open,
            ),
            forall|k: int|
                0 <= k < open@.len() ==> (#[trigger] open@[k]).state
                    == PullRequestState::Open,
            forall|k: int|
                0 <= k < closed@.len() ==> (#[trigger] closed@[k]).state
                    == PullRequestState::Closed,
        decreases n - i,
    {
        proof {
            reveal_with_fuel(Seq::filter, 2);
            assert(all.take(i + 1).drop_last() =~= all.take(i as int));
            assert(all.take(i + 1).last() == all[i as int]);
            assert(all.skip(i as int)[0] == all[i as int]);
        }
        let pr = prs.remove(0);
        proof {
            assert(pr == all[i as int]);
            assert(prs@ =~= all.skip(i + 1));
        }
        if matches!(pr.state, PullRequestState::Open) {
            open.push(pr);
        } else {
            proof {
                assert(pr.state == PullRequestState::Closed);
            }
            closed.push(pr);
        }
        i = i + 1;
    }
    proof {
        assert(all.take(n as int) =~= all);
    }
    (open, closed)
}

/// The path component of `s` read as a URL; no name for a string that does
/// not parse.
pub uninterp spec fn url_path_of(s: Seq<char>) -> Option<Seq<char>>;

/// Relies on url::Url::parse and url::Url::path: whether a string parses as
/// a URL, and the path of the URL it parses to, depend on the string alone.
#[verifier::external_body]
fn parse_url_path(s: &str) -> (r: Option<String>)
    ensures
        match r {
            Some(p) => url_path_of(s@) == Some(p@),
            None => url_path_of(s@) is None,
        },
{
    match url::Url::parse(s) {
        Ok(u) => Some(u.path().to_string()),
        Err(_) => None,
    }
}

/// The owner and repository named by the last two slash-separated path
/// segments of a repository URL, in that order. `None` when the string is
/// no URL or its path holds fewer than two segments.
pub fn repo_tuple(repository_url: &str) -> (r: Option<(String, String)>)
    ensures
        match url_path_of(repository_url@) {
            None => r is None,
            Some(p) => {
                let parts = split_seq(p, '/');
                if parts.len() >= 2 {
                    r is Some && (r->0).0@ == parts[parts.len() - 2] && (r->0).1@
                        == parts[parts.len() - 1]
                } else {
                    r is None
                }
            },
        },
{
    let path = match parse_url_path(repository_url) {
        Some(p) => p,
        None => {
            return None;
        },
    };
    let parts = split_char(path.as_str(), '/');
    let n = parts.len();
    if n < 2 {
        return None;
    }
    let owner = parts[n - 2].clone();
    let name = parts[n - 1].clone();
    Some((owner, name))
}

} // verus!
