//! The GitLab side of merge-request tracking: merge-request identities and
//! the URL arithmetic the tool does on them.

use vstd::prelude::*;
use vstd::string::StrSliceExecFns;
use vstd::string::StringExecFns;
use crate::text::after_last;
use crate::text::dec_val;
use crate::text::is_digit_seq;
use crate::text::join_seq;
use crate::text::join_str;
use crate::text::split_char;
use crate::text::split_seq;
use crate::text::str_after_last;
use crate::text::str_eq;
use crate::text::try_parse_usize;

verus! {

/// The lifecycle state of a GitLab merge request.
#[derive(Debug, PartialEq, Eq, Structural, Clone, Copy)]
pub enum PullRequestState {
    Open,
    Merged,
    Closed,
}

/// One merge request as the tool sees it.
#[derive(Debug)]
pub struct MergeRequest {
    pub title: String,
    pub number: usize,
    pub state: PullRequestState,
    pub source_branch: String,
    pub target_branch: String,
    pub web_url: String,
}

impl MergeRequest {
    /// The durable identity of this merge request.
    pub fn id(&self) -> (r: PullRequestId)
        ensures
            r.url@ == self.web_url@,
    {
        PullRequestId { url: self.web_url.clone() }
    }
}

/// Just enough data to uniquely identify a merge request on GitLab: its
/// browser address, e.g. `https://gitlab.com/my/project/-/merge_requests/7`.
#[derive(Debug)]
pub struct PullRequestId {
    pub url: String,
}

impl Clone for PullRequestId {
    fn clone(&self) -> (r: PullRequestId)
        ensures
            r == *self,
    {
        PullRequestId { url: self.url.clone() }
    }
}

/// A merge-request address has the shape
/// `https://<host>/<project path>/-/merge_requests/<number>`.
pub open spec fn mr_url_wf(url: Seq<char>) -> bool {
    let parts = split_seq(url, '/');
    &&& parts.len() > 6
    &&& parts[parts.len() - 3] == "-"@
    &&& parts[parts.len() - 2] == "merge_requests"@
}

/// The project path inside a well-shaped merge-request address.
pub open spec fn mr_project_of(url: Seq<char>) -> Seq<char> {
    let parts = split_seq(url, '/');
    join_seq(parts.subrange(3, parts.len() - 3), "/"@)
}

impl PullRequestId {
    /// The project path this merge request belongs to.
    pub fn project(&self) -> (r: String)
        requires
            mr_url_wf(self.url@),
        ensures
            r@ == mr_project_of(self.url@),
    {
        match self.try_project() {
            Some(r) => r,
            None => {
                proof {
                    assert(false);
                }
                String::new()
            },
        }
    }

    /// The project path, when the address has the expected shape.
    pub fn try_project(&self) -> (r: Option<String>)
        ensures
            match r {
                Some(p) => mr_url_wf(self.url@) && p@ == mr_project_of(self.url@),
                None => !mr_url_wf(self.url@),
            },
    {
        let parts = split_char(self.url.as_str(), '/');
        let n = parts.len();
        proof {
            assert(parts.deep_view().len() == parts@.len());
        }
        if n <= 6 {
            return None;
        }
        if !str_eq(parts[n - 3].as_str(), "-") {
            return None;
        }
        if !str_eq(parts[n - 2].as_str(), "merge_requests") {
            return None;
        }
        let mut middle: Vec<String> = Vec::new();
        let mut i: usize = 3;
        while i < n - 3
            invariant
                3 <= i <= n - 3,
                6 < n == parts@.len(),
                middle.deep_view() =~= parts.deep_view().subrange(3, i as int),
            decreases n - 3 - i,
        {
            let ghost m0 = middle.deep_view();
            middle.push(parts[i].clone());
            proof {
                assert(middle.deep_view() =~= m0.push(parts@[i as int]@));
                assert(middle.deep_view() =~= parts.deep_view().subrange(3, i + 1));
            }
            i = i + 1;
        }
        let r = join_str(&middle, "/");
        Some(r)
    }

    /// The merge-request number at the end of the address.
    pub fn number(&self) -> (r: usize)
        requires
            is_digit_seq(after_last(self.url@, '/')),
            dec_val(after_last(self.url@, '/')) <= usize::MAX,
        ensures
            r == dec_val(after_last(self.url@, '/')),
    {
        match self.try_number() {
            Some(r) => r,
            None => {
                proof {
                    assert(false);
                }
                0
            },
        }
    }

    /// The merge-request number, when the address ends in digits.
    pub fn try_number(&self) -> (r: Option<usize>)
        ensures
            match r {
                Some(v) => is_digit_seq(after_last(self.url@, '/')) && v == dec_val(
                    after_last(self.url@, '/'),
                ) && dec_val(after_last(self.url@, '/')) <= usize::MAX,
                None => !is_digit_seq(after_last(self.url@, '/')) || dec_val(
                    after_last(self.url@, '/'),
                ) > usize::MAX,
            },
    {
        let last = str_after_last(self.url.as_str(), '/');
        try_parse_usize(last.as_str())
    }
}

} // verus!
