//! Repository-facing logic: parsing what git reports — the trunk branch, the
//! remotes, the working-tree status — classifying remote URLs by hosting
//! provider, and the decisions of the intercepted commands that touch the
//! repository. Running git itself is the caller's concern: every function
//! here computes on plain values.

use vstd::prelude::*;
use vstd::string::StrSliceExecFns;
use vstd::string::StringExecFns;
use crate::error::Error;
use crate::error::ErrorKind;
use crate::github;
use crate::text::after_last;
use crate::text::before_last;
use crate::text::ends_with;
use crate::text::has_substr;
use crate::text::line_seq;
use crate::text::split_seq;
use crate::text::split_char;
use crate::text::str_after_last;
use crate::text::str_before_last;
use crate::text::str_contains_sub;
use crate::text::str_ends_with;
use crate::text::str_eq;
use crate::text::str_lines;
use crate::text::str_split_ws;
use crate::text::str_trim;
use crate::text::str_trim_start_matches;
use crate::text::str_trim_end_matches;
use crate::text::split_ws;
use crate::text::trim_spec;
use crate::text::trim_start_matches;
use crate::text::idx_of_first;
use crate::text::trim_end_matches;

verus! {

/// The trunk branch named by `git symbolic-ref refs/remotes/origin/HEAD`:
/// the last `/`-separated component of the first output line, trimmed.
/// `None` when the output has no line.
pub fn get_main_branch(head_ref_output: &str) -> (r: Option<String>)
    ensures
        match r {
            Some(b) => line_seq(head_ref_output@).len() > 0 && b@ == after_last(
                trim_spec(line_seq(head_ref_output@)[0]),
                '/',
            ),
            None => line_seq(head_ref_output@).len() == 0,
        },
{
    let lines = str_lines(head_ref_output);
    if lines.len() == 0 {
        return None;
    }
    let line = str_trim(lines[0].as_str());
    Some(str_after_last(line.as_str(), '/'))
}

/// What the tool knows of one local branch.
#[derive(Debug)]
pub struct BranchInfo {
    pub upstream: Option<String>,
}

/// Which hosting provider a remote URL belongs to.
#[derive(Debug)]
pub enum RepositoryType {
    GitLab(GitLabRepository),
    GitHub(GitHubRepository),
    Unknown,
}

/// A remote, e.g. `git@github.com:SirVer/giti.git`.
#[derive(Debug)]
pub struct Remote {
    pub url: String,
}

impl Remote {
    /// The project part of the URL: for `git@github.com:SirVer/giti.git`
    /// this is `giti.git`.
    pub fn project(&self) -> (r: String)
        ensures
            r@ == after_last(self.url@, '/'),
    {
        str_after_last(self.url.as_str(), '/')
    }

    /// Classifies the remote by the hosting domain its URL names.
    pub fn repository(&self) -> (r: RepositoryType)
        ensures
            has_substr(self.url@, "github.com"@) ==> (r matches RepositoryType::GitHub(g)
                && g.url@ == self.url@),
            !has_substr(self.url@, "github.com"@) && has_substr(self.url@, "gitlab.com"@)
                ==> (r matches RepositoryType::GitLab(g) && g.url@ == self.url@),
            !has_substr(self.url@, "github.com"@) && !has_substr(
                self.url@,
                "gitlab.com"@,
            ) ==> r is Unknown,
    {
        if str_contains_sub(self.url.as_str(), "github.com") {
            RepositoryType::GitHub(GitHubRepository { url: self.url.clone() })
        } else if str_contains_sub(self.url.as_str(), "gitlab.com") {
            RepositoryType::GitLab(GitLabRepository { url: self.url.clone() })
        } else {
            RepositoryType::Unknown
        }
    }
}

/// The owner-and-project path inside a GitHub remote URL.
pub open spec fn github_owner_project(url: Seq<char>) -> Seq<char> {
    after_last(trim_start_matches(url, "https://github.com/"@), ':')
}

/// A remote that lives on GitHub.
#[derive(Debug)]
pub struct GitHubRepository {
    pub url: String,
}

impl GitHubRepository {
    /// The `owner/project` part of the remote URL: what follows the HTTPS
    /// host or the `:` of an SSH remote.
    pub fn owner_and_project(&self) -> (r: String)
        ensures
            r@ == github_owner_project(self.url@),
    {
        let t = str_trim_start_matches(self.url.as_str(), "https://github.com/");
        str_after_last(t.as_str(), ':')
    }

    /// The owner: what precedes the last `/` of the owner-and-project part.
    pub fn owner(&self) -> (r: String)
        requires
            github_owner_project(self.url@).contains('/'),
        ensures
            Some(r@) == before_last(github_owner_project(self.url@), '/'),
    {
        let oap = self.owner_and_project();
        match str_before_last(oap.as_str(), '/') {
            Some(o) => o,
            None => {
                proof {
                    lemma_before_last_some(oap@, '/');
                }
                String::new()
            },
        }
    }

    /// The repository identity: owner plus project name, with a trailing
    /// `.git` stripped once.
    pub fn repository(&self) -> (r: github::RepoId)
        requires
            github_owner_project(self.url@).contains('/'),
        ensures
            Some(r.owner@) == before_last(github_owner_project(self.url@), '/'),
            r.name@ == ({
                let raw = after_last(github_owner_project(self.url@), '/');
                if ends_with(raw, ".git"@) {
                    raw.take(raw.len() - 4)
                } else {
                    raw
                }
            }),
    {
        let oap = self.owner_and_project();
        let raw = str_after_last(oap.as_str(), '/');
        let n = raw.as_str().unicode_len();
        let name = if str_ends_with(raw.as_str(), ".git") {
            proof {
                reveal_strlit(".git");
            }
            let s = String::from_str(raw.as_str().substring_char(0, n - 4));
            proof {
                assert(s@ =~= raw@.take(raw@.len() - 4));
            }
            s
        } else {
            raw
        };
        github::RepoId { owner: self.owner(), name }
    }
}

/// When a name occurs in `s`, something precedes its last occurrence.
proof fn lemma_before_last_some(s: Seq<char>, c: char)
    requires
        s.contains(c),
    ensures
        before_last(s, c) is Some,
    decreases s.len(),
{
    if s.len() > 0 && s[s.len() - 1] != c {
        let i = choose|i: int| 0 <= i < s.len() && s[i] == c;
        assert(s.take(s.len() - 1)[i] == c);
        lemma_before_last_some(s.take(s.len() - 1), c);
    }
}

/// A remote that lives on GitLab.
#[derive(Debug)]
pub struct GitLabRepository {
    pub url: String,
}

impl GitLabRepository {
    /// The project path inside the remote URL, without a trailing `.git`.
    pub fn project(&self) -> (r: String)
        ensures
            r@ == trim_end_matches(
                after_last(trim_start_matches(self.url@, "https://gitlab.com/"@), ':'),
                ".git"@,
            ),
    {
        let t = str_trim_start_matches(self.url.as_str(), "https://gitlab.com/");
        let t2 = str_after_last(t.as_str(), ':');
        str_trim_end_matches(t2.as_str(), ".git")
    }
}

/// One named remote, as `git remote -v` lists them.
#[derive(Debug)]
pub struct RemoteEntry {
    pub name: String,
    pub remote: Remote,
}

/// The remotes a `git remote -v` listing names: for every fetch line with at
/// least two tokens, its first token names the remote whose URL is the
/// second. Push lines and malformed lines contribute nothing.
pub open spec fn remotes_of(lines: Seq<Seq<char>>) -> Seq<(Seq<char>, Seq<char>)>
    decreases lines.len(),
{
    if lines.len() == 0 {
        Seq::empty()
    } else {
        let rest = remotes_of(lines.skip(1));
        let toks = split_ws(lines[0]);
        if has_substr(lines[0], "(push)"@) || toks.len() < 2 {
            rest
        } else {
            seq![(toks[0], toks[1])] + rest
        }
    }
}

/// Parses the output of `git remote -v` into named remotes.
pub fn get_remotes(output: &str) -> (r: Vec<RemoteEntry>)
    ensures
        r@.len() == remotes_of(line_seq(output@)).len(),
        forall|i: int|
            0 <= i < r@.len() ==> (#[trigger] r@[i]).name@ == remotes_of(
                line_seq(output@),
            )[i].0 && r@[i].remote.url@ == remotes_of(line_seq(output@))[i].1,
{
    let lines = str_lines(output);
    let n = lines.len();
    let mut out: Vec<RemoteEntry> = Vec::new();
    let ghost all = line_seq(output@);
    let mut i: usize = 0;
    proof {
        assert(all.skip(0) =~= all);
    }
    while i < n
        invariant
            i <= n,
            n == lines@.len(),
            lines.deep_view() == all,
            remotes_of(all) == out_pairs(out@) + remotes_of(all.skip(i as int)),
        decreases n - i,
    {
        proof {
            assert(all.skip(i as int)[0] == all[i as int]);
            assert(all.skip(i as int).skip(1) =~= all.skip(i + 1));
        }
        let line = &lines[i];
        if !str_contains_sub(line.as_str(), "(push)") {
            let toks = str_split_ws(line.as_str());
            if toks.len() >= 2 {
                let ghost o0 = out@;
                let name = toks[0].clone();
                let url = toks[1].clone();
                proof {
                    assert(name@ == split_ws(all[i as int])[0]);
                    assert(url@ == split_ws(all[i as int])[1]);
                }
                out.push(RemoteEntry { name, remote: Remote { url } });
                proof {
                    assert(out_pairs(out@) =~= out_pairs(o0).push(
                        (split_ws(all[i as int])[0], split_ws(all[i as int])[1]),
                    ));
                    assert(out_pairs(out@) + remotes_of(all.skip(i + 1)) =~= out_pairs(o0)
                        + (seq![(split_ws(all[i as int])[0], split_ws(all[i as int])[1])]
                        + remotes_of(all.skip(i + 1))));
                }
            }
        }
        i = i + 1;
    }
    proof {
        assert(all.skip(n as int) =~= Seq::<Seq<char>>::empty());
        assert(out_pairs(out@) =~= remotes_of(all));
    }
    let ghost pairs = out_pairs(out@);
    proof {
        assert(forall|i: int|
            0 <= i < out@.len() ==> (#[trigger] pairs[i]).0 == out@[i].name@ && pairs[i].1
                == out@[i].remote.url@);
    }
    out
}

/// The name and URL pairs a remote list denotes.
pub open spec fn out_pairs(entries: Seq<RemoteEntry>) -> Seq<(Seq<char>, Seq<char>)> {
    entries.map_values(|e: RemoteEntry| (e.name@, e.remote.url@))
}

/// What a `git status --porcelain -uno` listing means: each trimmed line is
/// `M <path>` or `D <path>`; the first line of any other shape is reported.
pub open spec fn status_parse(ls: Seq<Seq<char>>) -> Result<
    (Seq<Seq<char>>, Seq<Seq<char>>),
    Seq<char>,
>
    decreases ls.len(),
{
    if ls.len() == 0 {
        Ok((Seq::empty(), Seq::empty()))
    } else {
        let t = trim_spec(ls[0]);
        let i = idx_of_first(t, ' ');
        let tok = t.take(i);
        if i < t.len() && (tok == "M"@ || tok == "D"@) {
            match status_parse(ls.skip(1)) {
                Err(e) => Err(e),
                Ok(dm) => {
                    let path = t.skip(i + 1);
                    if tok == "D"@ {
                        Ok((seq![path] + dm.0, dm.1))
                    } else {
                        Ok((dm.0, seq![path] + dm.1))
                    }
                },
            }
        } else {
            Err(t)
        }
    }
}

/// The deleted and the modified files the working directory reports, parsed
/// out of the porcelain status listing.
pub fn status(porcelain: &str) -> (r: Result<(Vec<String>, Vec<String>), Error>)
    ensures
        match r {
            Result::Ok(dm) => status_parse(line_seq(porcelain@)) == Ok::<
                (Seq<Seq<char>>, Seq<Seq<char>>),
                Seq<char>,
            >((dm.0.deep_view(), dm.1.deep_view())),
            Result::Err(e) => {
                &&& status_parse(line_seq(porcelain@)) is Err
                &&& e.kind == ErrorKind::GeneralError
                &&& e.description@ == "unexpected git status output: '"@ + status_parse(
                    line_seq(porcelain@),
                )->Err_0 + "'"@
            },
        },
{
    let lines = str_lines(porcelain);
    let n = lines.len();
    let ghost all = line_seq(porcelain@);
    let mut deleted: Vec<String> = Vec::new();
    let mut modified: Vec<String> = Vec::new();
    let mut i: usize = 0;
    proof {
        assert(all.skip(0) =~= all);
    }
    while i < n
        invariant
            i <= n,
            n == lines@.len(),
            lines.deep_view() == all,
            all == line_seq(porcelain@),
            match status_parse(all.skip(i as int)) {
                Ok(dm) => status_parse(all) == Ok::<
                    (Seq<Seq<char>>, Seq<Seq<char>>),
                    Seq<char>,
                >((deleted.deep_view() + dm.0, modified.deep_view() + dm.1)),
                Err(t) => status_parse(all) == Err::<
                    (Seq<Seq<char>>, Seq<Seq<char>>),
                    Seq<char>,
                >(t),
            },
        decreases n - i,
    {
        proof {
            assert(all.skip(i as int)[0] == all[i as int]);
            assert(all.skip(i as int).skip(1) =~= all.skip(i + 1));
            assert(lines@[i as int]@ == all[i as int]);
        }
        let t = str_trim(lines[i].as_str());
        let ghost tv = t@;
        proof {
            crate::text::lemma_idx_of_first(tv, ' ');
        }
        let sp = crate::text::find_char(t.as_str(), ' ');
        match sp {
            None => {
                proof {
                    assert(idx_of_first(tv, ' ') == tv.len());
                }
                let d = String::from_str("unexpected git status output: '").concat(
                    t.as_str(),
                ).concat("'");
                proof {
                    assert(tv.take(tv.len() as int) =~= tv);
                    assert(d@ =~= "unexpected git status output: '"@ + trim_spec(
                        all[i as int],
                    ) + "'"@);
                }
                return Err(Error::general(d));
            },
            Some(si) => {
                proof {
                    assert(idx_of_first(tv, ' ') == si);
                }
                let tn = t.as_str().unicode_len();
                let tok = t.as_str().substring_char(0, si);
                let path = String::from_str(t.as_str().substring_char(si + 1, tn));
                proof {
                    assert(tok@ =~= tv.take(si as int));
                    assert(path@ =~= tv.skip(si + 1));
                    reveal_strlit("M");
                    reveal_strlit("D");
                }
                if str_eq(tok, "D") {
                    let ghost d0 = deleted.deep_view();
                    deleted.push(path);
                    proof {
                        assert(deleted.deep_view() =~= d0.push(tv.skip(si + 1)));
                        if status_parse(all.skip(i + 1)) is Ok {
                            let dm = status_parse(all.skip(i + 1))->Ok_0;
                            assert(deleted.deep_view() + dm.0 =~= d0 + (seq![
                                tv.skip(si + 1)] + dm.0));
                        }
                    }
                } else if str_eq(tok, "M") {
                    let ghost m0 = modified.deep_view();
                    modified.push(path);
                    proof {
                        assert(modified.deep_view() =~= m0.push(tv.skip(si + 1)));
                        if status_parse(all.skip(i + 1)) is Ok {
                            let dm = status_parse(all.skip(i + 1))->Ok_0;
                            assert(modified.deep_view() + dm.1 =~= m0 + (seq![
                                tv.skip(si + 1)] + dm.1));
                        }
                    }
                } else {
                    let d = String::from_str("unexpected git status output: '").concat(
                        t.as_str(),
                    ).concat("'");
                    proof {
                        assert(d@ =~= "unexpected git status output: '"@ + trim_spec(
                            all[i as int],
                        ) + "'"@);
                    }
                    return Err(Error::general(d));
                }
            },
        }
        i = i + 1;
    }
    proof {
        assert(all.skip(n as int) =~= Seq::<Seq<char>>::empty());
        assert(deleted.deep_view() + Seq::<Seq<char>>::empty() =~= deleted.deep_view());
        assert(modified.deep_view() + Seq::<Seq<char>>::empty() =~= modified.deep_view());
    }
    Ok((deleted, modified))
}

/// One file per line, indented, as the dirty-working-directory report lists
/// them.
pub open spec fn file_listing(names: Seq<Seq<char>>) -> Seq<char>
    decreases names.len(),
{
    if names.len() == 0 {
        Seq::empty()
    } else {
        "  "@ + names[0] + "\n"@ + file_listing(names.skip(1))
    }
}

/// Builds the listing from position `i` on.
fn listing_from(v: &Vec<String>, i: usize) -> (r: String)
    requires
        i <= v@.len(),
    ensures
        r@ == file_listing(v.deep_view().skip(i as int)),
    decreases v@.len() - i,
{
    if i == v.len() {
        proof {
            assert(v.deep_view().skip(i as int) =~= Seq::<Seq<char>>::empty());
        }
        String::new()
    } else {
        proof {
            assert(v.deep_view().skip(i as int)[0] == v@[i as int]@);
            assert(v.deep_view().skip(i as int).skip(1) =~= v.deep_view().skip(i + 1));
        }
        let rest = listing_from(v, i + 1);
        let r = String::from_str("  ").concat(v[i].as_str()).concat("\n").concat(
            rest.as_str(),
        );
        proof {
            assert(r@ =~= file_listing(v.deep_view().skip(i as int)));
        }
        r
    }
}

/// Fails with the list of pending changes when the working directory is
/// dirty; the caller hands in what `status` reported.
pub fn expect_working_directory_clean(deleted: &Vec<String>, changed: &Vec<String>) -> (r:
    Result<(), Error>)
    ensures
        match r {
            Result::Ok(u) => deleted@.len() == 0 && changed@.len() == 0,
            Result::Err(e) => {
                &&& deleted@.len() + changed@.len() > 0
                &&& e.kind == ErrorKind::GeneralError
                &&& e.description@
                    == "You cannot have pending changes for this command. Changed files:\n\n"@
                    + file_listing(deleted.deep_view()) + file_listing(changed.deep_view())
                    + "\n"@
            },
        },
{
    if deleted.len() == 0 && changed.len() == 0 {
        return Ok(());
    }
    proof {
        assert(deleted.deep_view().skip(0) =~= deleted.deep_view());
        assert(changed.deep_view().skip(0) =~= changed.deep_view());
    }
    let d = String::from_str(
        "You cannot have pending changes for this command. Changed files:\n\n",
    ).concat(listing_from(deleted, 0).as_str()).concat(
        listing_from(changed, 0).as_str(),
    ).concat("\n");
    proof {
        assert(d@ =~= "You cannot have pending changes for this command. Changed files:\n\n"@
            + file_listing(deleted.deep_view()) + file_listing(changed.deep_view())
            + "\n"@);
    }
    Err(Error::general(d))
}

/// One alias read out of git's configuration.
#[derive(Debug)]
pub struct AliasEntry {
    pub name: String,
    pub value: String,
}

/// The expansion the alias table gives a command, first match wins.
pub open spec fn alias_value(aliases: Seq<AliasEntry>, cmd: Seq<char>) -> Option<Seq<char>>
    decreases aliases.len(),
{
    if aliases.len() == 0 {
        None
    } else if aliases[0].name@ == cmd {
        Some(aliases[0].value@)
    } else {
        alias_value(aliases.skip(1), cmd)
    }
}

/// Expands `command` through the alias table: the alias's space-separated
/// expansion tokens, or the command itself.
pub fn replace_aliases(command: &str, git_aliases: &Vec<AliasEntry>) -> (r: Vec<String>)
    ensures
        match alias_value(git_aliases@, command@) {
            Some(v) => r.deep_view() == split_seq(v, ' '),
            None => r.deep_view() == seq![command@],
        },
{
    let n = git_aliases.len();
    let mut i: usize = 0;
    proof {
        assert(git_aliases@.skip(0) =~= git_aliases@);
    }
    while i < n
        invariant
            i <= n,
            n == git_aliases@.len(),
            alias_value(git_aliases@, command@) == alias_value(
                git_aliases@.skip(i as int),
                command@,
            ),
        decreases n - i,
    {
        proof {
            assert(git_aliases@.skip(i as int)[0] == git_aliases@[i as int]);
            assert(git_aliases@.skip(i as int).skip(1) =~= git_aliases@.skip(i + 1));
        }
        if str_eq(git_aliases[i].name.as_str(), command) {
            return split_char(git_aliases[i].value.as_str(), ' ');
        }
        i = i + 1;
    }
    proof {
        assert(git_aliases@.skip(n as int) =~= Seq::<AliasEntry>::empty());
    }
    let mut r: Vec<String> = Vec::new();
    r.push(String::from_str(command));
    proof {
        assert(r.deep_view() =~= seq![command@]);
    }
    r
}

/// A letter or digit.
pub open spec fn is_alnum(c: char) -> bool {
    ('a' <= c && c <= 'z') || ('A' <= c && c <= 'Z') || ('0' <= c && c <= '9')
}

/// A letter, digit or dash.
pub open spec fn is_alnum_dash(c: char) -> bool {
    is_alnum(c) || c == '-'
}

/// `owner/repo` shorthand for a GitHub repository: a word of letters, digits
/// and dashes starting with a letter or digit, a slash, and at least two
/// more such characters starting with a letter or digit.
pub open spec fn github_shorthand(s: Seq<char>) -> bool {
    exists|i: int|
        {
            &&& 1 <= i
            &&& i + 3 <= s.len()
            &&& #[trigger] s[i] == '/'
            &&& is_alnum(s[0])
            &&& (forall|j: int| 1 <= j < i ==> is_alnum_dash(#[trigger] s[j]))
            &&& is_alnum(s[i + 1])
            &&& is_alnum_dash(s[i + 2])
        }
}

/// Whether `c` is a letter or digit.
fn char_is_alnum(c: char) -> (r: bool)
    ensures
        r == is_alnum(c),
{
    ('a' <= c && c <= 'z') || ('A' <= c && c <= 'Z') || ('0' <= c && c <= '9')
}

/// Whether `s` is `owner/repo` shorthand for a GitHub repository.
pub fn is_github_shorthand(s: &str) -> (r: bool)
    ensures
        r == github_shorthand(s@),
{
    let n = s.unicode_len();
    let f = match crate::text::find_char(s, '/') {
        None => {
            proof {
                if github_shorthand(s@) {
                    let i = choose|i: int|
                        1 <= i && i + 3 <= s@.len() && #[trigger] s@[i] == '/' && is_alnum(
                            s@[0],
                        ) && (forall|j: int|
                            1 <= j < i ==> is_alnum_dash(#[trigger] s@[j])) && is_alnum(
                            s@[i + 1],
                        ) && is_alnum_dash(s@[i + 2]);
                    assert(s@[i] != '/');
                }
            }
            return false;
        },
        Some(f) => f,
    };
    let ok = f >= 1 && n >= 3 && f <= n - 3 && char_is_alnum(s.get_char(0))
        && char_is_alnum(s.get_char(f + 1)) && (char_is_alnum(s.get_char(f + 2))
        || s.get_char(f + 2) == '-');
    if !ok {
        proof {
            if github_shorthand(s@) {
                let i = choose|i: int|
                    1 <= i && i + 3 <= s@.len() && #[trigger] s@[i] == '/' && is_alnum(
                        s@[0],
                    ) && (forall|j: int| 1 <= j < i ==> is_alnum_dash(#[trigger] s@[j]))
                        && is_alnum(s@[i + 1]) && is_alnum_dash(s@[i + 2]);
                assert(i == f) by {
                    if i < f {
                        assert(s@[i] == '/');
                    }
                    if i > f {
                        assert(is_alnum_dash(s@[f as int]));
                    }
                }
            }
        }
        return false;
    }
    let mut j: usize = 1;
    while j < f
        invariant
            1 <= j <= f,
            f + 3 <= s@.len(),
            s@[f as int] == '/',
            forall|k: int| 0 <= k < f ==> s@[k] != '/',
            is_alnum(s@[0]),
            is_alnum(s@[f + 1]),
            is_alnum_dash(s@[f + 2]),
            forall|k: int| 1 <= k < j ==> is_alnum_dash(#[trigger] s@[k]),
        decreases f - j,
    {
        let c = s.get_char(j);
        if !(char_is_alnum(c) || c == '-') {
            proof {
                if github_shorthand(s@) {
                    let i = choose|i: int|
                        1 <= i && i + 3 <= s@.len() && #[trigger] s@[i] == '/' && is_alnum(
                            s@[0],
                        ) && (forall|k: int|
                            1 <= k < i ==> is_alnum_dash(#[trigger] s@[k])) && is_alnum(
                            s@[i + 1],
                        ) && is_alnum_dash(s@[i + 2]);
                    assert(i == f) by {
                        if i < f {
                            assert(s@[i] == '/');
                        }
                        if i > f {
                            assert(is_alnum_dash(s@[f as int]));
                        }
                    }
                    assert(is_alnum_dash(s@[j as int]));
                }
            }
            return false;
        }
        j = j + 1;
    }
    proof {
        assert(github_shorthand(s@)) by {
            assert(1 <= f as int && f as int + 3 <= s@.len() && s@[f as int] == '/');
        }
    }
    true
}

/// Rewrites every `owner/repo` shorthand among the arguments into a full
/// GitHub remote URL; everything else passes through unchanged.
pub fn expand_clone_args(args: &Vec<String>) -> (r: Vec<String>)
    ensures
        r@.len() == args@.len(),
        forall|i: int|
            0 <= i < args@.len() ==> (#[trigger] r@[i])@ == (if github_shorthand(
                args@[i]@,
            ) {
                "git@github.com:"@ + args@[i]@ + ".git"@
            } else {
                args@[i]@
            }),
{
    let n = args.len();
    let mut out: Vec<String> = Vec::new();
    let mut i: usize = 0;
    while i < n
        invariant
            i <= n,
            n == args@.len(),
            out@.len() == i,
            forall|k: int|
                0 <= k < i ==> (#[trigger] out@[k])@ == (if github_shorthand(args@[k]@) {
                    "git@github.com:"@ + args@[k]@ + ".git"@
                } else {
                    args@[k]@
                }),
        decreases n - i,
    {
        let a = &args[i];
        if is_github_shorthand(a.as_str()) {
            let w = String::from_str("git@github.com:").concat(a.as_str()).concat(".git");
            proof {
                assert(w@ =~= "git@github.com:"@ + args@[i as int]@ + ".git"@);
            }
            out.push(w);
        } else {
            out.push(a.clone());
        }
        i = i + 1;
    }
    out
}

/// Where one invocation is routed once its alias is expanded.
#[derive(Debug, PartialEq, Eq, Structural, Clone, Copy)]
pub enum Command {
    Clone,
    Prs,
    Branch,
    Checkout,
    Cleanup,
    Down,
    Fix,
    Merge,
    Pullc,
    Review,
    Start,
    Up,
    Pr,
    /// Not intercepted: hand the literal command line to git.
    Delegate,
}

/// Routes the leading token of an invocation.
pub fn classify_command(cmd: &str) -> (r: Command)
    ensures
        r == Command::Clone <==> cmd@ == "clone"@,
        r == Command::Prs <==> cmd@ == "prs"@,
        r == Command::Branch <==> cmd@ == "branch"@,
        r == Command::Checkout <==> cmd@ == "checkout"@,
        r == Command::Cleanup <==> cmd@ == "cleanup"@,
        r == Command::Down <==> cmd@ == "down"@,
        r == Command::Fix <==> cmd@ == "fix"@,
        r == Command::Merge <==> cmd@ == "merge"@,
        r == Command::Pullc <==> cmd@ == "pullc"@,
        r == Command::Review <==> cmd@ == "review"@,
        r == Command::Start <==> cmd@ == "start"@,
        r == Command::Up <==> cmd@ == "up"@,
        r == Command::Pr <==> cmd@ == "pr"@,
{
    proof {
        reveal_strlit("clone");
        reveal_strlit("prs");
        reveal_strlit("branch");
        reveal_strlit("checkout");
        reveal_strlit("cleanup");
        reveal_strlit("down");
        reveal_strlit("fix");
        reveal_strlit("merge");
        reveal_strlit("pullc");
        reveal_strlit("review");
        reveal_strlit("start");
        reveal_strlit("up");
        reveal_strlit("pr");
        assert("clone"@.len() == 5 && "clone"@[0] == 'c');
        assert("prs"@.len() == 3 && "prs"@[0] == 'p');
        assert("branch"@.len() == 6 && "branch"@[0] == 'b');
        assert("checkout"@.len() == 8 && "checkout"@[0] == 'c');
        assert("cleanup"@.len() == 7 && "cleanup"@[0] == 'c');
        assert("down"@.len() == 4 && "down"@[0] == 'd');
        assert("fix"@.len() == 3 && "fix"@[0] == 'f');
        assert("merge"@.len() == 5 && "merge"@[0] == 'm');
        assert("pullc"@.len() == 5 && "pullc"@[0] == 'p');
        assert("review"@.len() == 6 && "review"@[0] == 'r');
        assert("start"@.len() == 5 && "start"@[0] == 's');
        assert("up"@.len() == 2 && "up"@[0] == 'u');
        assert("pr"@.len() == 2 && "pr"@[0] == 'p');
    }
    if str_eq(cmd, "clone") {
        Command::Clone
    } else if str_eq(cmd, "prs") {
        Command::Prs
    } else if str_eq(cmd, "branch") {
        Command::Branch
    } else if str_eq(cmd, "checkout") {
        Command::Checkout
    } else if str_eq(cmd, "cleanup") {
        Command::Cleanup
    } else if str_eq(cmd, "down") {
        Command::Down
    } else if str_eq(cmd, "fix") {
        Command::Fix
    } else if str_eq(cmd, "merge") {
        Command::Merge
    } else if str_eq(cmd, "pullc") {
        Command::Pullc
    } else if str_eq(cmd, "review") {
        Command::Review
    } else if str_eq(cmd, "start") {
        Command::Start
    } else if str_eq(cmd, "up") {
        Command::Up
    } else if str_eq(cmd, "pr") {
        Command::Pr
    } else {
        Command::Delegate
    }
}

/// The formatting tool `g fix` runs on one changed file.
#[derive(Debug, PartialEq, Eq, Structural, Clone, Copy)]
pub enum FixTool {
    ClangFormat,
    Buildifier,
    NoTool,
}

/// Which formatter a changed file gets: C, C++ and proto files go to
/// clang-format; BUILD files go to buildifier.
pub fn fix_tool_for(file_name: &str, ext: &str) -> (r: FixTool)
    ensures
        ext@ == "h"@ || ext@ == "cc"@ || ext@ == "proto"@ ==> r == FixTool::ClangFormat,
        !(ext@ == "h"@ || ext@ == "cc"@ || ext@ == "proto"@) && (file_name@ == "BUILD"@
            || ext@ == "BUILD"@) ==> r == FixTool::Buildifier,
        !(ext@ == "h"@ || ext@ == "cc"@ || ext@ == "proto"@) && !(file_name@ == "BUILD"@
            || ext@ == "BUILD"@) ==> r == FixTool::NoTool,
{
    if str_eq(ext, "h") || str_eq(ext, "cc") || str_eq(ext, "proto") {
        FixTool::ClangFormat
    } else if str_eq(file_name, "BUILD") || str_eq(ext, "BUILD") {
        FixTool::Buildifier
    } else {
        FixTool::NoTool
    }
}

/// What `g cleanup` does with one local branch before asking any provider.
#[derive(Debug, PartialEq, Eq, Structural, Clone, Copy)]
pub enum CleanupLocal {
    /// Never touch the branch checked out now.
    Keep,
    /// A locally synthesized review copy: delete it outright.
    DeleteReviewCopy,
    /// Ask the provider whether its merge request is finished.
    CheckRequest,
}

/// Classifies one branch for cleanup: the current branch is kept, a branch
/// carrying the review marker prefix is deleted, everything else has its
/// tracked request checked.
pub fn cleanup_local_action(branch: &str, current_branch: &str) -> (r: CleanupLocal)
    ensures
        branch@ == current_branch@ ==> r == CleanupLocal::Keep,
        branch@ != current_branch@ && branch@.len() > 0 && branch@[0] == '|' ==> r
            == CleanupLocal::DeleteReviewCopy,
        branch@ != current_branch@ && !(branch@.len() > 0 && branch@[0] == '|') ==> r
            == CleanupLocal::CheckRequest,
{
    if str_eq(branch, current_branch) {
        CleanupLocal::Keep
    } else if branch.unicode_len() > 0 && branch.get_char(0) == '|' {
        CleanupLocal::DeleteReviewCopy
    } else {
        CleanupLocal::CheckRequest
    }
}

/// A finished GitHub pull request frees its review branch for deletion.
pub fn cleanup_github_done(state: github::PullRequestState) -> (r: bool)
    ensures
        r == (state == github::PullRequestState::Closed),
{
    matches!(state, github::PullRequestState::Closed)
}

/// A closed or merged GitLab merge request frees its branch for deletion.
pub fn cleanup_gitlab_done(state: crate::gitlab::PullRequestState) -> (r: bool)
    ensures
        r == (state == crate::gitlab::PullRequestState::Closed || state
            == crate::gitlab::PullRequestState::Merged),
{
    matches!(
        state,
        crate::gitlab::PullRequestState::Closed | crate::gitlab::PullRequestState::Merged
    )
}

/// The local name the tool gives a branch fetched for review.
pub fn review_local_branch_name(owner: &str, branch: &str) -> (r: String)
    ensures
        r@ == "|"@ + owner@ + "/"@ + branch@,
{
    let r = String::from_str("|").concat(owner).concat("/").concat(branch);
    proof {
        assert(r@ =~= "|"@ + owner@ + "/"@ + branch@);
    }
    r
}

/// The remote-tracking ref a review branch forks from.
pub fn review_fork_ref(owner: &str, branch: &str) -> (r: String)
    ensures
        r@ == "remotes/"@ + owner@ + "/"@ + branch@,
{
    let r = String::from_str("remotes/").concat(owner).concat("/").concat(branch);
    proof {
        assert(r@ =~= "remotes/"@ + owner@ + "/"@ + branch@);
    }
    r
}

/// Where `g review push` sends the work: the user and branch encoded in a
/// review branch name `|user/branch`. `None` when the name has no slash or
/// nothing before it.
pub fn review_push_target(full_branch_name: &str) -> (r: Option<(String, String)>)
    ensures
        ({
            let s = full_branch_name@;
            let i = idx_of_first(s, '/');
            match r {
                Some(p) => 0 < i < s.len() && p.0@ == s.subrange(1, i) && p.1@ == s.skip(
                    i + 1,
                ),
                None => i == 0 || i >= s.len(),
            }
        }),
{
    let ghost s = full_branch_name@;
    proof {
        crate::text::lemma_idx_of_first(s, '/');
    }
    let n = full_branch_name.unicode_len();
    match crate::text::find_char(full_branch_name, '/') {
        None => {
            proof {
                assert(idx_of_first(s, '/') == s.len());
            }
            None
        },
        Some(i) => {
            proof {
                assert(idx_of_first(s, '/') == i);
            }
            if i == 0 {
                None
            } else {
                let user = String::from_str(full_branch_name.substring_char(1, i));
                let branch = String::from_str(full_branch_name.substring_char(i + 1, n));
                proof {
                    assert(user@ =~= s.subrange(1, i as int));
                    assert(branch@ =~= s.skip(i + 1));
                }
                Some((user, branch))
            }
        },
    }
}

/// Splits a `user:branch` review target. `None` when no colon occurs.
pub fn parse_user_branch(spec_str: &str) -> (r: Option<(String, String)>)
    ensures
        ({
            let s = spec_str@;
            let i = idx_of_first(s, ':');
            match r {
                Some(p) => i < s.len() && p.0@ == s.take(i) && p.1@ == s.skip(i + 1),
                None => i >= s.len(),
            }
        }),
{
    let ghost s = spec_str@;
    proof {
        crate::text::lemma_idx_of_first(s, ':');
    }
    let n = spec_str.unicode_len();
    match crate::text::find_char(spec_str, ':') {
        None => {
            proof {
                assert(idx_of_first(s, ':') == s.len());
            }
            None
        },
        Some(i) => {
            proof {
                assert(idx_of_first(s, ':') == i);
            }
            let user = String::from_str(spec_str.substring_char(0, i));
            let branch = String::from_str(spec_str.substring_char(i + 1, n));
            proof {
                assert(user@ =~= s.take(i as int));
                assert(branch@ =~= s.skip(i + 1));
            }
            Some((user, branch))
        },
    }
}

/// The lines of the edited message, trimmed as the pull-request flow reads
/// them.
pub open spec fn message_lines(content: Seq<char>) -> Seq<Seq<char>> {
    line_seq(trim_spec(content)).map_values(|l: Seq<char>| trim_spec(l))
}

/// Reads the pull-request title and body out of the edited message: the
/// first line is the title; everything from the third line on is the body.
/// An empty message means no pull request.
pub fn pr_message_from_content(content: &str) -> (r: Result<(String, Option<String>), Error>)
    ensures
        ({
            let ls = message_lines(content@);
            match r {
                Result::Ok(tb) => {
                    &&& ls.len() > 0
                    &&& tb.0@ == ls[0]
                    &&& match tb.1 {
                        Some(body) => ls.len() > 2 && body@ == crate::text::join_seq(
                            ls.skip(2),
                            "\n"@,
                        ),
                        None => ls.len() <= 2,
                    }
                },
                Result::Err(e) => ls.len() == 0 && e.kind == ErrorKind::GeneralError
                    && e.description@ == "No message, no PR."@,
            }
        }),
{
    let trimmed = str_trim(content);
    let raw_lines = str_lines(trimmed.as_str());
    let n = raw_lines.len();
    let mut lines: Vec<String> = Vec::new();
    let mut i: usize = 0;
    while i < n
        invariant
            i <= n,
            n == raw_lines@.len(),
            lines.deep_view() =~= raw_lines.deep_view().take(i as int).map_values(
                |l: Seq<char>| trim_spec(l),
            ),
        decreases n - i,
    {
        let ghost l0 = lines.deep_view();
        let t = str_trim(raw_lines[i].as_str());
        lines.push(t);
        proof {
            assert(lines.deep_view() =~= l0.push(trim_spec(raw_lines@[i as int]@)));
            assert(lines.deep_view() =~= raw_lines.deep_view().take(i + 1).map_values(
                |l: Seq<char>| trim_spec(l),
            ));
        }
        i = i + 1;
    }
    proof {
        assert(raw_lines.deep_view().take(n as int) =~= raw_lines.deep_view());
        assert(lines.deep_view() =~= message_lines(content@));
    }
    if lines.len() == 0 {
        return Err(Error::general(String::from_str("No message, no PR.")));
    }
    let title = lines[0].clone();
    let body = if lines.len() > 2 {
        let mut tail: Vec<String> = Vec::new();
        let m = lines.len();
        let mut k: usize = 2;
        while k < m
            invariant
                2 <= k <= m,
                m == lines@.len(),
                tail.deep_view() =~= lines.deep_view().subrange(2, k as int),
            decreases m - k,
        {
            let ghost t0 = tail.deep_view();
            tail.push(lines[k].clone());
            proof {
                assert(tail.deep_view() =~= t0.push(lines@[k as int]@));
                assert(tail.deep_view() =~= lines.deep_view().subrange(2, k + 1));
            }
            k = k + 1;
        }
        proof {
            assert(tail.deep_view() =~= lines.deep_view().skip(2));
        }
        Some(crate::text::join_str(&tail, "\n"))
    } else {
        None
    };
    Ok((title, body))
}

/// The head reference a pull request is opened from: the bare branch when
/// its upstream lives in the base repository, `owner:branch` otherwise.
pub fn pr_head(same_remote: bool, owner: &str, current_branch: &str) -> (r: String)
    ensures
        same_remote ==> r@ == current_branch@,
        !same_remote ==> r@ == owner@ + ":"@ + current_branch@,
{
    if same_remote {
        String::from_str(current_branch)
    } else {
        let r = String::from_str(owner).concat(":").concat(current_branch);
        proof {
            assert(r@ =~= owner@ + ":"@ + current_branch@);
        }
        r
    }
}

/// The upstream a local branch is configured against.
#[derive(Debug)]
pub struct OriginBranch {
    pub remote: String,
    pub branch: String,
}

/// Reads a branch's configured origin out of what
/// `git config branch.<name>.remote` and `git config branch.<name>.merge`
/// printed: both trimmed, the merge ref stripped of `refs/heads/`, and both
/// required to be non-empty.
pub fn parse_origin(remote_output: &str, merge_output: &str) -> (r: Option<OriginBranch>)
    ensures
        ({
            let rem = trim_spec(remote_output@);
            let br = trim_start_matches(trim_spec(merge_output@), "refs/heads/"@);
            match r {
                Some(o) => rem.len() > 0 && br.len() > 0 && o.remote@ == rem && o.branch@
                    == br,
                None => rem.len() == 0 || br.len() == 0,
            }
        }),
{
    let remote = str_trim(remote_output);
    let merge_trimmed = str_trim(merge_output);
    let branch = str_trim_start_matches(merge_trimmed.as_str(), "refs/heads/");
    if remote.as_str().unicode_len() == 0 || branch.as_str().unicode_len() == 0 {
        None
    } else {
        Some(OriginBranch { remote, branch })
    }
}

/// One entry of a name-status diff listing.
#[derive(Debug, PartialEq, Eq, Structural, Clone, Copy)]
pub enum DiffKind {
    Added,
    Deleted,
    Modified,
}

/// Reads one `A\t<path>` name-status line: the kind letter, then the path
/// from the third character on, trimmed. `None` for anything shorter or any
/// other letter.
pub fn classify_diff_line(line: &str) -> (r: Option<(DiffKind, String)>)
    ensures
        ({
            let s = line@;
            match r {
                Some(p) => s.len() >= 2 && (s[0] == 'A' || s[0] == 'D' || s[0] == 'M') && {
                    &&& (s[0] == 'A' ==> p.0 == DiffKind::Added)
                    &&& (s[0] == 'D' ==> p.0 == DiffKind::Deleted)
                    &&& (s[0] == 'M' ==> p.0 == DiffKind::Modified)
                    &&& p.1@ == trim_spec(s.skip(2))
                },
                None => s.len() < 2 || !(s[0] == 'A' || s[0] == 'D' || s[0] == 'M'),
            }
        }),
{
    let n = line.unicode_len();
    if n < 2 {
        return None;
    }
    let c = line.get_char(0);
    let kind = if c == 'A' {
        DiffKind::Added
    } else if c == 'D' {
        DiffKind::Deleted
    } else if c == 'M' {
        DiffKind::Modified
    } else {
        return None;
    };
    let rest = line.substring_char(2, n);
    proof {
        assert(rest@ =~= line@.skip(2));
    }
    let path = str_trim(rest);
    Some((kind, path))
}

} // verus!
