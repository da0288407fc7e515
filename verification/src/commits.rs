//! What is known of the commits that rows are blamed on.

use crate::entry::Oid;
use vstd::prelude::*;

verus! {

/// A git hosting provider, by the number under which the caller knows it.
#[derive(Clone, Copy, Debug, Default, PartialEq, Eq, Hash, Structural)]
pub struct ProviderId {
    pub id: u64,
}

/// The owner and the name of a repository, out of the URL of a remote.
#[derive(Debug, PartialEq, Eq)]
pub struct ParsedGitRemote {
    pub owner: String,
    pub repo: String,
}

/// A repository at a hosting provider.
#[derive(Debug, PartialEq, Eq)]
pub struct GitRemote {
    pub host: ProviderId,
    pub owner: String,
    pub repo: String,
}

/// A pull request that a commit message mentions.
#[derive(Debug, PartialEq, Eq)]
pub struct PullRequest {
    pub number: u32,
    pub url: String,
}

/// A commit message, with what a hosting provider knows of the commit.
#[derive(Debug, PartialEq, Eq)]
pub struct ParsedCommitMessage {
    pub message: String,
    pub permalink: Option<String>,
    pub pull_request: Option<PullRequest>,
    pub remote: Option<GitRemote>,
}

impl Clone for ParsedCommitMessage {
    fn clone(&self) -> (copy: Self)
        ensures
            copy == *self,
    {
        ParsedCommitMessage {
            message: self.message.clone(),
            permalink: match &self.permalink {
                Some(permalink) => Some(permalink.clone()),
                None => None,
            },
            pull_request: match &self.pull_request {
                Some(request) => Some(
                    PullRequest { number: request.number, url: request.url.clone() },
                ),
                None => None,
            },
            remote: match &self.remote {
                Some(remote) => Some(
                    GitRemote {
                        host: remote.host,
                        owner: remote.owner.clone(),
                        repo: remote.repo.clone(),
                    },
                ),
                None => None,
            },
        }
    }
}

/// The index of the entry for a commit.
spec fn index_of(entries: Seq<(Oid, ParsedCommitMessage)>, oid: Oid) -> int {
    choose|i: int| 0 <= i < entries.len() && (#[trigger] entries[i]).0 == oid
}

/// Commit messages by commit. No commit occurs twice.
#[derive(Debug)]
pub struct CommitDetails {
    entries: Vec<(Oid, ParsedCommitMessage)>,
}

impl View for CommitDetails {
    type V = Map<Oid, ParsedCommitMessage>;

    closed spec fn view(&self) -> Map<Oid, ParsedCommitMessage> {
        Map::new(
            |oid: Oid|
                exists|i: int| 0 <= i < self.entries@.len() && (#[trigger] self.entries@[i]).0 == oid,
            |oid: Oid| self.entries@[index_of(self.entries@, oid)].1,
        )
    }
}

impl CommitDetails {
    pub closed spec fn wf(&self) -> bool {
        forall|i: int, j: int|
            0 <= i < j < self.entries@.len() ==> (#[trigger] self.entries@[i]).0 != (
            #[trigger] self.entries@[j]).0
    }

    proof fn lemma_entry(&self, index: int)
        requires
            self.wf(),
            0 <= index < self.entries@.len(),
        ensures
            self@.contains_key(self.entries@[index].0),
            self@[self.entries@[index].0] == self.entries@[index].1,
    {
        let oid = self.entries@[index].0;
        let found = index_of(self.entries@, oid);
        assert(0 <= found < self.entries@.len() && self.entries@[found].0 == oid);
    }

    /// Details of no commit.
    pub fn new() -> (details: Self)
        ensures
            details.wf(),
            details@ == Map::<Oid, ParsedCommitMessage>::empty(),
    {
        let details = CommitDetails { entries: Vec::new() };
        assert(details@ =~= Map::empty());
        details
    }

    fn find(&self, oid: &Oid) -> (found: Option<usize>)
        requires
            self.wf(),
        ensures
            match found {
                Some(index) => {
                    &&& index < self.entries@.len()
                    &&& self.entries@[index as int].0 == *oid
                },
                None => forall|i: int|
                    0 <= i < self.entries@.len() ==> (#[trigger] self.entries@[i]).0 != *oid,
            },
    {
        let mut next: usize = 0;
        while next < self.entries.len()
            invariant
                0 <= next <= self.entries@.len(),
                forall|i: int| 0 <= i < next ==> (#[trigger] self.entries@[i]).0 != *oid,
            decreases self.entries.len() - next,
        {
            if self.entries[next].0 == *oid {
                return Some(next);
            }
            next = next + 1;
        }
        None
    }

    /// The details of a commit.
    pub fn get(&self, oid: &Oid) -> (details: Option<&ParsedCommitMessage>)
        requires
            self.wf(),
        ensures
            self@.contains_key(*oid) ==> details == Some(&self@[*oid]),
            !self@.contains_key(*oid) ==> details is None,
    {
        match self.find(oid) {
            Some(index) => {
                proof {
                    self.lemma_entry(index as int);
                }
                Some(&self.entries[index].1)
            },
            None => None,
        }
    }

    /// Sets the details of a commit, in place of those that it had.
    pub fn insert(&mut self, oid: Oid, details: ParsedCommitMessage)
        requires
            old(self).wf(),
        ensures
            final(self).wf(),
            final(self)@ == old(self)@.insert(oid, details),
    {
        let found = self.find(&oid);
        let ghost before = *self;
        match found {
            Some(index) => {
                self.entries[index] = (oid, details);
            },
            None => {
                self.entries.push((oid, details));
            },
        }
        proof {
            assert(self.wf());
            assert forall|key: Oid| #[trigger] self@.contains_key(key) <==> before@.insert(
                oid,
                details,
            ).contains_key(key) by {
                if self@.contains_key(key) && key != oid {
                    let i = index_of(self.entries@, key);
                    assert(before.entries@[i].0 == key);
                }
                if before@.contains_key(key) && key != oid {
                    let i = index_of(before.entries@, key);
                    assert(self.entries@[i].0 == key);
                }
                if key == oid {
                    match found {
                        Some(index) => {
                            assert(self.entries@[index as int].0 == key);
                        },
                        None => {
                            assert(self.entries@[self.entries@.len() - 1].0 == key);
                        },
                    }
                }
            }
            assert forall|key: Oid| #[trigger] self@.contains_key(key) implies self@[key]
                == before@.insert(oid, details)[key] by {
                let i = index_of(self.entries@, key);
                self.lemma_entry(i);
                if key != oid {
                    before.lemma_entry(i);
                }
            }
            assert(self@ =~= before@.insert(oid, details));
        }
    }
}

/// The details of a commit whose message is `message`, where `remote` is the repository that the
/// commit is in, and `permalink` and `pull_request` are what its provider says of the commit.
pub fn commit_details(
    message: String,
    remote: Option<&(ProviderId, ParsedGitRemote)>,
    permalink: Option<String>,
    pull_request: Option<PullRequest>,
) -> (details: ParsedCommitMessage)
    ensures
        details.message == message,
        details.permalink == permalink,
        details.pull_request == pull_request,
        match remote {
            Some((provider, remote)) => details.remote == Some(
                GitRemote { host: *provider, owner: remote.owner, repo: remote.repo },
            ),
            None => details.remote is None,
        },
{
    ParsedCommitMessage {
        message,
        permalink,
        pull_request,
        remote: match remote {
            Some((provider, remote)) => Some(
                GitRemote {
                    host: *provider,
                    owner: remote.owner.clone(),
                    repo: remote.repo.clone(),
                },
            ),
            None => None,
        },
    }
}

/// Whether `build_commit_permalink` can have returned `permalink` for the hexadecimal id of `oid`.
pub open spec fn permalink_of<L>(
    permalink: String,
    oid: Oid,
    provider: ProviderId,
    remote: ParsedGitRemote,
    build_commit_permalink: L,
) -> bool where L: Fn(ProviderId, &ParsedGitRemote, &str) -> String {
    exists|sha: &str| #[trigger]
        build_commit_permalink.ensures((provider, &remote, sha), permalink) && sha@ == oid.text()
}

/// Whether `extract_pull_request` can have returned `pull_request` for `message`.
pub open spec fn pull_request_of<P>(
    pull_request: Option<PullRequest>,
    message: String,
    provider: ProviderId,
    remote: ParsedGitRemote,
    extract_pull_request: P,
) -> bool where P: Fn(ProviderId, &ParsedGitRemote, &str) -> Option<PullRequest> {
    exists|text: &str| #[trigger]
        extract_pull_request.ensures((provider, &remote, text), pull_request) && text@ == message@
}

/// Whether `details` are those of the commit `oid` with message `message`: with a remote, what
/// its provider returned for the commit and for the message; without one, the message alone.
pub open spec fn details_of<L, P>(
    details: ParsedCommitMessage,
    oid: Oid,
    message: String,
    remote: Option<(ProviderId, ParsedGitRemote)>,
    build_commit_permalink: L,
    extract_pull_request: P,
) -> bool where
    L: Fn(ProviderId, &ParsedGitRemote, &str) -> String,
    P: Fn(ProviderId, &ParsedGitRemote, &str) -> Option<PullRequest>,
 {
    &&& details.message == message
    &&& match remote {
        Some((provider, remote)) => {
            &&& details.remote == Some(
                GitRemote { host: provider, owner: remote.owner, repo: remote.repo },
            )
            &&& match details.permalink {
                Some(permalink) => permalink_of(
                    permalink,
                    oid,
                    provider,
                    remote,
                    build_commit_permalink,
                ),
                None => false,
            }
            &&& pull_request_of(
                details.pull_request,
                message,
                provider,
                remote,
                extract_pull_request,
            )
        },
        None => {
            &&& details.remote is None
            &&& details.permalink is None
            &&& details.pull_request is None
        },
    }
}

/// The last of the first `count` messages that is for the commit `oid`; -1 if there is none.
pub open spec fn last_message(messages: Seq<(Oid, String)>, oid: Oid, count: int) -> int
    decreases count,
{
    if count <= 0 {
        -1
    } else if messages[count - 1].0 == oid {
        count - 1
    } else {
        last_message(messages, oid, count - 1)
    }
}

/// Whether `details` hold the details of each commit in the first `count` messages, and of no
/// other commit. Of several messages for one commit the last counts.
pub open spec fn all_details_of<L, P>(
    details: Map<Oid, ParsedCommitMessage>,
    messages: Seq<(Oid, String)>,
    count: int,
    remote: Option<(ProviderId, ParsedGitRemote)>,
    build_commit_permalink: L,
    extract_pull_request: P,
) -> bool where
    L: Fn(ProviderId, &ParsedGitRemote, &str) -> String,
    P: Fn(ProviderId, &ParsedGitRemote, &str) -> Option<PullRequest>,
 {
    forall|oid: Oid|
        {
            let last = last_message(messages, oid, count);
            &&& #[trigger] details.contains_key(oid) <==> last >= 0
            &&& last >= 0 ==> details_of(
                details[oid],
                oid,
                messages[last].1,
                remote,
                build_commit_permalink,
                extract_pull_request,
            )
        }
}

/// Collects the details of commits. The URL of the remote is parsed once, by `parse_remote_url`.
/// If it is that of a repository at a known provider, the provider is asked for a permalink to
/// each commit, by `build_commit_permalink`, and for the pull request that its message mentions,
/// by `extract_pull_request`.
pub fn parse_commit_messages<R, L, P>(
    messages: Vec<(Oid, String)>,
    remote_url: Option<String>,
    parse_remote_url: R,
    build_commit_permalink: L,
    extract_pull_request: P,
) -> (details: CommitDetails) where
    R: Fn(&str) -> Option<(ProviderId, ParsedGitRemote)>,
    L: Fn(ProviderId, &ParsedGitRemote, &str) -> String,
    P: Fn(ProviderId, &ParsedGitRemote, &str) -> Option<PullRequest>,

    requires
        forall|url: &str| #[trigger] parse_remote_url.requires((url,)),
        forall|provider: ProviderId, remote: &ParsedGitRemote, sha: &str| #[trigger]
            build_commit_permalink.requires((provider, remote, sha)),
        forall|provider: ProviderId, remote: &ParsedGitRemote, message: &str| #[trigger]
            extract_pull_request.requires((provider, remote, message)),
    ensures
        details.wf(),
        exists|remote: Option<(ProviderId, ParsedGitRemote)>|
            {
                &&& match remote_url {
                    Some(url) => exists|text: &str| #[trigger]
                        parse_remote_url.ensures((text,), remote) && text@ == url@,
                    None => remote is None,
                }
                &&& #[trigger] all_details_of(
                    details@,
                    messages@,
                    messages@.len() as int,
                    remote,
                    build_commit_permalink,
                    extract_pull_request,
                )
            },
{
    let parsed_remote_url = match &remote_url {
        Some(url) => parse_remote_url(url.as_str()),
        None => None,
    };
    let mut details = CommitDetails::new();
    let mut next: usize = 0;
    while next < messages.len()
        invariant
            0 <= next <= messages@.len(),
            details.wf(),
            forall|provider: ProviderId, remote: &ParsedGitRemote, sha: &str| #[trigger]
                build_commit_permalink.requires((provider, remote, sha)),
            forall|provider: ProviderId, remote: &ParsedGitRemote, message: &str| #[trigger]
                extract_pull_request.requires((provider, remote, message)),
            all_details_of(
                details@,
                messages@,
                next as int,
                parsed_remote_url,
                build_commit_permalink,
                extract_pull_request,
            ),
        decreases messages.len() - next,
    {
        let (oid, message) = &messages[next];
        let permalink = match &parsed_remote_url {
            Some((provider, remote)) => {
                let sha = oid.to_string();
                let permalink = build_commit_permalink(*provider, remote, sha.as_str());
                assert(permalink_of(permalink, *oid, *provider, *remote, build_commit_permalink));
                Some(permalink)
            },
            None => None,
        };
        let pull_request = match &parsed_remote_url {
            Some((provider, remote)) => extract_pull_request(*provider, remote, message.as_str()),
            None => None,
        };
        let parsed = commit_details(
            message.clone(),
            parsed_remote_url.as_ref(),
            permalink,
            pull_request,
        );
        let ghost before = details@;
        details.insert(*oid, parsed);
        proof {
            assert(details_of(
                parsed,
                *oid,
                *message,
                parsed_remote_url,
                build_commit_permalink,
                extract_pull_request,
            ));
            assert forall|key: Oid|
                {
                    let last = last_message(messages@, key, next + 1);
                    &&& #[trigger] details@.contains_key(key) <==> last >= 0
                    &&& last >= 0 ==> details_of(
                        details@[key],
                        key,
                        messages@[last].1,
                        parsed_remote_url,
                        build_commit_permalink,
                        extract_pull_request,
                    )
                } by {
                assert(before.contains_key(key) <==> last_message(messages@, key, next as int) >= 0);
            }
        }
        next = next + 1;
    }
    details
}

} // verus!
