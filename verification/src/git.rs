//! The status engine: per repository and per branch, it turns what the
//! version-control layer reports into a [`Changeset`] that records local
//! edits and divergence from each remote.
//!
//! Everything the engine decides is computed here from plain values; the
//! narrow calls into the version-control layer stand behind trusted
//! wrappers whose results the verified code takes as given.

use vstd::prelude::*;

use crate::crawler::RepoPath;
use crate::error::Error;

verus! {

/// The configuration the engine consumes: whether to check every local
/// branch or only the checked-out one, whether untracked files count as
/// local changes, and whether clean reports are rendered at all.
#[derive(Clone, Copy, Debug)]
pub struct Options {
    pub all_branch: bool,
    pub quiet: bool,
    pub untracked: bool,
}

/// The state flags of one index or working-tree entry, as the
/// version-control layer reports them.
#[derive(Clone, Copy, Debug, PartialEq, Eq, Structural)]
pub struct EntryStatus {
    pub index_new: bool,
    pub index_modified: bool,
    pub index_deleted: bool,
    pub index_renamed: bool,
    pub index_typechange: bool,
    pub wt_new: bool,
    pub wt_modified: bool,
    pub wt_renamed: bool,
    pub wt_typechange: bool,
}

/// True when an entry counts as a local change: any staged state, any
/// working-tree modification, and — only when untracked inclusion is
/// enabled — a new working-tree file.
pub open spec fn qualifies(s: EntryStatus, untracked: bool) -> bool {
    s.index_new || s.index_modified || s.index_deleted || s.index_renamed || s.index_typechange
        || s.wt_modified || s.wt_renamed || s.wt_typechange || (untracked && s.wt_new)
}

/// How many entries of `s` count as local changes.
pub open spec fn spec_count_qualifying(s: Seq<EntryStatus>, untracked: bool) -> nat
    decreases s.len(),
{
    if s.len() == 0 {
        0
    } else {
        spec_count_qualifying(s.drop_last(), untracked) + (if qualifies(s.last(), untracked) {
            1nat
        } else {
            0nat
        })
    }
}

/// The count of qualifying entries never exceeds the number of entries.
pub proof fn lemma_count_le_len(s: Seq<EntryStatus>, untracked: bool)
    ensures
        spec_count_qualifying(s, untracked) <= s.len(),
    decreases s.len(),
{
    if s.len() > 0 {
        lemma_count_le_len(s.drop_last(), untracked);
    }
}

/// Decides whether one entry counts as a local change.
pub fn is_qualifying(s: &EntryStatus, untracked: bool) -> (r: bool)
    ensures
        r == qualifies(*s, untracked),
{
    s.index_new || s.index_modified || s.index_deleted || s.index_renamed || s.index_typechange
        || s.wt_modified || s.wt_renamed || s.wt_typechange || (untracked && s.wt_new)
}

/// Counts the entries that qualify as local changes.
pub fn count_qualifying(entries: &Vec<EntryStatus>, untracked: bool) -> (n: usize)
    ensures
        n == spec_count_qualifying(entries@, untracked),
{
    let mut n: usize = 0;
    let len = entries.len();
    for i in 0..len
        invariant
            len == entries@.len(),
            n <= i,
            n == spec_count_qualifying(entries@.take(i as int), untracked),
    {
        proof {
            assert(entries@.take(i + 1).drop_last() =~= entries@.take(i as int));
            assert(entries@.take(i + 1).last() == entries@[i as int]);
        }
        if is_qualifying(&entries[i], untracked) {
            n = n + 1;
        }
    }
    proof {
        assert(entries@.take(len as int) =~= entries@);
    }
    n
}

/// The local-change report of one branch: how many index or working-tree
/// entries qualify.  Present in a changeset only when the count is
/// positive.
#[derive(Clone, Copy, Debug, PartialEq, Eq, Structural)]
pub struct LocalChanges {
    pub modified: usize,
}

/// The divergence report against one remote: how many commits the local
/// branch is ahead of, and behind, its upstream.  Present in a changeset
/// only when one of the counts is positive.
#[derive(Clone, Debug, PartialEq, Eq)]
pub struct RemoteChanges {
    pub remote: String,
    pub ahead: usize,
    pub behind: usize,
}

/// One entry of a changeset: a local-change count or a divergence report.
#[derive(Clone, Debug, PartialEq, Eq)]
pub enum Change {
    Local(LocalChanges),
    Remote(RemoteChanges),
}

/// The ahead and behind counts against one upstream.
#[derive(Clone, Copy, Debug, PartialEq, Eq, Structural)]
pub struct AheadBehind {
    pub ahead: usize,
    pub behind: usize,
}

/// What the engine observed against one remote: the remote's name, and
/// the divergence counts when both commit ids resolved.  An upstream that
/// does not exist, or does not resolve, leaves `resolved` empty and is
/// skipped without error.
#[derive(Clone, Debug, PartialEq, Eq)]
pub struct RemoteState {
    pub name: String,
    pub resolved: Option<AheadBehind>,
}

/// Everything the engine observed about one branch: the count of
/// qualifying local entries, when the status query succeeded, and one
/// observation per remote, in the order the remotes were reported.
#[derive(Clone, Debug, PartialEq, Eq)]
pub struct BranchObservation {
    pub local_count: Option<usize>,
    pub remotes: Vec<RemoteState>,
}

/// The local part of a changeset: a single local-change entry when the
/// status query succeeded with a positive count, and nothing otherwise.
pub open spec fn local_part(local_count: Option<usize>) -> Seq<Change> {
    match local_count {
        Some(c) => if c > 0 {
            seq![Change::Local(LocalChanges { modified: c })]
        } else {
            Seq::empty()
        },
        None => Seq::empty(),
    }
}

/// The contribution of one remote: a divergence entry exactly when the
/// upstream resolved and the branch is ahead or behind.
pub open spec fn remote_part(r: RemoteState) -> Seq<Change> {
    match r.resolved {
        Some(ab) => if ab.ahead > 0 || ab.behind > 0 {
            seq![
                Change::Remote(
                    RemoteChanges { remote: r.name, ahead: ab.ahead, behind: ab.behind },
                ),
            ]
        } else {
            Seq::empty()
        },
        None => Seq::empty(),
    }
}

/// The remote part of a changeset: each remote's contribution, in order.
pub open spec fn remotes_parts(rs: Seq<RemoteState>) -> Seq<Change>
    decreases rs.len(),
{
    if rs.len() == 0 {
        Seq::empty()
    } else {
        remote_part(rs[0]) + remotes_parts(rs.drop_first())
    }
}

/// The full change list of one branch: the local part first, then the
/// remotes in reported order.
pub open spec fn spec_changes(local_count: Option<usize>, remotes: Seq<RemoteState>) -> Seq<
    Change,
> {
    local_part(local_count) + remotes_parts(remotes)
}

/// Builds the change list of one branch from what was observed.
pub fn changes_of_observation(obs: BranchObservation) -> (v: Vec<Change>)
    ensures
        v@ == spec_changes(obs.local_count, obs.remotes@),
{
    let mut v: Vec<Change> = Vec::new();
    match obs.local_count {
        Some(c) => {
            if c > 0 {
                v.push(Change::Local(LocalChanges { modified: c }));
            }
        },
        None => {},
    }
    proof {
        assert(v@ =~= local_part(obs.local_count));
    }
    let ghost local = v@;
    let mut remotes = obs.remotes;
    let ghost all = remotes@;
    proof {
        assert(local + remotes_parts(remotes@) =~= local + remotes_parts(all));
    }
    while remotes.len() != 0
        invariant
            v@ + remotes_parts(remotes@) == local + remotes_parts(all),
        decreases remotes@.len(),
    {
        let ghost rs_before = remotes@;
        let ghost v_before = v@;
        let r = remotes.remove(0);
        proof {
            assert(remotes@ =~= rs_before.drop_first());
        }
        let resolved = r.resolved;
        let ghost r0 = r;
        match resolved {
            Some(ab) => {
                if ab.ahead > 0 || ab.behind > 0 {
                    v.push(
                        Change::Remote(
                            RemoteChanges { remote: r.name, ahead: ab.ahead, behind: ab.behind },
                        ),
                    );
                }
            },
            None => {},
        }
        proof {
            assert(v@ =~= v_before + remote_part(r0));
            assert(remotes_parts(rs_before) == remote_part(r0) + remotes_parts(
                rs_before.drop_first(),
            ));
            assert((v_before + remote_part(r0)) + remotes_parts(rs_before.drop_first())
                =~= v_before + (remote_part(r0) + remotes_parts(rs_before.drop_first())));
            assert(v@ + remotes_parts(remotes@) =~= local + remotes_parts(all));
        }
    }
    proof {
        assert(remotes_parts(remotes@) =~= Seq::<Change>::empty());
        assert(v@ =~= v@ + remotes_parts(remotes@));
        assert(v@ =~= spec_changes(obs.local_count, all));
    }
    v
}

/// The divergence report of one repository and branch: the repository's
/// path, the branch's name, and the ordered change list.  An empty change
/// list means the branch is clean; whether a clean report is rendered is
/// decided downstream, never here.
#[derive(Clone, Debug)]
pub struct Changeset {
    path: RepoPath,
    branch: String,
    changes: Vec<Change>,
}

impl Changeset {
    /// The repository path, as segments.
    pub closed spec fn path_spec(&self) -> Seq<Seq<u8>> {
        self.path@
    }

    /// The branch name.
    pub closed spec fn branch_spec(&self) -> Seq<char> {
        self.branch@
    }

    /// The ordered change list.
    pub closed spec fn changes_spec(&self) -> Seq<Change> {
        self.changes@
    }

    /// True when the branch is dirty: it has local edits or diverges from
    /// some remote.
    pub fn has_changes(&self) -> (r: bool)
        ensures
            r == (self.changes_spec().len() != 0),
    {
        self.changes.len() != 0
    }

    /// The ordered change list.
    pub fn changes(&self) -> (r: &[Change])
        ensures
            r@ == self.changes_spec(),
    {
        self.changes.as_slice()
    }

    /// The repository the report is about.
    pub fn path(&self) -> (r: &RepoPath)
        ensures
            r@ == self.path_spec(),
    {
        &self.path
    }

    /// The branch the report is about.
    pub fn branch(&self) -> (r: &str)
        ensures
            r@ == self.branch_spec(),
    {
        self.branch.as_str()
    }
}

/// Builds the changeset of one branch from what was observed: the local
/// part first, then the remotes in reported order.
pub fn assemble_changeset(path: RepoPath, branch: String, obs: BranchObservation) -> (c: Changeset)
    ensures
        c.path_spec() == path@,
        c.branch_spec() == branch@,
        c.changes_spec() == spec_changes(obs.local_count, obs.remotes@),
{
    let ghost local_count = obs.local_count;
    let ghost remotes = obs.remotes@;
    let changes = changes_of_observation(obs);
    Changeset { path, branch, changes }
}

/// How the engine left one branch: skipped because its name matched the
/// ignore pattern, skipped because its remotes could not be enumerated,
/// or checked, with everything that was observed.
#[derive(Clone, Debug)]
pub enum BranchOutcome {
    Ignored,
    Unavailable,
    Checked(BranchObservation),
}

/// One branch together with how the engine left it.
#[derive(Clone, Debug)]
pub struct BranchEval {
    pub name: String,
    pub outcome: BranchOutcome,
}

/// The sub-list of branch evaluations that were actually checked, in
/// order.  Only these produce a changeset: an ignored or unavailable
/// branch produces none at all, not even an empty one.
pub open spec fn checked_evals(evals: Seq<BranchEval>) -> Seq<BranchEval>
    decreases evals.len(),
{
    if evals.len() == 0 {
        Seq::empty()
    } else {
        checked_evals(evals.drop_last()) + (if evals.last().outcome is Checked {
            seq![evals.last()]
        } else {
            Seq::empty()
        })
    }
}

/// Builds one changeset per checked branch, in branch order: the ignored
/// and unavailable branches yield none.
pub fn branch_changesets(path: &RepoPath, evals: Vec<BranchEval>) -> (out: Vec<Changeset>)
    ensures
        out@.len() == checked_evals(evals@).len(),
        forall|i: int|
            0 <= i < out@.len() ==> {
                let e = checked_evals(evals@)[i];
                (#[trigger] out@[i]).path_spec() == path@ && out@[i].branch_spec() == e.name@ && (
                e.outcome matches BranchOutcome::Checked(obs) && out@[i].changes_spec()
                    == spec_changes(obs.local_count, obs.remotes@))
            },
{
    let ghost evals0 = evals@;
    let mut evals = evals;
    let mut out: Vec<Changeset> = Vec::new();
    let ghost done = Seq::<BranchEval>::empty();
    proof {
        assert(done + evals@ =~= evals0);
        assert(checked_evals(done) =~= Seq::<BranchEval>::empty());
    }
    while evals.len() != 0
        invariant
            done + evals@ == evals0,
            out@.len() == checked_evals(done).len(),
            forall|i: int|
                0 <= i < out@.len() ==> {
                    let e = checked_evals(done)[i];
                    (#[trigger] out@[i]).path_spec() == path@ && out@[i].branch_spec() == e.name@
                        && (e.outcome matches BranchOutcome::Checked(obs)
                        && out@[i].changes_spec() == spec_changes(obs.local_count, obs.remotes@))
                },
        decreases evals@.len(),
    {
        let ghost evals_before = evals@;
        let e = evals.remove(0);
        let ghost e0 = e;
        proof {
            assert(done.push(e0).drop_last() =~= done);
            assert(done.push(e0) + evals@ =~= evals0);
        }
        match e.outcome {
            BranchOutcome::Checked(obs) => {
                let cs = assemble_changeset(path.duplicate(), e.name, obs);
                out.push(cs);
            },
            BranchOutcome::Ignored => {},
            BranchOutcome::Unavailable => {},
        }
        proof {
            done = done.push(e0);
        }
    }
    proof {
        assert(done =~= evals0);
    }
    out
}

/// True when a change list holds a local-change entry.
pub open spec fn has_local_change(s: Seq<Change>) -> bool {
    exists|i: int| 0 <= i < s.len() && (#[trigger] s[i]) is Local
}

/// True of a change list the engine can produce: a local entry only at
/// the front and only with a positive count, and every remote entry
/// strictly ahead or behind.
pub open spec fn changes_wf(s: Seq<Change>) -> bool {
    forall|i: int|
        0 <= i < s.len() ==> {
            &&& ((#[trigger] s[i]) matches Change::Local(lc) ==> i == 0 && lc.modified > 0)
            &&& (s[i] matches Change::Remote(rc) ==> rc.ahead > 0 || rc.behind > 0)
        }
}

/// Every entry the remotes contribute is a remote entry with a positive
/// ahead or behind count.
pub proof fn lemma_remotes_parts_wf(rs: Seq<RemoteState>)
    ensures
        forall|i: int|
            0 <= i < remotes_parts(rs).len() ==> ((#[trigger] remotes_parts(rs)[i]) matches Change::Remote(
                rc,
            ) && (rc.ahead > 0 || rc.behind > 0)),
    decreases rs.len(),
{
    if rs.len() > 0 {
        lemma_remotes_parts_wf(rs.drop_first());
        assert forall|i: int| 0 <= i < remotes_parts(rs).len() implies ((
        #[trigger] remotes_parts(rs)[i]) matches Change::Remote(rc) && (rc.ahead > 0 || rc.behind
            > 0)) by {
            let head = remote_part(rs[0]);
            if i >= head.len() {
                assert(remotes_parts(rs)[i] == remotes_parts(rs.drop_first())[i - head.len()]);
            }
        }
    }
}

/// Law: every change list the engine produces is well-formed — a local
/// entry only at the front with a positive count, and remote entries only
/// when ahead or behind.
pub proof fn lemma_changes_wf(local_count: Option<usize>, remotes: Seq<RemoteState>)
    ensures
        changes_wf(spec_changes(local_count, remotes)),
{
    lemma_remotes_parts_wf(remotes);
    let lp = local_part(local_count);
    let s = spec_changes(local_count, remotes);
    assert forall|i: int|
        0 <= i < s.len() implies {
        &&& ((#[trigger] s[i]) matches Change::Local(lc) ==> i == 0 && lc.modified > 0)
        &&& (s[i] matches Change::Remote(rc) ==> rc.ahead > 0 || rc.behind > 0)
    } by {
        if i < lp.len() {
            assert(s[i] == lp[i]);
        } else {
            assert(s[i] == remotes_parts(remotes)[i - lp.len()]);
        }
    }
}

/// Law: a change list holds a local entry exactly when the status query
/// succeeded with a positive count, and then that entry stands first and
/// carries exactly that count.
pub proof fn lemma_local_presence(local_count: Option<usize>, remotes: Seq<RemoteState>)
    ensures
        has_local_change(spec_changes(local_count, remotes)) <==> (local_count matches Some(c)
            && c > 0),
        local_count matches Some(c) ==> (c > 0 ==> spec_changes(local_count, remotes)[0]
            == Change::Local(LocalChanges { modified: c })),
{
    lemma_remotes_parts_wf(remotes);
    let lp = local_part(local_count);
    let s = spec_changes(local_count, remotes);
    if local_count matches Some(c) && c > 0 {
        assert(s[0] == lp[0]);
        assert(has_local_change(s));
    } else {
        assert forall|i: int| 0 <= i < s.len() implies !((#[trigger] s[i]) is Local) by {
            assert(s[i] == remotes_parts(remotes)[i - lp.len()]);
        }
    }
}

/// Helper for [`lemma_remote_presence`]: membership of a remote entry in
/// the remotes' contribution.
proof fn lemma_remotes_parts_contains(
    rs: Seq<RemoteState>,
    name: String,
    ahead: usize,
    behind: usize,
)
    ensures
        remotes_parts(rs).contains(
            Change::Remote(RemoteChanges { remote: name, ahead, behind }),
        ) <==> (rs.contains(
            RemoteState { name, resolved: Some(AheadBehind { ahead, behind }) },
        ) && (ahead > 0 || behind > 0)),
    decreases rs.len(),
{
    let change = Change::Remote(RemoteChanges { remote: name, ahead, behind });
    let state = RemoteState { name, resolved: Some(AheadBehind { ahead, behind }) };
    if rs.len() == 0 {
        assert(!remotes_parts(rs).contains(change));
        assert(!rs.contains(state));
    } else {
        lemma_remotes_parts_contains(rs.drop_first(), name, ahead, behind);
        let head = remote_part(rs[0]);
        let rest = remotes_parts(rs.drop_first());
        if remotes_parts(rs).contains(change) {
            let i = choose|i: int|
                0 <= i < remotes_parts(rs).len() && remotes_parts(rs)[i] == change;
            if i < head.len() {
                assert(head[i] == change);
                assert(rs[0] == state);
                assert(rs.contains(state));
            } else {
                assert(rest[i - head.len()] == change);
                assert(rest.contains(change));
                let j = choose|j: int| 0 <= j < rs.drop_first().len() && rs.drop_first()[j] == state;
                assert(rs[j + 1] == state);
                assert(rs.contains(state));
            }
        }
        if rs.contains(state) && (ahead > 0 || behind > 0) {
            let j = choose|j: int| 0 <= j < rs.len() && rs[j] == state;
            if j == 0 {
                assert(head[0] == change);
                assert(remotes_parts(rs)[0] == change);
                assert(remotes_parts(rs).contains(change));
            } else {
                assert(rs.drop_first()[j - 1] == state);
                assert(rs.drop_first().contains(state));
                let i = choose|i: int| 0 <= i < rest.len() && rest[i] == change;
                assert(remotes_parts(rs)[head.len() + i] == change);
                assert(remotes_parts(rs).contains(change));
            }
        }
    }
}

/// Law: a change list holds a divergence entry for a remote exactly when
/// that remote's upstream resolved with the branch ahead or behind, and
/// the entry carries exactly the observed counts.
pub proof fn lemma_remote_presence(
    local_count: Option<usize>,
    remotes: Seq<RemoteState>,
    name: String,
    ahead: usize,
    behind: usize,
)
    ensures
        spec_changes(local_count, remotes).contains(
            Change::Remote(RemoteChanges { remote: name, ahead, behind }),
        ) <==> (remotes.contains(
            RemoteState { name, resolved: Some(AheadBehind { ahead, behind }) },
        ) && (ahead > 0 || behind > 0)),
{
    let change = Change::Remote(RemoteChanges { remote: name, ahead, behind });
    let lp = local_part(local_count);
    let s = spec_changes(local_count, remotes);
    lemma_remotes_parts_contains(remotes, name, ahead, behind);
    if s.contains(change) {
        let i = choose|i: int| 0 <= i < s.len() && s[i] == change;
        assert(i >= lp.len()) by {
            if i < lp.len() {
                assert(lp[i] == change);
            }
        }
        assert(remotes_parts(remotes)[i - lp.len()] == change);
        assert(remotes_parts(remotes).contains(change));
    }
    if remotes_parts(remotes).contains(change) {
        let i = choose|i: int|
            0 <= i < remotes_parts(remotes).len() && remotes_parts(remotes)[i] == change;
        assert(s[lp.len() + i] == change);
        assert(s.contains(change));
    }
}

/// Law: a branch whose every evaluation is ignored produces no changeset
/// under its name at all.
pub proof fn lemma_ignored_branch(evals: Seq<BranchEval>, name: Seq<char>)
    requires
        forall|j: int|
            0 <= j < evals.len() && (#[trigger] evals[j]).name@ == name ==> evals[j].outcome is Ignored,
    ensures
        forall|i: int|
            0 <= i < checked_evals(evals).len() ==> (#[trigger] checked_evals(evals)[i]).name@
                != name,
    decreases evals.len(),
{
    if evals.len() > 0 {
        assert(forall|j: int|
            0 <= j < evals.drop_last().len() && (#[trigger] evals.drop_last()[j]).name@ == name
                ==> evals.drop_last()[j].outcome is Ignored);
        lemma_ignored_branch(evals.drop_last(), name);
        assert forall|i: int|
            0 <= i < checked_evals(evals).len() implies (#[trigger] checked_evals(evals)[i]).name@
            != name by {
            let prefix = checked_evals(evals.drop_last());
            if i < prefix.len() {
                assert(checked_evals(evals)[i] == prefix[i]);
            } else {
                assert(checked_evals(evals)[i] == evals.last());
            }
        }
    }
}

/// Law: the engine is deterministic — two runs that make the same
/// observations produce the same change list, so an unchanged set of
/// repositories reports identically on every run.
pub proof fn lemma_engine_deterministic(
    a_local: Option<usize>,
    a_remotes: Seq<RemoteState>,
    b_local: Option<usize>,
    b_remotes: Seq<RemoteState>,
)
    requires
        a_local == b_local,
        a_remotes == b_remotes,
    ensures
        spec_changes(a_local, a_remotes) == spec_changes(b_local, b_remotes),
{
}

#[verifier::external_type_specification]
#[verifier::external_body]
pub struct ExRepository(git2::Repository);

#[verifier::external_type_specification]
#[verifier::external_body]
pub struct ExStatus(git2::Status);

#[verifier::external_type_specification]
#[verifier::external_body]
pub struct ExOid(git2::Oid);

#[verifier::external_type_specification]
#[verifier::external_body]
pub struct ExRegex(regex::Regex);

/// Relies on git2: `Repository::branches(Some(BranchType::Local))` lists
/// the local branches — remote-tracking ones are left out — and
/// `Branch::name` gives each one's name when it is valid UTF-8.  Returns
/// the names in reported order; an unnamed branch is skipped, and a
/// failed enumeration returns nothing.
#[verifier::external_body]
pub(crate) fn get_all_branches(repo: &git2::Repository) -> (r: Option<Vec<String>>) {
    let branches = match repo.branches(Some(git2::BranchType::Local)) {
        Ok(b) => b,
        Err(_) => return None,
    };
    Some(
        branches.filter_map(
            |e| match e {
                Ok((b, _)) => b.name().ok().flatten().map(|s| s.to_string()),
                Err(_) => None,
            },
        ).collect(),
    )
}

/// Relies on git2: `Repository::head` resolves the checked-out reference
/// and `Reference::shorthand` names it.  Returns at most one name; an
/// unresolvable or unnamable head returns none, as in a repository with
/// no commits yet.
#[verifier::external_body]
pub(crate) fn get_default_branch(repo: &git2::Repository) -> (r: Vec<String>)
    ensures
        r@.len() <= 1,
{
    match repo.head() {
        Ok(head) => match head.shorthand() {
            Ok(s) => vec![s.to_string()],
            Err(_) => Vec::new(),
        },
        Err(_) => Vec::new(),
    }
}

/// Relies on git2: the `Status::is_*` accessors read one bit each of a
/// status-flag set.
#[verifier::external_body]
fn status_bits(s: git2::Status) -> EntryStatus {
    EntryStatus {
        index_new: s.is_index_new(),
        index_modified: s.is_index_modified(),
        index_deleted: s.is_index_deleted(),
        index_renamed: s.is_index_renamed(),
        index_typechange: s.is_index_typechange(),
        wt_new: s.is_wt_new(),
        wt_modified: s.is_wt_modified(),
        wt_renamed: s.is_wt_renamed(),
        wt_typechange: s.is_wt_typechange(),
    }
}

/// Relies on git2: `Repository::statuses` lists the index and
/// working-tree entries, including untracked files exactly when
/// `StatusOptions::include_untracked` asks for them.  What the listing
/// holds depends on the repository on disk, so nothing is promised of it;
/// a failed query returns nothing.
#[verifier::external_body]
fn read_statuses(repo: &git2::Repository, include_untracked: bool) -> (r: Option<Vec<EntryStatus>>) {
    let mut opts = git2::StatusOptions::new();
    opts.include_untracked(include_untracked);
    let statuses = match repo.statuses(Some(&mut opts)) {
        Ok(s) => s,
        Err(_) => return None,
    };
    Some(statuses.iter().map(|e| status_bits(e.status())).collect())
}

/// Relies on git2: `Repository::remotes` lists the configured remote
/// names.  Returns them in reported order; a name that is not valid
/// UTF-8 is skipped, and a failed enumeration returns nothing.
#[verifier::external_body]
fn remote_names(repo: &git2::Repository) -> (r: Option<Vec<String>>) {
    let names = match repo.remotes() {
        Ok(n) => n,
        Err(_) => return None,
    };
    Some(names.iter().filter_map(|n| n.ok().flatten().map(|s| s.to_string())).collect())
}

/// Relies on std's `format!`: joins a remote name and a branch name with
/// a slash into the upstream reference name `remote/branch`.
#[verifier::external_body]
fn upstream_ref_name(remote: &str, branch: &str) -> (s: String)
    ensures
        s@ == remote@ + seq!['/'] + branch@,
{
    format!("{}/{}", remote, branch)
}

/// Relies on git2: `Repository::revparse_single` resolves a revision
/// string to an object, whose id `Object::id` returns.  What resolves
/// depends on the repository on disk; an unresolvable name returns
/// nothing.
#[verifier::external_body]
fn resolve_commit(repo: &git2::Repository, refname: &str) -> (r: Option<git2::Oid>) {
    match repo.revparse_single(refname) {
        Ok(obj) => Some(obj.id()),
        Err(_) => None,
    }
}

/// Relies on git2: `Repository::graph_ahead_behind` counts the commits
/// reachable from each of two commits but not the other.  The counts
/// depend on the repository on disk; a failed walk returns nothing.
#[verifier::external_body]
fn ahead_behind(repo: &git2::Repository, local: &git2::Oid, upstream: &git2::Oid) -> (r: Option<
    AheadBehind,
>) {
    match repo.graph_ahead_behind(*local, *upstream) {
        Ok((ahead, behind)) => Some(AheadBehind { ahead, behind }),
        Err(_) => None,
    }
}

/// Whether `text` matches the regular expression written `pattern`: the
/// name for what `regex::Regex::is_match` returns, which depends on the
/// pattern and the text alone.
pub uninterp spec fn regex_match_of(pattern: Seq<char>, text: Seq<char>) -> bool;

/// A compiled ignore pattern, kept together with the pattern text it was
/// compiled from.  The fields are private, and the only constructor pairs
/// them, so a match through this type is a match of exactly that pattern.
#[derive(Debug)]
pub struct IgnorePattern {
    re: regex::Regex,
    pattern: String,
}

impl IgnorePattern {
    /// The pattern text this value was compiled from.
    pub closed spec fn pattern_spec(&self) -> Seq<char> {
        self.pattern@
    }

    /// Relies on regex: `Regex::new` compiles a pattern, failing exactly
    /// on a malformed one.  A compiled value keeps the pattern it came
    /// from.
    #[verifier::external_body]
    pub fn new(pattern: &str) -> (r: Option<IgnorePattern>)
        ensures
            r matches Some(p) ==> p.pattern_spec() == pattern@,
    {
        match regex::Regex::new(pattern) {
            Ok(re) => Some(IgnorePattern { re, pattern: pattern.to_string() }),
            Err(_) => None,
        }
    }

    /// Relies on regex: `Regex::is_match` decides whether the text
    /// matches the compiled pattern; the result is a function of the
    /// pattern and the text alone.
    #[verifier::external_body]
    pub fn is_match(&self, text: &str) -> (r: bool)
        ensures
            r == regex_match_of(self.pattern_spec(), text@),
    {
        self.re.is_match(text)
    }
}

/// Decides whether a branch is skipped: exactly when an ignore pattern
/// is configured and matches the branch's name.
pub fn branch_ignored(ignore: Option<&IgnorePattern>, name: &str) -> (r: bool)
    ensures
        r == (ignore matches Some(p) && regex_match_of(p.pattern_spec(), name@)),
{
    match ignore {
        Some(p) => p.is_match(name),
        None => false,
    }
}

/// Gathers everything the engine wants to know about one branch: the
/// local status entries, and the divergence against every remote, in
/// reported order.  A failed status query drops only the local count; an
/// upstream that does not resolve drops only that remote's counts; a
/// failed remote enumeration skips the branch.
pub(crate) fn check_branch(repo: &git2::Repository, branch: &String, opts: &Options) -> (r: Result<
    BranchObservation,
    Error,
>)
    ensures
        r matches Err(e) ==> e == Error::RemoteEnumeration,
{
    let local_count = match read_statuses(repo, opts.untracked) {
        Some(entries) => Some(count_qualifying(&entries, opts.untracked)),
        None => None,
    };
    let mut names = match remote_names(repo) {
        Some(n) => n,
        None => return Err(Error::RemoteEnumeration),
    };
    let mut remotes: Vec<RemoteState> = Vec::new();
    while names.len() != 0
        decreases names@.len(),
    {
        let name = names.remove(0);
        let refname = upstream_ref_name(name.as_str(), branch.as_str());
        let local_id = resolve_commit(repo, branch.as_str());
        let upstream_id = resolve_commit(repo, refname.as_str());
        let resolved = match local_id {
            Some(l) => match upstream_id {
                Some(u) => ahead_behind(repo, &l, &u),
                None => None,
            },
            None => None,
        };
        remotes.push(RemoteState { name, resolved });
    }
    Ok(BranchObservation { local_count, remotes })
}

/// Checks one branch of one repository and assembles its changeset: the
/// local part first, then the remotes in reported order.  A changeset is
/// produced even when the branch is clean; whether it is rendered is
/// decided downstream.
pub fn check_repository(repo: &git2::Repository, path: &RepoPath, branch: String, opts: &Options) -> (r:
    Result<Changeset, Error>)
    ensures
        r matches Ok(cs) ==> cs.path_spec() == path@ && cs.branch_spec() == branch@ && changes_wf(
            cs.changes_spec(),
        ),
        r matches Err(e) ==> e == Error::RemoteEnumeration,
{
    let obs = match check_branch(repo, &branch, opts) {
        Ok(obs) => obs,
        Err(e) => return Err(e),
    };
    proof {
        lemma_changes_wf(obs.local_count, obs.remotes@);
    }
    let cs = assemble_changeset(path.duplicate(), branch, obs);
    Ok(cs)
}

/// Checks one opened repository: selects its branches (all local ones,
/// or only the checked-out one), drops every branch whose name matches
/// the ignore pattern, and produces one changeset per remaining branch.
/// A repository whose branches cannot be enumerated yields an error and
/// no changesets.
pub fn process_repo(
    repo: &git2::Repository,
    path: &RepoPath,
    opts: &Options,
    ignore: Option<&IgnorePattern>,
) -> (r: Result<Vec<Changeset>, Error>)
    ensures
        r matches Ok(out) ==> forall|i: int|
            0 <= i < out@.len() ==> (#[trigger] out@[i]).path_spec() == path@ && changes_wf(
                out@[i].changes_spec(),
            ),
        r matches Err(e) ==> e == Error::BranchEnumeration,
        !opts.all_branch ==> r is Ok,
{
    let mut branches: Vec<String> = if opts.all_branch {
        match get_all_branches(repo) {
            Some(b) => b,
            None => return Err(Error::BranchEnumeration),
        }
    } else {
        get_default_branch(repo)
    };
    let mut evals: Vec<BranchEval> = Vec::new();
    while branches.len() != 0
        decreases branches@.len(),
    {
        let b = branches.remove(0);
        let ignored = branch_ignored(ignore, b.as_str());
        let outcome = if ignored {
            BranchOutcome::Ignored
        } else {
            match check_branch(repo, &b, opts) {
                Ok(obs) => BranchOutcome::Checked(obs),
                Err(_) => BranchOutcome::Unavailable,
            }
        };
        evals.push(BranchEval { name: b, outcome });
    }
    let out = branch_changesets(path, evals);
    proof {
        assert forall|i: int|
            0 <= i < out@.len() implies (#[trigger] out@[i]).path_spec() == path@ && changes_wf(
            out@[i].changes_spec(),
        ) by {
            let e = checked_evals(evals@)[i];
            match e.outcome {
                BranchOutcome::Checked(obs) => {
                    lemma_changes_wf(obs.local_count, obs.remotes@);
                },
                BranchOutcome::Ignored => {},
                BranchOutcome::Unavailable => {},
            }
        }
    }
    Ok(out)
}

} // verus!
