//! Discovery of repository roots.
//!
//! A repository root is a directory that directly contains a `.git` entry.
//! The crawler walks a directory tree with an explicit work list, skipping
//! entries that are not directories, skipping hidden directories (a leading
//! dot, except exactly `.git`), never descending into `.git` itself, and
//! bounding the descent by a maximum depth.  Each discovered root is emitted
//! at most once, even when several starting points overlap.
//!
//! Directory names are handled as byte strings, as the operating system
//! reports them.

use vstd::prelude::*;

verus! {

/// The byte value of `.`, which begins a hidden directory name.
pub const DOT: u8 = 46;

/// The bytes of the name `.git`.
pub open spec fn git_name() -> Seq<u8> {
    seq![46u8, 103u8, 105u8, 116u8]
}

/// True when `name` is exactly `.git`.
pub open spec fn is_git_name(name: Seq<u8>) -> bool {
    name == git_name()
}

/// True when `name` is hidden: it starts with a dot and is not `.git`.
pub open spec fn is_hidden_name(name: Seq<u8>) -> bool {
    name.len() > 0 && name[0] == DOT && !is_git_name(name)
}

/// True when the crawl keeps a listed entry at all: directories only,
/// hidden ones excluded (`.git` itself is kept, since it marks its parent
/// as a repository root).
pub open spec fn keeps_entry(name: Seq<u8>, is_dir: bool) -> bool {
    is_dir && !is_hidden_name(name)
}

/// Decides whether `name` is exactly `.git`.
pub fn is_git(name: &Vec<u8>) -> (r: bool)
    ensures
        r == is_git_name(name@),
{
    let r = name.len() == 4 && name[0] == 46 && name[1] == 103 && name[2] == 105 && name[3]
        == 116;
    proof {
        if r {
            assert(name@ =~= git_name());
        } else {
            if name@ == git_name() {
                assert(name@.len() == 4);
                assert(name@[0] == 46 && name@[1] == 103 && name@[2] == 105 && name@[3] == 116);
            }
        }
    }
    r
}

/// One entry of a directory listing, as the crawl sees it: the entry's
/// name, whether it is a directory, and a caller-chosen token (for example
/// an index into a larger structure) that travels with the entry.
pub struct ChildEntry<T> {
    pub token: T,
    pub name: Vec<u8>,
    pub is_dir: bool,
}

/// Decides whether a listed entry is kept by the crawl: it must be a
/// directory and must not be hidden.
pub fn filter_path<T>(entry: &ChildEntry<T>) -> (keep: bool)
    ensures
        keep == keeps_entry(entry.name@, entry.is_dir),
{
    if !entry.is_dir {
        return false;
    }
    if entry.name.len() > 0 && entry.name[0] == DOT && !is_git(&entry.name) {
        return false;
    }
    true
}

/// The filesystem path of a discovered repository root, held as the
/// sequence of its directory-name segments.
#[derive(Clone, Debug)]
pub struct RepoPath {
    pub segments: Vec<Vec<u8>>,
}

impl View for RepoPath {
    type V = Seq<Seq<u8>>;

    open spec fn view(&self) -> Seq<Seq<u8>> {
        Seq::new(self.segments@.len(), |i: int| self.segments@[i]@)
    }
}

/// Compares two byte strings for equality.
pub fn bytes_eq(a: &Vec<u8>, b: &Vec<u8>) -> (r: bool)
    ensures
        r == (a@ == b@),
{
    if a.len() != b.len() {
        return false;
    }
    let n = a.len();
    for i in 0..n
        invariant
            n == a@.len(),
            a@.len() == b@.len(),
            forall|k: int| 0 <= k < i ==> a@[k] == b@[k],
    {
        if a[i] != b[i] {
            return false;
        }
    }
    proof {
        assert(a@ =~= b@);
    }
    true
}

/// Copies a byte string.
pub fn clone_bytes(v: &Vec<u8>) -> (r: Vec<u8>)
    ensures
        r@ == v@,
{
    let mut r: Vec<u8> = Vec::new();
    let n = v.len();
    for i in 0..n
        invariant
            n == v@.len(),
            r@ == v@.take(i as int),
    {
        r.push(v[i]);
        proof {
            assert(v@.take(i + 1) =~= v@.take(i as int).push(v@[i as int]));
        }
    }
    proof {
        assert(v@.take(n as int) =~= v@);
    }
    r
}

impl RepoPath {
    /// Appends one directory name to the path.
    pub fn push_segment(&mut self, name: Vec<u8>)
        ensures
            final(self)@ == old(self)@.push(name@),
    {
        self.segments.push(name);
        proof {
            assert(final(self)@ =~= old(self)@.push(name@));
        }
    }

    /// Copies the path.
    pub fn duplicate(&self) -> (p: RepoPath)
        ensures
            p@ == self@,
    {
        let mut segments: Vec<Vec<u8>> = Vec::new();
        let n = self.segments.len();
        for i in 0..n
            invariant
                n == self.segments@.len(),
                segments@.len() == i,
                forall|k: int| 0 <= k < i ==> segments@[k]@ == self@[k],
        {
            let seg = clone_bytes(&self.segments[i]);
            segments.push(seg);
        }
        let out = RepoPath { segments };
        proof {
            assert(out@ =~= self@);
        }
        out
    }

    /// Compares two paths for equality, segment by segment.
    pub fn path_eq(&self, other: &RepoPath) -> (r: bool)
        ensures
            r == (self@ == other@),
    {
        if self.segments.len() != other.segments.len() {
            proof {
                assert(self@.len() == self.segments@.len());
                assert(other@.len() == other.segments@.len());
            }
            return false;
        }
        let n = self.segments.len();
        for i in 0..n
            invariant
                n == self.segments@.len(),
                self.segments@.len() == other.segments@.len(),
                forall|k: int| 0 <= k < i ==> self@[k] == other@[k],
        {
            let same = bytes_eq(&self.segments[i], &other.segments[i]);
            if !same {
                proof {
                    assert(self@[i as int] != other@[i as int]);
                }
                return false;
            }
        }
        proof {
            assert(self@ =~= other@);
        }
        true
    }
}

/// True when the crawl, standing at `depth`, descends into a listed entry:
/// the entry must be kept, must not be `.git` itself (its contents are
/// never listed), and the depth budget must allow one more level.
pub open spec fn spec_descends(name: Seq<u8>, is_dir: bool, depth: int, max_depth: int) -> bool {
    keeps_entry(name, is_dir) && !is_git_name(name) && depth < max_depth
}

/// The sub-list of a directory listing that the crawl descends into,
/// in listing order.
pub open spec fn qual_children<T>(
    entries: Seq<ChildEntry<T>>,
    depth: int,
    max_depth: int,
) -> Seq<ChildEntry<T>>
    decreases entries.len(),
{
    if entries.len() == 0 {
        Seq::empty()
    } else {
        let rest = qual_children(entries.drop_first(), depth, max_depth);
        if spec_descends(entries[0].name@, entries[0].is_dir, depth, max_depth) {
            seq![entries[0]] + rest
        } else {
            rest
        }
    }
}

/// Appending one entry to a listing extends its qualifying sub-list by
/// that entry exactly when the crawl descends into it.
pub proof fn lemma_qual_push<T>(entries: Seq<ChildEntry<T>>, e: ChildEntry<T>, depth: int, max_depth: int)
    ensures
        qual_children(entries.push(e), depth, max_depth) == qual_children(entries, depth, max_depth)
            + (if spec_descends(e.name@, e.is_dir, depth, max_depth) {
            seq![e]
        } else {
            Seq::<ChildEntry<T>>::empty()
        }),
    decreases entries.len(),
{
    let tail = (if spec_descends(e.name@, e.is_dir, depth, max_depth) {
        seq![e]
    } else {
        Seq::<ChildEntry<T>>::empty()
    });
    if entries.len() == 0 {
        assert(entries.push(e)[0] == e);
        assert(entries.push(e).drop_first() =~= Seq::<ChildEntry<T>>::empty());
        assert(qual_children(entries.push(e).drop_first(), depth, max_depth) == Seq::<
            ChildEntry<T>,
        >::empty());
        assert(qual_children(entries, depth, max_depth) == Seq::<ChildEntry<T>>::empty());
        if spec_descends(e.name@, e.is_dir, depth, max_depth) {
            assert(qual_children(entries.push(e), depth, max_depth) == seq![e] + qual_children(
                entries.push(e).drop_first(),
                depth,
                max_depth,
            ));
            assert(seq![e] + Seq::<ChildEntry<T>>::empty() =~= seq![e]);
            assert(qual_children(entries, depth, max_depth) + tail =~= seq![e]);
        } else {
            assert(qual_children(entries.push(e), depth, max_depth) == Seq::<
                ChildEntry<T>,
            >::empty());
            assert(qual_children(entries, depth, max_depth) + tail =~= Seq::<
                ChildEntry<T>,
            >::empty());
        }
    } else {
        let rest = entries.drop_first();
        let head = (if spec_descends(entries[0].name@, entries[0].is_dir, depth, max_depth) {
            seq![entries[0]]
        } else {
            Seq::<ChildEntry<T>>::empty()
        });
        assert(entries.push(e)[0] == entries[0]);
        assert(entries.push(e).drop_first() =~= rest.push(e));
        lemma_qual_push(rest, e, depth, max_depth);
        assert(qual_children(entries.push(e), depth, max_depth) == head + qual_children(
            rest.push(e),
            depth,
            max_depth,
        ));
        assert(qual_children(entries, depth, max_depth) == head + qual_children(
            rest,
            depth,
            max_depth,
        ));
        assert((head + (qual_children(rest, depth, max_depth) + tail)) =~= ((head + qual_children(
            rest,
            depth,
            max_depth,
        )) + tail));
    }
}

/// True when a directory listing contains a `.git` directory, marking the
/// listed directory as a repository root.
pub open spec fn listing_has_git<T>(entries: Seq<ChildEntry<T>>) -> bool {
    exists|i: int|
        0 <= i < entries.len() && entries[i].is_dir && is_git_name(
            #[trigger] entries[i].name@,
        )
}

/// Scans a directory listing for a `.git` directory.
pub fn listing_contains_git<T>(entries: &Vec<ChildEntry<T>>) -> (r: bool)
    ensures
        r == listing_has_git(entries@),
{
    let n = entries.len();
    for i in 0..n
        invariant
            n == entries@.len(),
            forall|k: int|
                0 <= k < i ==> !(entries@[k].is_dir && is_git_name(#[trigger] entries@[k].name@)),
    {
        if entries[i].is_dir && is_git(&entries[i].name) {
            return true;
        }
    }
    false
}

/// True when some path in `emitted` has exactly the segments `path`.
pub open spec fn emitted_contains(emitted: Seq<RepoPath>, path: Seq<Seq<u8>>) -> bool {
    exists|i: int| 0 <= i < emitted.len() && #[trigger] emitted[i]@ == path
}

/// The views of a sequence of paths.
pub open spec fn paths_view(s: Seq<RepoPath>) -> Seq<Seq<Seq<u8>>> {
    Seq::new(s.len(), |i: int| s[i]@)
}

/// True when no two paths in `s` have the same segments.
pub open spec fn paths_nodup(s: Seq<RepoPath>) -> bool {
    forall|i: int, j: int| 0 <= i < j < s.len() ==> #[trigger] s[i]@ != #[trigger] s[j]@
}

/// Scans a list of paths for one equal to `path`.
pub fn contains_path(emitted: &Vec<RepoPath>, path: &RepoPath) -> (r: bool)
    ensures
        r == emitted_contains(emitted@, path@),
{
    let n = emitted.len();
    for i in 0..n
        invariant
            n == emitted@.len(),
            forall|k: int| 0 <= k < i ==> #[trigger] emitted@[k]@ != path@,
    {
        if emitted[i].path_eq(path) {
            return true;
        }
    }
    false
}

/// One directory awaiting its listing: a caller-chosen token, the
/// directory's path, and its depth below the starting point.
pub struct PendingDir<T> {
    pub token: T,
    pub path: RepoPath,
    pub depth: usize,
}

/// The crawl's state: an explicit work list of directories still to be
/// listed, the repository roots emitted so far, and the depth bound.
///
/// The crawl is driven from outside, one directory listing at a time:
/// [`Crawler::take_next`] hands out the next directory to list, and
/// [`Crawler::handle_listing`] consumes that directory's entries, emitting
/// the directory when the listing contains `.git` and queueing the
/// children the crawl descends into.  A caller that cannot list a
/// directory simply drops it, which skips that entry and nothing else.
///
/// `max_depth` bounds how many levels below a starting point the crawl
/// descends; `usize::MAX` leaves the descent unbounded in practice.
pub struct Crawler<T> {
    pub pending: Vec<PendingDir<T>>,
    pub emitted: Vec<RepoPath>,
    pub max_depth: usize,
}

impl<T: Copy> Crawler<T> {
    /// A crawl with nothing pending and nothing emitted.
    pub fn new(max_depth: usize) -> (c: Crawler<T>)
        ensures
            c.pending@ =~= Seq::<PendingDir<T>>::empty(),
            c.emitted@ =~= Seq::<RepoPath>::empty(),
            c.max_depth == max_depth,
    {
        Crawler { pending: Vec::new(), emitted: Vec::new(), max_depth }
    }

    /// Queues one starting directory, at depth zero.
    pub fn push_root(&mut self, token: T, path: RepoPath)
        ensures
            final(self).pending@ == old(self).pending@.push(
                (PendingDir { token, path, depth: 0 }),
            ),
            final(self).emitted == old(self).emitted,
            final(self).max_depth == old(self).max_depth,
    {
        self.pending.push(PendingDir { token, path, depth: 0 });
    }

    /// Hands out the next directory to list, or nothing once the work
    /// list is empty.
    pub fn take_next(&mut self) -> (r: Option<PendingDir<T>>)
        ensures
            old(self).pending@.len() == 0 ==> r is None && final(self).pending@ == old(
                self,
            ).pending@ && final(self).emitted == old(self).emitted && final(self).max_depth == old(
                self,
            ).max_depth,
            old(self).pending@.len() > 0 ==> r == Some(old(self).pending@.last())
                && final(self).pending@ == old(self).pending@.drop_last() && final(self).emitted
                == old(self).emitted && final(self).max_depth == old(self).max_depth,
    {
        self.pending.pop()
    }

    /// Consumes the listing of the directory at `dir_path` and `depth`:
    /// emits `dir_path` when the listing contains a `.git` directory and
    /// no equal path was emitted before, and queues, in listing order, the
    /// children the crawl descends into, one level deeper.
    pub fn handle_listing(&mut self, dir_path: &RepoPath, depth: usize, entries: &Vec<ChildEntry<T>>) -> (emitted_now:
        bool)
        ensures
            final(self).max_depth == old(self).max_depth,
            emitted_now == (listing_has_git(entries@) && !emitted_contains(
                old(self).emitted@,
                dir_path@,
            )),
            paths_view(final(self).emitted@) == if emitted_now {
                paths_view(old(self).emitted@).push(dir_path@)
            } else {
                paths_view(old(self).emitted@)
            },
            paths_nodup(old(self).emitted@) ==> paths_nodup(final(self).emitted@),
            final(self).pending@.len() == old(self).pending@.len() + qual_children(
                entries@,
                depth as int,
                old(self).max_depth as int,
            ).len(),
            forall|k: int|
                0 <= k < old(self).pending@.len() ==> final(self).pending@[k] == old(
                    self,
                ).pending@[k],
            forall|j: int|
                0 <= j < qual_children(entries@, depth as int, old(self).max_depth as int).len()
                    ==> {
                    let q = qual_children(entries@, depth as int, old(self).max_depth as int)[j];
                    let p = #[trigger] final(self).pending@[old(self).pending@.len() + j];
                    p.token == q.token && p.path@ == dir_path@.push(q.name@) && p.depth == depth
                        + 1
                },
    {
        let mut emitted_now = false;
        if listing_contains_git(entries) {
            if !contains_path(&self.emitted, dir_path) {
                self.emitted.push(dir_path.duplicate());
                emitted_now = true;
            }
        }
        proof {
            if emitted_now {
                assert(paths_view(self.emitted@) =~= paths_view(old(self).emitted@).push(
                    dir_path@,
                ));
            } else {
                assert(paths_view(self.emitted@) =~= paths_view(old(self).emitted@));
            }
        }
        let ghost pend0 = self.pending@;
        let ghost emitted1 = self.emitted;
        let n = entries.len();
        for i in 0..n
            invariant
                n == entries@.len(),
                self.max_depth == old(self).max_depth,
                self.emitted == emitted1,
                self.pending@.len() == pend0.len() + qual_children(
                    entries@.take(i as int),
                    depth as int,
                    self.max_depth as int,
                ).len(),
                forall|k: int| 0 <= k < pend0.len() ==> self.pending@[k] == pend0[k],
                forall|j: int|
                    0 <= j < qual_children(
                        entries@.take(i as int),
                        depth as int,
                        self.max_depth as int,
                    ).len() ==> {
                        let q = qual_children(
                            entries@.take(i as int),
                            depth as int,
                            self.max_depth as int,
                        )[j];
                        let p = #[trigger] self.pending@[pend0.len() + j];
                        p.token == q.token && p.path@ == dir_path@.push(q.name@) && p.depth
                            == depth + 1
                    },
        {
            let e = &entries[i];
            proof {
                assert(entries@.take(i + 1) =~= entries@.take(i as int).push(entries@[i as int]));
                lemma_qual_push(
                    entries@.take(i as int),
                    entries@[i as int],
                    depth as int,
                    self.max_depth as int,
                );
            }
            if depth < self.max_depth && filter_path(e) && !is_git(&e.name) {
                let mut child_path = dir_path.duplicate();
                child_path.push_segment(clone_bytes(&e.name));
                self.pending.push(PendingDir { token: e.token, path: child_path, depth: depth + 1 });
            }
        }
        proof {
            assert(entries@.take(n as int) =~= entries@);
        }
        emitted_now
    }
}

/// One directory or file of an in-memory directory tree.
pub struct TreeNode {
    pub name: Vec<u8>,
    pub is_dir: bool,
    pub children: Vec<usize>,
}

/// A directory tree held in memory, as a list of nodes whose children are
/// given by index.  A well-formed tree lists every child after its parent,
/// which rules out cycles.
pub struct DirTree {
    pub nodes: Vec<TreeNode>,
}

impl DirTree {
    /// Every child index points forward and stays in bounds.
    pub open spec fn wf(&self) -> bool {
        forall|i: int, k: int|
            0 <= i < self.nodes@.len() && 0 <= k < self.nodes@[i].children@.len() ==> i < #[trigger] child_of(
                self.nodes@,
                i,
                k,
            ) < self.nodes@.len()
    }
}

/// The index of the `k`-th child of node `i`.
pub open spec fn child_of(nodes: Seq<TreeNode>, i: int, k: int) -> int {
    nodes[i].children@[k] as int
}

/// True when node `c` is a directory named `.git`.
pub open spec fn is_git_dir_node(nodes: Seq<TreeNode>, c: int) -> bool {
    0 <= c < nodes.len() && nodes[c].is_dir && is_git_name(nodes[c].name@)
}

/// True when node `i` directly contains a `.git` directory, which makes it
/// a repository root.
pub open spec fn node_has_git(nodes: Seq<TreeNode>, i: int) -> bool {
    exists|k: int|
        0 <= k < nodes[i].children@.len() && is_git_dir_node(nodes, #[trigger] child_of(nodes, i, k))
}

/// The set of repository-root paths the crawl finds below node `i`, whose
/// own path is `path` and whose depth below the starting point is `depth`.
pub open spec fn repo_set_from(
    nodes: Seq<TreeNode>,
    i: int,
    path: Seq<Seq<u8>>,
    depth: int,
    max_depth: int,
) -> Set<Seq<Seq<u8>>>
    decreases nodes.len() - i, nodes[i].children@.len() + 1,
{
    if i < 0 || i >= nodes.len() {
        Set::empty()
    } else {
        let sub = repo_set_children(nodes, i, 0, path, depth, max_depth);
        if node_has_git(nodes, i) {
            sub.insert(path)
        } else {
            sub
        }
    }
}

/// The part of [`repo_set_from`] contributed by the children of node `i`
/// from position `k` on.
pub open spec fn repo_set_children(
    nodes: Seq<TreeNode>,
    i: int,
    k: int,
    path: Seq<Seq<u8>>,
    depth: int,
    max_depth: int,
) -> Set<Seq<Seq<u8>>>
    decreases nodes.len() - i, nodes[i].children@.len() - k,
{
    if i < 0 || i >= nodes.len() || k < 0 || k >= nodes[i].children@.len() {
        Set::empty()
    } else {
        let rest = repo_set_children(nodes, i, k + 1, path, depth, max_depth);
        let c = child_of(nodes, i, k);
        if i < c < nodes.len() && spec_descends(nodes[c].name@, nodes[c].is_dir, depth, max_depth) {
            repo_set_from(nodes, c, path.push(nodes[c].name@), depth + 1, max_depth).union(rest)
        } else {
            rest
        }
    }
}

/// One starting point of a crawl: a node of the tree and the filesystem
/// path it stands at.
pub struct CrawlRoot {
    pub node: usize,
    pub path: RepoPath,
}

/// The set of repository-root paths the crawl finds under all of `roots`.
pub open spec fn roots_target(nodes: Seq<TreeNode>, roots: Seq<CrawlRoot>, max_depth: int) -> Set<
    Seq<Seq<u8>>,
>
    decreases roots.len(),
{
    if roots.len() == 0 {
        Set::empty()
    } else {
        repo_set_from(nodes, roots[0].node as int, roots[0].path@, 0, max_depth).union(
            roots_target(nodes, roots.drop_first(), max_depth),
        )
    }
}

/// The set of path views occurring in `s`.
pub open spec fn emitted_set(s: Seq<RepoPath>) -> Set<Seq<Seq<u8>>> {
    Set::new(|q: Seq<Seq<u8>>| emitted_contains(s, q))
}

/// Scans the children of node `i` for a `.git` directory.
fn node_contains_git(tree: &DirTree, i: usize) -> (r: bool)
    requires
        tree.wf(),
        i < tree.nodes@.len(),
    ensures
        r == node_has_git(tree.nodes@, i as int),
{
    let n = tree.nodes[i].children.len();
    for k in 0..n
        invariant
            tree.wf(),
            i < tree.nodes@.len(),
            n == tree.nodes@[i as int].children@.len(),
            forall|t: int| 0 <= t < k ==> !is_git_dir_node(tree.nodes@, child_of(tree.nodes@, i as int, t)),
    {
        let c = tree.nodes[i].children[k];
        proof {
            assert((i as int) < child_of(tree.nodes@, i as int, k as int) < tree.nodes@.len());
        }
        if tree.nodes[c].is_dir && is_git(&tree.nodes[c].name) {
            return true;
        }
    }
    false
}

/// Walks the subtree below node `i`, appending every newly found
/// repository root to `emitted`, never a path already there.
fn crawl_node_into(
    tree: &DirTree,
    i: usize,
    path: &RepoPath,
    depth: usize,
    max_depth: usize,
    emitted: &mut Vec<RepoPath>,
)
    requires
        tree.wf(),
        i < tree.nodes@.len(),
    ensures
        final(emitted)@.len() >= old(emitted)@.len(),
        forall|k: int| 0 <= k < old(emitted)@.len() ==> final(emitted)@[k] == old(emitted)@[k],
        paths_nodup(old(emitted)@) ==> paths_nodup(final(emitted)@),
        emitted_set(final(emitted)@) == emitted_set(old(emitted)@).union(
            repo_set_from(tree.nodes@, i as int, path@, depth as int, max_depth as int),
        ),
    decreases tree.nodes@.len() - i,
{
    let ghost nodes = tree.nodes@;
    let ghost start = emitted@;
    let has_git = node_contains_git(tree, i);
    if has_git {
        if !contains_path(emitted, path) {
            emitted.push(path.duplicate());
        }
    }
    let ghost mid = emitted@;
    let ghost gitset = (if node_has_git(nodes, i as int) {
        Set::<Seq<Seq<u8>>>::empty().insert(path@)
    } else {
        Set::<Seq<Seq<u8>>>::empty()
    });
    proof {
        assert(mid.len() >= start.len());
        assert(forall|k: int| 0 <= k < start.len() ==> mid[k] == start[k]);
        assert forall|q: Seq<Seq<u8>>| emitted_set(mid).contains(q) implies emitted_set(
            start,
        ).union(gitset).contains(q) by {
            let t = choose|t: int| 0 <= t < mid.len() && #[trigger] mid[t]@ == q;
            if t < start.len() {
                assert(emitted_contains(start, q));
            } else {
                assert(q == path@);
            }
        }
        assert forall|q: Seq<Seq<u8>>| emitted_set(start).union(gitset).contains(q)
            implies emitted_set(mid).contains(q) by {
            if emitted_set(start).contains(q) {
                let t = choose|t: int| 0 <= t < start.len() && #[trigger] start[t]@ == q;
                assert(mid[t]@ == q);
            } else {
                assert(q == path@);
                if emitted_contains(start, path@) {
                    let t = choose|t: int| 0 <= t < start.len() && #[trigger] start[t]@ == path@;
                    assert(mid[t]@ == q);
                } else {
                    assert(mid[mid.len() - 1]@ == q);
                }
            }
        }
        assert(emitted_set(mid) =~= emitted_set(start).union(gitset));
    }
    let n_children = tree.nodes[i].children.len();
    for k in 0..n_children
        invariant
            tree.wf(),
            i < nodes.len(),
            nodes == tree.nodes@,
            n_children == nodes[i as int].children@.len(),
            emitted@.len() >= mid.len(),
            forall|t: int| 0 <= t < mid.len() ==> emitted@[t] == mid[t],
            paths_nodup(mid) ==> paths_nodup(emitted@),
            emitted_set(emitted@).union(
                repo_set_children(nodes, i as int, k as int, path@, depth as int, max_depth as int),
            ) == emitted_set(mid).union(
                repo_set_children(nodes, i as int, 0, path@, depth as int, max_depth as int),
            ),
    {
        let c = tree.nodes[i].children[k];
        proof {
            assert((i as int) < child_of(nodes, i as int, k as int) < nodes.len());
        }
        let node_ref = &tree.nodes[c];
        let keep = if node_ref.is_dir {
            let hidden = node_ref.name.len() > 0 && node_ref.name[0] == DOT && !is_git(
                &node_ref.name,
            );
            !hidden
        } else {
            false
        };
        let go = depth < max_depth && keep && !is_git(&node_ref.name);
        proof {
            assert(go == spec_descends(
                nodes[c as int].name@,
                nodes[c as int].is_dir,
                depth as int,
                max_depth as int,
            ));
        }
        if go {
            let mut child_path = path.duplicate();
            child_path.push_segment(clone_bytes(&node_ref.name));
            let ghost before = emitted@;
            crawl_node_into(tree, c, &child_path, depth + 1, max_depth, emitted);
            proof {
                assert(emitted_set(emitted@).union(
                    repo_set_children(
                        nodes,
                        i as int,
                        k + 1,
                        path@,
                        depth as int,
                        max_depth as int,
                    ),
                ) =~= emitted_set(before).union(
                    repo_set_children(nodes, i as int, k as int, path@, depth as int, max_depth as int),
                ));
            }
        } else {
            proof {
                assert(repo_set_children(nodes, i as int, k + 1, path@, depth as int, max_depth as int)
                    == repo_set_children(
                    nodes,
                    i as int,
                    k as int,
                    path@,
                    depth as int,
                    max_depth as int,
                ));
            }
        }
    }
    proof {
        let rsc0 = repo_set_children(nodes, i as int, 0, path@, depth as int, max_depth as int);
        assert(repo_set_children(
            nodes,
            i as int,
            n_children as int,
            path@,
            depth as int,
            max_depth as int,
        ) =~= Set::<Seq<Seq<u8>>>::empty());
        assert(emitted_set(emitted@).union(Set::<Seq<Seq<u8>>>::empty()) =~= emitted_set(
            emitted@,
        ));
        assert(emitted_set(emitted@) == emitted_set(mid).union(rsc0));
        assert(emitted_set(start).union(gitset).union(rsc0) =~= emitted_set(start).union(
            repo_set_from(nodes, i as int, path@, depth as int, max_depth as int),
        ));
        assert(emitted_set(emitted@) =~= emitted_set(start).union(
            repo_set_from(nodes, i as int, path@, depth as int, max_depth as int),
        ));
        assert forall|k: int| 0 <= k < start.len() implies emitted@[k] == start[k] by {
            assert(emitted@[k] == mid[k]);
        }
    }
}

/// Crawls the tree below every root in `roots`, at most `max_depth`
/// directory levels below each, and returns every repository-root path
/// found, each exactly once.  A root index outside the tree is skipped, as
/// an unreadable starting directory would be.
pub fn crawl_tree(tree: &DirTree, roots: Vec<CrawlRoot>, max_depth: usize) -> (out: Vec<RepoPath>)
    requires
        tree.wf(),
    ensures
        paths_nodup(out@),
        emitted_set(out@) == roots_target(tree.nodes@, roots@, max_depth as int),
{
    let ghost roots0 = roots@;
    let mut rs = roots;
    let mut out: Vec<RepoPath> = Vec::new();
    proof {
        assert(emitted_set(out@).union(roots_target(tree.nodes@, rs@, max_depth as int))
            =~= roots_target(tree.nodes@, roots0, max_depth as int));
    }
    while rs.len() != 0
        invariant
            tree.wf(),
            paths_nodup(out@),
            emitted_set(out@).union(roots_target(tree.nodes@, rs@, max_depth as int))
                == roots_target(tree.nodes@, roots0, max_depth as int),
        decreases rs@.len(),
    {
        let ghost rs_before = rs@;
        let ghost out_before = out@;
        let r = rs.remove(0);
        if r.node < tree.nodes.len() {
            crawl_node_into(tree, r.node, &r.path, 0, max_depth, &mut out);
        } else {
            proof {
                assert(repo_set_from(tree.nodes@, r.node as int, r.path@, 0, max_depth as int)
                    =~= Set::<Seq<Seq<u8>>>::empty());
            }
        }
        proof {
            assert(emitted_set(out@).union(roots_target(tree.nodes@, rs@, max_depth as int))
                =~= emitted_set(out_before).union(
                roots_target(tree.nodes@, rs_before, max_depth as int),
            ));
        }
    }
    proof {
        assert(roots_target(tree.nodes@, rs@, max_depth as int) =~= Set::<Seq<Seq<u8>>>::empty());
        assert(emitted_set(out@) =~= emitted_set(out@).union(
            roots_target(tree.nodes@, rs@, max_depth as int),
        ));
    }
    out
}

/// Law: every repository-root path found below a node extends that node's
/// own path, and descends at most the remaining depth budget below it.
pub proof fn lemma_repo_set_depth(
    nodes: Seq<TreeNode>,
    i: int,
    path: Seq<Seq<u8>>,
    depth: int,
    max_depth: int,
    q: Seq<Seq<u8>>,
)
    requires
        repo_set_from(nodes, i, path, depth, max_depth).contains(q),
        depth <= max_depth,
    ensures
        path.is_prefix_of(q),
        q.len() <= path.len() + (max_depth - depth),
    decreases nodes.len() - i, nodes[i].children@.len() + 1,
{
    if node_has_git(nodes, i) && q == path {
        assert(path =~= q.subrange(0, path.len() as int));
    } else {
        lemma_repo_set_children_depth(nodes, i, 0, path, depth, max_depth, q);
    }
}

/// The children part of [`lemma_repo_set_depth`].
pub proof fn lemma_repo_set_children_depth(
    nodes: Seq<TreeNode>,
    i: int,
    k: int,
    path: Seq<Seq<u8>>,
    depth: int,
    max_depth: int,
    q: Seq<Seq<u8>>,
)
    requires
        repo_set_children(nodes, i, k, path, depth, max_depth).contains(q),
        depth <= max_depth,
    ensures
        path.is_prefix_of(q),
        q.len() <= path.len() + (max_depth - depth),
    decreases nodes.len() - i, nodes[i].children@.len() - k,
{
    let c = child_of(nodes, i, k);
    let child_path = path.push(nodes[c].name@);
    if i < c < nodes.len() && spec_descends(nodes[c].name@, nodes[c].is_dir, depth, max_depth)
        && repo_set_from(nodes, c, child_path, depth + 1, max_depth).contains(q) {
        lemma_repo_set_depth(nodes, c, child_path, depth + 1, max_depth, q);
        assert(path =~= q.subrange(0, path.len() as int)) by {
            assert(child_path =~= q.subrange(0, child_path.len() as int));
            assert forall|j: int| 0 <= j < path.len() implies path[j] == q[j] by {
                assert(child_path[j] == q[j]);
            }
        }
    } else {
        lemma_repo_set_children_depth(nodes, i, k + 1, path, depth, max_depth, q);
    }
}

/// Law: no repository-root path found below a node carries a hidden
/// segment, or a `.git` segment, below that node's own path.  In
/// particular a hidden directory is never descended into.
pub proof fn lemma_repo_set_names(
    nodes: Seq<TreeNode>,
    i: int,
    path: Seq<Seq<u8>>,
    depth: int,
    max_depth: int,
    q: Seq<Seq<u8>>,
)
    requires
        repo_set_from(nodes, i, path, depth, max_depth).contains(q),
    ensures
        path.is_prefix_of(q),
        forall|j: int|
            path.len() <= j < q.len() ==> !is_hidden_name(#[trigger] q[j]) && !is_git_name(q[j]),
    decreases nodes.len() - i, nodes[i].children@.len() + 1,
{
    if node_has_git(nodes, i) && q == path {
        assert(path =~= q.subrange(0, path.len() as int));
    } else {
        lemma_repo_set_children_names(nodes, i, 0, path, depth, max_depth, q);
    }
}

/// The children part of [`lemma_repo_set_names`].
pub proof fn lemma_repo_set_children_names(
    nodes: Seq<TreeNode>,
    i: int,
    k: int,
    path: Seq<Seq<u8>>,
    depth: int,
    max_depth: int,
    q: Seq<Seq<u8>>,
)
    requires
        repo_set_children(nodes, i, k, path, depth, max_depth).contains(q),
    ensures
        path.is_prefix_of(q),
        forall|j: int|
            path.len() <= j < q.len() ==> !is_hidden_name(#[trigger] q[j]) && !is_git_name(q[j]),
    decreases nodes.len() - i, nodes[i].children@.len() - k,
{
    let c = child_of(nodes, i, k);
    let child_path = path.push(nodes[c].name@);
    if i < c < nodes.len() && spec_descends(nodes[c].name@, nodes[c].is_dir, depth, max_depth)
        && repo_set_from(nodes, c, child_path, depth + 1, max_depth).contains(q) {
        lemma_repo_set_names(nodes, c, child_path, depth + 1, max_depth, q);
        assert(path =~= q.subrange(0, path.len() as int)) by {
            assert(child_path =~= q.subrange(0, child_path.len() as int));
            assert forall|j: int| 0 <= j < path.len() implies path[j] == q[j] by {
                assert(child_path[j] == q[j]);
            }
        }
        assert forall|j: int|
            path.len() <= j < q.len() implies !is_hidden_name(#[trigger] q[j]) && !is_git_name(
            q[j],
        ) by {
            if j == path.len() {
                assert(child_path =~= q.subrange(0, child_path.len() as int));
                assert(q[j] == child_path[j]);
                assert(q[j] == nodes[c].name@);
            }
        }
    } else {
        lemma_repo_set_children_names(nodes, i, k + 1, path, depth, max_depth, q);
    }
}

/// Law: two crawls of an unchanged tree from the same starting points
/// find exactly the same set of repositories, whatever order either run
/// emitted them in.
pub proof fn lemma_crawl_deterministic(
    nodes: Seq<TreeNode>,
    roots: Seq<CrawlRoot>,
    max_depth: int,
    out1: Seq<RepoPath>,
    out2: Seq<RepoPath>,
)
    requires
        emitted_set(out1) == roots_target(nodes, roots, max_depth),
        emitted_set(out2) == roots_target(nodes, roots, max_depth),
    ensures
        emitted_set(out1) == emitted_set(out2),
{
}

/// Law: with depth bound `max_depth`, every path the crawl emits lies at
/// most `max_depth` directory levels below one of the starting points.
pub proof fn lemma_crawl_depth_bounded(
    nodes: Seq<TreeNode>,
    roots: Seq<CrawlRoot>,
    max_depth: int,
    q: Seq<Seq<u8>>,
)
    requires
        roots_target(nodes, roots, max_depth).contains(q),
        max_depth >= 0,
    ensures
        exists|r: int|
            0 <= r < roots.len() && (#[trigger] roots[r].path@).is_prefix_of(q) && q.len()
                <= roots[r].path@.len() + max_depth,
    decreases roots.len(),
{
    if roots.len() > 0 {
        if repo_set_from(nodes, roots[0].node as int, roots[0].path@, 0, max_depth).contains(q) {
            lemma_repo_set_depth(nodes, roots[0].node as int, roots[0].path@, 0, max_depth, q);
            assert((roots[0].path@).is_prefix_of(q) && q.len() <= roots[0].path@.len()
                + max_depth);
        } else {
            lemma_crawl_depth_bounded(nodes, roots.drop_first(), max_depth, q);
            let r = choose|r: int|
                0 <= r < roots.drop_first().len() && (#[trigger] roots.drop_first()[r].path@).is_prefix_of(
                    q,
                ) && q.len() <= roots.drop_first()[r].path@.len() + max_depth;
            assert(roots[r + 1] == roots.drop_first()[r]);
            assert((roots[r + 1].path@).is_prefix_of(q) && q.len() <= roots[r + 1].path@.len()
                + max_depth);
        }
    }
}

/// Law: every path the crawl emits extends one of the starting points by
/// segments that are neither hidden nor `.git`; a directory such as
/// `.hidden` is never descended into, whatever the depth budget.
pub proof fn lemma_crawl_skips_hidden(
    nodes: Seq<TreeNode>,
    roots: Seq<CrawlRoot>,
    max_depth: int,
    q: Seq<Seq<u8>>,
)
    requires
        roots_target(nodes, roots, max_depth).contains(q),
    ensures
        exists|r: int|
            0 <= r < roots.len() && (#[trigger] roots[r].path@).is_prefix_of(q) && (forall|j: int|
                roots[r].path@.len() <= j < q.len() ==> !is_hidden_name(#[trigger] q[j])
                    && !is_git_name(q[j])),
    decreases roots.len(),
{
    if roots.len() > 0 {
        if repo_set_from(nodes, roots[0].node as int, roots[0].path@, 0, max_depth).contains(q) {
            lemma_repo_set_names(nodes, roots[0].node as int, roots[0].path@, 0, max_depth, q);
            assert((roots[0].path@).is_prefix_of(q) && (forall|j: int|
                roots[0].path@.len() <= j < q.len() ==> !is_hidden_name(#[trigger] q[j])
                    && !is_git_name(q[j])));
        } else {
            lemma_crawl_skips_hidden(nodes, roots.drop_first(), max_depth, q);
            let r = choose|r: int|
                0 <= r < roots.drop_first().len() && (#[trigger] roots.drop_first()[r].path@).is_prefix_of(
                    q,
                ) && (forall|j: int|
                    roots.drop_first()[r].path@.len() <= j < q.len() ==> !is_hidden_name(
                        #[trigger] q[j],
                    ) && !is_git_name(q[j]));
            assert(roots[r + 1] == roots.drop_first()[r]);
            assert((roots[r + 1].path@).is_prefix_of(q) && (forall|j: int|
                roots[r + 1].path@.len() <= j < q.len() ==> !is_hidden_name(#[trigger] q[j])
                    && !is_git_name(q[j])));
        }
    }
}

} // verus!
