use vstd::prelude::*;

verus! {

/// A path relative to the root of a tree, as the names of its components.
pub type PathModel = Seq<Seq<char>>;

/// One entry of a directory listing, as its name and whether it is a directory.
pub type EntryModel = (Seq<char>, bool);

/// A path relative to the root of the source tree and of its snapshot.
pub struct RelPath {
    pub parts: Vec<String>,
}

impl View for RelPath {
    type V = PathModel;

    open spec fn view(&self) -> PathModel {
        parts_view(self.parts@)
    }
}

pub open spec fn parts_view(v: Seq<String>) -> PathModel {
    v.map_values(|s: String| s@)
}

pub open spec fn paths_view(v: Seq<RelPath>) -> Seq<PathModel> {
    v.map_values(|p: RelPath| p@)
}

proof fn lemma_parts_view_push(v: Seq<String>, s: String)
    ensures
        parts_view(v.push(s)) == parts_view(v).push(s@),
{
    assert(parts_view(v.push(s)) =~= parts_view(v).push(s@));
}

proof fn lemma_paths_view_push(v: Seq<RelPath>, p: RelPath)
    ensures
        paths_view(v.push(p)) == paths_view(v).push(p@),
{
    assert(paths_view(v.push(p)) =~= paths_view(v).push(p@));
}

impl RelPath {
    /// The root itself: no components.
    pub fn root() -> (r: RelPath)
        ensures
            r@ == Seq::<Seq<char>>::empty(),
    {
        let r = RelPath { parts: Vec::new() };
        assert(r@ =~= Seq::<Seq<char>>::empty());
        r
    }

    /// The path of the entry `name` inside this directory.
    pub fn child(&self, name: &String) -> (r: RelPath)
        ensures
            r@ == self@.push(name@),
    {
        let mut parts: Vec<String> = Vec::new();
        let n = self.parts.len();
        let mut i: usize = 0;
        while i < n
            invariant
                n == self.parts@.len(),
                0 <= i <= n,
                parts_view(parts@) =~= self@.take(i as int),
            decreases n - i,
        {
            let s = self.parts[i].clone();
            assert(s@ == self@[i as int]);
            let ghost prev = parts@;
            parts.push(s);
            proof {
                lemma_parts_view_push(prev, s);
            }
            i = i + 1;
            assert(parts_view(parts@) =~= self@.take(i as int));
        }
        let last = name.clone();
        assert(parts_view(parts@) =~= self@);
        let ghost prev = parts@;
        parts.push(last);
        proof {
            lemma_parts_view_push(prev, last);
        }
        let r = RelPath { parts };
        assert(r@ =~= self@.push(name@));
        r
    }
}

/// An entry of a listed directory: its file name, and whether it is a
/// directory (after following links). Anything else is copied as a file.
pub struct DirEntry {
    pub name: String,
    pub is_dir: bool,
}

impl View for DirEntry {
    type V = EntryModel;

    open spec fn view(&self) -> EntryModel {
        (self.name@, self.is_dir)
    }
}

pub open spec fn entries_view(es: Seq<DirEntry>) -> Seq<EntryModel> {
    es.map_values(|e: DirEntry| e@)
}

/// The directories of a listing of `dir`, as paths, in listing order.
pub open spec fn subdirs(dir: PathModel, es: Seq<EntryModel>) -> Seq<PathModel>
    decreases es.len(),
{
    if es.len() == 0 {
        Seq::empty()
    } else {
        let rest = subdirs(dir, es.drop_last());
        if es.last().1 {
            rest.push(dir.push(es.last().0))
        } else {
            rest
        }
    }
}

/// The files of a listing of `dir`, as paths, in listing order.
pub open spec fn file_copies(dir: PathModel, es: Seq<EntryModel>) -> Seq<PathModel>
    decreases es.len(),
{
    if es.len() == 0 {
        Seq::empty()
    } else {
        let rest = file_copies(dir, es.drop_last());
        if !es.last().1 {
            rest.push(dir.push(es.last().0))
        } else {
            rest
        }
    }
}

/// The work list of a snapshot: directories, relative to the root, that are
/// still to be created in the destination and listed in the source. The walk
/// uses no recursion, so the depth of a tree is not bounded by the stack.
pub struct SnapshotWalk {
    pending: Vec<RelPath>,
}

impl View for SnapshotWalk {
    type V = Seq<PathModel>;

    closed spec fn view(&self) -> Seq<PathModel> {
        paths_view(self.pending@)
    }
}

impl SnapshotWalk {
    /// A walk that starts at the root.
    pub fn new() -> (w: SnapshotWalk)
        ensures
            w@ == seq![Seq::<Seq<char>>::empty()],
    {
        let mut pending: Vec<RelPath> = Vec::new();
        pending.push(RelPath::root());
        let w = SnapshotWalk { pending };
        assert(w@ =~= seq![Seq::<Seq<char>>::empty()]);
        w
    }

    /// Whether no directory is left to visit.
    pub fn is_done(&self) -> (r: bool)
        ensures
            r == (self@.len() == 0),
    {
        self.pending.len() == 0
    }

    /// Takes the next directory to visit: the one added last.
    pub fn next_dir(&mut self) -> (r: Option<RelPath>)
        ensures
            old(self)@.len() == 0 ==> r is None && final(self)@ == old(self)@,
            old(self)@.len() > 0 ==> r is Some && r->0@ == old(self)@.last()
                && final(self)@ == old(self)@.drop_last(),
    {
        let r = self.pending.pop();
        proof {
            if old(self)@.len() > 0 {
                assert(self@ =~= old(self)@.drop_last());
            }
        }
        r
    }

    /// Takes the listing of the visited directory `dir`: queues each of its
    /// subdirectories and returns the paths of its files, which the caller
    /// copies from the source to the same path in the destination.
    pub fn visit(&mut self, dir: &RelPath, entries: &Vec<DirEntry>) -> (copies: Vec<RelPath>)
        ensures
            final(self)@ == old(self)@ + subdirs(dir@, entries_view(entries@)),
            paths_view(copies@) == file_copies(dir@, entries_view(entries@)),
    {
        let mut copies: Vec<RelPath> = Vec::new();
        let n = entries.len();
        let mut i: usize = 0;
        while i < n
            invariant
                n == entries@.len(),
                0 <= i <= n,
                self@ == old(self)@ + subdirs(dir@, entries_view(entries@.take(i as int))),
                paths_view(copies@) == file_copies(
                    dir@,
                    entries_view(entries@.take(i as int)),
                ),
            decreases n - i,
        {
            let e = &entries[i];
            let path = dir.child(&e.name);
            let ghost before = entries@.take(i as int);
            let ghost after = entries@.take(i + 1);
            proof {
                assert(entries_view(after).drop_last() =~= entries_view(before));
                assert(entries_view(after).last() == e@);
            }
            if e.is_dir {
                let ghost old_pending = self.pending@;
                self.pending.push(path);
                proof {
                    lemma_paths_view_push(old_pending, path);
                }
                assert(self@ =~= old(self)@ + subdirs(dir@, entries_view(after)));
                assert(paths_view(copies@) =~= file_copies(
                    dir@,
                    entries_view(after),
                ));
            } else {
                let ghost old_copies = copies@;
                copies.push(path);
                proof {
                    lemma_paths_view_push(old_copies, path);
                }
                assert(paths_view(copies@) =~= file_copies(
                    dir@,
                    entries_view(after),
                ));
                assert(self@ =~= old(self)@ + subdirs(dir@, entries_view(after)));
            }
            i = i + 1;
        }
        assert(entries@.take(n as int) =~= entries@);
        copies
    }
}

/// A source tree as the walk sees it: each directory, by its path relative to
/// the root, mapped to its listing.
pub type TreeModel = Map<PathModel, Seq<EntryModel>>;

/// A tree is valid when the root is one of its directories, every directory
/// that a listing names is one too, and every directory lies below the root
/// through listed directories.
pub open spec fn tree_valid(t: TreeModel) -> bool {
    &&& t.contains_key(Seq::empty())
    &&& forall|d: PathModel, i: int|
        #![trigger t[d][i]]
        t.contains_key(d) && 0 <= i < t[d].len() && t[d][i].1 ==> t.contains_key(
            d.push(t[d][i].0),
        )
    &&& forall|d: PathModel, k: int|
        #![trigger t.contains_key(d), d.take(k)]
        t.contains_key(d) && 0 <= k < d.len() ==> t.contains_key(d.take(k)) && t[d.take(
            k,
        )].contains((d[k], true))
}

/// The relative paths of the regular files of a tree.
pub open spec fn tree_files(t: TreeModel) -> Set<PathModel> {
    Set::new(
        |f: PathModel|
            f.len() > 0 && t.contains_key(f.drop_last()) && t[f.drop_last()].contains(
                (f.last(), false),
            ),
    )
}

/// What holds between steps of a walk over `t`: the pending directories are
/// directories of `t`, every copied path is a file of `t`, and each file of
/// `t` is copied already or lies below a pending directory.
pub open spec fn walk_covers(t: TreeModel, pending: Seq<PathModel>, copied: Set<PathModel>) -> bool {
    &&& forall|j: int| 0 <= j < pending.len() ==> t.contains_key(#[trigger] pending[j])
    &&& copied.subset_of(tree_files(t))
    &&& forall|f: PathModel|
        #[trigger] tree_files(t).contains(f) ==> copied.contains(f) || exists|j: int|
            0 <= j < pending.len() && pending[j].len() < f.len() && f.take(
                pending[j].len() as int,
            ) == #[trigger] pending[j]
}

proof fn lemma_subdirs_members(dir: PathModel, es: Seq<EntryModel>)
    ensures
        forall|x: PathModel| #[trigger]
            subdirs(dir, es).contains(x) ==> exists|i: int|
                0 <= i < es.len() && es[i].1 && x == dir.push(#[trigger] es[i].0),
        forall|i: int|
            0 <= i < es.len() && #[trigger] es[i].1 ==> subdirs(dir, es).contains(
                dir.push(es[i].0),
            ),
    decreases es.len(),
{
    if es.len() > 0 {
        let init = es.drop_last();
        lemma_subdirs_members(dir, init);
        assert forall|x: PathModel| #[trigger]
            subdirs(dir, es).contains(x) implies exists|i: int|
            0 <= i < es.len() && es[i].1 && x == dir.push(#[trigger] es[i].0) by {
            if subdirs(dir, init).contains(x) {
                let i = choose|i: int| 0 <= i < init.len() && init[i].1 && x == dir.push(
                    #[trigger] init[i].0,
                );
                assert(es[i] == init[i]);
            } else {
                assert(x == dir.push(es[es.len() - 1].0));
            }
        }
        assert forall|i: int|
            0 <= i < es.len() && #[trigger] es[i].1 implies subdirs(dir, es).contains(
            dir.push(es[i].0),
        ) by {
            if i < es.len() - 1 {
                assert(init[i] == es[i]);
                assert(init[i].1);
                let y = dir.push(es[i].0);
                let w = choose|w: int| 0 <= w < subdirs(dir, init).len() && subdirs(dir, init)[w] == y;
                assert(subdirs(dir, es)[w] == y);
            } else {
                assert(subdirs(dir, es) == subdirs(dir, init).push(dir.push(es[i].0)));
                assert(subdirs(dir, es).last() == dir.push(es[i].0));
            }
        }
    }
}

proof fn lemma_file_copies_members(dir: PathModel, es: Seq<EntryModel>)
    ensures
        forall|x: PathModel| #[trigger]
            file_copies(dir, es).contains(x) ==> exists|i: int|
                0 <= i < es.len() && !es[i].1 && x == dir.push(#[trigger] es[i].0),
        forall|i: int|
            0 <= i < es.len() && !(#[trigger] es[i]).1 ==> file_copies(dir, es).contains(
                dir.push(es[i].0),
            ),
    decreases es.len(),
{
    if es.len() > 0 {
        let init = es.drop_last();
        lemma_file_copies_members(dir, init);
        assert forall|x: PathModel| #[trigger]
            file_copies(dir, es).contains(x) implies exists|i: int|
            0 <= i < es.len() && !es[i].1 && x == dir.push(#[trigger] es[i].0) by {
            if file_copies(dir, init).contains(x) {
                let i = choose|i: int| 0 <= i < init.len() && !init[i].1 && x == dir.push(
                    #[trigger] init[i].0,
                );
                assert(es[i] == init[i]);
            } else {
                assert(x == dir.push(es[es.len() - 1].0));
            }
        }
        assert forall|i: int|
            0 <= i < es.len() && !(#[trigger] es[i]).1 implies file_copies(dir, es).contains(
            dir.push(es[i].0),
        ) by {
            if i < es.len() - 1 {
                assert(init[i] == es[i]);
                let y = dir.push(es[i].0);
                let w = choose|w: int|
                    0 <= w < file_copies(dir, init).len() && file_copies(dir, init)[w] == y;
                assert(file_copies(dir, es)[w] == y);
            } else {
                assert(file_copies(dir, es) == file_copies(dir, init).push(dir.push(es[i].0)));
                assert(file_copies(dir, es).last() == dir.push(es[i].0));
            }
        }
    }
}

/// A walk over a valid tree starts covered: nothing is copied and the root is
/// pending.
pub proof fn lemma_walk_start(t: TreeModel)
    requires
        tree_valid(t),
    ensures
        walk_covers(t, seq![Seq::<Seq<char>>::empty()], Set::empty()),
{
    let pending = seq![Seq::<Seq<char>>::empty()];
    assert forall|f: PathModel| #[trigger] tree_files(t).contains(f) implies exists|j: int|
        0 <= j < pending.len() && pending[j].len() < f.len() && f.take(pending[j].len() as int)
            == #[trigger] pending[j] by {
        assert(f.take(0) =~= pending[0]);
    }
}

/// One step of a walk keeps it covered: taking the last pending directory,
/// queueing its subdirectories and copying its files, as `next_dir` and
/// `visit` do when given that directory's listing in `t`.
pub proof fn lemma_walk_step(t: TreeModel, pending: Seq<PathModel>, copied: Set<PathModel>)
    requires
        tree_valid(t),
        walk_covers(t, pending, copied),
        pending.len() > 0,
    ensures
        walk_covers(
            t,
            pending.drop_last() + subdirs(pending.last(), t[pending.last()]),
            copied + file_copies(pending.last(), t[pending.last()]).to_set(),
        ),
{
    let d = pending.last();
    let es = t[d];
    let rest = pending.drop_last();
    let added = subdirs(d, es);
    let next = rest + added;
    let fresh = file_copies(d, es);
    let copied2 = copied + fresh.to_set();
    lemma_subdirs_members(d, es);
    lemma_file_copies_members(d, es);
    assert(t.contains_key(pending[pending.len() - 1]));
    assert forall|j: int| 0 <= j < next.len() implies t.contains_key(#[trigger] next[j]) by {
        if j < rest.len() {
            assert(next[j] == pending[j]);
        } else {
            let x = added[j - rest.len()];
            assert(added.contains(x));
            let i = choose|i: int| 0 <= i < es.len() && es[i].1 && x == d.push(#[trigger] es[i].0);
            assert(t[d][i].1);
        }
    }
    assert forall|f: PathModel| copied2.contains(f) implies #[trigger] tree_files(t).contains(f) by {
        if !copied.contains(f) {
            assert(fresh.contains(f));
            let i = choose|i: int| 0 <= i < es.len() && !es[i].1 && f == d.push(#[trigger] es[i].0);
            assert(f.drop_last() =~= d);
            assert(es[i] == (f.last(), false));
        }
    }
    assert forall|f: PathModel| #[trigger] tree_files(t).contains(f) implies copied2.contains(f)
        || exists|j: int|
        0 <= j < next.len() && next[j].len() < f.len() && f.take(next[j].len() as int)
            == #[trigger] next[j] by {
        if !copied.contains(f) {
            let j = choose|j: int|
                0 <= j < pending.len() && pending[j].len() < f.len() && f.take(
                    pending[j].len() as int,
                ) == #[trigger] pending[j];
            if j < rest.len() {
                assert(next[j] == pending[j]);
            } else {
                assert(pending[j] == d);
                let g = f.drop_last();
                if d.len() == g.len() {
                    assert(g =~= d);
                    let i = choose|i: int| 0 <= i < es.len() && es[i] == (f.last(), false);
                    assert(!es[i].1);
                    assert(d.push(es[i].0) =~= f);
                    assert(fresh.contains(f));
                } else {
                    let k = d.len() as int;
                    assert(t.contains_key(g));
                    assert(g.take(k) =~= d);
                    assert(t.contains_key(g.take(k)) && t[g.take(k)].contains((g[k], true)));
                    let i = choose|i: int| 0 <= i < es.len() && es[i] == (g[k], true);
                    assert(es[i].1);
                    let x = d.push(g[k]);
                    assert(x =~= f.take(k + 1));
                    assert(added.contains(x));
                    let m = choose|m: int| 0 <= m < added.len() && added[m] == x;
                    assert(next[rest.len() + m] == x);
                }
            }
        }
    }
}

/// Snapshot fidelity: once no directory is pending, the walk has copied
/// exactly the regular files of the tree, each to its own relative path.
pub proof fn lemma_walk_finish(t: TreeModel, copied: Set<PathModel>)
    requires
        walk_covers(t, Seq::empty(), copied),
    ensures
        copied == tree_files(t),
{
    assert(copied =~= tree_files(t));
}

} // verus!
