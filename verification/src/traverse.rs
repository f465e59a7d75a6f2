use vstd::prelude::*;
use vstd::string::*;
use crate::listing::{KeyOrDir, KeyOrDirView};
use crate::path::{Path, valid_component};
use crate::text::{name_matches, spec_matches};
use crate::tree::{PathView, listing_wf, TreeNode, TreeChild, TreeNodeView, TreeChildView,
    spec_node_at, spec_child, spec_listing, listing_of_entries, entry_of, spec_matching_leaves,
    entries_leaves, child_leaves, tree_wf, children_view, children_view_index, child_view,
    node_size, entries_size, child_size, lemma_node_at_push, lemma_node_at_wf, tree_node_view,
    lemma_child_resolution};
use vstd::pervasive::unreached;

verus! {

/// The matching keys of one listing, as full paths, in listing order.
pub open spec fn spec_matched_keys(prefix: PathView, es: Seq<KeyOrDirView>, pattern: Seq<char>) -> Seq<
    PathView,
>
    decreases es.len(),
{
    if es.len() == 0 {
        Seq::empty()
    } else {
        let front = spec_matched_keys(prefix, es.drop_last(), pattern);
        let e = es.last();
        if e is Key && spec_matches(e->Key_0, pattern) {
            front.push(prefix.push(e->Key_0))
        } else {
            front
        }
    }
}

/// The sub-directories of one listing, as full paths, in listing order.
pub open spec fn spec_dir_children(prefix: PathView, es: Seq<KeyOrDirView>) -> Seq<PathView>
    decreases es.len(),
{
    if es.len() == 0 {
        Seq::empty()
    } else {
        let front = spec_dir_children(prefix, es.drop_last());
        let e = es.last();
        if e is Dir {
            front.push(prefix.push(e->Dir_0))
        } else {
            front
        }
    }
}

/// What the matched keys of a listing look like: each is the prefix plus one
/// matching key name, and every matching key is there.
pub proof fn lemma_matched_keys_facts(prefix: PathView, es: Seq<KeyOrDirView>, pattern: Seq<char>)
    ensures
        forall|k: int|
            0 <= k < spec_matched_keys(prefix, es, pattern).len() ==> {
                let p = #[trigger] spec_matched_keys(prefix, es, pattern)[k];
                &&& p.len() == prefix.len() + 1
                &&& p.drop_last() == prefix
                &&& exists|i: int|
                    0 <= i < es.len() && #[trigger] es[i] is Key && es[i]->Key_0 == p.last()
                        && spec_matches(es[i]->Key_0, pattern)
            },
        forall|i: int|
            0 <= i < es.len() && #[trigger] es[i] is Key && spec_matches(es[i]->Key_0, pattern)
                ==> spec_matched_keys(prefix, es, pattern).contains(prefix.push(es[i]->Key_0)),
        listing_wf(es) ==> spec_matched_keys(prefix, es, pattern).no_duplicates(),
    decreases es.len(),
{
    if es.len() > 0 {
        let front = es.drop_last();
        lemma_matched_keys_facts(prefix, front, pattern);
        let mk = spec_matched_keys(prefix, es, pattern);
        let mkf = spec_matched_keys(prefix, front, pattern);
        let e = es.last();
        assert forall|k: int| 0 <= k < mk.len() implies {
            let p = #[trigger] mk[k];
            &&& p.len() == prefix.len() + 1
            &&& p.drop_last() == prefix
            &&& exists|i: int|
                0 <= i < es.len() && #[trigger] es[i] is Key && es[i]->Key_0 == p.last()
                    && spec_matches(es[i]->Key_0, pattern)
        } by {
            if k < mkf.len() {
                assert(mk[k] == mkf[k]);
                let i = choose|i: int|
                    0 <= i < front.len() && #[trigger] front[i] is Key && front[i]->Key_0
                        == mkf[k].last() && spec_matches(front[i]->Key_0, pattern);
                assert(es[i] == front[i]);
            } else {
                let p = prefix.push(e->Key_0);
                assert(mk[k] == p);
                assert(p.drop_last() =~= prefix);
                assert(p.last() == e->Key_0);
                assert(es[es.len() - 1] is Key && es[es.len() - 1]->Key_0 == p.last()
                    && spec_matches(es[es.len() - 1]->Key_0, pattern));
            }
        }
        assert forall|i: int|
            0 <= i < es.len() && #[trigger] es[i] is Key && spec_matches(
                es[i]->Key_0,
                pattern,
            ) implies mk.contains(prefix.push(es[i]->Key_0)) by {
            if i < es.len() - 1 {
                assert(front[i] == es[i]);
                assert(mkf.contains(prefix.push(es[i]->Key_0)));
                let w = choose|w: int| 0 <= w < mkf.len() && mkf[w] == prefix.push(es[i]->Key_0);
                assert(mk[w] == prefix.push(es[i]->Key_0));
            } else {
                assert(mk[mk.len() - 1] == prefix.push(es[i]->Key_0));
            }
        }
        if listing_wf(es) {
            assert(listing_wf(front)) by {
                assert(forall|i: int| 0 <= i < front.len() ==> front[i] == es[i]);
            }
            if e is Key && spec_matches(e->Key_0, pattern) {
                let p = prefix.push(e->Key_0);
                assert forall|k: int| 0 <= k < mkf.len() implies mkf[k] != p by {
                    let i = choose|i: int|
                        0 <= i < front.len() && #[trigger] front[i] is Key && front[i]->Key_0
                            == mkf[k].last() && spec_matches(front[i]->Key_0, pattern);
                    assert(es[i] == front[i]);
                    assert(es[i]->Key_0 != es[es.len() - 1]->Key_0);
                    assert(p.last() == e->Key_0);
                }
                assert(mk.no_duplicates()) by {
                    assert(forall|a: int| 0 <= a < mkf.len() ==> mk[a] == mkf[a]);
                    assert(mk[mk.len() - 1] == p);
                }
            }
        }
    }
}

/// What the enqueued children of a listing look like: each is the prefix
/// plus one sub-directory name — never a key's name unless a sub-directory
/// shares it — every sub-directory is there, and in a well-formed listing no
/// child is enqueued twice.
pub proof fn lemma_dir_children_facts(prefix: PathView, es: Seq<KeyOrDirView>)
    ensures
        forall|k: int|
            0 <= k < spec_dir_children(prefix, es).len() ==> {
                let p = #[trigger] spec_dir_children(prefix, es)[k];
                &&& p.len() == prefix.len() + 1
                &&& p.drop_last() == prefix
                &&& exists|i: int|
                    0 <= i < es.len() && #[trigger] es[i] is Dir && es[i]->Dir_0 == p.last()
            },
        forall|i: int|
            0 <= i < es.len() && #[trigger] es[i] is Dir ==> spec_dir_children(
                prefix,
                es,
            ).contains(prefix.push(es[i]->Dir_0)),
        listing_wf(es) ==> spec_dir_children(prefix, es).no_duplicates(),
    decreases es.len(),
{
    if es.len() > 0 {
        let front = es.drop_last();
        lemma_dir_children_facts(prefix, front);
        let dc = spec_dir_children(prefix, es);
        let dcf = spec_dir_children(prefix, front);
        let e = es.last();
        assert forall|k: int| 0 <= k < dc.len() implies {
            let p = #[trigger] dc[k];
            &&& p.len() == prefix.len() + 1
            &&& p.drop_last() == prefix
            &&& exists|i: int| 0 <= i < es.len() && #[trigger] es[i] is Dir && es[i]->Dir_0
                == p.last()
        } by {
            if k < dcf.len() {
                assert(dc[k] == dcf[k]);
                let i = choose|i: int|
                    0 <= i < front.len() && #[trigger] front[i] is Dir && front[i]->Dir_0
                        == dcf[k].last();
                assert(es[i] == front[i]);
            } else {
                let p = prefix.push(e->Dir_0);
                assert(dc[k] == p);
                assert(p.drop_last() =~= prefix);
                assert(es[es.len() - 1] is Dir && es[es.len() - 1]->Dir_0 == p.last());
            }
        }
        assert forall|i: int|
            0 <= i < es.len() && #[trigger] es[i] is Dir implies dc.contains(
            prefix.push(es[i]->Dir_0),
        ) by {
            if i < es.len() - 1 {
                assert(front[i] == es[i]);
                assert(dcf.contains(prefix.push(es[i]->Dir_0)));
                let w = choose|w: int| 0 <= w < dcf.len() && dcf[w] == prefix.push(es[i]->Dir_0);
                assert(dc[w] == prefix.push(es[i]->Dir_0));
            } else {
                assert(dc[dc.len() - 1] == prefix.push(es[i]->Dir_0));
            }
        }
        if listing_wf(es) {
            assert(listing_wf(front)) by {
                assert(forall|i: int| 0 <= i < front.len() ==> front[i] == es[i]);
            }
            if e is Dir {
                let p = prefix.push(e->Dir_0);
                assert forall|k: int| 0 <= k < dcf.len() implies dcf[k] != p by {
                    let i = choose|i: int|
                        0 <= i < front.len() && #[trigger] front[i] is Dir && front[i]->Dir_0
                            == dcf[k].last();
                    assert(es[i] == front[i]);
                    assert(es[i]->Dir_0 != es[es.len() - 1]->Dir_0);
                    assert(p.last() == e->Dir_0);
                }
                assert(dc.no_duplicates()) by {
                    assert(forall|a: int| 0 <= a < dcf.len() ==> dc[a] == dcf[a]);
                    assert(dc[dc.len() - 1] == p);
                }
            }
        }
    }
}

/// A listing with no sub-directories enqueues nothing: together with
/// `feed`'s contract, a key is never descended into, so a level made of
/// leaves alone ends the traversal.
pub proof fn lemma_keys_never_enqueued(prefix: PathView, es: Seq<KeyOrDirView>)
    requires
        forall|i: int| 0 <= i < es.len() ==> (#[trigger] es[i]) is Key,
    ensures
        spec_dir_children(prefix, es).len() == 0,
    decreases es.len(),
{
    if es.len() > 0 {
        let front = es.drop_last();
        assert(forall|i: int| 0 <= i < front.len() ==> front[i] == es[i]);
        lemma_keys_never_enqueued(prefix, front);
    }
}

/// Is `s` usable as one path component?
pub fn component_ok(s: &str) -> (r: bool)
    ensures
        r == valid_component(s@),
{
    let n = s.unicode_len();
    if n == 0 {
        return false;
    }
    let mut i: usize = 0;
    while i < n
        invariant
            i <= n,
            n == s@.len(),
            forall|k: int| 0 <= k < i ==> s@[k] != '/',
        decreases n - i,
    {
        if s.get_char(i) == '/' {
            return false;
        }
        i = i + 1;
    }
    true
}

/// Is a listing well formed: valid component names, no two sub-directories
/// alike, no two keys alike? The traversal asks this of everything it is
/// fed; a caller holding a raw listing checks it here first.
pub fn entries_ok(entries: &Vec<KeyOrDir>) -> (r: bool)
    ensures
        r == listing_wf(entries.deep_view()),
{
    let ghost ev = entries.deep_view();
    let n = entries.len();
    let mut i: usize = 0;
    while i < n
        invariant
            i <= n,
            ev == entries.deep_view(),
            n == ev.len(),
            forall|k: int| 0 <= k < i ==> valid_component((#[trigger] ev[k]).name()),
            forall|k: int, l: int|
                0 <= k < l < i && #[trigger] ev[k] is Dir && #[trigger] ev[l] is Dir ==> ev[k]->Dir_0
                    != ev[l]->Dir_0,
            forall|k: int, l: int|
                0 <= k < l < i && #[trigger] ev[k] is Key && #[trigger] ev[l] is Key ==> ev[k]->Key_0
                    != ev[l]->Key_0,
        decreases n - i,
    {
        proof {
            assert(ev[i as int] == entries@[i as int]@);
        }
        let name_i = match &entries[i] {
            KeyOrDir::Key(s) => {
                proof {
                    assert(ev[i as int].name() == s@);
                }
                s
            },
            KeyOrDir::Dir(s) => {
                proof {
                    assert(ev[i as int].name() == s@);
                }
                s
            },
        };
        if !component_ok(name_i.as_str()) {
            proof {
                assert(!listing_wf(ev));
            }
            return false;
        }
        let mut j: usize = 0;
        while j < i
            invariant
                j <= i,
                i < n,
                ev == entries.deep_view(),
                n == ev.len(),
                forall|k: int|
                    0 <= k < j ==> !((#[trigger] ev[k]) is Dir && ev[i as int] is Dir
                        && ev[k]->Dir_0 == ev[i as int]->Dir_0),
                forall|k: int|
                    0 <= k < j ==> !((#[trigger] ev[k]) is Key && ev[i as int] is Key
                        && ev[k]->Key_0 == ev[i as int]->Key_0),
            decreases i - j,
        {
            proof {
                assert(ev[j as int] == entries@[j as int]@);
                assert(ev[i as int] == entries@[i as int]@);
            }
            match (&entries[j], &entries[i]) {
                (KeyOrDir::Key(a), KeyOrDir::Key(b)) => {
                    proof {
                        assert(ev[j as int] == KeyOrDirView::Key(a@));
                        assert(ev[i as int] == KeyOrDirView::Key(b@));
                    }
                    if *a == *b {
                        proof {
                            assert(!listing_wf(ev));
                        }
                        return false;
                    }
                },
                (KeyOrDir::Dir(a), KeyOrDir::Dir(b)) => {
                    proof {
                        assert(ev[j as int] == KeyOrDirView::Dir(a@));
                        assert(ev[i as int] == KeyOrDirView::Dir(b@));
                    }
                    if *a == *b {
                        proof {
                            assert(!listing_wf(ev));
                        }
                        return false;
                    }
                },
                _ => {},
            }
            j = j + 1;
        }
        i = i + 1;
    }
    true
}

/// Breadth-first traversal state. The frontier holds the directories of the
/// current level; `idx` marks how many of them are already listed; `next`
/// collects the directories discovered for the level below; `results`
/// collects the matching leaves of every level so far. The ghost `visited`
/// log records each path whose listing was consumed, and `wf` carries the
/// shape facts that keep it free of repeats: every frontier path has exactly
/// `level` components, every enqueued child one more, and a child's parent
/// is always an already-listed frontier path.
pub struct Traversal {
    pub frontier: Vec<Path>,
    pub idx: usize,
    pub next: Vec<Path>,
    pub results: Vec<Path>,
    pub level: Ghost<nat>,
    pub visited: Ghost<Seq<PathView>>,
}

impl Traversal {
    /// The paths still owed a listing: the rest of this level, then the next
    /// level so far.
    pub open spec fn pending(&self) -> Seq<PathView> {
        self.frontier.deep_view().skip(self.idx as int) + self.next.deep_view()
    }

    /// The path whose listing is owed next.
    pub open spec fn spec_current(&self) -> PathView {
        self.frontier.deep_view()[self.idx as int]
    }

    /// The shape invariant of the traversal.
    pub open spec fn wf(&self) -> bool {
        let fv = self.frontier.deep_view();
        let nv = self.next.deep_view();
        let vis = self.visited@;
        let lvl = self.level@;
        &&& self.idx <= fv.len()
        &&& (fv.len() == 0 ==> self.idx == 0 && nv.len() == 0)
        &&& (fv.len() > 0 ==> (self.idx as int) < fv.len())
        &&& forall|i: int| 0 <= i < fv.len() ==> (#[trigger] fv[i]).len() == lvl
        &&& forall|i: int| 0 <= i < nv.len() ==> (#[trigger] nv[i]).len() == lvl + 1
        &&& forall|i: int|
            0 <= i < nv.len() ==> fv.take(self.idx as int).contains(
                (#[trigger] nv[i]).drop_last(),
            )
        &&& forall|i: int| 0 <= i < vis.len() ==> (#[trigger] vis[i]).len() <= lvl
        &&& forall|i: int|
            0 <= i < vis.len() && (#[trigger] vis[i]).len() == lvl ==> fv.take(
                self.idx as int,
            ).contains(vis[i])
        &&& forall|j: int| 0 <= j < self.idx ==> vis.contains(#[trigger] fv[j])
        &&& vis.no_duplicates()
        &&& fv.no_duplicates()
        &&& nv.no_duplicates()
        &&& forall|i: int|
            0 <= i < self.results.deep_view().len()
                ==> (#[trigger] self.results.deep_view()[i]).len() <= lvl + 1
        &&& forall|i: int|
            0 <= i < self.results.deep_view().len()
                && (#[trigger] self.results.deep_view()[i]).len() == lvl + 1 ==> fv.take(
                self.idx as int,
            ).contains(self.results.deep_view()[i].drop_last())
        &&& self.results.deep_view().no_duplicates()
    }

    /// A traversal about to list the root.
    pub fn new() -> (r: Traversal)
        ensures
            r.wf(),
            r.results.deep_view() == Seq::<PathView>::empty(),
            r.visited@ == Seq::<PathView>::empty(),
            r.pending() =~= seq![Seq::<Seq<char>>::empty()],
            !r.done_spec(),
            r.spec_current() == Seq::<Seq<char>>::empty(),
    {
        let root = Path::new();
        let mut frontier: Vec<Path> = Vec::new();
        frontier.push(root);
        let r = Traversal {
            frontier,
            idx: 0,
            next: Vec::new(),
            results: Vec::new(),
            level: Ghost(0nat),
            visited: Ghost(Seq::empty()),
        };
        proof {
            assert(r.frontier.deep_view() =~= seq![Seq::<Seq<char>>::empty()]);
            assert(r.next.deep_view() =~= Seq::<PathView>::empty());
            assert(r.results.deep_view() =~= Seq::<PathView>::empty());
            assert(r.pending() =~= seq![Seq::<Seq<char>>::empty()]);
        }
        r
    }

    /// The traversal is finished when no path is owed a listing.
    pub open spec fn done_spec(&self) -> bool {
        self.frontier.deep_view().len() == 0
    }

    /// Is the traversal finished?
    pub fn done(&self) -> (r: bool)
        ensures
            r == self.done_spec(),
            r ==> self.wf() ==> self.pending().len() == 0,
    {
        proof {
            if self.frontier.deep_view().len() == 0 && self.wf() {
                assert(self.pending() =~= Seq::<PathView>::empty());
            }
        }
        self.frontier.len() == 0
    }

    /// The path whose listing is owed next.
    pub fn current(&self) -> (r: &Path)
        requires
            !self.done_spec(),
            self.wf(),
        ensures
            r@ == self.spec_current(),
    {
        &self.frontier[self.idx]
    }

    /// Consume the listing of the current path: matching keys join the
    /// results, sub-directories join the next level, the path joins the
    /// visited log, and the traversal moves on — to the next path of this
    /// level, or down to the next level when this one is spent.
    pub fn feed(&mut self, entries: &Vec<KeyOrDir>, pattern: &str)
        requires
            old(self).wf(),
            !old(self).done_spec(),
            listing_wf(entries.deep_view()),
        ensures
            final(self).wf(),
            final(self).results.deep_view() == old(self).results.deep_view() + spec_matched_keys(
                old(self).spec_current(),
                entries.deep_view(),
                pattern@,
            ),
            final(self).pending() == old(self).pending().drop_first() + spec_dir_children(
                old(self).spec_current(),
                entries.deep_view(),
            ),
            final(self).visited@ == old(self).visited@ + seq![old(self).spec_current()],
            final(self).done_spec() ==> final(self).pending().len() == 0,
    {
        let ghost cur = self.spec_current();
        let ghost ev = entries.deep_view();
        let ghost old_results = self.results.deep_view();
        let ghost old_next = self.next.deep_view();
        proof {
            assert(ev.take(0) =~= Seq::<KeyOrDirView>::empty());
        }
        let n = entries.len();
        let mut i: usize = 0;
        while i < n
            invariant
                i <= n,
                ev == entries.deep_view(),
                n == ev.len(),
                listing_wf(ev),
                self.frontier == old(self).frontier,
                self.idx == old(self).idx,
                self.level == old(self).level,
                self.visited == old(self).visited,
                old(self).wf(),
                !old(self).done_spec(),
                cur == old(self).spec_current(),
                self.results.deep_view() == old_results + spec_matched_keys(
                    cur,
                    ev.take(i as int),
                    pattern@,
                ),
                self.next.deep_view() == old_next + spec_dir_children(cur, ev.take(i as int)),
                old_results == old(self).results.deep_view(),
                old_next == old(self).next.deep_view(),
            decreases n - i,
        {
            let ghost rpre = self.results.deep_view();
            let ghost npre = self.next.deep_view();
            proof {
                assert(ev.take(i + 1).drop_last() =~= ev.take(i as int));
                assert(ev.take(i + 1).last() == ev[i as int]);
                assert(ev[i as int] == entries@[i as int]@);
                assert(valid_component(ev[i as int].name()));
            }
            match &entries[i] {
                KeyOrDir::Key(name) => {
                    if name_matches(name.as_str(), pattern) {
                        let p = self.frontier[self.idx].pushed(name.as_str());
                        self.results.push(p);
                        proof {
                            assert(self.results.deep_view() =~= rpre.push(cur.push(name@)));
                            assert(self.results.deep_view() =~= old_results + spec_matched_keys(
                                cur,
                                ev.take(i + 1),
                                pattern@,
                            ));
                        }
                    } else {
                        proof {
                            assert(spec_matched_keys(cur, ev.take(i + 1), pattern@)
                                == spec_matched_keys(cur, ev.take(i as int), pattern@));
                        }
                    }
                    proof {
                        assert(spec_dir_children(cur, ev.take(i + 1)) == spec_dir_children(
                            cur,
                            ev.take(i as int),
                        ));
                    }
                },
                KeyOrDir::Dir(name) => {
                    let p = self.frontier[self.idx].pushed(name.as_str());
                    self.next.push(p);
                    proof {
                        assert(self.next.deep_view() =~= npre.push(cur.push(name@)));
                        assert(self.next.deep_view() =~= old_next + spec_dir_children(
                            cur,
                            ev.take(i + 1),
                        ));
                        assert(spec_matched_keys(cur, ev.take(i + 1), pattern@)
                            == spec_matched_keys(cur, ev.take(i as int), pattern@));
                    }
                },
            }
            i = i + 1;
        }
        proof {
            assert(ev.take(n as int) =~= ev);
        }
        let ghost mk = spec_matched_keys(cur, ev, pattern@);
        let ghost dc = spec_dir_children(cur, ev);
        proof {
            lemma_matched_keys_facts(cur, ev, pattern@);
            lemma_dir_children_facts(cur, ev);
        }
        let ghost oldvis = self.visited@;
        self.visited = Ghost(self.visited@ + seq![cur]);
        let ghost fv = self.frontier.deep_view();
        let ghost nv = self.next.deep_view();
        let ghost lvl = self.level@;
        let ghost oidx = self.idx as int;
        proof {
            // The freshly visited path was not visited before.
            assert(cur == fv[oidx]);
            assert forall|k: int| 0 <= k < oldvis.len() implies oldvis[k] != cur by {
                if oldvis[k].len() == lvl {
                    if oldvis[k] == cur {
                        let w = choose|w: int|
                            0 <= w < fv.take(oidx).len() && fv.take(oidx)[w] == oldvis[k];
                        assert(fv[w] == fv[oidx]);
                    }
                }
            }
            assert(self.visited@.no_duplicates());
            // Children facts, instantiated for the extended next level.
            assert forall|k: int| 0 <= k < nv.len() implies (#[trigger] nv[k]).len() == lvl + 1
                && fv.take(oidx + 1).contains(nv[k].drop_last()) by {
                if k < old_next.len() {
                    assert(nv[k] == old_next[k]);
                    lemma_take_contains_mono(fv, oidx, oidx + 1, nv[k].drop_last());
                } else {
                    assert(nv[k] == dc[k - old_next.len()]);
                    assert(nv[k].drop_last() == cur);
                    assert(fv.take(oidx + 1)[oidx] == cur);
                }
            }
            // The extended next level holds no repeats.
            assert(nv.no_duplicates()) by {
                assert forall|a: int, b: int|
                    0 <= a < nv.len() && 0 <= b < nv.len() && a != b implies nv[a] != nv[b] by {
                    if a < old_next.len() && b < old_next.len() {
                        assert(old_next[a] != old_next[b]);
                    } else if a >= old_next.len() && b >= old_next.len() {
                        assert(dc[a - old_next.len()] != dc[b - old_next.len()]);
                    } else {
                        let o = if a < old_next.len() { a } else { b };
                        let c = if a < old_next.len() { b } else { a };
                        assert(nv[o] == old_next[o]);
                        assert(nv[c] == dc[c - old_next.len()]);
                        if nv[o] == nv[c] {
                            assert(nv[c].drop_last() == cur);
                            let w = choose|w: int|
                                0 <= w < fv.take(oidx).len() && fv.take(oidx)[w] == nv[o].drop_last();
                            assert(fv[w] == fv[oidx]);
                        }
                    }
                }
            }
            // Every visited path still fits under the level bound.
            assert forall|k: int| 0 <= k < self.visited@.len() implies (#[trigger] self.visited@[k]).len()
                <= lvl by {
                if k < oldvis.len() {
                    assert(self.visited@[k] == oldvis[k]);
                } else {
                    assert(self.visited@[k] == cur);
                }
            }
            // Result facts, instantiated for the extended results.
            let rv = self.results.deep_view();
            assert(cur.len() == lvl);
            assert forall|k: int| 0 <= k < rv.len() implies (#[trigger] rv[k]).len() <= lvl + 1
                && (rv[k].len() == lvl + 1 ==> fv.take(oidx + 1).contains(rv[k].drop_last())) by {
                if k < old_results.len() {
                    assert(rv[k] == old_results[k]);
                    assert(old(self).results.deep_view()[k] == rv[k]);
                    if rv[k].len() == lvl + 1 {
                        lemma_take_contains_mono(fv, oidx, oidx + 1, rv[k].drop_last());
                    }
                } else {
                    assert(rv[k] == mk[k - old_results.len()]);
                    assert(rv[k].drop_last() == cur);
                    assert(fv.take(oidx + 1)[oidx] == cur);
                }
            }
            assert(rv.no_duplicates()) by {
                assert forall|a: int, b: int|
                    0 <= a < rv.len() && 0 <= b < rv.len() && a != b implies rv[a] != rv[b] by {
                    if a < old_results.len() && b < old_results.len() {
                        assert(old_results[a] != old_results[b]);
                    } else if a >= old_results.len() && b >= old_results.len() {
                        assert(mk[a - old_results.len()] != mk[b - old_results.len()]);
                    } else {
                        let o = if a < old_results.len() { a } else { b };
                        let c2 = if a < old_results.len() { b } else { a };
                        assert(rv[o] == old_results[o]);
                        assert(old(self).results.deep_view()[o] == rv[o]);
                        assert(rv[c2] == mk[c2 - old_results.len()]);
                        if rv[o] == rv[c2] {
                            assert(rv[c2].drop_last() == cur);
                            let w = choose|w: int|
                                0 <= w < fv.take(oidx).len() && fv.take(oidx)[w] == rv[o].drop_last();
                            assert(fv[w] == fv[oidx]);
                        }
                    }
                }
            }
        }
        let flen = self.frontier.len();
        proof {
            assert(self.idx < flen);
        }
        self.idx = self.idx + 1;
        if self.idx < flen {
            proof {
                assert(fv.take(oidx + 1).drop_last() =~= fv.take(oidx));
                assert forall|k: int|
                    0 <= k < self.visited@.len() && (#[trigger] self.visited@[k]).len()
                        == lvl implies fv.take(oidx + 1).contains(self.visited@[k]) by {
                    if k < oldvis.len() {
                        lemma_take_contains_mono(fv, oidx, oidx + 1, oldvis[k]);
                    } else {
                        assert(self.visited@[k] == cur);
                        assert(fv.take(oidx + 1)[oidx] == cur);
                    }
                }
                assert forall|j: int| 0 <= j < self.idx implies self.visited@.contains(
                    #[trigger] fv[j],
                ) by {
                    if j < oidx {
                        let w = choose|w: int| 0 <= w < oldvis.len() && oldvis[w] == fv[j];
                        assert(self.visited@[w] == fv[j]);
                    } else {
                        assert(self.visited@[self.visited@.len() - 1] == fv[j]);
                    }
                }
                assert(self.wf());
                assert(self.pending() =~= old(self).pending().drop_first() + dc);
            }
        } else {
            let mut moved: Vec<Path> = Vec::new();
            core::mem::swap(&mut self.next, &mut moved);
            self.frontier = moved;
            self.idx = 0;
            self.level = Ghost(self.level@ + 1);
            proof {
                assert(self.frontier.deep_view() == nv);
                assert(self.next.deep_view() =~= Seq::<PathView>::empty());
                assert forall|k: int| 0 <= k < self.visited@.len() implies (
                #[trigger] self.visited@[k]).len() <= lvl + 1 && self.visited@[k].len() != lvl
                    + 1 by {
                    if k < oldvis.len() {
                        assert(self.visited@[k] == oldvis[k]);
                    } else {
                        assert(self.visited@[k] == cur);
                    }
                }
                assert(self.wf());
                assert(fv.skip(oidx).drop_first() =~= fv.skip(oidx + 1));
                assert(fv.skip(oidx + 1) =~= Seq::<PathView>::empty());
                assert(self.pending() =~= nv);
                assert(old(self).pending().drop_first() =~= old_next);
                assert(self.pending() =~= old(self).pending().drop_first() + dc);
            }
        }
    }
}

/// Seeing a path among the first `a` entries, one also sees it among the
/// first `b`.
proof fn lemma_take_contains_mono(s: Seq<PathView>, a: int, b: int, x: PathView)
    requires
        0 <= a <= b <= s.len(),
        s.take(a).contains(x),
    ensures
        s.take(b).contains(x),
{
    let w = choose|w: int| 0 <= w < s.take(a).len() && s.take(a)[w] == x;
    assert(s.take(b)[w] == x);
}

/// Breadth-first traversal never lists one path twice: the visited log is
/// free of repeats in every reachable state.
pub proof fn lemma_visits_distinct(t: Traversal)
    requires
        t.wf(),
    ensures
        t.visited@.no_duplicates(),
{
}

/// The matching leaves under one pending path, or nothing where the path
/// names no directory.
pub open spec fn leaves_at(t: TreeNodeView, p: PathView, pattern: Seq<char>) -> Set<PathView> {
    match spec_node_at(t, p) {
        Some(n) => spec_matching_leaves(n, p, pattern),
        None => Set::empty(),
    }
}

/// The matching leaves under every pending path, together.
pub open spec fn pending_leaves(t: TreeNodeView, pend: Seq<PathView>, pattern: Seq<char>) -> Set<
    PathView,
>
    decreases pend.len(),
{
    if pend.len() == 0 {
        Set::empty()
    } else {
        leaves_at(t, pend[0], pattern).union(pending_leaves(t, pend.drop_first(), pattern))
    }
}

/// The size of the directory under one pending path.
pub open spec fn size_at(t: TreeNodeView, p: PathView) -> nat {
    match spec_node_at(t, p) {
        Some(n) => node_size(n),
        None => 0,
    }
}

/// The sizes of the directories under every pending path, summed: what
/// shrinks with every listing consumed.
pub open spec fn pending_size(t: TreeNodeView, pend: Seq<PathView>) -> nat
    decreases pend.len(),
{
    if pend.len() == 0 {
        0
    } else {
        size_at(t, pend[0]) + pending_size(t, pend.drop_first())
    }
}

/// Pending leaves split over a split pending list.
proof fn lemma_pending_leaves_concat(
    t: TreeNodeView,
    a: Seq<PathView>,
    b: Seq<PathView>,
    pattern: Seq<char>,
)
    ensures
        pending_leaves(t, a + b, pattern) == pending_leaves(t, a, pattern).union(
            pending_leaves(t, b, pattern),
        ),
    decreases a.len(),
{
    if a.len() == 0 {
        assert(a + b =~= b);
        assert(pending_leaves(t, a + b, pattern) =~= pending_leaves(t, a, pattern).union(
            pending_leaves(t, b, pattern),
        ));
    } else {
        assert((a + b)[0] == a[0]);
        assert((a + b).drop_first() =~= a.drop_first() + b);
        lemma_pending_leaves_concat(t, a.drop_first(), b, pattern);
        assert(pending_leaves(t, a + b, pattern) =~= pending_leaves(t, a, pattern).union(
            pending_leaves(t, b, pattern),
        ));
    }
}

/// Pending sizes add over a split pending list.
proof fn lemma_pending_size_concat(t: TreeNodeView, a: Seq<PathView>, b: Seq<PathView>)
    ensures
        pending_size(t, a + b) == pending_size(t, a) + pending_size(t, b),
    decreases a.len(),
{
    if a.len() == 0 {
        assert(a + b =~= b);
    } else {
        assert((a + b)[0] == a[0]);
        assert((a + b).drop_first() =~= a.drop_first() + b);
        lemma_pending_size_concat(t, a.drop_first(), b);
    }
}

/// The members of a sequence turned set, after one push.
proof fn lemma_push_to_set(s: Seq<PathView>, x: PathView)
    ensures
        s.push(x).to_set() == s.to_set().insert(x),
{
    assert forall|y: PathView| #[trigger] s.push(x).to_set().contains(y) implies s.to_set().insert(
        x,
    ).contains(y) by {
        let w = choose|w: int| 0 <= w < s.push(x).len() && s.push(x)[w] == y;
        if w < s.len() {
            assert(s[w] == y);
        }
    }
    assert forall|y: PathView| #[trigger] s.to_set().insert(x).contains(y) implies s.push(
        x,
    ).to_set().contains(y) by {
        if s.to_set().contains(y) {
            let w = choose|w: int| 0 <= w < s.len() && s[w] == y;
            assert(s.push(x)[w] == y);
        } else {
            assert(s.push(x)[s.len() as int] == x);
        }
    }
    assert(s.push(x).to_set() =~= s.to_set().insert(x));
}

/// The members of two concatenated sequences, as sets.
proof fn lemma_concat_to_set(a: Seq<PathView>, b: Seq<PathView>)
    ensures
        (a + b).to_set() == a.to_set().union(b.to_set()),
{
    assert forall|y: PathView| #[trigger] (a + b).to_set().contains(y) implies a.to_set().union(
        b.to_set(),
    ).contains(y) by {
        let w = choose|w: int| 0 <= w < (a + b).len() && (a + b)[w] == y;
        if w < a.len() {
            assert(a[w] == y);
        } else {
            assert(b[w - a.len()] == y);
        }
    }
    assert forall|y: PathView| #[trigger] a.to_set().union(b.to_set()).contains(y) implies (a
        + b).to_set().contains(y) by {
        if a.to_set().contains(y) {
            let w = choose|w: int| 0 <= w < a.len() && a[w] == y;
            assert((a + b)[w] == y);
        } else {
            let w = choose|w: int| 0 <= w < b.len() && b[w] == y;
            assert((a + b)[a.len() + w] == y);
        }
    }
    assert((a + b).to_set() =~= a.to_set().union(b.to_set()));
}

/// Listing one directory exchanges its leaf set for its matching keys plus
/// the leaf sets of its sub-directories: nothing is gained and nothing lost.
proof fn lemma_unfold_entries(
    t: TreeNodeView,
    p: PathView,
    es: Seq<TreeChildView>,
    pattern: Seq<char>,
)
    requires
        forall|i: int|
            0 <= i < es.len() && #[trigger] es[i] is Dir ==> spec_node_at(t, p.push(es[i]->Dir_0))
                == Some(es[i]->Dir_1),
    ensures
        entries_leaves(es, p, pattern) == spec_matched_keys(
            p,
            listing_of_entries(es),
            pattern,
        ).to_set().union(pending_leaves(t, spec_dir_children(p, listing_of_entries(es)), pattern)),
    decreases es.len(),
{
    let lst = listing_of_entries(es);
    if es.len() == 0 {
        assert(lst.len() == 0);
        assert(entries_leaves(es, p, pattern) =~= spec_matched_keys(
            p,
            lst,
            pattern,
        ).to_set().union(pending_leaves(t, spec_dir_children(p, lst), pattern))) by {
            assert(spec_matched_keys(p, lst, pattern).to_set() =~= Set::<PathView>::empty());
        }
    } else {
        let front_es = es.subrange(0, es.len() - 1);
        let front_lst = listing_of_entries(front_es);
        assert(front_lst =~= lst.drop_last()) by {
            assert forall|i: int| 0 <= i < front_es.len() implies front_lst[i]
                == lst.drop_last()[i] by {
                assert(front_es[i] == es[i]);
            }
        }
        assert(forall|i: int| 0 <= i < front_es.len() ==> front_es[i] == es[i]);
        lemma_unfold_entries(t, p, front_es, pattern);
        let e = es[es.len() - 1];
        assert(lst.last() == entry_of(e));
        let mkf = spec_matched_keys(p, front_lst, pattern);
        let dcf = spec_dir_children(p, front_lst);
        let mk = spec_matched_keys(p, lst, pattern);
        let dc = spec_dir_children(p, lst);
        if e is Dir {
            let q = p.push(e->Dir_0);
            assert(mk == mkf);
            assert(dc == dcf.push(q));
            assert(dcf.push(q) =~= dcf + seq![q]);
            lemma_pending_leaves_concat(t, dcf, seq![q], pattern);
            assert(seq![q].drop_first() =~= Seq::<PathView>::empty());
            assert(seq![q][0] == q);
            assert(pending_leaves(t, seq![q].drop_first(), pattern) =~= Set::<PathView>::empty());
            assert(pending_leaves(t, seq![q], pattern) =~= leaves_at(t, q, pattern));
            assert(spec_node_at(t, q) == Some(e->Dir_1));
            assert(leaves_at(t, q, pattern) == spec_matching_leaves(e->Dir_1, q, pattern));
            assert(child_leaves(e, p, pattern) == spec_matching_leaves(e->Dir_1, q, pattern));
            assert(entries_leaves(es, p, pattern) =~= mk.to_set().union(
                pending_leaves(t, dc, pattern),
            ));
        } else {
            assert(dc == dcf);
            if spec_matches(e->Key_0, pattern) {
                let q = p.push(e->Key_0);
                assert(mk == mkf.push(q));
                lemma_push_to_set(mkf, q);
                assert(child_leaves(e, p, pattern) == Set::empty().insert(q));
                assert(entries_leaves(es, p, pattern) =~= mk.to_set().union(
                    pending_leaves(t, dc, pattern),
                ));
            } else {
                assert(mk == mkf);
                assert(child_leaves(e, p, pattern) =~= Set::<PathView>::empty());
                assert(entries_leaves(es, p, pattern) =~= mk.to_set().union(
                    pending_leaves(t, dc, pattern),
                ));
            }
        }
    }
}

/// The directories a listing enqueues weigh less than the directory listed:
/// the traversal's measure shrinks with every step.
proof fn lemma_children_size(t: TreeNodeView, p: PathView, es: Seq<TreeChildView>)
    requires
        forall|i: int|
            0 <= i < es.len() && #[trigger] es[i] is Dir ==> spec_node_at(t, p.push(es[i]->Dir_0))
                == Some(es[i]->Dir_1),
    ensures
        pending_size(t, spec_dir_children(p, listing_of_entries(es))) <= entries_size(es),
    decreases es.len(),
{
    let lst = listing_of_entries(es);
    if es.len() == 0 {
        assert(lst.len() == 0);
    } else {
        let front_es = es.subrange(0, es.len() - 1);
        let front_lst = listing_of_entries(front_es);
        assert(front_lst =~= lst.drop_last()) by {
            assert forall|i: int| 0 <= i < front_es.len() implies front_lst[i]
                == lst.drop_last()[i] by {
                assert(front_es[i] == es[i]);
            }
        }
        assert(forall|i: int| 0 <= i < front_es.len() ==> front_es[i] == es[i]);
        lemma_children_size(t, p, front_es);
        let e = es[es.len() - 1];
        assert(lst.last() == entry_of(e));
        let dcf = spec_dir_children(p, front_lst);
        let dc = spec_dir_children(p, lst);
        if e is Dir {
            let q = p.push(e->Dir_0);
            assert(dc == dcf.push(q));
            assert(dcf.push(q) =~= dcf + seq![q]);
            lemma_pending_size_concat(t, dcf, seq![q]);
            assert(seq![q].drop_first() =~= Seq::<PathView>::empty());
            assert(seq![q][0] == q);
            assert(pending_size(t, seq![q].drop_first()) == 0);
            assert(pending_size(t, seq![q]) == size_at(t, q));
            assert(spec_node_at(t, q) == Some(e->Dir_1));
            assert(size_at(t, q) == node_size(e->Dir_1));
            assert(child_size(e) == node_size(e->Dir_1));
        } else {
            assert(dc == dcf);
            assert(child_size(e) == 0);
        }
    }
}

/// In a well-formed tree, every sub-directory entry of a reachable directory
/// is reachable one component further down, with its own subtree.
proof fn lemma_dirs_resolve(t: TreeNodeView, p: PathView, n: TreeNodeView)
    requires
        tree_wf(t),
        spec_node_at(t, p) == Some(n),
    ensures
        forall|i: int|
            0 <= i < n.entries.len() && #[trigger] n.entries[i] is Dir ==> spec_node_at(
                t,
                p.push(n.entries[i]->Dir_0),
            ) == Some(n.entries[i]->Dir_1),
{
    lemma_node_at_wf(t, p);
    assert(tree_wf(n));
    assert forall|i: int|
        0 <= i < n.entries.len() && #[trigger] n.entries[i] is Dir implies spec_node_at(
        t,
        p.push(n.entries[i]->Dir_0),
    ) == Some(n.entries[i]->Dir_1) by {
        lemma_child_resolution(n.entries, i);
        lemma_node_at_push(t, p, n.entries[i]->Dir_0);
    }
}

/// The first sub-directory called `name`, if this directory has one.
fn find_child<'a>(t: &'a TreeNode, name: &String) -> (r: Option<&'a TreeNode>)
    ensures
        match r {
            Some(sub) => spec_child(t@.entries, name@) == Some(sub@),
            None => spec_child(t@.entries, name@) is None,
        },
{
    let ghost cv = t@.entries;
    proof {
        children_view_index(t.entries@);
        assert(cv.skip(0) =~= cv);
    }
    let n = t.entries.len();
    let mut i: usize = 0;
    while i < n
        invariant
            i <= n,
            n == t.entries@.len(),
            cv == t@.entries,
            cv.len() == n,
            forall|j: int| 0 <= j < n ==> #[trigger] cv[j] == child_view(t.entries@[j]),
            spec_child(cv, name@) == spec_child(cv.skip(i as int), name@),
        decreases n - i,
    {
        proof {
            assert(cv.skip(i as int)[0] == cv[i as int]);
            assert(cv.skip(i as int).drop_first() =~= cv.skip(i + 1));
        }
        match &t.entries[i] {
            TreeChild::Dir(nm, sub) => {
                proof {
                    assert(cv[i as int] == TreeChildView::Dir(nm@, tree_node_view(*sub)));
                }
                if *nm == *name {
                    return Some(sub);
                }
            },
            TreeChild::Key(_) => {
                proof {
                    assert(cv[i as int] is Key);
                }
            },
        }
        i = i + 1;
    }
    proof {
        assert(cv.skip(n as int) =~= Seq::<TreeChildView>::empty());
    }
    None
}

/// The directory that `path` names below `t`, from component `from` on.
fn descend<'a>(t: &'a TreeNode, path: &Path, from: usize) -> (r: Option<&'a TreeNode>)
    requires
        from <= path@.len(),
    ensures
        match r {
            Some(n) => spec_node_at(t@, path@.skip(from as int)) == Some(n@),
            None => spec_node_at(t@, path@.skip(from as int)) is None,
        },
    decreases path@.len() - from,
{
    if from == path.components.len() {
        proof {
            assert(path@.skip(from as int) =~= Seq::<Seq<char>>::empty());
        }
        Some(t)
    } else {
        let name = &path.components[from];
        proof {
            assert(path@.skip(from as int)[0] == path@[from as int]);
            assert(path@[from as int] == name@);
            assert(path@.skip(from as int).drop_first() =~= path@.skip(from + 1));
        }
        match find_child(t, name) {
            Some(sub) => descend(sub, path, from + 1),
            None => None,
        }
    }
}

/// The listing of one in-memory directory: each entry's tag and name.
fn listing_of(t: &TreeNode) -> (r: Vec<KeyOrDir>)
    ensures
        r.deep_view() == spec_listing(t@),
{
    proof {
        children_view_index(t.entries@);
    }
    let n = t.entries.len();
    let mut out: Vec<KeyOrDir> = Vec::new();
    let mut i: usize = 0;
    while i < n
        invariant
            i <= n,
            n == t.entries@.len(),
            t@.entries.len() == n,
            forall|j: int| 0 <= j < n ==> #[trigger] t@.entries[j] == child_view(t.entries@[j]),
            out.deep_view().len() == i,
            forall|j: int|
                0 <= j < i ==> #[trigger] out.deep_view()[j] == entry_of(t@.entries[j]),
        decreases n - i,
    {
        let ghost pre = out.deep_view();
        let e = match &t.entries[i] {
            TreeChild::Key(s) => {
                let r = KeyOrDir::Key(s.clone());
                proof {
                    assert(r@ == entry_of(t@.entries[i as int]));
                }
                r
            },
            TreeChild::Dir(s, _) => {
                let r = KeyOrDir::Dir(s.clone());
                proof {
                    assert(r@ == entry_of(t@.entries[i as int]));
                }
                r
            },
        };
        out.push(e);
        proof {
            assert forall|j: int| 0 <= j < i + 1 implies #[trigger] out.deep_view()[j] == entry_of(
                t@.entries[j],
            ) by {
                if j < i {
                    assert(out.deep_view()[j] == pre[j]);
                } else {
                    assert(out@[j] == out@.last());
                }
            }
        }
        i = i + 1;
    }
    proof {
        assert(out.deep_view() =~= spec_listing(t@));
    }
    out
}

/// Search the tree breadth-first for every leaf whose name matches the
/// pattern, case-insensitively; the empty pattern matches every leaf. The
/// result holds exactly the matching leaf paths.
pub fn search_tree(tree: &TreeNode, pattern: &str) -> (r: Vec<Path>)
    requires
        tree_wf(tree@),
    ensures
        r.deep_view().to_set() == spec_matching_leaves(tree@, Seq::empty(), pattern@),
        r.deep_view().no_duplicates(),
{
    let mut tr = Traversal::new();
    let ghost all = spec_matching_leaves(tree@, Seq::empty(), pattern@);
    proof {
        let root = Seq::<Seq<char>>::empty();
        assert(spec_node_at(tree@, root) == Some(tree@));
        assert(seq![root].drop_first() =~= Seq::<PathView>::empty());
        assert(seq![root][0] == root);
        assert(pending_leaves(tree@, seq![root].drop_first(), pattern@) =~= Set::<
            PathView,
        >::empty());
        assert(pending_leaves(tree@, seq![root], pattern@) =~= leaves_at(tree@, root, pattern@));
        assert(tr.results.deep_view().to_set() =~= Set::<PathView>::empty());
        assert(tr.results.deep_view().to_set().union(
            pending_leaves(tree@, tr.pending(), pattern@),
        ) =~= all);
    }
    while !tr.done()
        invariant
            tree_wf(tree@),
            tr.wf(),
            forall|k: int|
                0 <= k < tr.pending().len() ==> spec_node_at(tree@, #[trigger] tr.pending()[k])
                    is Some,
            tr.results.deep_view().to_set().union(pending_leaves(tree@, tr.pending(), pattern@))
                == all,
            all == spec_matching_leaves(tree@, Seq::empty(), pattern@),
        decreases pending_size(tree@, tr.pending()),
    {
        let ghost cur = tr.spec_current();
        proof {
            assert(tr.pending()[0] == cur);
            assert(spec_node_at(tree@, cur) is Some);
        }
        let cur_node = {
            let curp = tr.current();
            proof {
                assert(curp@.skip(0) =~= curp@);
            }
            match descend(tree, curp, 0) {
                Some(nd) => nd,
                None => {
                    proof {
                        assert(false);
                    }
                    unreached()
                },
            }
        };
        let ghost node = cur_node@;
        let entries = listing_of(cur_node);
        proof {
            lemma_node_at_wf(tree@, cur);
            assert(tree_wf(node));
            assert(listing_wf(entries.deep_view()));
            lemma_dirs_resolve(tree@, cur, node);
        }
        let ghost pend_pre = tr.pending();
        let ghost res_pre = tr.results.deep_view();
        let ghost ev = entries.deep_view();
        tr.feed(&entries, pattern);
        proof {
            let mk = spec_matched_keys(cur, ev, pattern@);
            let dc = spec_dir_children(cur, ev);
            lemma_matched_keys_facts(cur, ev, pattern@);
            lemma_dir_children_facts(cur, ev);
            assert(ev == listing_of_entries(node.entries));
            // Every new pending path names a directory of the tree.
            assert forall|k: int|
                0 <= k < tr.pending().len() implies spec_node_at(
                tree@,
                #[trigger] tr.pending()[k],
            ) is Some by {
                if k < pend_pre.len() - 1 {
                    assert(tr.pending()[k] == pend_pre.drop_first()[k]);
                    assert(pend_pre.drop_first()[k] == pend_pre[k + 1]);
                } else {
                    let q = dc[k - (pend_pre.len() - 1)];
                    assert(tr.pending()[k] == q);
                    let i = choose|i: int|
                        0 <= i < ev.len() && #[trigger] ev[i] is Dir && ev[i]->Dir_0 == q.last();
                    assert(ev[i] == entry_of(node.entries[i]));
                    assert(node.entries[i] is Dir);
                    assert(node.entries[i]->Dir_0 == q.last());
                    assert(spec_node_at(tree@, cur.push(q.last())) == Some(
                        node.entries[i]->Dir_1,
                    ));
                    assert(q =~= cur.push(q.last()));
                }
            }
            // The leaf-set equation still balances.
            lemma_unfold_entries(tree@, cur, node.entries, pattern@);
            assert(entries_leaves(node.entries, cur, pattern@) == spec_matching_leaves(
                node,
                cur,
                pattern@,
            ));
            assert(leaves_at(tree@, cur, pattern@) == spec_matching_leaves(node, cur, pattern@));
            assert(pend_pre.drop_first() =~= pend_pre.drop_first());
            assert(pend_pre =~= seq![cur] + pend_pre.drop_first()) by {
                assert(pend_pre[0] == cur);
            }
            lemma_pending_leaves_concat(tree@, seq![cur], pend_pre.drop_first(), pattern@);
            assert(seq![cur].drop_first() =~= Seq::<PathView>::empty());
            assert(seq![cur][0] == cur);
            assert(pending_leaves(tree@, seq![cur].drop_first(), pattern@) =~= Set::<
                PathView,
            >::empty());
            assert(pending_leaves(tree@, seq![cur], pattern@) =~= leaves_at(
                tree@,
                cur,
                pattern@,
            ));
            lemma_pending_leaves_concat(tree@, pend_pre.drop_first(), dc, pattern@);
            lemma_concat_to_set(res_pre, mk);
            assert(tr.results.deep_view().to_set() =~= res_pre.to_set().union(mk.to_set()));
            assert(tr.results.deep_view().to_set().union(
                pending_leaves(tree@, tr.pending(), pattern@),
            ) =~= all);
            // The measure shrinks.
            lemma_children_size(tree@, cur, node.entries);
            lemma_pending_size_concat(tree@, pend_pre.drop_first(), dc);
            lemma_pending_size_concat(tree@, seq![cur], pend_pre.drop_first());
            assert(pending_size(tree@, seq![cur]) == size_at(tree@, cur));
            assert(size_at(tree@, cur) == node_size(node));
            assert(entries_size(node.entries) < node_size(node));
            assert(pending_size(tree@, tr.pending()) < pending_size(tree@, pend_pre));
        }
    }
    proof {
        assert(tr.pending().len() == 0);
        assert(pending_leaves(tree@, tr.pending(), pattern@) =~= Set::<PathView>::empty());
        assert(tr.results.deep_view().to_set() =~= all);
    }
    tr.results
}

} // verus!
