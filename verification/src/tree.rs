use vstd::prelude::*;
use vstd::string::*;
use crate::listing::{KeyOrDir, KeyOrDirView};
use crate::path::valid_component;
use crate::text::spec_matches;

verus! {

/// A location in the tree as a mathematical value: the component sequence.
pub type PathView = Seq<Seq<char>>;

/// A directory of the secret tree as a mathematical value.
pub struct TreeNodeView {
    pub entries: Seq<TreeChildView>,
}

/// One entry of a directory: a leaf key, or a named sub-directory.
pub enum TreeChildView {
    Key(Seq<char>),
    Dir(Seq<char>, TreeNodeView),
}

/// A directory of the secret tree, held in memory. The traversal is
/// exercised against values of this type; over the wire the same structure
/// is discovered one listing at a time.
pub struct TreeNode {
    pub entries: Vec<TreeChild>,
}

/// One in-memory entry.
pub enum TreeChild {
    Key(String),
    Dir(String, TreeNode),
}

/// The shape of one in-memory directory.
pub open spec fn tree_node_view(t: TreeNode) -> TreeNodeView
    decreases t,
{
    TreeNodeView { entries: children_view(t.entries@) }
}

/// The shapes of a directory's entries.
pub open spec fn children_view(cs: Seq<TreeChild>) -> Seq<TreeChildView>
    decreases cs,
{
    if cs.len() == 0 {
        Seq::empty()
    } else {
        children_view(cs.subrange(0, cs.len() - 1)).push(child_view(cs[cs.len() - 1]))
    }
}

/// The shape of one in-memory entry.
pub open spec fn child_view(c: TreeChild) -> TreeChildView
    decreases c,
{
    if c is Dir {
        TreeChildView::Dir(c->Dir_0@, tree_node_view(c->Dir_1))
    } else {
        TreeChildView::Key(c->Key_0@)
    }
}

/// `children_view` element by element.
pub proof fn children_view_index(cs: Seq<TreeChild>)
    ensures
        children_view(cs).len() == cs.len(),
        forall|i: int|
            0 <= i < cs.len() ==> #[trigger] children_view(cs)[i] == child_view(cs[i]),
    decreases cs.len(),
{
    if cs.len() > 0 {
        children_view_index(cs.subrange(0, cs.len() - 1));
        assert forall|i: int|
            0 <= i < cs.len() implies #[trigger] children_view(cs)[i] == child_view(cs[i]) by {
            if i < cs.len() - 1 {
                assert(cs.subrange(0, cs.len() - 1)[i] == cs[i]);
            }
        }
    }
}

impl View for TreeNode {
    type V = TreeNodeView;

    open spec fn view(&self) -> TreeNodeView {
        tree_node_view(*self)
    }
}

impl View for TreeChild {
    type V = TreeChildView;

    open spec fn view(&self) -> TreeChildView {
        child_view(*self)
    }
}

/// What listing one directory shows: each entry reduced to its tag and name.
pub open spec fn entry_of(c: TreeChildView) -> KeyOrDirView {
    match c {
        TreeChildView::Key(n) => KeyOrDirView::Key(n),
        TreeChildView::Dir(n, _) => KeyOrDirView::Dir(n),
    }
}

/// The listing of a sequence of entries.
pub open spec fn listing_of_entries(es: Seq<TreeChildView>) -> Seq<KeyOrDirView> {
    Seq::new(es.len(), |i: int| entry_of(es[i]))
}

/// The listing of a directory.
pub open spec fn spec_listing(t: TreeNodeView) -> Seq<KeyOrDirView> {
    listing_of_entries(t.entries)
}

/// The first sub-directory called `name` among `es`, if any.
pub open spec fn spec_child(es: Seq<TreeChildView>, name: Seq<char>) -> Option<TreeNodeView>
    decreases es.len(),
{
    if es.len() == 0 {
        None
    } else if es[0] is Dir && es[0]->Dir_0 == name {
        Some(es[0]->Dir_1)
    } else {
        spec_child(es.drop_first(), name)
    }
}

/// The directory that `path` names, walking one component at a time.
pub open spec fn spec_node_at(t: TreeNodeView, path: PathView) -> Option<TreeNodeView>
    decreases path.len(),
{
    if path.len() == 0 {
        Some(t)
    } else {
        match spec_child(t.entries, path[0]) {
            Some(sub) => spec_node_at(sub, path.drop_first()),
            None => None,
        }
    }
}

/// A directory listing is well formed when every name is a valid path
/// component, no two sub-directories share a name and no two keys share a
/// name. (A key and a sub-directory may share one: the store writes the
/// directory with a trailing separator.)
pub open spec fn listing_wf(es: Seq<KeyOrDirView>) -> bool {
    &&& forall|i: int| 0 <= i < es.len() ==> valid_component((#[trigger] es[i]).name())
    &&& forall|i: int, j: int|
        0 <= i < j < es.len() && #[trigger] es[i] is Dir && #[trigger] es[j] is Dir ==> es[i]->Dir_0
            != es[j]->Dir_0
    &&& forall|i: int, j: int|
        0 <= i < j < es.len() && #[trigger] es[i] is Key && #[trigger] es[j] is Key ==> es[i]->Key_0
            != es[j]->Key_0
}

/// The whole tree is well formed: every directory's listing is.
pub open spec fn tree_wf(t: TreeNodeView) -> bool
    decreases t,
{
    listing_wf(spec_listing(t)) && children_wf(t.entries)
}

/// Well-formedness of a sequence of entries.
pub open spec fn children_wf(es: Seq<TreeChildView>) -> bool
    decreases es,
{
    if es.len() == 0 {
        true
    } else {
        children_wf(es.subrange(0, es.len() - 1)) && child_wf(es[es.len() - 1])
    }
}

/// Well-formedness of one entry: a sub-directory is itself well formed.
pub open spec fn child_wf(c: TreeChildView) -> bool
    decreases c,
{
    c is Dir ==> tree_wf(c->Dir_1)
}

/// `children_wf` element by element.
pub proof fn children_wf_index(es: Seq<TreeChildView>)
    requires
        children_wf(es),
    ensures
        forall|i: int| 0 <= i < es.len() ==> child_wf(#[trigger] es[i]),
    decreases es.len(),
{
    if es.len() > 0 {
        children_wf_index(es.subrange(0, es.len() - 1));
        assert forall|i: int| 0 <= i < es.len() implies child_wf(#[trigger] es[i]) by {
            if i < es.len() - 1 {
                assert(es.subrange(0, es.len() - 1)[i] == es[i]);
            }
        }
    }
}

/// The matching leaves under a directory, each as a full path: keys of this
/// directory whose name matches the pattern, and, recursively, the matching
/// leaves of every sub-directory.
pub open spec fn spec_matching_leaves(t: TreeNodeView, prefix: PathView, pattern: Seq<char>) -> Set<
    PathView,
>
    decreases t,
{
    entries_leaves(t.entries, prefix, pattern)
}

/// The matching leaves contributed by a sequence of entries.
pub open spec fn entries_leaves(es: Seq<TreeChildView>, prefix: PathView, pattern: Seq<char>) -> Set<
    PathView,
>
    decreases es,
{
    if es.len() == 0 {
        Set::empty()
    } else {
        entries_leaves(es.subrange(0, es.len() - 1), prefix, pattern).union(
            child_leaves(es[es.len() - 1], prefix, pattern),
        )
    }
}

/// The matching leaves contributed by one entry.
pub open spec fn child_leaves(c: TreeChildView, prefix: PathView, pattern: Seq<char>) -> Set<
    PathView,
>
    decreases c,
{
    if c is Dir {
        spec_matching_leaves(c->Dir_1, prefix.push(c->Dir_0), pattern)
    } else if spec_matches(c->Key_0, pattern) {
        Set::empty().insert(prefix.push(c->Key_0))
    } else {
        Set::empty()
    }
}

/// Every leaf under a directory, whatever its name.
pub open spec fn spec_all_leaves(t: TreeNodeView, prefix: PathView) -> Set<PathView>
    decreases t,
{
    entries_all_leaves(t.entries, prefix)
}

/// Every leaf contributed by a sequence of entries.
pub open spec fn entries_all_leaves(es: Seq<TreeChildView>, prefix: PathView) -> Set<PathView>
    decreases es,
{
    if es.len() == 0 {
        Set::empty()
    } else {
        entries_all_leaves(es.subrange(0, es.len() - 1), prefix).union(
            child_all_leaves(es[es.len() - 1], prefix),
        )
    }
}

/// Every leaf contributed by one entry.
pub open spec fn child_all_leaves(c: TreeChildView, prefix: PathView) -> Set<PathView>
    decreases c,
{
    if c is Dir {
        spec_all_leaves(c->Dir_1, prefix.push(c->Dir_0))
    } else {
        Set::empty().insert(prefix.push(c->Key_0))
    }
}

/// The empty pattern matches every key name, so searching with it collects
/// exactly the full leaf set, at any depth.
pub proof fn lemma_empty_pattern_finds_all(t: TreeNodeView, prefix: PathView, pattern: Seq<char>)
    requires
        pattern.len() == 0,
    ensures
        spec_matching_leaves(t, prefix, pattern) == spec_all_leaves(t, prefix),
    decreases t,
{
    lemma_empty_pattern_entries(t.entries, prefix, pattern);
}

/// The entry-sequence form of `lemma_empty_pattern_finds_all`.
pub proof fn lemma_empty_pattern_entries(es: Seq<TreeChildView>, prefix: PathView, pattern: Seq<
    char,
>)
    requires
        pattern.len() == 0,
    ensures
        entries_leaves(es, prefix, pattern) == entries_all_leaves(es, prefix),
    decreases es,
{
    if es.len() > 0 {
        lemma_empty_pattern_entries(es.subrange(0, es.len() - 1), prefix, pattern);
        let c = es[es.len() - 1];
        if c is Dir {
            lemma_empty_pattern_finds_all(c->Dir_1, prefix.push(c->Dir_0), pattern);
        } else {
            assert(spec_matches(c->Key_0, pattern));
        }
        assert(child_leaves(c, prefix, pattern) == child_all_leaves(c, prefix));
        assert(entries_leaves(es, prefix, pattern) =~= entries_all_leaves(es, prefix));
    } else {
        assert(entries_leaves(es, prefix, pattern) =~= entries_all_leaves(es, prefix));
    }
}

/// One more than the number of entries in a directory and all below it;
/// the measure that shrinks as a traversal descends.
pub open spec fn node_size(t: TreeNodeView) -> nat
    decreases t,
{
    1 + entries_size(t.entries)
}

/// The size contributed by a sequence of entries.
pub open spec fn entries_size(es: Seq<TreeChildView>) -> nat
    decreases es,
{
    if es.len() == 0 {
        0
    } else {
        entries_size(es.subrange(0, es.len() - 1)) + child_size(es[es.len() - 1])
    }
}

/// The size contributed by one entry.
pub open spec fn child_size(c: TreeChildView) -> nat
    decreases c,
{
    if c is Dir {
        node_size(c->Dir_1)
    } else {
        0
    }
}

/// Walking one more component composes with looking one child up.
pub proof fn lemma_node_at_push(t: TreeNodeView, path: PathView, name: Seq<char>)
    ensures
        spec_node_at(t, path.push(name)) == match spec_node_at(t, path) {
            Some(n) => spec_child(n.entries, name),
            None => None::<TreeNodeView>,
        },
    decreases path.len(),
{
    if path.len() == 0 {
        assert(path.push(name)[0] == name);
        assert(path.push(name).drop_first() =~= Seq::<Seq<char>>::empty());
        match spec_child(t.entries, name) {
            Some(sub) => {
                assert(spec_node_at(t, path.push(name)) == spec_node_at(
                    sub,
                    path.push(name).drop_first(),
                ));
            },
            None => {},
        }
    } else {
        assert(path.push(name)[0] == path[0]);
        assert(path.push(name).drop_first() =~= path.drop_first().push(name));
        match spec_child(t.entries, path[0]) {
            Some(sub) => {
                lemma_node_at_push(sub, path.drop_first(), name);
            },
            None => {},
        }
    }
}

/// A well-formed tree stays well formed one child down.
pub proof fn lemma_child_wf(es: Seq<TreeChildView>, name: Seq<char>)
    requires
        children_wf(es),
    ensures
        match spec_child(es, name) {
            Some(sub) => tree_wf(sub),
            None => true,
        },
    decreases es.len(),
{
    children_wf_index(es);
    if es.len() > 0 {
        if es[0] is Dir && es[0]->Dir_0 == name {
            assert(child_wf(es[0]));
        } else {
            assert(children_wf(es.drop_first())) by {
                lemma_children_wf_drop_first(es);
            }
            lemma_child_wf(es.drop_first(), name);
        }
    }
}

/// Well-formedness of entries restricts to the tail.
pub proof fn lemma_children_wf_drop_first(es: Seq<TreeChildView>)
    requires
        children_wf(es),
        es.len() > 0,
    ensures
        children_wf(es.drop_first()),
    decreases es.len(),
{
    if es.len() == 1 {
        assert(es.drop_first().len() == 0);
    } else {
        let front = es.subrange(0, es.len() - 1);
        lemma_children_wf_drop_first(front);
        assert(front.drop_first() =~= es.drop_first().subrange(0, es.drop_first().len() - 1));
        assert(es.drop_first()[es.drop_first().len() - 1] == es[es.len() - 1]);
    }
}

/// A well-formed tree stays well formed at any directory it holds.
pub proof fn lemma_node_at_wf(t: TreeNodeView, path: PathView)
    requires
        tree_wf(t),
    ensures
        match spec_node_at(t, path) {
            Some(n) => tree_wf(n),
            None => true,
        },
    decreases path.len(),
{
    if path.len() > 0 {
        lemma_child_wf(t.entries, path[0]);
        match spec_child(t.entries, path[0]) {
            Some(sub) => {
                lemma_node_at_wf(sub, path.drop_first());
            },
            None => {},
        }
    }
}

/// In a well-formed listing, a sub-directory entry resolves to its own
/// subtree: no earlier entry can shadow it.
pub proof fn lemma_child_resolution(es: Seq<TreeChildView>, i: int)
    requires
        listing_wf(listing_of_entries(es)),
        0 <= i < es.len(),
        es[i] is Dir,
    ensures
        spec_child(es, es[i]->Dir_0) == Some(es[i]->Dir_1),
    decreases es.len(),
{
    if i == 0 {
    } else {
        assert(listing_of_entries(es)[0] == entry_of(es[0]));
        assert(listing_of_entries(es)[i] == entry_of(es[i]));
        if es[0] is Dir && es[0]->Dir_0 == es[i]->Dir_0 {
            assert(false);
        }
        let tail = es.drop_first();
        assert(listing_wf(listing_of_entries(tail))) by {
            assert forall|k: int| 0 <= k < tail.len() implies valid_component(
                (#[trigger] listing_of_entries(tail)[k]).name(),
            ) by {
                assert(listing_of_entries(tail)[k] == entry_of(es[k + 1]));
                assert(listing_of_entries(es)[k + 1] == entry_of(es[k + 1]));
            }
            assert forall|k: int, l: int|
                0 <= k < l < tail.len() && #[trigger] listing_of_entries(tail)[k] is Dir
                    && #[trigger] listing_of_entries(tail)[l] is Dir implies listing_of_entries(
                tail,
            )[k]->Dir_0 != listing_of_entries(tail)[l]->Dir_0 by {
                assert(listing_of_entries(tail)[k] == entry_of(es[k + 1]));
                assert(listing_of_entries(tail)[l] == entry_of(es[l + 1]));
                assert(listing_of_entries(es)[k + 1] == entry_of(es[k + 1]));
                assert(listing_of_entries(es)[l + 1] == entry_of(es[l + 1]));
            }
            assert forall|k: int, l: int|
                0 <= k < l < tail.len() && #[trigger] listing_of_entries(tail)[k] is Key
                    && #[trigger] listing_of_entries(tail)[l] is Key implies listing_of_entries(
                tail,
            )[k]->Key_0 != listing_of_entries(tail)[l]->Key_0 by {
                assert(listing_of_entries(tail)[k] == entry_of(es[k + 1]));
                assert(listing_of_entries(tail)[l] == entry_of(es[l + 1]));
                assert(listing_of_entries(es)[k + 1] == entry_of(es[k + 1]));
                assert(listing_of_entries(es)[l + 1] == entry_of(es[l + 1]));
            }
        }
        assert(tail[i - 1] == es[i]);
        lemma_child_resolution(tail, i - 1);
    }
}

} // verus!
