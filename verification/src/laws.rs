//! Laws of the builder, stated and proved over the tree model: building is
//! deterministic, and every input path lands in exactly one node's files.

use vstd::prelude::*;
use vstd::multiset::Multiset;

use crate::book::child_named;
use crate::book::find_child;
use crate::book::first_readme;
use crate::book::is_readme;
use crate::book::marker_of;
use crate::book::node_of;
use crate::book::render_files;
use crate::book::render_forest;
use crate::book::render_node;
use crate::book::spec_add;
use crate::book::spec_build;
use crate::book::title_of;
use crate::book::Chapter;
use crate::book::Format;
use crate::book::Node;
use crate::strutil::lemma_split_acc_len;
use crate::strutil::spec_split;
use crate::strutil::split_acc;

verus! {

broadcast use vstd::seq_lib::group_to_multiset_ensures;

/// Structural determinism: any two trees built from the same title and the
/// same path sequence are identical, node order and file order included.
pub proof fn lemma_build_deterministic(
    c1: Chapter,
    c2: Chapter,
    title: Seq<char>,
    paths: Seq<Seq<char>>,
)
    requires
        node_of(c1) == spec_build(title, paths),
        node_of(c2) == spec_build(title, paths),
    ensures
        node_of(c1) == node_of(c2),
{
}


/// `files` with every index file removed, order kept.
pub open spec fn non_readme_files(files: Seq<Seq<char>>) -> Seq<Seq<char>>
    decreases files.len(),
{
    if files.len() == 0 {
        files
    } else if is_readme(files.last()) {
        non_readme_files(files.drop_last())
    } else {
        non_readme_files(files.drop_last()).push(files.last())
    }
}

proof fn lemma_render_files_filter(files: Seq<Seq<char>>, ch: char, ind: Seq<char>)
    ensures
        render_files(files, ch, ind) == render_files(non_readme_files(files), ch, ind),
    decreases files.len(),
{
    if files.len() > 0 {
        lemma_render_files_filter(files.drop_last(), ch, ind);
        let kept = non_readme_files(files);
        let fore = non_readme_files(files.drop_last());
        if !is_readme(files.last()) {
            assert(kept.drop_last() =~= fore);
            assert(kept.last() == files.last());
        } else {
            assert(render_files(files.drop_last(), ch, ind) + Seq::<char>::empty() =~= render_files(
                files.drop_last(),
                ch,
                ind,
            ));
        }
    }
}

/// README promotion: a chapter that holds an index file heads its rendering
/// with a link to that file, and its body lists exactly its other files --
/// every index file is left out of the listing.
pub proof fn lemma_readme_promotion(n: Node, f: Format, ind: Seq<char>, r: Seq<char>)
    requires
        first_readme(n.files) == Option::Some(r),
    ensures
        render_node(n, f, ind) == (ind + seq![marker_of(f)] + " ["@ + title_of(n.name) + "]("@ + r
            + ")\n"@) + render_files(non_readme_files(n.files), marker_of(f), ind + "    "@)
            + render_forest(n.children, f, ind + "    "@),
{
    lemma_render_files_filter(n.files, marker_of(f), ind + "    "@);
}

/// All leaf paths stored in a tree, as a multiset.
pub open spec fn tree_files(n: Node) -> Multiset<Seq<char>>
    decreases n,
{
    n.files.to_multiset().add(forest_files(n.children))
}

/// All leaf paths stored across a sequence of trees.
pub open spec fn forest_files(cs: Seq<Node>) -> Multiset<Seq<char>>
    decreases cs,
{
    if cs.len() == 0 {
        Multiset::empty()
    } else {
        forest_files(cs.drop_last()).add(tree_files(cs.last()))
    }
}

/// The full path that adding segments `segs[i..]` under the consumed prefix
/// `root` stores at the leaf.
pub open spec fn acc_path(root: Seq<char>, segs: Seq<Seq<char>>, i: int) -> Seq<char>
    decreases segs.len() - i,
{
    let new_root = if root.len() == 0 {
        segs[i]
    } else {
        root + "/"@ + segs[i]
    };
    if i + 1 < segs.len() {
        acc_path(new_root, segs, i + 1)
    } else {
        new_root
    }
}

/// The segments `segs[i..]` joined back with `/`.
pub open spec fn join_from(segs: Seq<Seq<char>>, i: int) -> Seq<char>
    decreases segs.len() - i,
{
    if i + 1 < segs.len() {
        segs[i] + "/"@ + join_from(segs, i + 1)
    } else {
        segs[i]
    }
}

proof fn lemma_forest_files_update(cs: Seq<Node>, j: int, c: Node, p: Seq<char>)
    requires
        0 <= j < cs.len(),
        tree_files(c) == tree_files(cs[j]).insert(p),
    ensures
        forest_files(cs.update(j, c)) == forest_files(cs).insert(p),
    decreases cs.len(),
{
    if j == cs.len() - 1 {
        assert(cs.update(j, c).drop_last() =~= cs.drop_last());
        assert(cs.update(j, c).last() == c);
        assert(forest_files(cs.update(j, c)) == forest_files(cs.drop_last()).add(
            tree_files(cs[j]).insert(p),
        ));
        assert(forest_files(cs.drop_last()).add(tree_files(cs[j]).insert(p)) =~= forest_files(
            cs.drop_last(),
        ).add(tree_files(cs[j])).insert(p));
    } else {
        assert(cs.update(j, c).drop_last() =~= cs.drop_last().update(j, c));
        assert(cs.update(j, c).last() == cs.last());
        lemma_forest_files_update(cs.drop_last(), j, c, p);
        assert(forest_files(cs.drop_last()).insert(p).add(tree_files(cs.last())) =~= forest_files(
            cs.drop_last(),
        ).add(tree_files(cs.last())).insert(p));
    }
}

proof fn lemma_add_files(n: Node, segs: Seq<Seq<char>>, i: int, root: Seq<char>)
    requires
        0 <= i < segs.len(),
    ensures
        tree_files(spec_add(n, segs, i, root)) == tree_files(n).insert(acc_path(root, segs, i)),
    decreases segs.len() - i,
{
    let new_root = if root.len() == 0 {
        segs[i]
    } else {
        root + "/"@ + segs[i]
    };
    if i + 1 < segs.len() {
        let j = find_child(n.children, segs[i]);
        if j >= 0 {
            lemma_find_child_in_range(n.children, segs[i]);
            lemma_add_files(n.children[j], segs, i + 1, new_root);
            lemma_forest_files_update(
                n.children,
                j,
                spec_add(n.children[j], segs, i + 1, new_root),
                acc_path(new_root, segs, i + 1),
            );
            assert(tree_files(spec_add(n, segs, i, root)) =~= tree_files(n).insert(
                acc_path(root, segs, i),
            ));
        } else {
            let fresh = child_named(segs[i]);
            assert(fresh.files.to_multiset() =~= Multiset::<Seq<char>>::empty());
            assert(tree_files(fresh) =~= Multiset::<Seq<char>>::empty());
            lemma_add_files(fresh, segs, i + 1, new_root);
            let added = spec_add(fresh, segs, i + 1, new_root);
            let cs = n.children.push(added);
            assert(cs.drop_last() =~= n.children);
            assert(cs.last() == added);
            assert(tree_files(added) =~= Multiset::<Seq<char>>::empty().insert(
                acc_path(new_root, segs, i + 1),
            ));
            assert(tree_files(spec_add(n, segs, i, root)) =~= tree_files(n).insert(
                acc_path(root, segs, i),
            ));
        }
    } else {
        assert(n.files.push(new_root).to_multiset() == n.files.to_multiset().insert(new_root));
        assert(tree_files(spec_add(n, segs, i, root)) =~= tree_files(n).insert(
            acc_path(root, segs, i),
        ));
    }
}

proof fn lemma_find_child_in_range(cs: Seq<Node>, name: Seq<char>)
    ensures
        -1 <= find_child(cs, name) < cs.len(),
    decreases cs.len(),
{
    if cs.len() > 0 && cs[0].name != name {
        lemma_find_child_in_range(cs.drop_first(), name);
    }
}

proof fn lemma_acc_path_rooted(root: Seq<char>, segs: Seq<Seq<char>>, i: int)
    requires
        0 <= i < segs.len(),
        root.len() > 0,
    ensures
        acc_path(root, segs, i) == root + "/"@ + join_from(segs, i),
    decreases segs.len() - i,
{
    if i + 1 < segs.len() {
        let new_root = root + "/"@ + segs[i];
        lemma_acc_path_rooted(new_root, segs, i + 1);
        assert(new_root + "/"@ + join_from(segs, i + 1) =~= root + "/"@ + (segs[i] + "/"@
            + join_from(segs, i + 1)));
    }
}

proof fn lemma_join_shift(head: Seq<char>, tail: Seq<Seq<char>>, i: int)
    requires
        1 <= i < 1 + tail.len(),
    ensures
        join_from(seq![head] + tail, i) == join_from(tail, i - 1),
    decreases tail.len() - i + 1,
{
    let s = seq![head] + tail;
    assert(s.len() == 1 + tail.len());
    assert(s[i] == tail[i - 1]);
    if i + 1 < s.len() {
        lemma_join_shift(head, tail, i + 1);
    }
}

proof fn lemma_join_split_acc(s: Seq<char>, cur: Seq<char>)
    ensures
        join_from(split_acc(s, cur), 0) == cur + s,
    decreases s.len(),
{
    if s.len() == 0 {
        assert(join_from(split_acc(s, cur), 0) == cur);
        assert(cur =~= cur + s);
    } else if s[0] == '/' {
        let tail = split_acc(s.drop_first(), Seq::empty());
        lemma_split_acc_len(s.drop_first(), Seq::empty());
        let whole = seq![cur] + tail;
        assert(whole.len() >= 2);
        assert(whole[0] == cur);
        assert(join_from(whole, 0) == cur + "/"@ + join_from(whole, 1));
        lemma_join_shift(cur, tail, 1);
        lemma_join_split_acc(s.drop_first(), Seq::empty());
        assert(join_from(tail, 0) =~= s.drop_first());
        reveal_strlit("/");
        assert("/"@ =~= seq!['/']);
        assert(cur + "/"@ + s.drop_first() =~= cur + s);
    } else {
        lemma_join_split_acc(s.drop_first(), cur.push(s[0]));
        assert(cur.push(s[0]) + s.drop_first() =~= cur + s);
    }
}

proof fn lemma_split_first_min(s: Seq<char>, cur: Seq<char>)
    ensures
        split_acc(s, cur)[0].len() >= cur.len(),
        s.len() > 0 && s[0] != '/' ==> split_acc(s, cur)[0].len() >= cur.len() + 1,
    decreases s.len(),
{
    if s.len() > 0 && s[0] != '/' {
        lemma_split_first_min(s.drop_first(), cur.push(s[0]));
    }
}

/// The path that `spec_add_path` stores at its leaf is the path itself, as
/// long as the path does not begin with a separator.
proof fn lemma_acc_path_verbatim(p: Seq<char>)
    requires
        p.len() == 0 || p[0] != '/',
    ensures
        acc_path(Seq::empty(), spec_split(p), 0) == p,
{
    let segs = spec_split(p);
    lemma_split_acc_len(p, Seq::empty());
    lemma_join_split_acc(p, Seq::empty());
    assert(Seq::<char>::empty() + p =~= p);
    if segs.len() == 1 {
        assert(acc_path(Seq::empty(), segs, 0) == segs[0]);
        assert(join_from(segs, 0) == segs[0]);
    } else {
        lemma_split_first_min(p, Seq::empty());
        assert(segs[0].len() > 0);
        assert(acc_path(Seq::empty(), segs, 0) == acc_path(segs[0], segs, 1));
        lemma_acc_path_rooted(segs[0], segs, 1);
        assert(join_from(segs, 0) == segs[0] + "/"@ + join_from(segs, 1));
    }
}

/// Leaf completeness: after building, the leaf paths stored across the whole
/// tree are exactly the input paths -- none lost, none duplicated, each held
/// verbatim by the one node it was filed under. Paths that begin with a
/// separator are left out: the builder folds their leading empty segment
/// away, so they are not stored verbatim.
pub proof fn lemma_leaf_completeness(title: Seq<char>, paths: Seq<Seq<char>>)
    requires
        forall|k: int| 0 <= k < paths.len() ==> (paths[k].len() == 0 || paths[k][0] != '/'),
    ensures
        tree_files(spec_build(title, paths)) == paths.to_multiset(),
    decreases paths.len(),
{
    if paths.len() == 0 {
        let n = spec_build(title, paths);
        assert(n.files.to_multiset() =~= Multiset::<Seq<char>>::empty());
        assert(tree_files(n) =~= Multiset::<Seq<char>>::empty());
        assert(paths.to_multiset() =~= Multiset::<Seq<char>>::empty());
    } else {
        let fore = paths.drop_last();
        let p = paths.last();
        assert(forall|k: int| 0 <= k < fore.len() ==> (fore[k].len() == 0 || fore[k][0] != '/'));
        lemma_leaf_completeness(title, fore);
        let base = spec_build(title, fore);
        lemma_split_acc_len(p, Seq::empty());
        lemma_add_files(base, spec_split(p), 0, Seq::empty());
        lemma_acc_path_verbatim(p);
        assert(fore.push(p) =~= paths);
        assert(fore.push(p).to_multiset() == fore.to_multiset().insert(p));
    }
}

} // verus!
