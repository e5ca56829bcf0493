//! The chapter tree and its renderer.

use vstd::prelude::*;

use crate::outside::push_char;
use crate::outside::title_case_string;
use crate::outside::to_lower_string;
use crate::strutil::despace;
use crate::strutil::file_stem;
use crate::strutil::indent_of;
use crate::strutil::lemma_alpha_start_at;
use crate::strutil::make_indent;
use crate::strutil::spec_ends_with;
use crate::strutil::spec_split;
use crate::strutil::split_slash;
use crate::strutil::stem_of;
use crate::strutil::str_ends_with;
use crate::strutil::tidy_name;

verus! {

/// The output dialect: the list-marker glyph and the heading style for a
/// chapter without a linkable index file.
#[derive(Debug, PartialEq)]
pub enum Format {
    Md(char),
    Git(char),
}

/// A node of the chapter tree: its name, the full relative paths of the leaf
/// documents directly under it, and its child chapters in first-appearance
/// order.
#[derive(Debug, PartialEq)]
pub struct Chapter {
    pub name: String,
    pub files: Vec<String>,
    pub chapter: Vec<Chapter>,
}

/// The dialect named by a selector string: `md` or `git`; any other selector
/// is rejected.
pub open spec fn spec_format_of(s: Seq<char>) -> Option<Format> {
    if s == "md"@ {
        Option::Some(Format::Md('-'))
    } else if s == "git"@ {
        Option::Some(Format::Git('*'))
    } else {
        Option::None
    }
}

impl Format {
    /// Parses a dialect selector: `md` and `git` name the two dialects, and
    /// every other string is rejected.
    pub fn from_str(s: &str) -> (r: Option<Format>)
        ensures
            r == spec_format_of(s@),
    {
        if crate::strutil::str_eq_str(s, "md") {
            Option::Some(Format::Md('-'))
        } else if crate::strutil::str_eq_str(s, "git") {
            Option::Some(Format::Git('*'))
        } else {
            Option::None
        }
    }
}

/// The mathematical image of a `Chapter`.
#[verifier::ext_equal]
pub ghost struct Node {
    pub name: Seq<char>,
    pub files: Seq<Seq<char>>,
    pub children: Seq<Node>,
}

/// The tree that a `Chapter` value stands for.
pub open spec fn node_of(c: Chapter) -> Node
    decreases c,
{
    Node { name: c.name@, files: c.files.deep_view(), children: nodes_of(c.chapter@) }
}

/// The trees that a sequence of chapters stands for.
pub open spec fn nodes_of(cs: Seq<Chapter>) -> Seq<Node>
    decreases cs,
{
    if cs.len() == 0 {
        Seq::empty()
    } else {
        nodes_of(cs.drop_last()).push(node_of(cs.last()))
    }
}

pub proof fn lemma_nodes_of(cs: Seq<Chapter>)
    ensures
        nodes_of(cs).len() == cs.len(),
        forall|t: int| 0 <= t < cs.len() ==> nodes_of(cs)[t] == node_of(cs[t]),
    decreases cs,
{
    if cs.len() > 0 {
        lemma_nodes_of(cs.drop_last());
    }
}

/// A fresh chapter node with no files and no children.
pub open spec fn child_named(name: Seq<char>) -> Node {
    Node { name, files: Seq::empty(), children: Seq::empty() }
}

/// The index of the first child named `name`, or -1 if there is none.
pub open spec fn find_child(cs: Seq<Node>, name: Seq<char>) -> int
    decreases cs.len(),
{
    if cs.len() == 0 {
        -1
    } else if cs[0].name == name {
        0
    } else {
        let r = find_child(cs.drop_first(), name);
        if r < 0 {
            -1
        } else {
            r + 1
        }
    }
}

pub proof fn lemma_find_child_at(cs: Seq<Node>, name: Seq<char>, j: int)
    requires
        0 <= j < cs.len(),
        cs[j].name == name,
        forall|t: int| 0 <= t < j ==> cs[t].name != name,
    ensures
        find_child(cs, name) == j,
    decreases j,
{
    if j == 0 {
    } else {
        lemma_find_child_at(cs.drop_first(), name, j - 1);
    }
}

pub proof fn lemma_find_child_none(cs: Seq<Node>, name: Seq<char>)
    requires
        forall|t: int| 0 <= t < cs.len() ==> cs[t].name != name,
    ensures
        find_child(cs, name) == -1,
    decreases cs.len(),
{
    if cs.len() == 0 {
    } else {
        lemma_find_child_none(cs.drop_first(), name);
    }
}

/// Adds one path, given as its segments `segs[i..]`, below node `n`; `root`
/// is the part of the path already consumed. The final segment joins the
/// node's files as the full accumulated path; any other segment names the
/// child to descend into, which is created at the end of the child list when
/// it is new.
pub open spec fn spec_add(n: Node, segs: Seq<Seq<char>>, i: int, root: Seq<char>) -> Node
    decreases segs.len() - i,
{
    let new_root = if root.len() == 0 {
        segs[i]
    } else {
        root + "/"@ + segs[i]
    };
    if i + 1 < segs.len() {
        let j = find_child(n.children, segs[i]);
        if j >= 0 {
            Node {
                name: n.name,
                files: n.files,
                children: n.children.update(j, spec_add(n.children[j], segs, i + 1, new_root)),
            }
        } else {
            Node {
                name: n.name,
                files: n.files,
                children: n.children.push(spec_add(child_named(segs[i]), segs, i + 1, new_root)),
            }
        }
    } else {
        Node { name: n.name, files: n.files.push(new_root), children: n.children }
    }
}

/// Adds one slash-delimited path below node `n`.
pub open spec fn spec_add_path(n: Node, path: Seq<char>) -> Node {
    spec_add(n, spec_split(path), 0, Seq::empty())
}

/// The tree built from a title and an ordered sequence of paths.
pub open spec fn spec_build(title: Seq<char>, paths: Seq<Seq<char>>) -> Node
    decreases paths.len(),
{
    if paths.len() == 0 {
        Node { name: title, files: Seq::empty(), children: Seq::empty() }
    } else {
        spec_add_path(spec_build(title, paths.drop_last()), paths.last())
    }
}


/// The first chapter index file among `files`, if any.
pub open spec fn first_readme(files: Seq<Seq<char>>) -> Option<Seq<char>>
    decreases files.len(),
{
    if files.len() == 0 {
        Option::None
    } else if is_readme(files[0]) {
        Option::Some(files[0])
    } else {
        first_readme(files.drop_first())
    }
}

pub proof fn lemma_first_readme_at(files: Seq<Seq<char>>, j: int)
    requires
        0 <= j < files.len(),
        is_readme(files[j]),
        forall|t: int| 0 <= t < j ==> !is_readme(files[t]),
    ensures
        first_readme(files) == Option::Some(files[j]),
    decreases j,
{
    if j > 0 {
        lemma_first_readme_at(files.drop_first(), j - 1);
    }
}

pub proof fn lemma_first_readme_none(files: Seq<Seq<char>>)
    requires
        forall|t: int| 0 <= t < files.len() ==> !is_readme(files[t]),
    ensures
        first_readme(files) == Option::None::<Seq<char>>,
    decreases files.len(),
{
    if files.len() > 0 {
        lemma_first_readme_none(files.drop_first());
    }
}

/// The heading line of a chapter: linked to its index file when it has one,
/// else the dialect's unlinked form.
pub open spec fn heading_line(n: Node, f: Format, ind: Seq<char>) -> Seq<char> {
    match first_readme(n.files) {
        Option::Some(r) => ind + seq![marker_of(f)] + " ["@ + title_of(n.name) + "]("@ + r
            + ")\n"@,
        Option::None => match f {
            Format::Md(c) => ind + seq![c] + " ["@ + title_of(n.name) + "](#)\n"@,
            Format::Git(c) => ind + seq![c] + " "@ + title_of(n.name) + "\n"@,
        },
    }
}

/// The rendered subtree of a chapter: its heading, its own files one level
/// deeper, then its children in order, each one level deeper.
pub open spec fn render_node(n: Node, f: Format, ind: Seq<char>) -> Seq<char>
    decreases n,
{
    heading_line(n, f, ind) + render_files(n.files, marker_of(f), ind + "    "@) + render_forest(
        n.children,
        f,
        ind + "    "@,
    )
}

/// The rendered subtrees of a chapter sequence, in order.
pub open spec fn render_forest(cs: Seq<Node>, f: Format, ind: Seq<char>) -> Seq<char>
    decreases cs,
{
    if cs.len() == 0 {
        Seq::empty()
    } else {
        render_forest(cs.drop_last(), f, ind) + render_node(cs.last(), f, ind)
    }
}

impl Chapter {
    /// Builds the chapter tree for `name` from the ordered path list
    /// `entries`: each entry is consumed segment by segment, and the tree's
    /// child and file order is the order of first appearance in `entries`.
    /// No entry is rejected: an empty segment simply names an empty chapter
    /// or, at the end of an entry, an empty file name, and an entry that does
    /// not begin with a separator is stored verbatim at its leaf.
    pub fn new(name: String, entries: &Vec<String>) -> (r: Chapter)
        ensures
            node_of(r) == spec_build(name@, entries.deep_view()),
    {
        let ghost title = name@;
        let mut chapter = Chapter { name, files: Vec::new(), chapter: Vec::new() };
        proof {
            assert(node_of(chapter) =~= spec_build(title, Seq::<Seq<char>>::empty()));
            assert(entries.deep_view().take(0) =~= Seq::<Seq<char>>::empty());
        }
        let n = entries.len();
        let mut k: usize = 0;
        while k < n
            invariant
                k <= n,
                n == entries@.len(),
                node_of(chapter) == spec_build(title, entries.deep_view().take(k as int)),
            decreases n - k,
        {
            let segs = split_slash(entries[k].as_str());
            proof {
                crate::strutil::lemma_split_acc_len(entries@[k as int]@, Seq::empty());
            }
            chapter.add_entry(&segs, 0, "");
            proof {
                reveal_strlit("");
                assert(""@ =~= Seq::<char>::empty());
                let dv = entries.deep_view();
                assert(dv.take(k + 1).drop_last() =~= dv.take(k as int));
                assert(dv.take(k + 1).last() == dv[k as int]);
                assert(dv[k as int] == entries@[k as int]@);
                assert(node_of(chapter) == spec_build(title, dv.take(k + 1)));
            }
            k = k + 1;
        }
        proof {
            assert(entries.deep_view().take(n as int) =~= entries.deep_view());
        }
        chapter
    }

    /// Adds the path whose segments are `segs`, of which the first `i` are
    /// already consumed into `root`, below this chapter.
    fn add_entry(&mut self, segs: &Vec<String>, i: usize, root: &str)
        requires
            i < segs@.len(),
        ensures
            node_of(*final(self)) == spec_add(
                node_of(*old(self)),
                segs.deep_view(),
                i as int,
                root@,
            ),
        decreases segs@.len() - i,
    {
        let new_root: String = if root.is_empty() {
            segs[i].clone()
        } else {
            let mut nr: String = root.to_owned();
            nr.append("/");
            nr.append(segs[i].as_str());
            nr
        };
        proof {
            assert(segs.deep_view()[i as int] == segs@[i as int]@);
        }
        let m = segs.len();
        if i + 1 < m {
            let ghost pre = *self;
            let mut j: usize = 0;
            let n = self.chapter.len();
            let mut found: bool = false;
            while j < n && !found
                invariant
                    j <= n,
                    n == self.chapter@.len(),
                    i < segs@.len(),
                    *self == pre,
                    found ==> j < n && self.chapter@[j as int].name@ == segs@[i as int]@,
                    forall|t: int| 0 <= t < j ==> self.chapter@[t].name@ != segs@[i as int]@,
                decreases n - j + (if found { 0int } else { 1int }),
            {
                if self.chapter[j].name == segs[i] {
                    found = true;
                } else {
                    j = j + 1;
                }
            }
            let ghost cs = node_of(pre).children;
            proof {
                lemma_nodes_of(pre.chapter@);
            }
            if found {
                proof {
                    lemma_find_child_at(cs, segs.deep_view()[i as int], j as int);
                }
                let mut child = self.chapter.remove(j);
                child.add_entry(segs, i + 1, new_root.as_str());
                let ghost childg = child;
                self.chapter.insert(j, child);
                proof {
                    let dv = segs.deep_view();
                    lemma_nodes_of(self.chapter@);
                    assert(self.chapter@ =~= pre.chapter@.update(j as int, childg));
                    assert(node_of(childg) == spec_add(cs[j as int], dv, i + 1, new_root@));
                    assert(node_of(*self).children =~= cs.update(
                        j as int,
                        spec_add(cs[j as int], dv, i + 1, new_root@),
                    ));
                    assert(node_of(*self) =~= spec_add(node_of(pre), dv, i as int, root@));
                }
            } else {
                proof {
                    lemma_find_child_none(cs, segs.deep_view()[i as int]);
                }
                let mut child = Chapter {
                    name: segs[i].clone(),
                    files: Vec::new(),
                    chapter: Vec::new(),
                };
                proof {
                    assert(node_of(child) =~= child_named(segs.deep_view()[i as int]));
                }
                child.add_entry(segs, i + 1, new_root.as_str());
                let ghost childg = child;
                self.chapter.push(child);
                proof {
                    let dv = segs.deep_view();
                    lemma_nodes_of(self.chapter@);
                    assert(self.chapter@ =~= pre.chapter@.push(childg));
                    assert(node_of(childg) == spec_add(child_named(dv[i as int]), dv, i + 1, new_root@));
                    assert(node_of(*self).children =~= cs.push(
                        spec_add(child_named(dv[i as int]), dv, i + 1, new_root@),
                    ));
                    assert(node_of(*self) =~= spec_add(node_of(pre), dv, i as int, root@));
                }
            }
        } else {
            let ghost pre = *self;
            self.files.push(new_root);
            proof {
                let dv = segs.deep_view();
                assert(node_of(*self).files =~= node_of(pre).files.push(new_root@));
                assert(node_of(*self).children =~= node_of(pre).children);
                assert(node_of(*self) =~= spec_add(node_of(pre), dv, i as int, root@));
            }
        }
    }
}

/// The list-marker glyph of a dialect.
pub open spec fn marker_of(f: Format) -> char {
    match f {
        Format::Md(c) => c,
        Format::Git(c) => c,
    }
}

/// The human-readable title derived from a raw file or directory name.
pub open spec fn title_of(name: Seq<char>) -> Seq<char> {
    crate::outside::title_cased(tidy_name(name))
}

/// Whether `p` is a chapter index file: its lowercase form ends in
/// `/readme.md`.
pub open spec fn is_readme(p: Seq<char>) -> bool {
    spec_ends_with(crate::outside::lower_of(p), "/readme.md"@)
}

pub fn is_readme_file(f: &str) -> (r: bool)
    ensures
        r == is_readme(f@),
{
    let low = to_lower_string(f);
    str_ends_with(low.as_str(), "/readme.md")
}

/// Derives a title from a raw name: the leading non-alphabetic ordering
/// prefix is stripped, underscores become spaces, and the rest is put in
/// title case.
pub fn make_title_case(name: &str) -> (r: String)
    ensures
        r@ == title_of(name@),
{
    let n: usize = name.unicode_len();
    let mut k: usize = 0;
    while k < n && !name.get_char(k).is_alphabetic()
        invariant
            k <= n,
            n == name@.len(),
            forall|t: int| 0 <= t < k ==> !crate::outside::is_alpha(name@[t]),
        decreases n - k,
    {
        k = k + 1;
    }
    proof {
        lemma_alpha_start_at(name@, k as int);
    }
    let mut tidy = String::new();
    let mut t: usize = k;
    proof {
        assert(tidy@ =~= name@.subrange(k as int, k as int).map_values(|c: char| despace(c)));
    }
    while t < n
        invariant
            k <= t <= n,
            n == name@.len(),
            tidy@ == name@.subrange(k as int, t as int).map_values(|c: char| despace(c)),
        decreases n - t,
    {
        let c = name.get_char(t);
        if c == '_' {
            push_char(&mut tidy, ' ');
        } else {
            push_char(&mut tidy, c);
        }
        proof {
            assert(tidy@ =~= name@.subrange(k as int, t + 1).map_values(|c: char| despace(c)));
        }
        t = t + 1;
    }
    proof {
        assert(name@.subrange(k as int, n as int) =~= name@.skip(k as int));
        assert(tidy@ == tidy_name(name@));
    }
    title_case_string(tidy.as_str())
}

/// One rendered file line: indent, marker, linked title, path.
pub open spec fn file_line(p: Seq<char>, ch: char, ind: Seq<char>) -> Seq<char> {
    ind + seq![ch] + " ["@ + title_of(stem_of(p)) + "]("@ + p + ")\n"@
}

/// The rendered lines of a file list: one line per file, in order, with any
/// chapter index file left out (it is promoted to the chapter heading).
pub open spec fn render_files(files: Seq<Seq<char>>, ch: char, ind: Seq<char>) -> Seq<char>
    decreases files.len(),
{
    if files.len() == 0 {
        Seq::empty()
    } else {
        render_files(files.drop_last(), ch, ind) + if is_readme(files.last()) {
            Seq::<char>::empty()
        } else {
            file_line(files.last(), ch, ind)
        }
    }
}

fn print_files_at(files: &Vec<String>, list_char: char, prefix: &str) -> (r: String)
    ensures
        r@ == render_files(files.deep_view(), list_char, prefix@),
{
    let mut out = String::new();
    let n = files.len();
    let mut i: usize = 0;
    proof {
        assert(files.deep_view().take(0) =~= Seq::<Seq<char>>::empty());
        assert(out@ =~= render_files(files.deep_view().take(0), list_char, prefix@));
    }
    while i < n
        invariant
            i <= n,
            n == files@.len(),
            out@ == render_files(files.deep_view().take(i as int), list_char, prefix@),
        decreases n - i,
    {
        proof {
            assert(files.deep_view()[i as int] == files@[i as int]@);
        }
        if !is_readme_file(files[i].as_str()) {
            out.append(prefix);
            push_char(&mut out, list_char);
            out.append(" [");
            let st = file_stem(files[i].as_str());
            let title = make_title_case(st.as_str());
            out.append(title.as_str());
            out.append("](");
            out.append(files[i].as_str());
            out.append(")\n");
        }
        proof {
            let dv = files.deep_view();
            assert(dv.take(i + 1).drop_last() =~= dv.take(i as int));
            assert(dv.take(i + 1).last() == dv[i as int]);
            assert(out@ =~= render_files(dv.take(i + 1), list_char, prefix@));
        }
        i = i + 1;
    }
    proof {
        assert(files.deep_view().take(n as int) =~= files.deep_view());
    }
    out
}

/// Renders a file list at indentation depth `indent`, one markdown list line
/// per file, leaving out any chapter index file.
pub fn print_files(files: &Vec<String>, list_char: &char, indent: usize) -> (r: String)
    ensures
        r@ == render_files(files.deep_view(), *list_char, indent_of(indent as nat)),
{
    let prefix = make_indent(indent);
    print_files_at(files, *list_char, prefix.as_str())
}



/// The first chapter whose lowercase name matches the lowercase of `name`,
/// if any.
pub open spec fn find_by_lower(cs: Seq<Node>, name: Seq<char>) -> Option<Node>
    decreases cs.len(),
{
    if cs.len() == 0 {
        Option::None
    } else if crate::outside::lower_of(cs[0].name) == crate::outside::lower_of(name) {
        Option::Some(cs[0])
    } else {
        find_by_lower(cs.drop_first(), name)
    }
}

pub proof fn lemma_find_by_lower_at(cs: Seq<Node>, name: Seq<char>, j: int)
    requires
        0 <= j < cs.len(),
        crate::outside::lower_of(cs[j].name) == crate::outside::lower_of(name),
        forall|t: int|
            0 <= t < j ==> crate::outside::lower_of(cs[t].name) != crate::outside::lower_of(name),
    ensures
        find_by_lower(cs, name) == Option::Some(cs[j]),
    decreases j,
{
    if j > 0 {
        lemma_find_by_lower_at(cs.drop_first(), name, j - 1);
    }
}

pub proof fn lemma_find_by_lower_none(cs: Seq<Node>, name: Seq<char>)
    requires
        forall|t: int|
            0 <= t < cs.len() ==> crate::outside::lower_of(cs[t].name) != crate::outside::lower_of(
                name,
            ),
    ensures
        find_by_lower(cs, name) == Option::None::<Node>,
    decreases cs.len(),
{
    if cs.len() > 0 {
        lemma_find_by_lower_none(cs.drop_first(), name);
    }
}

/// Whether some name in `names` matches `nm`, case-insensitively.
pub open spec fn has_lower_match(names: Seq<Seq<char>>, nm: Seq<char>) -> bool {
    exists|k: int|
        0 <= k < names.len() && crate::outside::lower_of(names[k]) == crate::outside::lower_of(nm)
}

/// The subtrees of the preferred chapters, in the order their names appear in
/// `names`; a name that matches no chapter contributes nothing.
pub open spec fn render_preferred(cs: Seq<Node>, names: Seq<Seq<char>>, f: Format) -> Seq<char>
    decreases names.len(),
{
    if names.len() == 0 {
        Seq::empty()
    } else {
        render_preferred(cs, names.drop_last(), f) + match find_by_lower(cs, names.last()) {
            Option::Some(n) => render_node(n, f, Seq::empty()),
            Option::None => Seq::<char>::empty(),
        }
    }
}

/// The subtrees of the chapters not named in `names`, in insertion order.
pub open spec fn render_rest(cs: Seq<Node>, names: Seq<Seq<char>>, f: Format) -> Seq<char>
    decreases cs.len(),
{
    if cs.len() == 0 {
        Seq::empty()
    } else {
        render_rest(cs.drop_last(), names, f) + if has_lower_match(names, cs.last().name) {
            Seq::<char>::empty()
        } else {
            render_node(cs.last(), f, Seq::empty())
        }
    }
}

/// The whole rendered summary: the level-1 title heading, the root's own
/// files, then the chapters -- the preferred ones first when a preferred
/// order is given, the remaining ones in insertion order.
pub open spec fn spec_summary(n: Node, f: Format, pref: Option<Seq<Seq<char>>>) -> Seq<char> {
    let head = "# "@ + n.name + "\n\n"@ + render_files(n.files, marker_of(f), Seq::empty());
    match pref {
        Option::Some(names) => head + render_preferred(n.children, names, f) + render_rest(
            n.children,
            names,
            f,
        ),
        Option::None => head + render_forest(n.children, f, Seq::empty()),
    }
}

impl Chapter {
    /// Renders the whole summary document: the title heading, the root's own
    /// files, then every chapter's subtree -- chapters named in
    /// `prefered_chapter` first, in that order, matched case-insensitively,
    /// the rest in insertion order.
    pub fn get_summary_file(&self, format: &Format, prefered_chapter: &Option<Vec<String>>) -> (r:
        String)
        ensures
            r@ == spec_summary(node_of(*self), *format, prefered_chapter.deep_view()),
    {
        let ghost nd = node_of(*self);
        let mut summary: String = String::new();
        summary.append("# ");
        summary.append(self.name.as_str());
        summary.append("\n\n");
        let list_char: char = match format {
            Format::Md(c) => *c,
            Format::Git(c) => *c,
        };
        let files_txt = print_files(&self.files, &list_char, 0);
        summary.append(files_txt.as_str());
        let ghost head = "# "@ + nd.name + "\n\n"@ + render_files(
            nd.files,
            marker_of(*format),
            Seq::empty(),
        );
        proof {
            assert(indent_of(0) =~= Seq::<char>::empty());
            assert(summary@ =~= head);
        }
        let cn = self.chapter.len();
        proof {
            lemma_nodes_of(self.chapter@);
        }
        match prefered_chapter {
            Option::Some(chapter_names) => {
                let pn = chapter_names.len();
                let mut a: usize = 0;
                proof {
                    assert(chapter_names.deep_view().take(0) =~= Seq::<Seq<char>>::empty());
                    assert(summary@ == head + render_preferred(
                        nd.children,
                        chapter_names.deep_view().take(0),
                        *format,
                    ));
                }
                while a < pn
                    invariant
                        a <= pn,
                        pn == chapter_names@.len(),
                        cn == self.chapter@.len(),
                        nd == node_of(*self),
                        nd.children.len() == cn,
                        head == "# "@ + nd.name + "\n\n"@ + render_files(
                            nd.files,
                            marker_of(*format),
                            Seq::empty(),
                        ),
                        summary@ == head + render_preferred(
                            nd.children,
                            chapter_names.deep_view().take(a as int),
                            *format,
                        ),
                    decreases pn - a,
                {
                    proof {
                        assert(chapter_names.deep_view()[a as int] == chapter_names@[a as int]@);
                    }
                    let target_low = to_lower_string(chapter_names[a].as_str());
                    let mut j: usize = 0;
                    let mut found: bool = false;
                    while j < cn && !found
                        invariant
                            j <= cn,
                            cn == self.chapter@.len(),
                            nd == node_of(*self),
                            nd.children.len() == cn,
                            a < pn,
                            pn == chapter_names@.len(),
                            target_low@ == crate::outside::lower_of(chapter_names@[a as int]@),
                            forall|t: int|
                                0 <= t < j ==> crate::outside::lower_of(nd.children[t].name)
                                    != crate::outside::lower_of(chapter_names@[a as int]@),
                            found ==> j < cn && crate::outside::lower_of(
                                nd.children[j as int].name,
                            ) == crate::outside::lower_of(chapter_names@[a as int]@),
                        decreases cn - j + (if found { 0int } else { 1int }),
                    {
                        proof {
                            lemma_nodes_of(self.chapter@);
                            assert(nd.children[j as int].name == self.chapter@[j as int].name@);
                        }
                        let low = to_lower_string(self.chapter[j].name.as_str());
                        if low == target_low {
                            found = true;
                        } else {
                            j = j + 1;
                        }
                    }
                    if found {
                        proof {
                            lemma_find_by_lower_at(
                                nd.children,
                                chapter_names.deep_view()[a as int],
                                j as int,
                            );
                            lemma_nodes_of(self.chapter@);
                        }
                        let sub = self.chapter[j].create_tree_for_summary(format, "");
                        summary.append(sub.as_str());
                    } else {
                        proof {
                            lemma_find_by_lower_none(
                                nd.children,
                                chapter_names.deep_view()[a as int],
                            );
                        }
                    }
                    proof {
                        reveal_strlit("");
                        assert(""@ =~= Seq::<char>::empty());
                        lemma_nodes_of(self.chapter@);
                        let ndv = chapter_names.deep_view();
                        assert(ndv.take(a + 1).drop_last() =~= ndv.take(a as int));
                        assert(ndv.take(a + 1).last() == ndv[a as int]);
                        let c0 = render_preferred(nd.children, ndv.take(a as int), *format);
                        let dd = match find_by_lower(nd.children, ndv[a as int]) {
                            Option::Some(x) => render_node(x, *format, Seq::empty()),
                            Option::None => Seq::<char>::empty(),
                        };
                        assert(render_preferred(nd.children, ndv.take(a + 1), *format) == c0 + dd);
                        assert(head + c0 + dd =~= head + (c0 + dd));
                        if !found {
                            assert(summary@ =~= head + c0 + dd);
                        }
                        assert(summary@ == head + render_preferred(
                            nd.children,
                            ndv.take(a + 1),
                            *format,
                        ));
                    }
                    a = a + 1;
                }
                proof {
                    assert(chapter_names.deep_view().take(pn as int) =~= chapter_names.deep_view());
                }
                let mut j2: usize = 0;
                proof {
                    assert(nd.children.take(0) =~= Seq::<Node>::empty());
                    assert(summary@ =~= head + render_preferred(
                        nd.children,
                        chapter_names.deep_view(),
                        *format,
                    ) + render_rest(nd.children.take(0), chapter_names.deep_view(), *format));
                }
                while j2 < cn
                    invariant
                        j2 <= cn,
                        cn == self.chapter@.len(),
                        pn == chapter_names@.len(),
                        nd == node_of(*self),
                        nd.children.len() == cn,
                        head == "# "@ + nd.name + "\n\n"@ + render_files(
                            nd.files,
                            marker_of(*format),
                            Seq::empty(),
                        ),
                        summary@ == head + render_preferred(
                            nd.children,
                            chapter_names.deep_view(),
                            *format,
                        ) + render_rest(
                            nd.children.take(j2 as int),
                            chapter_names.deep_view(),
                            *format,
                        ),
                    decreases cn - j2,
                {
                    proof {
                        lemma_nodes_of(self.chapter@);
                        assert(nd.children[j2 as int].name == self.chapter@[j2 as int].name@);
                    }
                    let child_low = to_lower_string(self.chapter[j2].name.as_str());
                    let mut b: usize = 0;
                    let mut matched: bool = false;
                    while b < pn && !matched
                        invariant
                            b <= pn,
                            pn == chapter_names@.len(),
                            cn == self.chapter@.len(),
                            j2 < cn,
                            nd == node_of(*self),
                            nd.children.len() == cn,
                            child_low@ == crate::outside::lower_of(nd.children[j2 as int].name),
                            forall|t: int|
                                0 <= t < b ==> crate::outside::lower_of(chapter_names@[t]@)
                                    != crate::outside::lower_of(nd.children[j2 as int].name),
                            matched ==> has_lower_match(
                                chapter_names.deep_view(),
                                nd.children[j2 as int].name,
                            ),
                        decreases pn - b + (if matched { 0int } else { 1int }),
                    {
                        let nl = to_lower_string(chapter_names[b].as_str());
                        if nl == child_low {
                            matched = true;
                            proof {
                                assert(chapter_names.deep_view()[b as int] == chapter_names@[b as int]@);
                            }
                        } else {
                            b = b + 1;
                        }
                    }
                    if !matched {
                        proof {
                            lemma_nodes_of(self.chapter@);
                        }
                        let sub = self.chapter[j2].create_tree_for_summary(format, "");
                        summary.append(sub.as_str());
                    }
                    proof {
                        reveal_strlit("");
                        assert(""@ =~= Seq::<char>::empty());
                        lemma_nodes_of(self.chapter@);
                        let ndv = chapter_names.deep_view();
                        assert(forall|t: int| 0 <= t < pn ==> ndv[t] == chapter_names@[t]@);
                        assert(nd.children.take(j2 + 1).drop_last() =~= nd.children.take(
                            j2 as int,
                        ));
                        assert(nd.children.take(j2 + 1).last() == nd.children[j2 as int]);
                        let p0 = render_preferred(nd.children, ndv, *format);
                        let c0 = render_rest(nd.children.take(j2 as int), ndv, *format);
                        let dd = if has_lower_match(ndv, nd.children[j2 as int].name) {
                            Seq::<char>::empty()
                        } else {
                            render_node(nd.children[j2 as int], *format, Seq::empty())
                        };
                        if !matched {
                            assert(!has_lower_match(ndv, nd.children[j2 as int].name));
                        }
                        assert(render_rest(nd.children.take(j2 + 1), ndv, *format) == c0 + dd);
                        assert(head + p0 + c0 + dd =~= head + p0 + (c0 + dd));
                        if matched {
                            assert(summary@ =~= head + p0 + c0 + dd);
                        }
                        assert(summary@ == head + p0 + render_rest(
                            nd.children.take(j2 + 1),
                            ndv,
                            *format,
                        ));
                    }
                    j2 = j2 + 1;
                }
                proof {
                    lemma_nodes_of(self.chapter@);
                    assert(nd.children.take(cn as int) =~= nd.children);
                }
            }
            Option::None => {
                let mut j: usize = 0;
                proof {
                    assert(nd.children.take(0) =~= Seq::<Node>::empty());
                    assert(summary@ =~= head + render_forest(
                        nd.children.take(0),
                        *format,
                        Seq::empty(),
                    ));
                }
                while j < cn
                    invariant
                        j <= cn,
                        cn == self.chapter@.len(),
                        nd == node_of(*self),
                        nd.children.len() == cn,
                        head == "# "@ + nd.name + "\n\n"@ + render_files(
                            nd.files,
                            marker_of(*format),
                            Seq::empty(),
                        ),
                        summary@ == head + render_forest(
                            nd.children.take(j as int),
                            *format,
                            Seq::empty(),
                        ),
                    decreases cn - j,
                {
                    proof {
                        lemma_nodes_of(self.chapter@);
                        assert(nd.children[j as int] == node_of(self.chapter@[j as int]));
                    }
                    let sub = self.chapter[j].create_tree_for_summary(format, "");
                    summary.append(sub.as_str());
                    proof {
                        reveal_strlit("");
                        assert(""@ =~= Seq::<char>::empty());
                        assert(nd.children.take(j + 1).drop_last() =~= nd.children.take(j as int));
                        assert(nd.children.take(j + 1).last() == nd.children[j as int]);
                        let c0 = render_forest(nd.children.take(j as int), *format, Seq::empty());
                        let dd = render_node(nd.children[j as int], *format, Seq::empty());
                        assert(render_forest(nd.children.take(j + 1), *format, Seq::empty()) == c0
                            + dd);
                        assert(head + c0 + dd =~= head + (c0 + dd));
                        assert(summary@ == head + render_forest(
                            nd.children.take(j + 1),
                            *format,
                            Seq::empty(),
                        ));
                    }
                    j = j + 1;
                }
                proof {
                    lemma_nodes_of(self.chapter@);
                    assert(nd.children.take(cn as int) =~= nd.children);
                }
            }
        }
        summary
    }

    /// Renders this chapter's subtree: its heading line prefixed by `indent`,
    /// then its files and children one indentation level deeper.
    fn create_tree_for_summary(&self, format: &Format, indent: &str) -> (r: String)
        ensures
            r@ == render_node(node_of(*self), *format, indent@),
        decreases node_of(*self),
    {
        let ghost nd = node_of(*self);
        let ghost ind = indent@;
        let mut summary: String = indent.to_owned();
        let list_char: char = match format {
            Format::Md(c) => *c,
            Format::Git(c) => *c,
        };
        let fcount = self.files.len();
        let mut ri: usize = 0;
        let mut rfound: bool = false;
        while ri < fcount && !rfound
            invariant
                ri <= fcount,
                fcount == self.files@.len(),
                forall|t: int| 0 <= t < ri ==> !is_readme(self.files.deep_view()[t]),
                rfound ==> ri < fcount && is_readme(self.files.deep_view()[ri as int]),
            decreases fcount - ri + (if rfound { 0int } else { 1int }),
        {
            proof {
                assert(self.files.deep_view()[ri as int] == self.files@[ri as int]@);
            }
            if is_readme_file(self.files[ri].as_str()) {
                rfound = true;
            } else {
                ri = ri + 1;
            }
        }
        let title = make_title_case(self.name.as_str());
        if rfound {
            push_char(&mut summary, list_char);
            summary.append(" [");
            summary.append(title.as_str());
            summary.append("](");
            summary.append(self.files[ri].as_str());
            summary.append(")\n");
            proof {
                lemma_first_readme_at(nd.files, ri as int);
                assert(self.files.deep_view()[ri as int] == self.files@[ri as int]@);
                assert(summary@ =~= heading_line(nd, *format, ind));
            }
        } else {
            proof {
                lemma_first_readme_none(nd.files);
            }
            match format {
                Format::Md(_) => {
                    push_char(&mut summary, list_char);
                    summary.append(" [");
                    summary.append(title.as_str());
                    summary.append("](#)\n");
                }
                Format::Git(_) => {
                    push_char(&mut summary, list_char);
                    summary.append(" ");
                    summary.append(title.as_str());
                    summary.append("\n");
                }
            }
            proof {
                assert(summary@ =~= heading_line(nd, *format, ind));
            }
        }
        let mut child_indent: String = indent.to_owned();
        child_indent.append("    ");
        let files_txt = print_files_at(&self.files, list_char, child_indent.as_str());
        summary.append(files_txt.as_str());
        let cn = self.chapter.len();
        let mut j: usize = 0;
        proof {
            assert(nd.children.take(0) =~= Seq::<Node>::empty());
            assert(summary@ == heading_line(nd, *format, ind) + render_files(
                nd.files,
                marker_of(*format),
                ind + "    "@,
            ) + render_forest(nd.children.take(0), *format, ind + "    "@));
        }
        while j < cn
            invariant
                j <= cn,
                cn == self.chapter@.len(),
                nd == node_of(*self),
                ind == indent@,
                child_indent@ == ind + "    "@,
                summary@ == heading_line(nd, *format, ind) + render_files(
                    nd.files,
                    marker_of(*format),
                    ind + "    "@,
                ) + render_forest(nd.children.take(j as int), *format, ind + "    "@),
            decreases cn - j,
        {
            proof {
                lemma_nodes_of(self.chapter@);
                assert(nd.children[j as int] == node_of(self.chapter@[j as int]));
                assert(decreases_to!(nd => nd.children));
                assert(decreases_to!(nd.children => nd.children[j as int]));
                assert(decreases_to!(nd => nd.children[j as int]));
            }
            let sub = self.chapter[j].create_tree_for_summary(format, child_indent.as_str());
            summary.append(sub.as_str());
            proof {
                let ind4 = ind + "    "@;
                assert(nd.children.take(j + 1).drop_last() =~= nd.children.take(j as int));
                assert(nd.children.take(j + 1).last() == nd.children[j as int]);
                let a = heading_line(nd, *format, ind);
                let b = render_files(nd.files, marker_of(*format), ind4);
                let c = render_forest(nd.children.take(j as int), *format, ind4);
                let d = render_node(nd.children[j as int], *format, ind4);
                assert(render_forest(nd.children.take(j + 1), *format, ind4) == c + d);
                assert(summary@ == a + b + c + d);
                assert(a + b + c + d =~= a + b + (c + d));
                assert(summary@ == a + b + render_forest(nd.children.take(j + 1), *format, ind4));
            }
            j = j + 1;
        }
        proof {
            lemma_nodes_of(self.chapter@);
            assert(nd.children.take(cn as int) =~= nd.children);
        }
        summary
    }
}

} // verus!
