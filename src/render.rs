use vstd::prelude::*;
use crate::node::{Node, landing_name, summary_name, doc_ext, height, max_height, lemma_max_height};
use crate::text::{ends_with, same_text, has_suffix};

verus! {

/// The indentation of an entry at `depth` (at least 1): four spaces per level
/// below the first visible one.
pub open spec fn indent(depth: nat) -> Seq<char> {
    Seq::new(((depth - 1) * 4) as nat, |_i: int| ' ')
}

/// One list line: `<indent>- [<title>](<target>)`.
pub open spec fn entry(depth: nat, title: Seq<char>, target: Seq<char>) -> Seq<char> {
    indent(depth) + "- ["@ + title + "]("@ + target + ")"@
}

/// A file that gets a line of its own once it stands below the root.
pub open spec fn listed(name: Seq<char>) -> bool {
    name != landing_name() && name != summary_name() && ends_with(name, doc_ext())
}

/// The lines that a node gives at `depth`, where `path` is the link path of the
/// folder that holds it.
pub open spec fn node_rows(n: Node, path: Seq<char>, depth: nat) -> Seq<Seq<char>>
    decreases n,
{
    match n {
        Node::File(name, title) => {
            if depth > 0 && listed(name@) {
                seq![entry(depth, title@, path + "/"@ + name@)]
            } else {
                Seq::empty()
            }
        },
        Node::Folder(name, title, children) => {
            let own = if depth > 0 {
                seq![entry(depth, title@, path + "/"@ + name@ + "/"@ + landing_name())]
            } else {
                Seq::empty()
            };
            let inner = if depth == 0 {
                "."@
            } else {
                path + "/"@ + name@
            };
            own + rows_of(children@, inner, depth + 1)
        },
    }
}

/// The lines of a sequence of sibling nodes, in order.
pub open spec fn rows_of(s: Seq<Node>, path: Seq<char>, depth: nat) -> Seq<Seq<char>>
    decreases s,
{
    if s.len() == 0 {
        Seq::empty()
    } else {
        rows_of(s.subrange(0, s.len() - 1), path, depth) + node_rows(s[s.len() - 1], path, depth)
    }
}

pub open spec fn views(v: Seq<String>) -> Seq<Seq<char>> {
    v.map_values(|s: String| s@)
}

fn indentation(depth: usize) -> (r: String)
    requires
        depth >= 1,
    ensures
        r@ == indent(depth as nat),
{
    let mut r = String::new();
    let mut j: usize = 1;
    while j < depth
        invariant
            1 <= j <= depth,
            r@ == Seq::new(((j - 1) * 4) as nat, |_i: int| ' '),
        decreases depth - j,
    {
        r.push(' ');
        r.push(' ');
        r.push(' ');
        r.push(' ');
        assert(r@ =~= Seq::new((j * 4) as nat, |_i: int| ' '));
        j = j + 1;
    }
    r
}

fn entry_line(depth: usize, title: &str, target: &str) -> (r: String)
    requires
        depth >= 1,
    ensures
        r@ == entry(depth as nat, title@, target@),
{
    let mut r = indentation(depth);
    r.append("- [");
    r.append(title);
    r.append("](");
    r.append(target);
    r.append(")");
    r
}

fn join_path(path: &str, name: &str) -> (r: String)
    ensures
        r@ == path@ + "/"@ + name@,
{
    let mut r = String::from_str(path);
    r.append("/");
    r.append(name);
    r
}

/// Appends to `output` the lines that `tree` gives at `depth` below `path`,
/// depth first, children in the order the tree holds them.
pub fn hierarchy_to_md(tree: &Node, path: &str, depth: usize, output: &mut Vec<String>)
    requires
        depth + height(*tree) <= usize::MAX,
    ensures
        views(final(output)@) == views(old(output)@) + node_rows(*tree, path@, depth as nat),
    decreases *tree,
{
    match tree {
        Node::File(name, title) => {
            if depth > 0 && !same_text(name.as_str(), "SUMMARY.md") && !same_text(
                name.as_str(),
                "landing.md",
            ) && has_suffix(name.as_str(), ".md") {
                let target = join_path(path, name.as_str());
                let line = entry_line(depth, title.as_str(), target.as_str());
                let ghost before = output@;
                output.push(line);
                assert(views(output@) =~= views(before) + node_rows(*tree, path@, depth as nat));
            } else {
                assert(node_rows(*tree, path@, depth as nat) =~= Seq::<Seq<char>>::empty());
                assert(views(output@) =~= views(output@) + Seq::<Seq<char>>::empty());
            }
        },
        Node::Folder(name, title, children) => {
            let ghost before = output@;
            if depth > 0 {
                let folder = join_path(path, name.as_str());
                let target = join_path(folder.as_str(), "landing.md");
                let line = entry_line(depth, title.as_str(), target.as_str());
                output.push(line);
                assert(views(output@) =~= views(before) + seq![
                    entry(depth as nat, title@, path@ + "/"@ + name@ + "/"@ + landing_name()),
                ]);
            }
            let ghost mid = output@;
            let inner = if depth == 0 {
                String::from_str(".")
            } else {
                join_path(path, name.as_str())
            };
            let ghost own = if depth > 0 {
                seq![entry(depth as nat, title@, path@ + "/"@ + name@ + "/"@ + landing_name())]
            } else {
                Seq::<Seq<char>>::empty()
            };
            assert(views(mid) =~= views(before) + own);
            let mut i: usize = 0;
            assert(tree->Folder_2 == *children);
            assert(children@.subrange(0, 0) =~= Seq::<Node>::empty());
            while i < children.len()
                invariant
                    i <= children.len(),
                    depth + height(*tree) <= usize::MAX,
                    height(*tree) == 1 + max_height(children@),
                    *tree is Folder,
                    tree->Folder_2 == *children,
                    views(output@) == views(mid) + rows_of(
                        children@.subrange(0, i as int),
                        inner@,
                        depth as nat + 1,
                    ),
                decreases children.len() - i,
            {
                proof {
                    lemma_max_height(children@, i as int);
                    vstd::std_specs::vec::axiom_vec_index_decreases(*children, i as int);
                    assert(tree->Folder_2 == *children);
                    assert(decreases_to!(*tree => tree->Folder_2));
                }
                let ghost at = output@;
                hierarchy_to_md(&children[i], inner.as_str(), depth + 1, output);
                proof {
                    let s = children@.subrange(0, i + 1);
                    assert(s.subrange(0, s.len() - 1) =~= children@.subrange(0, i as int));
                    assert(s[s.len() - 1] == children@[i as int]);
                }
                i = i + 1;
            }
            assert(children@.subrange(0, children.len() as int) =~= children@);
        },
    }
}

/// Lines joined with a newline between each two.
pub open spec fn joined(ls: Seq<Seq<char>>) -> Seq<char>
    decreases ls.len(),
{
    if ls.len() == 0 {
        Seq::empty()
    } else if ls.len() == 1 {
        ls[0]
    } else {
        joined(ls.drop_last()) + "\n"@ + ls.last()
    }
}

/// The whole document for a tree: a `# SUMMARY` heading, a blank line, then
/// the lines of the tree with the tree as root.
pub open spec fn summary_of(tree: Node) -> Seq<char> {
    joined(seq!["# SUMMARY"@, Seq::empty()] + node_rows(tree, Seq::empty(), 0))
}

/// Renders the SUMMARY document of a tree.
pub fn render_summary(tree: &Node) -> (r: String)
    requires
        height(*tree) <= usize::MAX,
    ensures
        r@ == summary_of(*tree),
{
    let mut rows: Vec<String> = Vec::new();
    rows.push(String::from_str("# SUMMARY"));
    rows.push(String::new());
    assert(views(rows@) =~= seq!["# SUMMARY"@, Seq::<char>::empty()]);
    let ghost head = views(rows@);
    proof {
        reveal_strlit("");
    }
    assert(""@ =~= Seq::<char>::empty());
    hierarchy_to_md(tree, "", 0, &mut rows);
    let ghost all = views(rows@);
    assert(all == head + node_rows(*tree, Seq::empty(), 0));
    let mut r = String::from_str(rows[0].as_str());
    let mut i: usize = 1;
    assert(all.subrange(0, 1) =~= seq![all[0]]);
    while i < rows.len()
        invariant
            1 <= i <= rows.len(),
            all == views(rows@),
            r@ == joined(all.subrange(0, i as int)),
        decreases rows.len() - i,
    {
        r.append("\n");
        r.append(rows[i].as_str());
        assert(all.subrange(0, i + 1).drop_last() =~= all.subrange(0, i as int));
        i = i + 1;
    }
    assert(all.subrange(0, rows.len() as int) =~= all);
    r
}

/// A document file below the root that is neither a landing file nor the
/// summary gives exactly one line: `(depth - 1) * 4` spaces, then its link.
pub proof fn lemma_listed_file_line(name: String, title: String, path: Seq<char>, depth: nat)
    requires
        depth >= 1,
        listed(name@),
    ensures
        node_rows(Node::File(name, title), path, depth) == seq![
            entry(depth, title@, path + "/"@ + name@),
        ],
        entry(depth, title@, path + "/"@ + name@).subrange(0, (depth - 1) * 4) == Seq::new(
            ((depth - 1) * 4) as nat,
            |_i: int| ' ',
        ),
        entry(depth, title@, path + "/"@ + name@)[(depth - 1) * 4] == '-',
{
    reveal_strlit("- [");
    let e = entry(depth, title@, path + "/"@ + name@);
    let k = (depth - 1) * 4;
    assert(e.subrange(0, k) =~= indent(depth));
    assert(e[k] == "- ["@[0]);
}

/// Files at the root, landing files, summary files and files that are not
/// documents give no line.
pub proof fn lemma_unlisted_file(name: String, title: String, path: Seq<char>, depth: nat)
    requires
        depth == 0 || !listed(name@),
    ensures
        node_rows(Node::File(name, title), path, depth) == Seq::<Seq<char>>::empty(),
{
}

proof fn lemma_rows_of_append(s: Seq<Node>, t: Seq<Node>, path: Seq<char>, depth: nat)
    ensures
        rows_of(s + t, path, depth) == rows_of(s, path, depth) + rows_of(t, path, depth),
    decreases t.len(),
{
    if t.len() == 0 {
        assert(s + t =~= s);
        assert(rows_of(s, path, depth) + Seq::<Seq<char>>::empty() =~= rows_of(s, path, depth));
    } else {
        let u = s + t;
        let t0 = t.subrange(0, t.len() - 1);
        assert(u.subrange(0, u.len() - 1) =~= s + t0);
        assert(u[u.len() - 1] == t[t.len() - 1]);
        lemma_rows_of_append(s, t0, path, depth);
        assert(rows_of(s, path, depth) + rows_of(t0, path, depth) + node_rows(
            t[t.len() - 1],
            path,
            depth,
        ) =~= rows_of(s, path, depth) + (rows_of(t0, path, depth) + node_rows(
            t[t.len() - 1],
            path,
            depth,
        )));
    }
}

/// The lines of siblings are those of the ones before a child, then the
/// child's own lines, then those of the ones after it: each child's lines
/// appear once, in the order in which the folder holds its children.
pub proof fn lemma_rows_of_child(s: Seq<Node>, i: int, path: Seq<char>, depth: nat)
    requires
        0 <= i < s.len(),
    ensures
        rows_of(s, path, depth) == rows_of(s.subrange(0, i), path, depth) + node_rows(
            s[i],
            path,
            depth,
        ) + rows_of(s.subrange(i + 1, s.len() as int), path, depth),
{
    let a = s.subrange(0, i);
    let b = s.subrange(i + 1, s.len() as int);
    let one = seq![s[i]];
    assert(s =~= a + one + b);
    lemma_rows_of_append(a + one, b, path, depth);
    lemma_rows_of_append(a, one, path, depth);
    assert(one.subrange(0, 0) =~= Seq::<Node>::empty());
    assert(rows_of(one, path, depth) =~= node_rows(s[i], path, depth)) by {
        assert(rows_of(Seq::<Node>::empty(), path, depth) == Seq::<Seq<char>>::empty());
        assert(one.subrange(0, one.len() - 1) =~= Seq::<Node>::empty());
    }
}

} // verus!
