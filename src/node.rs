use vstd::prelude::*;

verus! {

/// One entry of a documentation tree: a folder with its ordered children, or a
/// markdown file. Both carry their base name and their display title.
#[derive(Debug)]
pub enum Node {
    Folder(String, String, Vec<Node>),
    File(String, String),
}

impl Node {
    /// The display title of a node, as a sequence of characters.
    pub open spec fn title_spec(&self) -> Seq<char> {
        match self {
            Node::Folder(_, t, _) => t@,
            Node::File(_, t) => t@,
        }
    }

    /// The base name of a node.
    pub open spec fn name_spec(&self) -> Seq<char> {
        match self {
            Node::Folder(n, _, _) => n@,
            Node::File(n, _) => n@,
        }
    }

    pub fn title(&self) -> (r: &str)
        ensures
            r@ == self.title_spec(),
    {
        match self {
            Node::Folder(_, t, _) => t.as_str(),
            Node::File(_, t) => t.as_str(),
        }
    }

    pub fn name(&self) -> (r: &str)
        ensures
            r@ == self.name_spec(),
    {
        match self {
            Node::Folder(n, _, _) => n.as_str(),
            Node::File(n, _) => n.as_str(),
        }
    }
}

} // verus!

verus! {

/// The name of the file that gives a folder its title and its link target.
pub open spec fn landing_name() -> Seq<char> {
    "landing.md"@
}

/// The name of the generated document itself.
pub open spec fn summary_name() -> Seq<char> {
    "SUMMARY.md"@
}

/// The extension of a document file.
pub open spec fn doc_ext() -> Seq<char> {
    ".md"@
}

/// The number of folder levels below a node.
pub open spec fn height(n: Node) -> nat
    decreases n,
{
    match n {
        Node::File(_, _) => 0,
        Node::Folder(_, _, children) => 1 + max_height(children@),
    }
}

pub open spec fn max_height(s: Seq<Node>) -> nat
    decreases s,
{
    if s.len() == 0 {
        0
    } else {
        let a = max_height(s.subrange(0, s.len() - 1));
        let b = height(s[s.len() - 1]);
        if a >= b {
            a
        } else {
            b
        }
    }
}

pub proof fn lemma_max_height(s: Seq<Node>, i: int)
    requires
        0 <= i < s.len(),
    ensures
        height(s[i]) <= max_height(s),
    decreases s.len(),
{
    if i < s.len() - 1 {
        lemma_max_height(s.subrange(0, s.len() - 1), i);
    }
}

} // verus!
