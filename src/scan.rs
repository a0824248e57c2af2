use vstd::prelude::*;
use crate::node::{Node, doc_ext};
use crate::order::{
    sorted_by_title, sort_by_title, ascending, titled, lemma_sorted_ascending, lemma_sort_stable,
};
use crate::text::{ends_with, has_suffix};
use crate::title::{title_of, extract_title};

verus! {

/// What a directory holds, as read from disk: a subdirectory with the text of
/// its landing file (`None` where there is none or it cannot be read) and its
/// entries, or a file with its text (`None` where it was not or could not be read).
#[derive(Debug)]
pub enum Listing {
    Dir(String, Option<String>, Vec<Listing>),
    File(String, Option<String>),
}

/// The title that a text gives, or the fallback where there is no text or it
/// gives none.
pub open spec fn title_or(text: Option<String>, fallback: Seq<char>) -> Seq<char> {
    match text {
        Some(t) => match title_of(t@) {
            Some(x) => x,
            None => fallback,
        },
        None => fallback,
    }
}

/// Whether an entry of a directory becomes a node: subdirectories and
/// document files do, other files do not.
pub open spec fn becomes_node(e: Listing) -> bool {
    match e {
        Listing::Dir(_, _, _) => true,
        Listing::File(name, _) => ends_with(name@, doc_ext()),
    }
}

/// `n` is the node built from the entry `e`.
pub open spec fn built_from(e: Listing, n: Node) -> bool
    decreases e,
{
    match e {
        Listing::File(name, text) => match n {
            Node::File(m, t) => m@ == name@ && t@ == title_or(text, name@),
            _ => false,
        },
        Listing::Dir(name, landing, entries) => match n {
            Node::Folder(m, t, children) => {
                &&& m@ == name@
                &&& t@ == title_or(landing, name@)
                &&& exists|raw: Seq<Node>|
                    built_list(entries@, raw) && children@ == #[trigger] sorted_by_title(raw)
            },
            _ => false,
        },
    }
}

/// `ns` are the nodes built, in order, from those of `es` that become nodes.
pub open spec fn built_list(es: Seq<Listing>, ns: Seq<Node>) -> bool
    decreases es,
{
    if es.len() == 0 {
        ns.len() == 0
    } else {
        let e = es[es.len() - 1];
        let rest = es.subrange(0, es.len() - 1);
        if becomes_node(e) {
            ns.len() > 0 && built_from(e, ns.last()) && built_list(rest, ns.drop_last())
        } else {
            built_list(rest, ns)
        }
    }
}

/// A title from a text where it gives one, else the fallback name.
pub fn title_or_name(text: &Option<String>, name: &str) -> (r: String)
    ensures
        r@ == title_or(*text, name@),
{
    match text {
        Some(t) => match extract_title(t.as_str()) {
            Some(x) => x,
            None => String::from_str(name),
        },
        None => String::from_str(name),
    }
}

/// Whether a file name has the document extension.
pub fn is_document(name: &str) -> (r: bool)
    ensures
        r == ends_with(name@, doc_ext()),
{
    has_suffix(name, ".md")
}

/// Builds the node of an entry: a folder titled by its landing file, with the
/// nodes of its entries sorted stably by title, or a document file titled by
/// its text; `None` for a file that is not a document.
pub fn build_hierarchy(entry: Listing) -> (r: Option<Node>)
    ensures
        r is Some <==> becomes_node(entry),
        r matches Some(n) ==> built_from(entry, n),
    decreases entry,
{
    match entry {
        Listing::File(name, text) => {
            if is_document(name.as_str()) {
                let title = title_or_name(&text, name.as_str());
                Some(Node::File(name, title))
            } else {
                None
            }
        },
        Listing::Dir(name, landing, entries) => {
            let title = title_or_name(&landing, name.as_str());
            let ghost es = entries@;
            let ghost entry_copy = Listing::Dir(name, landing, entries);
            let mut rest = entries;
            let mut raw: Vec<Node> = Vec::new();
            let ghost mut i: int = 0;
            assert(es.subrange(0, es.len() as int) =~= es);
            assert(es.subrange(0, 0) =~= Seq::<Listing>::empty());
            while rest.len() > 0
                invariant
                    0 <= i <= es.len(),
                    rest@ == es.subrange(i, es.len() as int),
                    built_list(es.subrange(0, i), raw@),
                    forall|j: int| 0 <= j < es.len() ==> decreases_to!(entry => #[trigger] es[j]),
                decreases rest.len(),
            {
                let e = rest.remove(0);
                proof {
                    assert(e == es[i]);
                    assert(rest@ =~= es.subrange(i + 1, es.len() as int));
                    let s = es.subrange(0, i + 1);
                    assert(s.subrange(0, s.len() - 1) =~= es.subrange(0, i));
                    assert(s[s.len() - 1] == es[i]);
                }
                let ghost prev = raw@;
                match build_hierarchy(e) {
                    Some(n) => {
                        raw.push(n);
                        assert(raw@.drop_last() =~= prev);
                    },
                    None => {},
                }
                proof {
                    i = i + 1;
                }
            }
            let ghost raw_seq = raw@;
            let children = sort_by_title(raw);
            let r = Node::Folder(name, title, children);
            proof {
                assert(entry_copy->Dir_2@ == es);
                lemma_built_folder(entry_copy, r, raw_seq);
            }
            Some(r)
        },
    }
}

proof fn lemma_built_folder(e: Listing, n: Node, w: Seq<Node>)
    requires
        e is Dir,
        n is Folder,
        n->Folder_0@ == e->Dir_0@,
        n->Folder_1@ == title_or(e->Dir_1, e->Dir_0@),
        built_list(e->Dir_2@, w),
        n->Folder_2@ == sorted_by_title(w),
    ensures
        built_from(e, n),
{
    assert(e == Listing::Dir(e->Dir_0, e->Dir_1, e->Dir_2));
    assert(n == Node::Folder(n->Folder_0, n->Folder_1, n->Folder_2));
}

/// A folder read without a landing file is titled by its own name.
pub proof fn lemma_folder_without_landing(e: Listing, n: Node)
    requires
        e matches Listing::Dir(_, landing, _) && landing is None,
        built_from(e, n),
    ensures
        n.title_spec() == e->Dir_0@,
{
}

/// The children of every built folder come in ascending order of title, and
/// those with equal titles in the order in which their entries were read.
pub proof fn lemma_children_order(e: Listing, n: Node, t: Seq<char>)
    requires
        e is Dir,
        built_from(e, n),
    ensures
        n matches Node::Folder(_, _, children) && ascending(children@),
        exists|raw: Seq<Node>|
            built_list(e->Dir_2@, raw) && titled(n->Folder_2@, t) == #[trigger] titled(raw, t),
{
    let raw = choose|raw: Seq<Node>|
        built_list(e->Dir_2@, raw) && n->Folder_2@ == #[trigger] sorted_by_title(raw);
    lemma_sorted_ascending(raw);
    lemma_sort_stable(raw, t);
}

} // verus!
