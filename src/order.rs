use vstd::prelude::*;
use crate::node::Node;

verus! {

/// `a` sorts no later than `b`: lexicographic order by code point. UTF-8
/// encoding keeps code point order, so this is the byte-wise order of strings.
pub open spec fn title_le(a: Seq<char>, b: Seq<char>) -> bool
    decreases a.len(),
{
    if a.len() == 0 {
        true
    } else if b.len() == 0 {
        false
    } else if a[0] != b[0] {
        a[0] < b[0]
    } else {
        title_le(a.drop_first(), b.drop_first())
    }
}

pub proof fn lemma_title_le_total(a: Seq<char>, b: Seq<char>)
    ensures
        title_le(a, b) || title_le(b, a),
    decreases a.len(),
{
    if a.len() > 0 && b.len() > 0 && a[0] == b[0] {
        lemma_title_le_total(a.drop_first(), b.drop_first());
    }
}

pub proof fn lemma_title_le_refl(a: Seq<char>)
    ensures
        title_le(a, a),
    decreases a.len(),
{
    if a.len() > 0 {
        lemma_title_le_refl(a.drop_first());
    }
}

/// Compares two titles byte-wise.
pub fn title_less_eq(a: &str, b: &str) -> (r: bool)
    ensures
        r == title_le(a@, b@),
{
    let n = a.unicode_len();
    let m = b.unicode_len();
    let mut i: usize = 0;
    assert(a@.subrange(0, n as int) =~= a@);
    assert(b@.subrange(0, m as int) =~= b@);
    while i < n && i < m && a.get_char(i) == b.get_char(i)
        invariant
            n == a@.len(),
            m == b@.len(),
            i <= n,
            i <= m,
            title_le(a@, b@) == title_le(
                a@.subrange(i as int, n as int),
                b@.subrange(i as int, m as int),
            ),
        decreases n - i,
    {
        assert(a@.subrange(i as int, n as int).drop_first() =~= a@.subrange(i + 1, n as int));
        assert(b@.subrange(i as int, m as int).drop_first() =~= b@.subrange(i + 1, m as int));
        i = i + 1;
    }
    if i == n {
        true
    } else if i == m {
        false
    } else {
        a.get_char(i) < b.get_char(i)
    }
}

/// Inserts `x` into `s` after every element whose title sorts no later than its own,
/// scanning from the end; on a sorted `s` this keeps equal titles in arrival order.
pub open spec fn insert_by_title(s: Seq<Node>, x: Node) -> Seq<Node>
    decreases s.len(),
{
    if s.len() == 0 {
        seq![x]
    } else if title_le(s.last().title_spec(), x.title_spec()) {
        s.push(x)
    } else {
        insert_by_title(s.drop_last(), x).push(s.last())
    }
}

/// The stable sort of a sequence of nodes by title.
pub open spec fn sorted_by_title(s: Seq<Node>) -> Seq<Node>
    decreases s.len(),
{
    if s.len() == 0 {
        Seq::empty()
    } else {
        insert_by_title(sorted_by_title(s.drop_last()), s.last())
    }
}

pub open spec fn ascending(s: Seq<Node>) -> bool {
    forall|i: int| 0 <= i < s.len() - 1 ==> title_le(#[trigger] s[i].title_spec(), s[i + 1].title_spec())
}

proof fn lemma_insert_shape(s: Seq<Node>, x: Node)
    ensures
        insert_by_title(s, x).len() == s.len() + 1,
        insert_by_title(s, x).last() == x || (s.len() > 0 && insert_by_title(s, x).last() == s.last()),
    decreases s.len(),
{
    if s.len() > 0 && !title_le(s.last().title_spec(), x.title_spec()) {
        lemma_insert_shape(s.drop_last(), x);
    }
}

proof fn lemma_insert_ascending(s: Seq<Node>, x: Node)
    requires
        ascending(s),
    ensures
        ascending(insert_by_title(s, x)),
    decreases s.len(),
{
    if s.len() > 0 && !title_le(s.last().title_spec(), x.title_spec()) {
        let p = s.drop_last();
        assert(ascending(p)) by {
            assert forall|i: int| 0 <= i < p.len() - 1 implies title_le(
                #[trigger] p[i].title_spec(),
                p[i + 1].title_spec(),
            ) by {
                assert(p[i] == s[i] && p[i + 1] == s[i + 1]);
            }
        }
        lemma_insert_ascending(p, x);
        lemma_insert_shape(p, x);
        lemma_title_le_total(s.last().title_spec(), x.title_spec());
        let q = insert_by_title(p, x);
        if p.len() > 0 {
            assert(s[p.len() - 1] == p.last());
        }
        assert(title_le(q.last().title_spec(), s.last().title_spec()));
        let r = q.push(s.last());
        assert forall|i: int| 0 <= i < r.len() - 1 implies title_le(
            #[trigger] r[i].title_spec(),
            r[i + 1].title_spec(),
        ) by {
            if i < q.len() - 1 {
                assert(r[i] == q[i] && r[i + 1] == q[i + 1]);
            } else {
                assert(r[i] == q.last());
            }
        }
    } else if s.len() > 0 {
        let r = s.push(x);
        assert forall|i: int| 0 <= i < r.len() - 1 implies title_le(
            #[trigger] r[i].title_spec(),
            r[i + 1].title_spec(),
        ) by {
            if i < s.len() - 1 {
                assert(r[i] == s[i] && r[i + 1] == s[i + 1]);
            }
        }
    }
}

/// The children of a folder, once sorted, come in ascending order of title.
pub proof fn lemma_sorted_ascending(s: Seq<Node>)
    ensures
        ascending(sorted_by_title(s)),
    decreases s.len(),
{
    if s.len() > 0 {
        lemma_sorted_ascending(s.drop_last());
        lemma_insert_ascending(sorted_by_title(s.drop_last()), s.last());
    }
}

/// Sorts nodes stably by title.
pub fn sort_by_title(nodes: Vec<Node>) -> (r: Vec<Node>)
    ensures
        r@ == sorted_by_title(nodes@),
{
    let ghost orig = nodes@;
    let mut rest = nodes;
    let mut out: Vec<Node> = Vec::new();
    let ghost mut i: int = 0;
    assert(orig.subrange(0, 0) =~= Seq::<Node>::empty());
    assert(orig.subrange(0, orig.len() as int) =~= orig);
    while rest.len() > 0
        invariant
            0 <= i <= orig.len(),
            rest@ == orig.subrange(i, orig.len() as int),
            out@ == sorted_by_title(orig.subrange(0, i)),
        decreases rest.len(),
    {
        let x = rest.remove(0);
        let mut k: usize = out.len();
        assert(out@.subrange(0, out.len() as int) =~= out@);
        assert(out@ + out@.subrange(out.len() as int, out.len() as int) =~= out@);
        while k > 0 && !title_less_eq(out[k - 1].title(), x.title())
            invariant
                k <= out.len(),
                insert_by_title(out@, x) == insert_by_title(out@.subrange(0, k as int), x) + out@.subrange(
                    k as int,
                    out.len() as int,
                ),
            decreases k,
        {
            let ghost p = out@.subrange(0, k as int);
            assert(p.drop_last() =~= out@.subrange(0, k - 1));
            assert(out@.subrange(k - 1, out.len() as int) =~= seq![p.last()] + out@.subrange(
                k as int,
                out.len() as int,
            ));
            assert(insert_by_title(p.drop_last(), x).push(p.last()) + out@.subrange(
                k as int,
                out.len() as int,
            ) =~= insert_by_title(p.drop_last(), x) + out@.subrange(k - 1, out.len() as int));
            k = k - 1;
        }
        proof {
            let p = out@.subrange(0, k as int);
            assert(insert_by_title(p, x) == p.push(x));
            assert(orig.subrange(0, i + 1).drop_last() =~= orig.subrange(0, i));
            assert(orig.subrange(0, i + 1).last() == orig[i]);
            assert(x == orig[i]);
            assert(rest@ =~= orig.subrange(i + 1, orig.len() as int));
        }
        let ghost before = out@;
        out.insert(k, x);
        assert(out@ =~= before.subrange(0, k as int).push(x) + before.subrange(
            k as int,
            before.len() as int,
        ));
        proof {
            i = i + 1;
        }
    }
    out
}

/// The nodes of a sequence whose title is `t`, in order.
pub open spec fn titled(s: Seq<Node>, t: Seq<char>) -> Seq<Node> {
    s.filter(|n: Node| n.title_spec() == t)
}

proof fn lemma_insert_titled(s: Seq<Node>, x: Node, t: Seq<char>)
    ensures
        titled(insert_by_title(s, x), t) == if x.title_spec() == t {
            titled(s, t).push(x)
        } else {
            titled(s, t)
        },
    decreases s.len(),
{
    let p = |n: Node| n.title_spec() == t;
    if s.len() == 0 {
        Seq::<Node>::empty().lemma_filter_push(x, p);
        assert(seq![x] =~= Seq::<Node>::empty().push(x));
        assert(Seq::<Node>::empty().filter(p) =~= Seq::<Node>::empty());
    } else {
        let q = s.drop_last();
        assert(q.push(s.last()) =~= s);
        q.lemma_filter_push(s.last(), p);
        if title_le(s.last().title_spec(), x.title_spec()) {
            s.lemma_filter_push(x, p);
        } else {
            lemma_insert_titled(q, x, t);
            insert_by_title(q, x).lemma_filter_push(s.last(), p);
            if s.last().title_spec() == t && x.title_spec() == t {
                lemma_title_le_refl(t);
            }
        }
    }
}

/// Sorting keeps the nodes of each title in the order in which they came.
pub proof fn lemma_sort_stable(s: Seq<Node>, t: Seq<char>)
    ensures
        titled(sorted_by_title(s), t) == titled(s, t),
    decreases s.len(),
{
    if s.len() == 0 {
        assert(sorted_by_title(s) =~= s);
    } else {
        let q = s.drop_last();
        lemma_sort_stable(q, t);
        lemma_insert_titled(sorted_by_title(q), s.last(), t);
        assert(q.push(s.last()) =~= s);
        q.lemma_filter_push(s.last(), |n: Node| n.title_spec() == t);
    }
}

} // verus!
