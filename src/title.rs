use vstd::prelude::*;

verus! {

/// Characters that may stand in a title: ASCII letters and digits, the space,
/// and the punctuation `. , ! ? - +`.
pub open spec fn allowed(c: char) -> bool {
    ('a' <= c && c <= 'z') || ('A' <= c && c <= 'Z') || ('0' <= c && c <= '9') || c == ' '
        || c == '.' || c == ',' || c == '!' || c == '?' || c == '-' || c == '+'
}

/// An underscore reads as a space; every other character stands for itself.
pub open spec fn spaced(c: char) -> char {
    if c == '_' {
        ' '
    } else {
        c
    }
}

/// The characters of a line that survive the whitelist, underscores read as spaces.
pub open spec fn kept(s: Seq<char>) -> Seq<char>
    decreases s.len(),
{
    if s.len() == 0 {
        Seq::empty()
    } else if allowed(spaced(s.last())) {
        kept(s.drop_last()).push(spaced(s.last()))
    } else {
        kept(s.drop_last())
    }
}

pub open spec fn trim_start(s: Seq<char>) -> Seq<char>
    decreases s.len(),
{
    if s.len() > 0 && s[0] == ' ' {
        trim_start(s.drop_first())
    } else {
        s
    }
}

pub open spec fn trim_end(s: Seq<char>) -> Seq<char>
    decreases s.len(),
{
    if s.len() > 0 && s.last() == ' ' {
        trim_end(s.drop_last())
    } else {
        s
    }
}

/// The cleaned form of one line: whitelist-filtered, with no surrounding spaces.
/// Trimming whitespace before the filter as well would change nothing: no
/// whitespace but the space survives it.
pub open spec fn clean(line: Seq<char>) -> Seq<char> {
    trim_end(trim_start(kept(line)))
}

/// The lines of a text, split at each newline. A text always has at least one
/// line (perhaps empty); a final newline opens an empty last line.
pub open spec fn lines_of(s: Seq<char>) -> Seq<Seq<char>>
    decreases s.len(),
{
    if s.len() == 0 {
        seq![Seq::empty()]
    } else if s.last() == '\n' {
        lines_of(s.drop_last()).push(Seq::empty())
    } else {
        let ls = lines_of(s.drop_last());
        ls.update(ls.len() - 1, ls.last().push(s.last()))
    }
}

/// The cleaned form of the first line whose cleaned form is not empty.
pub open spec fn first_title(ls: Seq<Seq<char>>) -> Option<Seq<char>>
    decreases ls.len(),
{
    if ls.len() == 0 {
        None
    } else if clean(ls[0]).len() > 0 {
        Some(clean(ls[0]))
    } else {
        first_title(ls.drop_first())
    }
}

/// The title that a document's text gives.
pub open spec fn title_of(text: Seq<char>) -> Option<Seq<char>> {
    first_title(lines_of(text))
}

pub open spec fn all_allowed(s: Seq<char>) -> bool {
    forall|i: int| 0 <= i < s.len() ==> allowed(#[trigger] s[i])
}

pub fn is_allowed(c: char) -> (r: bool)
    ensures
        r == allowed(c),
{
    ('a' <= c && c <= 'z') || ('A' <= c && c <= 'Z') || ('0' <= c && c <= '9') || c == ' '
        || c == '.' || c == ',' || c == '!' || c == '?' || c == '-' || c == '+'
}

proof fn lemma_trim_start_suffix(s: Seq<char>)
    ensures
        trim_start(s).len() <= s.len(),
        trim_start(s) == s.subrange(s.len() - trim_start(s).len(), s.len() as int),
    decreases s.len(),
{
    if s.len() > 0 && s[0] == ' ' {
        lemma_trim_start_suffix(s.drop_first());
        assert(s.drop_first().subrange(
            s.drop_first().len() - trim_start(s).len(),
            s.drop_first().len() as int,
        ) =~= s.subrange(s.len() - trim_start(s).len(), s.len() as int));
    } else {
        assert(s.subrange(0, s.len() as int) =~= s);
    }
}

proof fn lemma_trim_end_prefix(s: Seq<char>)
    ensures
        trim_end(s).len() <= s.len(),
        trim_end(s) == s.subrange(0, trim_end(s).len() as int),
    decreases s.len(),
{
    if s.len() > 0 && s.last() == ' ' {
        lemma_trim_end_prefix(s.drop_last());
        assert(s.drop_last().subrange(0, trim_end(s).len() as int) =~= s.subrange(
            0,
            trim_end(s).len() as int,
        ));
    } else {
        assert(s.subrange(0, s.len() as int) =~= s);
    }
}

proof fn lemma_kept_allowed(s: Seq<char>)
    ensures
        all_allowed(kept(s)),
    decreases s.len(),
{
    if s.len() > 0 {
        lemma_kept_allowed(s.drop_last());
    }
}

/// A cleaned line holds only characters of the whitelist.
pub proof fn lemma_clean_allowed(line: Seq<char>)
    ensures
        all_allowed(clean(line)),
{
    let k = kept(line);
    lemma_kept_allowed(line);
    lemma_trim_start_suffix(k);
    let t = trim_start(k);
    lemma_trim_end_prefix(t);
    assert forall|i: int| 0 <= i < clean(line).len() implies allowed(#[trigger] clean(line)[i]) by {
        assert(clean(line)[i] == t[i]);
        assert(t[i] == k[k.len() - t.len() + i]);
    }
}

/// Cleans one line: underscores become spaces, characters outside the
/// whitelist are dropped, and surrounding spaces are trimmed.
pub fn clean_line(line: &str) -> (r: String)
    ensures
        r@ == clean(line@),
{
    let n = line.unicode_len();
    let mut k: Vec<char> = Vec::new();
    let mut i: usize = 0;
    while i < n
        invariant
            n == line@.len(),
            i <= n,
            k@ == kept(line@.subrange(0, i as int)),
        decreases n - i,
    {
        let c = line.get_char(i);
        let d = if c == '_' {
            ' '
        } else {
            c
        };
        proof {
            assert(line@.subrange(0, i + 1).drop_last() =~= line@.subrange(0, i as int));
        }
        if is_allowed(d) {
            k.push(d);
        }
        i = i + 1;
    }
    assert(line@.subrange(0, n as int) =~= line@);
    let mut a: usize = 0;
    assert(k@.subrange(0, k.len() as int) =~= k@);
    while a < k.len() && k[a] == ' '
        invariant
            a <= k.len(),
            trim_start(k@) == trim_start(k@.subrange(a as int, k.len() as int)),
        decreases k.len() - a,
    {
        assert(k@.subrange(a as int, k.len() as int).drop_first() =~= k@.subrange(
            a + 1,
            k.len() as int,
        ));
        a = a + 1;
    }
    let ghost t = k@.subrange(a as int, k.len() as int);
    assert(trim_start(t) == t);
    let mut b: usize = k.len();
    while b > a && k[b - 1] == ' '
        invariant
            a <= b <= k.len(),
            t == k@.subrange(a as int, k.len() as int),
            trim_end(t) == trim_end(k@.subrange(a as int, b as int)),
        decreases b,
    {
        assert(k@.subrange(a as int, b as int).drop_last() =~= k@.subrange(
            a as int,
            b - 1,
        ));
        b = b - 1;
    }
    let mut r = String::new();
    let mut j: usize = a;
    while j < b
        invariant
            a <= j <= b <= k.len(),
            r@ == k@.subrange(a as int, j as int),
        decreases b - j,
    {
        r.push(k[j]);
        assert(k@.subrange(a as int, j + 1) =~= k@.subrange(a as int, j as int).push(k@[j as int]));
        j = j + 1;
    }
    r
}


proof fn lemma_lines_step(s: Seq<char>, i: int)
    requires
        0 <= i < s.len(),
    ensures
        lines_of(s.subrange(0, i + 1)) == if s[i] == '\n' {
            lines_of(s.subrange(0, i)).push(Seq::empty())
        } else {
            let ls = lines_of(s.subrange(0, i));
            ls.update(ls.len() - 1, ls.last().push(s[i]))
        },
{
    assert(s.subrange(0, i + 1).drop_last() =~= s.subrange(0, i));
}

proof fn lemma_lines_nonempty(s: Seq<char>)
    ensures
        lines_of(s).len() >= 1,
    decreases s.len(),
{
    if s.len() > 0 {
        lemma_lines_nonempty(s.drop_last());
    }
}

/// The complete lines of a prefix of a text are the first lines of the text.
proof fn lemma_lines_prefix(s: Seq<char>, i: int, j: int)
    requires
        0 <= i <= j <= s.len(),
    ensures
        lines_of(s.subrange(0, j)).len() >= lines_of(s.subrange(0, i)).len(),
        lines_of(s.subrange(0, j)).subrange(0, lines_of(s.subrange(0, i)).len() - 1)
            == lines_of(s.subrange(0, i)).drop_last(),
    decreases j - i,
{
    lemma_lines_nonempty(s.subrange(0, i));
    if j > i {
        lemma_lines_prefix(s, i, j - 1);
        lemma_lines_step(s, j - 1);
        let l = lines_of(s.subrange(0, i));
        let m = lines_of(s.subrange(0, j - 1));
        lemma_lines_nonempty(s.subrange(0, j - 1));
        assert(lines_of(s.subrange(0, j)).subrange(0, l.len() - 1) =~= m.subrange(0, l.len() - 1));
    } else {
        assert(lines_of(s.subrange(0, j)).subrange(0, lines_of(s.subrange(0, i)).len() - 1)
            =~= lines_of(s.subrange(0, i)).drop_last());
    }
}

/// Lines that clean to nothing are passed over.
proof fn lemma_first_title_skip(ls: Seq<Seq<char>>, k: int)
    requires
        0 <= k <= ls.len(),
        forall|j: int| 0 <= j < k ==> (#[trigger] clean(ls[j])).len() == 0,
    ensures
        first_title(ls) == first_title(ls.subrange(k, ls.len() as int)),
    decreases k,
{
    if k > 0 {
        assert(ls.subrange(1, ls.len() as int) =~= ls.drop_first());
        lemma_first_title_skip(ls.drop_first(), k - 1);
        assert(ls.drop_first().subrange(k - 1, ls.drop_first().len() as int) =~= ls.subrange(
            k,
            ls.len() as int,
        ));
        assert(clean(ls[0]).len() == 0);
    } else {
        assert(ls.subrange(0, ls.len() as int) =~= ls);
    }
}

/// Infers a title from a document's text: the cleaned form of its first line
/// that does not clean to nothing, or `None` where there is no such line.
pub fn extract_title(text: &str) -> (r: Option<String>)
    ensures
        r matches Some(t) ==> title_of(text@) == Some(t@),
        r is None ==> title_of(text@) is None,
{
    let n = text.unicode_len();
    let ghost s = text@;
    let mut cur = String::new();
    let ghost mut start: int = 0;
    let ghost mut done: Seq<Seq<char>> = Seq::empty();
    let mut i: usize = 0;
    assert(s.subrange(0, 0) =~= Seq::<char>::empty());
    assert(seq![Seq::<char>::empty()] =~= done.push(cur@));
    while i < n
        invariant
            n == s.len(),
            s == text@,
            0 <= start <= i <= n,
            cur@ == s.subrange(start, i as int),
            lines_of(s.subrange(0, i as int)) == done.push(cur@),
            forall|j: int| 0 <= j < done.len() ==> (#[trigger] clean(done[j])).len() == 0,
        decreases n - i,
    {
        let c = text.get_char(i);
        proof {
            lemma_lines_step(s, i as int);
        }
        if c == '\n' {
            let t = clean_line(cur.as_str());
            if t.as_str().unicode_len() > 0 {
                proof {
                    lemma_lines_prefix(s, i + 1, n as int);
                    assert(s.subrange(0, n as int) =~= s);
                    let ls = lines_of(s);
                    let k = done.len() as int;
                    assert(ls.subrange(0, k + 1) =~= done.push(cur@));
                    assert forall|j: int| 0 <= j < k implies (#[trigger] clean(ls[j])).len()
                        == 0 by {
                        assert(ls[j] == ls.subrange(0, k + 1)[j]);
                    }
                    assert(ls[k] == ls.subrange(0, k + 1)[k]);
                    lemma_first_title_skip(ls, k);
                    assert(ls.subrange(k, ls.len() as int)[0] == ls[k]);
                }
                return Some(t);
            }
            proof {
                done = done.push(cur@);
                start = i + 1;
            }
            cur = String::new();
            assert(cur@ =~= s.subrange(start, i + 1));
        } else {
            cur.push(c);
            assert(cur@ =~= s.subrange(start, i + 1));
            assert(lines_of(s.subrange(0, i + 1)) =~= done.push(cur@));
        }
        i = i + 1;
    }
    assert(s.subrange(0, n as int) =~= s);
    proof {
        lemma_first_title_skip(done.push(cur@), done.len() as int);
        assert(done.push(cur@).subrange(done.len() as int, done.len() + 1 as int) =~= seq![cur@]);
        assert(seq![cur@].drop_first() =~= Seq::<Seq<char>>::empty());
    }
    let t = clean_line(cur.as_str());
    if t.as_str().unicode_len() > 0 {
        Some(t)
    } else {
        proof {
            let one = seq![cur@];
            assert(one[0] == cur@);
            assert(first_title(one) == first_title(one.drop_first()));
            assert(first_title(one.drop_first()) is None);
        }
        None
    }
}

proof fn lemma_first_title_none(ls: Seq<Seq<char>>)
    ensures
        first_title(ls) is None <==> forall|j: int| 0 <= j < ls.len() ==> (#[trigger] clean(
            ls[j],
        )).len() == 0,
    decreases ls.len(),
{
    if ls.len() > 0 {
        lemma_first_title_none(ls.drop_first());
        if clean(ls[0]).len() == 0 {
            assert forall|j: int|
                0 <= j < ls.len() && (forall|m: int|
                    0 <= m < ls.drop_first().len() ==> (#[trigger] clean(
                        ls.drop_first()[m],
                    )).len() == 0) implies (#[trigger] clean(ls[j])).len() == 0 by {
                if j > 0 {
                    assert(ls[j] == ls.drop_first()[j - 1]);
                }
            }
        }
    }
}

proof fn lemma_first_title_allowed(ls: Seq<Seq<char>>)
    ensures
        first_title(ls) matches Some(t) ==> t.len() > 0 && all_allowed(t),
    decreases ls.len(),
{
    if ls.len() > 0 {
        lemma_clean_allowed(ls[0]);
        lemma_first_title_allowed(ls.drop_first());
    }
}

/// A text gives no title exactly when every one of its lines cleans to
/// nothing; in particular an empty text gives none.
pub proof fn lemma_no_title(text: Seq<char>)
    ensures
        title_of(text) is None <==> forall|j: int|
            0 <= j < lines_of(text).len() ==> (#[trigger] clean(lines_of(text)[j])).len() == 0,
        title_of(Seq::empty()) is None,
{
    lemma_first_title_none(lines_of(text));
    lemma_first_title_none(lines_of(Seq::empty()));
    assert(clean(lines_of(Seq::<char>::empty())[0]) =~= Seq::<char>::empty()) by {
        assert(lines_of(Seq::<char>::empty())[0] == Seq::<char>::empty());
        assert(kept(Seq::<char>::empty()) == Seq::<char>::empty());
    }
}

/// An inferred title is never empty and holds only characters of the whitelist.
pub proof fn lemma_title_allowed(text: Seq<char>)
    ensures
        title_of(text) matches Some(t) ==> t.len() > 0 && all_allowed(t),
{
    lemma_first_title_allowed(lines_of(text));
}

} // verus!
