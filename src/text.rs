use vstd::prelude::*;

verus! {

/// The characters that Unicode classes as white space.
pub open spec fn is_space(c: char) -> bool {
    ||| ('\u{9}' <= c && c <= '\u{d}')
    ||| c == ' '
    ||| c == '\u{85}'
    ||| c == '\u{a0}'
    ||| c == '\u{1680}'
    ||| ('\u{2000}' <= c && c <= '\u{200a}')
    ||| c == '\u{2028}'
    ||| c == '\u{2029}'
    ||| c == '\u{202f}'
    ||| c == '\u{205f}'
    ||| c == '\u{3000}'
}

pub fn space(c: char) -> (r: bool)
    ensures
        r == is_space(c),
{
    ('\u{9}' <= c && c <= '\u{d}') || c == ' ' || c == '\u{85}' || c == '\u{a0}' || c == '\u{1680}'
        || ('\u{2000}' <= c && c <= '\u{200a}') || c == '\u{2028}' || c == '\u{2029}' || c
        == '\u{202f}' || c == '\u{205f}' || c == '\u{3000}'
}

pub open spec fn trim_front(s: Seq<char>) -> Seq<char>
    decreases s.len(),
{
    if s.len() > 0 && is_space(s[0]) {
        trim_front(s.drop_first())
    } else {
        s
    }
}

pub open spec fn trim_back(s: Seq<char>) -> Seq<char>
    decreases s.len(),
{
    if s.len() > 0 && is_space(s.last()) {
        trim_back(s.drop_last())
    } else {
        s
    }
}

/// `s` without white space at either end.
pub open spec fn trim(s: Seq<char>) -> Seq<char> {
    trim_back(trim_front(s))
}

/// `s` without white space at either end.
pub fn trim_text(s: &str) -> (r: &str)
    ensures
        r@ == trim(s@),
{
    let n = s.unicode_len();
    let mut k: usize = 0;
    assert(s@.subrange(0, n as int) =~= s@);
    while k < n && space(s.get_char(k))
        invariant
            n == s@.len(),
            k <= n,
            trim_front(s@) == trim_front(s@.subrange(k as int, n as int)),
        decreases n - k,
    {
        assert(s@.subrange(k as int, n as int).drop_first() =~= s@.subrange(k + 1, n as int));
        k += 1;
    }
    let mut m: usize = n;
    while m > k && space(s.get_char(m - 1))
        invariant
            n == s@.len(),
            k <= m <= n,
            trim_front(s@) == s@.subrange(k as int, n as int),
            trim(s@) == trim_back(s@.subrange(k as int, m as int)),
        decreases m - k,
    {
        assert(s@.subrange(k as int, m as int).drop_last() =~= s@.subrange(k as int, m - 1));
        m -= 1;
    }
    s.substring_char(k, m)
}

/// The state of cutting `s` into lines: the lines already closed, and the line still open.
pub open spec fn line_state(s: Seq<char>) -> (Seq<Seq<char>>, Seq<char>)
    decreases s.len(),
{
    if s.len() == 0 {
        (Seq::empty(), Seq::empty())
    } else {
        let prev = line_state(s.drop_last());
        if s.last() == '\n' {
            (prev.0.push(prev.1), Seq::empty())
        } else {
            (prev.0, prev.1.push(s.last()))
        }
    }
}

/// The lines that are not blank, trimmed.
pub open spec fn kept_names(lines: Seq<Seq<char>>) -> Seq<Seq<char>>
    decreases lines.len(),
{
    if lines.len() == 0 {
        Seq::empty()
    } else if trim(lines.last()).len() > 0 {
        kept_names(lines.drop_last()).push(trim(lines.last()))
    } else {
        kept_names(lines.drop_last())
    }
}

/// The names that a listing side file holds: one per line, trimmed, blank lines ignored.
pub open spec fn listing_names(s: Seq<char>) -> Seq<Seq<char>> {
    let st = line_state(s);
    kept_names(st.0.push(st.1))
}

/// The names of a listing side file, in order.
pub fn listed_names(text: &str) -> (r: Vec<String>)
    ensures
        r@.map_values(|x: String| x@) == listing_names(text@),
{
    let n = text.unicode_len();
    let mut out: Vec<String> = Vec::new();
    let mut start: usize = 0;
    let mut i: usize = 0;
    while i < n
        invariant
            n == text@.len(),
            start <= i <= n,
            line_state(text@.subrange(0, i as int)).1 == text@.subrange(start as int, i as int),
            out@.map_values(|x: String| x@) == kept_names(line_state(text@.subrange(0, i as int)).0),
        decreases n - i,
    {
        let c = text.get_char(i);
        let ghost pre = text@.subrange(0, i as int);
        assert(text@.subrange(0, i + 1).drop_last() =~= pre);
        if c == '\n' {
            let piece = trim_text(text.substring_char(start, i));
            let ghost lines = line_state(pre).0;
            let ghost line = line_state(pre).1;
            assert(lines.push(line).drop_last() =~= lines);
            if piece.unicode_len() > 0 {
                out.push(String::from_str(piece));
                assert(out@.map_values(|x: String| x@) =~= kept_names(lines).push(trim(line)));
            }
            start = i + 1;
            assert(text@.subrange(start as int, i + 1) =~= Seq::<char>::empty());
        } else {
            assert(text@.subrange(start as int, i + 1) =~= text@.subrange(start as int, i as int).push(c));
        }
        i += 1;
    }
    assert(text@.subrange(0, n as int) =~= text@);
    let piece = trim_text(text.substring_char(start, n));
    let ghost lines = line_state(text@).0;
    let ghost line = line_state(text@).1;
    assert(lines.push(line).drop_last() =~= lines);
    if piece.unicode_len() > 0 {
        out.push(String::from_str(piece));
        assert(out@.map_values(|x: String| x@) =~= kept_names(lines).push(trim(line)));
    }
    out
}

/// Lexicographic order of character sequences, by code point.
pub open spec fn text_lt(a: Seq<char>, b: Seq<char>) -> bool
    decreases a.len(),
{
    if a.len() == 0 {
        b.len() > 0
    } else if b.len() == 0 {
        false
    } else if a[0] != b[0] {
        (a[0] as int) < (b[0] as int)
    } else {
        text_lt(a.drop_first(), b.drop_first())
    }
}

pub proof fn lemma_text_lt_trans(a: Seq<char>, b: Seq<char>, c: Seq<char>)
    requires
        text_lt(a, b),
        text_lt(b, c),
    ensures
        text_lt(a, c),
    decreases a.len(),
{
    if a.len() > 0 && b.len() > 0 && c.len() > 0 && a[0] == b[0] && b[0] == c[0] {
        lemma_text_lt_trans(a.drop_first(), b.drop_first(), c.drop_first());
    }
}

proof fn lemma_text_lt_irreflexive(a: Seq<char>)
    ensures
        !text_lt(a, a),
    decreases a.len(),
{
    if a.len() > 0 {
        lemma_text_lt_irreflexive(a.drop_first());
    }
}

pub proof fn lemma_text_lt_total(a: Seq<char>, b: Seq<char>)
    ensures
        a == b || text_lt(a, b) || text_lt(b, a),
        !(text_lt(a, b) && text_lt(b, a)),
        !text_lt(a, a),
    decreases a.len(),
{
    lemma_text_lt_irreflexive(a);
    if a.len() > 0 && b.len() > 0 {
        if a[0] == b[0] {
            lemma_text_lt_total(a.drop_first(), b.drop_first());
            if a.drop_first() == b.drop_first() {
                assert forall|i: int| 0 <= i < a.len() implies a[i] == b[i] by {
                    if i > 0 {
                        assert(a[i] == a.drop_first()[i - 1]);
                        assert(b[i] == b.drop_first()[i - 1]);
                    }
                }
                assert(a =~= b);
            }
        } else {
            assert((a[0] as int) != (b[0] as int));
        }
    } else if a.len() == 0 && b.len() == 0 {
        assert(a =~= b);
    }
}

/// `a` comes before `b` in code point order.
pub fn text_less(a: &str, b: &str) -> (r: bool)
    ensures
        r == text_lt(a@, b@),
{
    let na = a.unicode_len();
    let nb = b.unicode_len();
    let mut i: usize = 0;
    assert(a@.subrange(0, na as int) =~= a@);
    assert(b@.subrange(0, nb as int) =~= b@);
    while i < na && i < nb
        invariant
            na == a@.len(),
            nb == b@.len(),
            i <= na,
            i <= nb,
            text_lt(a@, b@) == text_lt(a@.subrange(i as int, na as int), b@.subrange(i as int, nb as int)),
        decreases na - i,
    {
        let ca = a.get_char(i);
        let cb = b.get_char(i);
        if ca != cb {
            return (ca as u32) < (cb as u32);
        }
        assert(a@.subrange(i as int, na as int).drop_first() =~= a@.subrange(i + 1, na as int));
        assert(b@.subrange(i as int, nb as int).drop_first() =~= b@.subrange(i + 1, nb as int));
        i += 1;
    }
    i == na && i < nb
}

/// Strictly increasing in code point order, hence without repeats.
pub open spec fn sorted_texts(v: Seq<Seq<char>>) -> bool {
    forall|i: int, j: int| 0 <= i < j < v.len() ==> text_lt(#[trigger] v[i], #[trigger] v[j])
}

pub open spec fn texts_of(v: Seq<String>) -> Seq<Seq<char>> {
    v.map_values(|x: String| x@)
}

/// Adds `s` to a sorted list unless it is already there.
pub fn insert_sorted(v: &mut Vec<String>, s: String)
    requires
        sorted_texts(texts_of(old(v)@)),
    ensures
        sorted_texts(texts_of(final(v)@)),
        texts_of(final(v)@).to_set() == texts_of(old(v)@).to_set().insert(s@),
{
    let ghost old_t = texts_of(v@);
    let mut p: usize = 0;
    while p < v.len() && text_less(v[p].as_str(), s.as_str())
        invariant
            p <= v.len(),
            v@ == old(v)@,
            old_t == texts_of(v@),
            forall|i: int| 0 <= i < p ==> text_lt(#[trigger] old_t[i], s@),
        decreases v.len() - p,
    {
        p += 1;
    }
    if p < v.len() && v[p] == s {
        assert(old_t.to_set().insert(s@) =~= old_t.to_set()) by {
            assert(old_t[p as int] == s@);
        }
        return;
    }
    proof {
        if p < old_t.len() {
            lemma_text_lt_total(old_t[p as int], s@);
        }
    }
    v.insert(p, s);
    proof {
        let t = texts_of(v@);
        assert(t =~= old_t.insert(p as int, s@));
        assert forall|i: int, j: int| 0 <= i < j < t.len() implies text_lt(#[trigger] t[i], #[trigger] t[j]) by {
            if j < p {
            } else if j == p {
            } else if i < p {
                lemma_text_lt_trans(t[i], s@, old_t[p as int]);
                if j - 1 > p {
                    lemma_text_lt_trans(t[i], old_t[p as int], old_t[j - 1]);
                }
            } else if i == p {
                if j - 1 > p {
                    lemma_text_lt_trans(s@, old_t[p as int], old_t[j - 1]);
                }
            } else {
                assert(t[i] == old_t[i - 1] && t[j] == old_t[j - 1]);
            }
        }
        assert forall|x: Seq<char>| #[trigger] t.to_set().contains(x) <==> old_t.to_set().insert(s@).contains(x) by {
            if t.to_set().contains(x) {
                let i = choose|i: int| 0 <= i < t.len() && t[i] == x;
                if i < p {
                    assert(old_t[i] == x);
                } else if i > p {
                    assert(old_t[i - 1] == x);
                }
            }
            if old_t.to_set().contains(x) {
                let i = choose|i: int| 0 <= i < old_t.len() && old_t[i] == x;
                if i < p {
                    assert(t[i] == x);
                } else {
                    assert(t[i + 1] == x);
                }
            }
            if x == s@ {
                assert(t[p as int] == x);
            }
        }
        assert(t.to_set() =~= old_t.to_set().insert(s@));
    }
}

} // verus!
