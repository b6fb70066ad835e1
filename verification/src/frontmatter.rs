//! Minimal front matter for pages (never for journals): a `---\n...\n---\n`
//! block at the top of the file, as Obsidian writes it. Only `title:` is
//! read, but the whole block is always kept for the round trip: other
//! fields are ignored on reading, never lost.
use vstd::prelude::*;

use crate::parser::{split_nl, lemma_split_nl_len, lemma_split_nl_prefix};
use crate::text::{chars_of, string_from_range, trim, trim_bounds};

verus! {

/// Index just after the line that starts at `p`: after its newline, or
/// the end of the text.
pub open spec fn line_end(t: Seq<char>, p: int) -> int
    decreases t.len() - p,
{
    if p >= t.len() {
        t.len() as int
    } else if t[p] == '\n' {
        p + 1
    } else {
        line_end(t, p + 1)
    }
}

pub proof fn lemma_line_end(t: Seq<char>, p: int)
    requires
        0 <= p,
    ensures
        p < t.len() ==> p < line_end(t, p) <= t.len(),
        p >= t.len() ==> line_end(t, p) == t.len(),
        forall|j: int| p <= j < line_end(t, p) - 1 ==> #[trigger] t[j] != '\n',
        p < t.len() ==> (line_end(t, p) == t.len() || t[line_end(t, p) - 1] == '\n'),
    decreases t.len() - p,
{
    if p < t.len() && t[p] != '\n' {
        lemma_line_end(t, p + 1);
    }
}

/// The line that starts at `p` ends with the newline at `q`.
pub proof fn lemma_line_end_at(t: Seq<char>, p: int, q: int)
    requires
        0 <= p <= q < t.len(),
        t[q] == '\n',
        forall|j: int| p <= j < q ==> #[trigger] t[j] != '\n',
    ensures
        line_end(t, p) == q + 1,
    decreases q - p,
{
    if p < q {
        lemma_line_end_at(t, p + 1, q);
    }
}

/// The closing delimiter line: `---` followed by a newline or by the end.
pub open spec fn is_closing_line(l: Seq<char>) -> bool {
    l == seq!['-', '-', '-', '\n'] || l == seq!['-', '-', '-']
}

/// End of the first closing line among the lines starting at `p`.
pub open spec fn closing_end(t: Seq<char>, p: int) -> Option<int>
    decreases t.len() - p,
{
    if p < 0 || p >= t.len() {
        None
    } else {
        let e = line_end(t, p);
        proof {
            lemma_line_end(t, p);
        }
        if is_closing_line(t.subrange(p, e)) {
            Some(e)
        } else {
            closing_end(t, e)
        }
    }
}

/// Where the front matter of `t` ends, if `t` has one: it opens with
/// `---\n` and some later line closes it.
pub open spec fn front_matter_end(t: Seq<char>) -> Option<int> {
    if t.len() >= 4 && t.take(4) == seq!['-', '-', '-', '\n'] {
        closing_end(t, 4)
    } else {
        None
    }
}

pub proof fn lemma_closing_end_bounds(t: Seq<char>, p: int)
    ensures
        closing_end(t, p) matches Some(e) ==> p < e <= t.len(),
    decreases t.len() - p,
{
    if 0 <= p < t.len() {
        lemma_line_end(t, p);
        lemma_closing_end_bounds(t, line_end(t, p));
    }
}

/// Separates the front matter (delimiters and final newline included) from
/// the rest. `None` when the text has none or it is never closed: then the
/// whole text is the body.
pub fn split_front_matter(text: &str) -> (r: (Option<&str>, &str))
    ensures
        match front_matter_end(text@) {
            Some(e) => r.0 matches Some(f) && f@ == text@.take(e) && r.1@ == text@.skip(e),
            None => r.0 is None && r.1@ == text@,
        },
        (match r.0 {
            Some(f) => f@ + r.1@,
            None => r.1@,
        }) == text@,
{
    let v = chars_of(text);
    let n = v.len();
    if !(n >= 4 && v[0] == '-' && v[1] == '-' && v[2] == '-' && v[3] == '\n') {
        proof {
            if n >= 4 {
                assert(v@.take(4)[0] == v@[0] && v@.take(4)[1] == v@[1] && v@.take(4)[2] == v@[2]
                    && v@.take(4)[3] == v@[3]);
            }
        }
        return (None, text);
    }
    assert(v@.take(4) =~= seq!['-', '-', '-', '\n']);
    let mut p: usize = 4;
    while p < n
        invariant
            n == v@.len(),
            4 <= p <= n,
            v@ == text@,
            front_matter_end(v@) == closing_end(v@, p as int),
        decreases n - p,
    {
        let mut e = p;
        while e < n && v[e] != '\n'
            invariant
                p <= e <= n,
                n == v@.len(),
                line_end(v@, p as int) == line_end(v@, e as int),
            decreases n - e,
        {
            e += 1;
        }
        if e < n {
            e += 1;
        }
        proof {
            lemma_line_end(v@, p as int);
        }
        let len = e - p;
        let closes = v[p] == '-' && len >= 3 && v[p + 1] == '-' && v[p + 2] == '-' && (len == 3
            || (len == 4 && v[p + 3] == '\n'));
        proof {
            let l = v@.subrange(p as int, e as int);
            if closes {
                if len == 3 {
                    assert(l =~= seq!['-', '-', '-']);
                } else {
                    assert(l =~= seq!['-', '-', '-', '\n']);
                }
            } else {
                if is_closing_line(l) {
                    assert(l[0] == v@[p as int]);
                    if l.len() >= 3 {
                        assert(l[1] == v@[p + 1]);
                        assert(l[2] == v@[p + 2]);
                    }
                    if l.len() == 4 {
                        assert(l[3] == v@[p + 3]);
                    }
                }
            }
        }
        if closes {
            proof {
                assert(text@.take(e as int) == text@.subrange(0, e as int));
                assert(text@.skip(e as int) == text@.subrange(e as int, n as int));
                assert(text@.take(e as int) + text@.skip(e as int) =~= text@);
            }
            return (Some(text.substring_char(0, e)), text.substring_char(e, n));
        }
        p = e;
    }
    (None, text)
}

/// The value of the first `title:` line among `ps`, trimmed, skipping
/// empty values.
pub open spec fn title_in(ps: Seq<Seq<char>>) -> Option<Seq<char>>
    decreases ps.len(),
{
    if ps.len() == 0 {
        None
    } else {
        match title_in(ps.drop_last()) {
            Some(t) => Some(t),
            None => title_of_line(ps.last()),
        }
    }
}

/// `title:` prefix.
pub open spec fn title_key() -> Seq<char> {
    seq!['t', 'i', 't', 'l', 'e', ':']
}

/// The trimmed, non-empty value of a `title:` line.
pub open spec fn title_of_line(l: Seq<char>) -> Option<Seq<char>> {
    if l.len() >= 6 && l.take(6) == title_key() && trim(l.skip(6)).len() > 0 {
        Some(trim(l.skip(6)))
    } else {
        None
    }
}

/// The title read from a raw front matter, delimiters included or not.
pub open spec fn title_of(front: Seq<char>) -> Option<Seq<char>> {
    title_in(split_nl(front))
}

proof fn lemma_title_in_prefix(ps: Seq<Seq<char>>, k: int)
    requires
        0 <= k <= ps.len(),
        title_in(ps.take(k)) is Some,
    ensures
        title_in(ps) == title_in(ps.take(k)),
    decreases ps.len(),
{
    if k < ps.len() {
        assert(ps.drop_last().take(k) == ps.take(k));
        lemma_title_in_prefix(ps.drop_last(), k);
    } else {
        assert(ps.take(k) == ps);
    }
}

fn line_title(v: &Vec<char>, s: usize, e: usize) -> (r: Option<String>)
    requires
        s <= e <= v.len(),
    ensures
        match title_of_line(v@.subrange(s as int, e as int)) {
            Some(t) => r matches Some(x) && x@ == t,
            None => r is None,
        },
{
    let ghost l = v@.subrange(s as int, e as int);
    if e - s >= 6 && v[s] == 't' && v[s + 1] == 'i' && v[s + 2] == 't' && v[s + 3] == 'l'
        && v[s + 4] == 'e' && v[s + 5] == ':' {
        assert(l.take(6) =~= title_key());
        let (a, b) = trim_bounds(v, s + 6, e);
        assert(l.skip(6) == v@.subrange(s + 6, e as int));
        if b > a {
            return Some(string_from_range(v, a, b));
        }
        None
    } else {
        proof {
            if l.len() >= 6 && l.take(6) == title_key() {
                assert(l.take(6)[0] == v@[s as int]);
                assert(l.take(6)[1] == v@[s + 1]);
                assert(l.take(6)[2] == v@[s + 2]);
                assert(l.take(6)[3] == v@[s + 3]);
                assert(l.take(6)[4] == v@[s + 4]);
                assert(l.take(6)[5] == v@[s + 5]);
            }
        }
        None
    }
}

/// Reads the value of `title:` from a raw front matter (delimiters
/// included or not): first occurrence, empty values skipped.
pub fn extract_title(front_matter: &str) -> (r: Option<String>)
    ensures
        match title_of(front_matter@) {
            Some(t) => r matches Some(x) && x@ == t,
            None => r is None,
        },
{
    let v = chars_of(front_matter);
    let n = v.len();
    let mut start: usize = 0;
    let mut i: usize = 0;
    let ghost mut done: Seq<Seq<char>> = Seq::empty();
    proof {
        assert(v@.take(0) =~= Seq::<char>::empty());
        assert(v@.subrange(0, 0) =~= Seq::<char>::empty());
        assert(done.push(v@.subrange(0, 0)) =~= seq![Seq::<char>::empty()]);
    }
    while i < n
        invariant
            n == v@.len(),
            v@ == front_matter@,
            start <= i <= n,
            split_nl(v@.take(i as int)) == done.push(v@.subrange(start as int, i as int)),
            title_in(done) is None,
        decreases n - i,
    {
        proof {
            assert(v@.take(i + 1).drop_last() == v@.take(i as int));
            assert(v@.take(i + 1).last() == v@[i as int]);
        }
        if v[i] == '\n' {
            let ghost cur = v@.subrange(start as int, i as int);
            let t = line_title(&v, start, i);
            proof {
                lemma_split_nl_len(v@.take(i as int));
                assert(split_nl(v@.take(i + 1)) == done.push(cur).push(Seq::empty()));
                assert(done.push(cur).drop_last() == done);
                assert(done.push(cur).last() == cur);
            }
            if t.is_some() {
                proof {
                    lemma_split_nl_prefix(v@, i as int + 1);
                    assert(split_nl(v@).take(done.len() + 1int) =~= done.push(cur)) by {
                        assert forall|k: int| 0 <= k < done.len() + 1 implies split_nl(v@)[k]
                            == done.push(cur)[k] by {
                            assert(split_nl(v@.take(i + 1))[k] == done.push(cur)[k]);
                        }
                    }
                    lemma_title_in_prefix(split_nl(v@), done.len() + 1int);
                }
                return t;
            }
            proof {
                done = done.push(cur);
                assert(v@.subrange(i + 1, i + 1) =~= Seq::<char>::empty());
            }
            start = i + 1;
        } else {
            proof {
                let cur = v@.subrange(start as int, i as int);
                assert(v@.subrange(start as int, i + 1) == cur.push(v@[i as int]));
                lemma_split_nl_len(v@.take(i as int));
                let p = split_nl(v@.take(i as int));
                assert(p.update(p.len() - 1, p.last().push(v@[i as int])) =~= done.push(
                    cur.push(v@[i as int]),
                ));
            }
        }
        i += 1;
    }
    assert(v@.take(n as int) == v@);
    let ghost cur = v@.subrange(start as int, n as int);
    assert(done.push(cur).drop_last() == done);
    assert(done.push(cur).last() == cur);
    line_title(&v, start, n)
}

} // verus!
