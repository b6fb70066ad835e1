//! Page names to file slugs: lower case, words joined by dashes.
use vstd::prelude::*;

use crate::text::{chars_of, string_from_range, string_from_chars, trim, trim_bounds, is_ws, is_whitespace};

verus! {

/// What `str::to_lowercase` gives for a text: the Unicode lower-case
/// mapping of the whole string (context-sensitive for final sigma).
pub uninterp spec fn str_lowercase(s: Seq<char>) -> Seq<char>;

/// `str::to_lowercase`. Only the name of its result is claimed.
#[verifier::external_body]
fn lowercase(s: &str) -> (r: String)
    ensures
        r@ == str_lowercase(s@),
{
    s.to_lowercase()
}

/// The words of `s`: its maximal runs of non-whitespace characters, as
/// `str::split_whitespace` gives them.
pub open spec fn words(s: Seq<char>) -> Seq<Seq<char>>
    decreases s.len(),
{
    if s.len() == 0 {
        Seq::empty()
    } else {
        let w = words(s.drop_last());
        let c = s.last();
        if is_ws(c) {
            w
        } else if s.len() >= 2 && !is_ws(s[s.len() - 2]) {
            w.update(w.len() - 1, w.last().push(c))
        } else {
            w.push(seq![c])
        }
    }
}

/// Words joined with `-`.
pub open spec fn join_dash(ws: Seq<Seq<char>>) -> Seq<char>
    decreases ws.len(),
{
    if ws.len() == 0 {
        Seq::empty()
    } else if ws.len() == 1 {
        ws[0]
    } else {
        join_dash(ws.drop_last()) + seq!['-'] + ws.last()
    }
}

/// The slug of a page name.
pub open spec fn slug_of(name: Seq<char>) -> Seq<char> {
    join_dash(words(str_lowercase(trim(name))))
}

proof fn lemma_words_nonempty(s: Seq<char>)
    ensures
        s.len() > 0 && !is_ws(s.last()) ==> words(s).len() > 0,
        forall|i: int| 0 <= i < words(s).len() ==> #[trigger] words(s)[i].len() > 0,
    decreases s.len(),
{
    if s.len() > 0 {
        lemma_words_nonempty(s.drop_last());
        let w = words(s.drop_last());
        if !is_ws(s.last()) && s.len() >= 2 && !is_ws(s[s.len() - 2]) {
            assert(s.drop_last().last() == s[s.len() - 2]);
        }
    }
}

/// Converts a page name into its slug: trimmed, lower case, words joined
/// by `-`.
pub fn slugify(name: &str) -> (slug: String)
    ensures
        slug@ == slug_of(name@),
{
    let v = chars_of(name);
    let (a, b) = trim_bounds(&v, 0, v.len());
    assert(v@.subrange(0, v@.len() as int) == name@);
    let trimmed = string_from_range(&v, a, b);
    let low = lowercase(trimmed.as_str());
    slug_from_lowercase(low.as_str())
}

/// The slug of a name already trimmed and lowered: its words joined by
/// `-`.
pub fn slug_from_lowercase(low: &str) -> (slug: String)
    ensures
        slug@ == join_dash(words(low@)),
{
    let lv = chars_of(low);
    let n = lv.len();
    let mut out: Vec<char> = Vec::new();
    let mut i: usize = 0;
    proof {
        assert(lv@.take(0) =~= Seq::<char>::empty());
    }
    while i < n
        invariant
            n == lv@.len(),
            i <= n,
            out@ == join_dash(words(lv@.take(i as int))),
            lv@ == low@,
        decreases n - i,
    {
        let c = lv[i];
        let ghost p = lv@.take(i as int);
        let ghost q = lv@.take(i + 1);
        proof {
            assert(q.drop_last() == p);
            assert(q.last() == c);
            lemma_words_nonempty(p);
        }
        if is_whitespace(c) {
        } else if i >= 1 && !is_whitespace(lv[i - 1]) {
            proof {
                assert(q[q.len() - 2] == lv@[i - 1]);
                assert(p.last() == lv@[i - 1]);
                let w = words(p);
                lemma_join_dash_extend(w, c);
            }
            out.push(c);
        } else {
            proof {
                if i >= 1 {
                    assert(q[q.len() - 2] == lv@[i - 1]);
                }
                let w = words(p);
                assert(w.push(seq![c]).drop_last() == w);
                if w.len() == 0 {
                    assert(join_dash(w.push(seq![c])) == seq![c]);
                    assert(out@ == Seq::<char>::empty());
                }
            }
            if out.len() > 0 {
                out.push('-');
            } else {
                proof {
                    lemma_join_dash_empty(words(p));
                }
            }
            out.push(c);
            proof {
                let w = words(p);
                if w.len() > 0 {
                    assert(join_dash(w.push(seq![c])) == join_dash(w) + seq!['-'] + seq![c]);
                }
                assert(join_dash(w.push(seq![c])) =~= out@);
            }
        }
        i += 1;
    }
    assert(lv@.take(n as int) == lv@);
    string_from_chars(&out)
}

proof fn lemma_join_dash_extend(w: Seq<Seq<char>>, c: char)
    requires
        w.len() > 0,
    ensures
        join_dash(w.update(w.len() - 1, w.last().push(c))) == join_dash(w).push(c),
{
    let u = w.update(w.len() - 1, w.last().push(c));
    if w.len() == 1 {
        assert(u[0] == w[0].push(c));
    } else {
        assert(u.drop_last() == w.drop_last());
        assert(join_dash(u) =~= join_dash(w).push(c));
    }
}

proof fn lemma_join_dash_empty(w: Seq<Seq<char>>)
    requires
        join_dash(w).len() == 0,
        forall|i: int| 0 <= i < w.len() ==> #[trigger] w[i].len() > 0,
    ensures
        w.len() == 0,
    decreases w.len(),
{
    if w.len() == 1 {
        assert(w[0].len() > 0);
    } else if w.len() > 1 {
        assert(w.last() == w[w.len() - 1]);
    }
}

} // verus!
