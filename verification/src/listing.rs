//! What the vault decides over the names of its files and over today's
//! journal: which names are journal days or pages, the counts, the journal
//! days that a listing returns, and the page that opening today gives.
//! Listing folders and reading files stand outside.
use vstd::prelude::*;
use vstd::relations::{sorted_by, total_ordering};

use crate::block::{Block, Page, Tree, tree_of, trees_of};
use crate::error::CoreError;
use crate::journal_date::{JournalDate, date_lt, file_stem, parse_stem};
use crate::parser::{LineModel, is_malformed, parse_outcome, render_text, tree_lines};
use crate::round_trip::single_line_texts;
use crate::text::{chars_of, string_from_range, trim, is_ws, leading_ws, trailing_ws};
use crate::slug::slug_of;
use crate::parser::split_nl;
use crate::frontmatter::{front_matter_end, closing_end, line_end, is_closing_line, title_of, title_in, title_of_line, lemma_line_end, lemma_line_end_at};
use crate::frontmatter::{split_front_matter, extract_title};
use crate::vault::{PageSummary, Vault, VaultStats, new_page_text, pages_prefix, body_of, journals_prefix, law_read_after_write, md_suffix, page_from_text, page_text_to_write, page_title};

verus! {

broadcast use vstd::std_specs::vec::group_vec_axioms;

/// At most this many journal days are listed at once.
pub const MAX_LIST_JOURNALS_LIMIT: usize = 90;

/// A file name ending with `.md`.
pub open spec fn is_md_name(name: Seq<char>) -> bool {
    name.len() >= 3 && name.skip(name.len() - 3) == md_suffix()
}

/// The day that a file name of `journals/` stands for: `YYYY-MM-DD.md`
/// with a real calendar day.
pub open spec fn journal_name_date(name: Seq<char>) -> Option<(int, int, int)> {
    if is_md_name(name) {
        parse_stem(name.take(name.len() - 3))
    } else {
        None
    }
}

/// The name without its `.md` suffix, when it has one.
pub fn md_stem(name: &str) -> (r: Option<String>)
    ensures
        match r {
            Some(s) => is_md_name(name@) && s@ == name@.take(name@.len() - 3),
            None => !is_md_name(name@),
        },
{
    let v = chars_of(name);
    let n = v.len();
    if n >= 3 && v[n - 3] == '.' && v[n - 2] == 'm' && v[n - 1] == 'd' {
        proof {
            assert(v@.skip(n - 3) =~= md_suffix());
        }
        Some(string_from_range(&v, 0, n - 3))
    } else {
        proof {
            if n >= 3 {
                let t = v@.skip(n - 3);
                assert(t[0] == v@[n - 3] && t[1] == v@[n - 2] && t[2] == v@[n - 1]);
            }
        }
        None
    }
}

/// The day a file name of `journals/` stands for, if any.
pub fn journal_file_date(name: &str) -> (r: Option<JournalDate>)
    ensures
        match journal_name_date(name@) {
            Some(d) => r matches Some(x) && x@ == d,
            None => r is None,
        },
{
    match md_stem(name) {
        Some(stem) => JournalDate::parse(stem.as_str()),
        None => None,
    }
}

/// How many names are journal days.
pub open spec fn count_journal_names(names: Seq<Seq<char>>) -> nat
    decreases names.len(),
{
    if names.len() == 0 {
        0
    } else {
        count_journal_names(names.drop_last()) + if journal_name_date(names.last()) is Some {
            1nat
        } else {
            0nat
        }
    }
}

/// How many names end with `.md`.
pub open spec fn count_md_names(names: Seq<Seq<char>>) -> nat
    decreases names.len(),
{
    if names.len() == 0 {
        0
    } else {
        count_md_names(names.drop_last()) + if is_md_name(names.last()) {
            1nat
        } else {
            0nat
        }
    }
}

pub open spec fn names_model(s: Seq<String>) -> Seq<Seq<char>> {
    s.map_values(|n: String| n@)
}

proof fn lemma_counts_bounded(names: Seq<Seq<char>>)
    ensures
        count_journal_names(names) <= names.len(),
        count_md_names(names) <= names.len(),
    decreases names.len(),
{
    if names.len() > 0 {
        lemma_counts_bounded(names.drop_last());
    }
}

/// The days of `journals/`, newest first, strictly before `before` when it
/// is given.
pub open spec fn journal_candidates(names: Seq<Seq<char>>, before: Option<(int, int, int)>) -> Seq<(int, int, int)>
    decreases names.len(),
{
    if names.len() == 0 {
        Seq::empty()
    } else {
        let r = journal_candidates(names.drop_last(), before);
        match journal_name_date(names.last()) {
            Some(d) => if before matches Some(b) && !date_lt(d, b) {
                r
            } else {
                r.push(d)
            },
            None => r,
        }
    }
}

/// Newest first: `a` may come before `b` when it is not earlier.
pub open spec fn newest_first() -> spec_fn((int, int, int), (int, int, int)) -> bool {
    |a: (int, int, int), b: (int, int, int)| !date_lt(a, b)
}

pub proof fn lemma_newest_first_total()
    ensures
        total_ordering(newest_first()),
{
}

/// The first `n` elements of `s`, or all of them when there are fewer.
pub open spec fn first_n<A>(s: Seq<A>, n: int) -> Seq<A> {
    if n < s.len() {
        s.take(n)
    } else {
        s
    }
}

pub open spec fn dates_model(s: Seq<JournalDate>) -> Seq<(int, int, int)> {
    s.map_values(|d: JournalDate| d@)
}

fn sort_newest_first(ds: Vec<JournalDate>) -> (r: Vec<JournalDate>)
    ensures
        dates_model(r@) == dates_model(ds@).sort_by(newest_first()),
{
    let ghost dv = dates_model(ds@);
    let ghost ge = newest_first();
    let mut out: Vec<JournalDate> = Vec::new();
    let n = ds.len();
    proof {
        assert(dates_model(out@) =~= dv.take(0));
    }
    for i in 0..n
        invariant
            n == ds@.len(),
            dv == dates_model(ds@),
            ge == newest_first(),
            sorted_by(dates_model(out@), ge),
            dates_model(out@).to_multiset() == dv.take(i as int).to_multiset(),
    {
        let d = ds[i];
        let mut p: usize = 0;
        while p < out.len() && !out[p].is_before(&d)
            invariant
                p <= out@.len(),
                ge == newest_first(),
                forall|k: int| 0 <= k < p ==> !date_lt((#[trigger] out@[k])@, d@),
            decreases out@.len() - p,
        {
            p += 1;
        }
        let ghost before = dates_model(out@);
        proof {
            if p < out@.len() {
                assert(date_lt(out@[p as int]@, d@));
            }
        }
        out.insert(p, d);
        proof {
            let now = dates_model(out@);
            assert(now =~= before.insert(p as int, d@));
            assert forall|a: int, b: int| 0 <= a < b < now.len() implies #[trigger] ge(now[a], now[b]) by {
                if b < p {
                    assert(now[a] == before[a] && now[b] == before[b]);
                    assert(ge(before[a], before[b]));
                } else if b == p {
                    assert(now[a] == before[a]);
                    assert(!date_lt(out@[a]@, d@));
                } else if a == p {
                    assert(now[b] == before[b - 1]);
                    assert(date_lt(before[p as int], d@));
                    if b - 1 > p {
                        assert(ge(before[p as int], before[b - 1]));
                    }
                } else if a < p {
                    assert(now[a] == before[a] && now[b] == before[b - 1]);
                    assert(ge(before[a], before[b - 1]));
                } else {
                    assert(now[a] == before[a - 1] && now[b] == before[b - 1]);
                    assert(ge(before[a - 1], before[b - 1]));
                }
            }
            vstd::seq_lib::to_multiset_insert(before, p as int, d@);
            assert(dv.take(i + 1) =~= dv.take(i as int).push(d@));
            vstd::seq_lib::to_multiset_build(dv.take(i as int), d@);
        }
    }
    proof {
        assert(dv.take(n as int) =~= dv);
        lemma_newest_first_total();
        dv.lemma_sort_by_ensures(ge);
        vstd::seq_lib::lemma_sorted_unique(dates_model(out@), dv.sort_by(ge), ge);
    }
    out
}

// ---------------------------------------------------------------- pages

/// Strict order of texts, character by character by code point, a prefix
/// first: the order of `str` (UTF-8 keeps the order of code points).
pub open spec fn text_lt(a: Seq<char>, b: Seq<char>) -> bool
    decreases a.len(),
{
    if a.len() == 0 {
        b.len() > 0
    } else if b.len() == 0 {
        false
    } else if (a[0] as int) < (b[0] as int) {
        true
    } else if (a[0] as int) > (b[0] as int) {
        false
    } else {
        text_lt(a.drop_first(), b.drop_first())
    }
}

proof fn lemma_text_lt_irreflexive(a: Seq<char>)
    ensures
        !text_lt(a, a),
    decreases a.len(),
{
    if a.len() > 0 {
        lemma_text_lt_irreflexive(a.drop_first());
    }
}

proof fn lemma_text_lt_asymmetric(a: Seq<char>, b: Seq<char>)
    ensures
        !(text_lt(a, b) && text_lt(b, a)),
    decreases a.len(),
{
    if a.len() > 0 && b.len() > 0 && a[0] == b[0] {
        lemma_text_lt_asymmetric(a.drop_first(), b.drop_first());
    }
}

proof fn lemma_text_lt_transitive(a: Seq<char>, b: Seq<char>, c: Seq<char>)
    requires
        text_lt(a, b),
        text_lt(b, c),
    ensures
        text_lt(a, c),
    decreases a.len(),
{
    if a.len() > 0 && b.len() > 0 && c.len() > 0 && a[0] == b[0] && b[0] == c[0] {
        lemma_text_lt_transitive(a.drop_first(), b.drop_first(), c.drop_first());
    }
}

proof fn lemma_text_lt_total(a: Seq<char>, b: Seq<char>)
    ensures
        a == b || text_lt(a, b) || text_lt(b, a),
    decreases a.len(),
{
    if a.len() == 0 || b.len() == 0 {
        if a.len() == 0 && b.len() == 0 {
            assert(a =~= b);
        }
    } else if a[0] == b[0] {
        lemma_text_lt_total(a.drop_first(), b.drop_first());
        if a.drop_first() == b.drop_first() {
            assert(a =~= seq![a[0]] + a.drop_first());
            assert(b =~= seq![b[0]] + b.drop_first());
        }
    }
}

/// The order of the page list: by title, and in the order the pages were
/// given for equal titles.
pub open spec fn title_then_index() -> spec_fn((Seq<char>, int), (Seq<char>, int)) -> bool {
    |x: (Seq<char>, int), y: (Seq<char>, int)| text_lt(x.0, y.0) || (x.0 == y.0 && x.1 <= y.1)
}

pub proof fn lemma_title_then_index_total()
    ensures
        total_ordering(title_then_index()),
{
    let r = title_then_index();
    assert forall|x: (Seq<char>, int)| #[trigger] r(x, x) by {
    }
    assert forall|x: (Seq<char>, int), y: (Seq<char>, int)| #[trigger] r(x, y) && #[trigger] r(y, x) implies x == y by {
        lemma_text_lt_asymmetric(x.0, y.0);
        lemma_text_lt_irreflexive(x.0);
        lemma_text_lt_irreflexive(y.0);
    }
    assert forall|x: (Seq<char>, int), y: (Seq<char>, int), z: (Seq<char>, int)| #[trigger] r(x, y) && #[trigger] r(y, z) implies r(x, z) by {
        if text_lt(x.0, y.0) && text_lt(y.0, z.0) {
            lemma_text_lt_transitive(x.0, y.0, z.0);
        }
    }
    assert forall|x: (Seq<char>, int), y: (Seq<char>, int)| #[trigger] r(x, y) || #[trigger] r(y, x) by {
        lemma_text_lt_total(x.0, y.0);
    }
}

fn title_lt(a: &String, b: &String) -> (r: bool)
    ensures
        r == text_lt(a@, b@),
{
    let u = chars_of(a.as_str());
    let v = chars_of(b.as_str());
    let mut i: usize = 0;
    proof {
        assert(u@.skip(0) =~= u@);
        assert(v@.skip(0) =~= v@);
    }
    while i < u.len() && i < v.len() && u[i] == v[i]
        invariant
            u@ == a@,
            v@ == b@,
            i <= u@.len(),
            i <= v@.len(),
            text_lt(a@, b@) == text_lt(u@.skip(i as int), v@.skip(i as int)),
        decreases u@.len() - i,
    {
        proof {
            let x = u@.skip(i as int);
            let y = v@.skip(i as int);
            assert(x.drop_first() =~= u@.skip(i + 1));
            assert(y.drop_first() =~= v@.skip(i + 1));
            assert(x[0] == u@[i as int] && y[0] == v@[i as int]);
        }
        i += 1;
    }
    let ghost x = u@.skip(i as int);
    let ghost y = v@.skip(i as int);
    assert(x.len() == u@.len() - i && y.len() == v@.len() - i);
    if i == u.len() {
        i < v.len()
    } else if i == v.len() {
        false
    } else {
        assert(x[0] == u@[i as int] && y[0] == v@[i as int]);
        let c = u[i];
        let d = v[i];
        assert(c != d);
        c < d
    }
}

/// The entry of the page list for the page with file stem `slug` and file
/// text `text`: its title from the front matter, or the slug itself.
pub open spec fn summary_of(slug: Seq<char>, text: Seq<char>) -> (Seq<char>, Seq<char>) {
    (
        slug,
        match page_title(text) {
            Some(t) => t,
            None => slug,
        },
    )
}

pub open spec fn summaries_of(pages: Seq<(String, String)>) -> Seq<(Seq<char>, Seq<char>)> {
    pages.map_values(|p: (String, String)| summary_of(p.0@, p.1@))
}

/// The sort keys of a page list: each title with its place.
pub open spec fn title_keys(items: Seq<(Seq<char>, Seq<char>)>) -> Seq<(Seq<char>, int)> {
    Seq::new(items.len(), |i: int| (items[i].1, i))
}

pub open spec fn summary_view(p: PageSummary) -> (Seq<char>, Seq<char>) {
    (p.slug@, p.title@)
}

fn summary(slug: String, text: &str) -> (p: PageSummary)
    ensures
        summary_view(p) == summary_of(slug@, text@),
{
    let (front, _) = split_front_matter(text);
    let found = match front {
        Some(f) => extract_title(f),
        None => None,
    };
    let title = match found {
        Some(t) => t,
        None => slug.clone(),
    };
    PageSummary { slug, title }
}

impl Vault {
    /// The page list, for `[[link]]` completion: for each `.md` file of
    /// `pages/` that could be read, its stem and its text, in the order
    /// the folder gave them. Each page is listed with its title (the slug
    /// when the front matter has none), sorted by title; pages with the
    /// same title keep their order.
    pub fn list_pages(&self, pages: Vec<(String, String)>) -> (r: Vec<PageSummary>)
        ensures
            r@.len() == pages@.len(),
            forall|k: int| 0 <= k < r@.len() ==> summary_view(#[trigger] r@[k]) == summaries_of(pages@)[title_keys(summaries_of(pages@)).sort_by(title_then_index())[k].1],
    {
        let ghost items = summaries_of(pages@);
        let ghost keys = title_keys(items);
        let ghost ord = title_then_index();
        let n = pages.len();
        let mut out: Vec<(PageSummary, usize)> = Vec::new();
        let ghost mut out_keys: Seq<(Seq<char>, int)> = Seq::empty();
        proof {
            assert(out_keys =~= keys.take(0));
        }
        let mut i: usize = 0;
        for pair in it: pages
            invariant
                it.seq() == pages@,
                n == pages@.len(),
                i == it.index(),
                out@.len() == i,
                items == summaries_of(pages@),
                keys == title_keys(items),
                ord == title_then_index(),
                out@.len() == out_keys.len(),
                forall|q: int| 0 <= q < out@.len() ==> (#[trigger] out@[q]).1 < i && out_keys[q] == (
                    out@[q].0.title@,
                    out@[q].1 as int,
                ) && summary_view(out@[q].0) == items[out@[q].1 as int],
                sorted_by(out_keys, ord),
                out_keys.to_multiset() == keys.take(i as int).to_multiset(),
        {
            let ghost prev_keys = out_keys;
            let ghost prev = out@;
            let (slug, text) = pair;
            proof {
                assert(items[i as int] == summary_of(slug@, text@));
            }
            let entry = summary(slug, text.as_str());
            let mut p: usize = 0;
            while p < out.len() && !title_lt(&entry.title, &out[p].0.title)
                invariant
                    p <= out@.len(),
                    out@ == prev,
                    forall|q: int| 0 <= q < p ==> !text_lt(entry.title@, (#[trigger] out@[q]).0.title@),
                decreases out@.len() - p,
            {
                p += 1;
            }
            let ghost key = (entry.title@, i as int);
            proof {
                assert(keys[i as int] == key);
                lemma_title_then_index_total();
                assert forall|q: int| 0 <= q < p implies #[trigger] ord(prev_keys[q], key) by {
                    assert(prev_keys[q] == (prev[q].0.title@, prev[q].1 as int));
                    lemma_text_lt_total(entry.title@, prev[q].0.title@);
                }
                assert forall|q: int| p <= q < prev.len() implies #[trigger] ord(key, prev_keys[q]) && key != prev_keys[q] by {
                    assert(prev_keys[p as int] == (prev[p as int].0.title@, prev[p as int].1 as int));
                    assert(text_lt(entry.title@, prev[p as int].0.title@));
                    if q > p {
                        assert(ord(prev_keys[p as int], prev_keys[q]));
                        assert(prev_keys[q] == (prev[q].0.title@, prev[q].1 as int));
                        if text_lt(prev_keys[p as int].0, prev_keys[q].0) {
                            lemma_text_lt_transitive(entry.title@, prev_keys[p as int].0, prev_keys[q].0);
                        }
                    }
                    lemma_text_lt_irreflexive(entry.title@);
                }
            }
            out.insert(p, (entry, i));
            proof {
                out_keys = prev_keys.insert(p as int, key);
                assert forall|a: int, b: int| 0 <= a < b < out_keys.len() implies #[trigger] ord(out_keys[a], out_keys[b]) by {
                    if b < p {
                        assert(out_keys[a] == prev_keys[a] && out_keys[b] == prev_keys[b]);
                    } else if b == p {
                        assert(out_keys[a] == prev_keys[a]);
                    } else if a == p {
                        assert(out_keys[b] == prev_keys[b - 1]);
                    } else if a < p {
                        assert(out_keys[a] == prev_keys[a] && out_keys[b] == prev_keys[b - 1]);
                        assert(ord(prev_keys[a], key));
                        assert(ord(key, prev_keys[b - 1]));
                    } else {
                        assert(out_keys[a] == prev_keys[a - 1] && out_keys[b] == prev_keys[b - 1]);
                    }
                }
                assert forall|q: int| 0 <= q < out@.len() implies (#[trigger] out@[q]).1 < i + 1 && out_keys[q] == (
                    out@[q].0.title@,
                    out@[q].1 as int,
                ) && summary_view(out@[q].0) == items[out@[q].1 as int] by {
                    if q < p {
                        assert(out@[q] == prev[q]);
                    } else if q > p {
                        assert(out@[q] == prev[q - 1]);
                    }
                }
                vstd::seq_lib::to_multiset_insert(prev_keys, p as int, key);
                assert(keys.take(i + 1) =~= keys.take(i as int).push(key));
                vstd::seq_lib::to_multiset_build(keys.take(i as int), key);
            }
            i += 1;
        }
        proof {
            assert(keys.take(n as int) =~= keys);
            lemma_title_then_index_total();
            keys.lemma_sort_by_ensures(ord);
            vstd::seq_lib::lemma_sorted_unique(out_keys, keys.sort_by(ord), ord);
        }
        let mut r: Vec<PageSummary> = Vec::new();
        let ghost sorted_keys = keys.sort_by(ord);
        let ghost taken = out@;
        for e in it2: out
            invariant
                it2.seq() == taken,
                r@.len() == it2.index(),
                forall|q: int| 0 <= q < r@.len() ==> #[trigger] r@[q] == taken[q].0,
        {
            let (entry, _) = e;
            r.push(entry);
        }
        proof {
            assert forall|k: int| 0 <= k < r@.len() implies summary_view(#[trigger] r@[k]) == items[sorted_keys[k].1] by {
                assert(r@[k] == taken[k].0);
                assert(out_keys[k] == sorted_keys[k]);
            }
        }
        r
    }
}

/// The text of a page created under the name `name`: a front matter whose
/// title is the name as given, then one empty block.
pub open spec fn created_page_text(name: Seq<char>) -> Seq<char> {
    seq!['-', '-', '-', '\n', 't', 'i', 't', 'l', 'e', ':', ' '] + name + seq!['\n', '-', '-', '-', '\n', '-', ' ', '\n']
}

proof fn lemma_leading_ws_bound(n: Seq<char>)
    ensures
        leading_ws(n) <= n.len(),
    decreases n.len(),
{
    if n.len() > 0 && is_ws(n[0]) {
        lemma_leading_ws_bound(n.drop_first());
    }
}

proof fn lemma_trim_space_first(n: Seq<char>)
    ensures
        trim(seq![' '] + n) == trim(n),
{
    let s = seq![' '] + n;
    assert(s.drop_first() =~= n);
    assert(is_ws(' '));
    assert(leading_ws(s) == 1 + leading_ws(n));
    if leading_ws(s) != s.len() {
        let k = leading_ws(n) as int;
        lemma_leading_ws_bound(n);
        assert forall|j: int| 0 <= j < n.len() - k implies #[trigger] s.skip(1 + k)[j] == n.skip(k)[j] by {
            assert(s[1 + k + j] == n[k + j]);
        }
        assert(s.skip(leading_ws(s) as int) =~= n.skip(leading_ws(n) as int));
    }
}

/// Law: a page created by opening a name that holds no newline gets that
/// name, trimmed, as its title, so that `[[links]]` show it as written
/// rather than as a slug; a name that is only blank gives no title.
pub proof fn law_new_page_title(name: Seq<char>)
    requires
        forall|j: int| 0 <= j < name.len() ==> #[trigger] name[j] != '\n',
    ensures
        page_title(created_page_text(name)) == (if trim(name).len() > 0 {
            Some(trim(name))
        } else {
            None::<Seq<char>>
        }),
{
    let t = created_page_text(name);
    let n = name.len() as int;
    let l1 = seq!['t', 'i', 't', 'l', 'e', ':', ' '] + name;
    assert(t.take(4) =~= seq!['-', '-', '-', '\n']);
    // the title line
    assert forall|j: int| 4 <= j < 11 + n implies #[trigger] t[j] != '\n' by {
        if j >= 11 {
            assert(t[j] == name[j - 11]);
        }
    }
    assert(t[11 + n] == '\n');
    assert(line_end(t, 4) == 12 + n) by {
        lemma_line_end_at(t, 4, 11 + n);
    }
    assert(t.subrange(4, 12 + n)[0] == 't');
    assert(!is_closing_line(t.subrange(4, 12 + n)));
    assert(line_end(t, 12 + n) == 16 + n) by {
        lemma_line_end_at(t, 12 + n, 15 + n);
    }
    assert(t.subrange(12 + n, 16 + n) =~= seq!['-', '-', '-', '\n']);
    assert(closing_end(t, 12 + n) == Some(16 + n));
    assert(closing_end(t, 4) == Some(16 + n));
    assert(front_matter_end(t) == Some(16 + n));
    let f = t.take(16 + n);
    // the lines of the front matter
    let a = seq!['-', '-', '-'];
    crate::round_trip::lemma_split_nl_append_plain(Seq::<char>::empty(), a);
    assert(Seq::<char>::empty() + a =~= a);
    assert(split_nl(Seq::<char>::empty()) == seq![Seq::<char>::empty()]);
    assert(split_nl(a) =~= seq![a]);
    let b = a.push('\n');
    assert(b.drop_last() =~= a);
    assert(split_nl(b) =~= seq![a, Seq::<char>::empty()]);
    assert forall|j: int| 0 <= j < l1.len() implies #[trigger] l1[j] != '\n' by {
        if j >= 7 {
            assert(l1[j] == name[j - 7]);
        }
    }
    crate::round_trip::lemma_split_nl_append_plain(b, l1);
    assert(Seq::<char>::empty() + l1 =~= l1);
    assert(split_nl(b + l1) =~= seq![a, l1]);
    let c = (b + l1).push('\n');
    assert(c.drop_last() =~= b + l1);
    assert(split_nl(c) =~= seq![a, l1, Seq::<char>::empty()]);
    crate::round_trip::lemma_split_nl_append_plain(c, a);
    assert(split_nl(c + a) =~= seq![a, l1, a]);
    let d = (c + a).push('\n');
    assert(d.drop_last() =~= c + a);
    assert(split_nl(d) =~= seq![a, l1, a, Seq::<char>::empty()]);
    assert(f =~= d);
    let ps = split_nl(f);
    // the title
    assert(l1.take(6) =~= seq!['t', 'i', 't', 'l', 'e', ':']);
    assert(l1.skip(6) =~= seq![' '] + name);
    lemma_trim_space_first(name);
    assert(title_of_line(a) is None);
    assert(title_of_line(Seq::<char>::empty()) is None);
    assert(ps.drop_last() =~= seq![a, l1, a]);
    assert(ps.drop_last().drop_last() =~= seq![a, l1]);
    assert(ps.drop_last().drop_last().drop_last() =~= seq![a]);
    assert(ps.drop_last().drop_last().drop_last().drop_last() =~= Seq::<Seq<char>>::empty());
    assert(seq![a].drop_last() =~= Seq::<Seq<char>>::empty());
    assert(seq![a].last() == a);
    assert(title_in(Seq::<Seq<char>>::empty()) is None);
    assert(title_in(seq![a]) is None);
    assert(seq![a, l1].drop_last() =~= seq![a]);
    assert(seq![a, l1, a].drop_last() =~= seq![a, l1]);
    assert(title_in(seq![a, l1]) == title_of_line(l1));
    assert(title_in(seq![a, l1, a]) == title_of_line(l1));
    assert(title_in(ps) == title_of_line(l1));
    assert(title_of(f) == title_of_line(l1));
}


/// Law: the journal days listed are days that have a file, all strictly
/// before `before` when it is given, newest first, and never more than
/// asked for or than the cap.
pub proof fn law_list_journals_shape(names: Seq<Seq<char>>, before: Option<(int, int, int)>, limit: int)
    requires
        limit >= 0,
    ensures
        ({
            let r = first_n(journal_candidates(names, before).sort_by(newest_first()), limit);
            &&& r.len() <= journal_candidates(names, before).len()
            &&& r.len() <= limit
            &&& forall|k: int| 0 <= k < r.len() ==> journal_candidates(names, before).contains(#[trigger] r[k])
            &&& forall|k: int| 0 <= k < r.len() ==> (before matches Some(b) ==> date_lt(#[trigger] r[k], b))
            &&& forall|k: int, j: int| 0 <= k < j < r.len() ==> !date_lt(#[trigger] r[k], #[trigger] r[j])
        }),
{
    let c = journal_candidates(names, before);
    lemma_newest_first_total();
    c.lemma_sort_by_ensures(newest_first());
    let s = c.sort_by(newest_first());
    broadcast use vstd::seq_lib::group_to_multiset_ensures;
    assert(s.len() == c.len()) by {
        vstd::seq_lib::to_multiset_len(s);
        vstd::seq_lib::to_multiset_len(c);
    }
    let r = first_n(s, limit);
    assert(r.len() <= s.len());
    lemma_candidates_before(names, before);
    assert forall|k: int| 0 <= k < r.len() implies c.contains(#[trigger] r[k]) by {
        assert(r[k] == s[k]);
        assert(s.contains(s[k]));
        assert(s.to_multiset().contains(s[k]));
    }
    assert forall|k: int, j: int| 0 <= k < j < r.len() implies !date_lt(#[trigger] r[k], #[trigger] r[j]) by {
        assert(r[k] == s[k] && r[j] == s[j]);
        assert((newest_first())(s[k], s[j]));
    }
}

proof fn lemma_candidates_before(names: Seq<Seq<char>>, before: Option<(int, int, int)>)
    ensures
        forall|k: int| 0 <= k < journal_candidates(names, before).len() ==> (before matches Some(b) ==> date_lt(
            #[trigger] journal_candidates(names, before)[k],
            b,
        )),
    decreases names.len(),
{
    if names.len() > 0 {
        lemma_candidates_before(names.drop_last(), before);
        let r = journal_candidates(names.drop_last(), before);
        let c = journal_candidates(names, before);
        assert forall|k: int| 0 <= k < c.len() implies (before matches Some(b) ==> date_lt(#[trigger] c[k], b)) by {
            if k < r.len() {
                assert(c[k] == r[k]);
            }
        }
    }
}

/// Law: the page list is sorted by title, and it lists each given page
/// once: the places it takes them from are all different.
pub proof fn law_list_pages_sorted(items: Seq<(Seq<char>, Seq<char>)>)
    ensures
        ({
            let ks = title_keys(items).sort_by(title_then_index());
            &&& ks.len() == items.len()
            &&& forall|k: int, j: int| 0 <= k < j < ks.len() ==> !text_lt(items[#[trigger] ks[j].1].1, items[#[trigger] ks[k].1].1)
            &&& forall|k: int| 0 <= k < ks.len() ==> 0 <= #[trigger] ks[k].1 < items.len()
            &&& forall|k: int, j: int| 0 <= k < j < ks.len() ==> (#[trigger] ks[k]).1 != (#[trigger] ks[j]).1
        }),
{
    let keys = title_keys(items);
    lemma_title_then_index_total();
    keys.lemma_sort_by_ensures(title_then_index());
    let ks = keys.sort_by(title_then_index());
    broadcast use vstd::seq_lib::group_to_multiset_ensures;
    assert(ks.len() == keys.len()) by {
        vstd::seq_lib::to_multiset_len(ks);
        vstd::seq_lib::to_multiset_len(keys);
    }
    assert forall|k: int| 0 <= k < ks.len() implies 0 <= #[trigger] ks[k].1 < items.len() && items[ks[k].1].1 == ks[k].0 by {
        assert(ks.contains(ks[k]));
        assert(ks.to_multiset().contains(ks[k]));
        assert(keys.contains(ks[k]));
        let i = choose|i: int| 0 <= i < keys.len() && keys[i] == ks[k];
        assert(keys[i] == (items[i].1, i));
    }
    assert forall|k: int, j: int| 0 <= k < j < ks.len() implies !text_lt(items[#[trigger] ks[j].1].1, items[#[trigger] ks[k].1].1) by {
        assert((title_then_index())(ks[k], ks[j]));
        assert(items[ks[k].1].1 == ks[k].0);
        assert(items[ks[j].1].1 == ks[j].0);
        lemma_text_lt_asymmetric(ks[k].0, ks[j].0);
        lemma_text_lt_irreflexive(ks[k].0);
    }
    assert(keys.no_duplicates());
    keys.lemma_multiset_has_no_duplicates();
    ks.lemma_multiset_has_no_duplicates_conv();
    assert forall|k: int, j: int| 0 <= k < j < ks.len() implies (#[trigger] ks[k]).1 != (#[trigger] ks[j]).1 by {
        assert(items[ks[k].1].1 == ks[k].0);
        assert(items[ks[j].1].1 == ks[j].0);
        if ks[k].1 == ks[j].1 {
            assert(ks[k] == ks[j]);
        }
    }
}

impl Vault {
    /// Counts the journal days and the pages of the vault from the names
    /// of the files in `journals/` and `pages/`: a journal day is named
    /// `YYYY-MM-DD.md`, a page is any `.md` file. No file is read.
    pub fn stats(&self, journal_names: &Vec<String>, page_names: &Vec<String>) -> (s: VaultStats)
        ensures
            s.journal_count == count_journal_names(names_model(journal_names@)),
            s.page_count == count_md_names(names_model(page_names@)),
    {
        let ghost jn = names_model(journal_names@);
        let ghost pn = names_model(page_names@);
        let mut journal_count: usize = 0;
        let mut i: usize = 0;
        while i < journal_names.len()
            invariant
                i <= journal_names@.len(),
                jn == names_model(journal_names@),
                journal_count == count_journal_names(jn.take(i as int)),
            decreases journal_names@.len() - i,
        {
            proof {
                assert(jn.take(i + 1).drop_last() =~= jn.take(i as int));
                assert(jn.take(i + 1).last() == journal_names@[i as int]@);
                lemma_counts_bounded(jn.take(i as int));
            }
            if journal_file_date(journal_names[i].as_str()).is_some() {
                journal_count += 1;
            }
            i += 1;
        }
        assert(jn.take(journal_names@.len() as int) =~= jn);
        let mut page_count: usize = 0;
        let mut j: usize = 0;
        while j < page_names.len()
            invariant
                j <= page_names@.len(),
                pn == names_model(page_names@),
                page_count == count_md_names(pn.take(j as int)),
            decreases page_names@.len() - j,
        {
            proof {
                assert(pn.take(j + 1).drop_last() =~= pn.take(j as int));
                assert(pn.take(j + 1).last() == page_names@[j as int]@);
                lemma_counts_bounded(pn.take(j as int));
            }
            if md_stem(page_names[j].as_str()).is_some() {
                page_count += 1;
            }
            j += 1;
        }
        assert(pn.take(page_names@.len() as int) =~= pn);
        VaultStats { journal_count, page_count }
    }

    /// The journal days to list, newest first, from the names of the files
    /// in `journals/`: only days that have a file (no placeholder),
    /// strictly before `before` when it is given, at most `limit` of them
    /// and never more than [`MAX_LIST_JOURNALS_LIMIT`].
    pub fn list_journals(&self, journal_names: &Vec<String>, before: Option<JournalDate>, limit: usize) -> (r: Vec<JournalDate>)
        ensures
            dates_model(r@) == first_n(
                journal_candidates(
                    names_model(journal_names@),
                    match before {
                        Some(b) => Some(b@),
                        None => None,
                    },
                ).sort_by(newest_first()),
                if limit < MAX_LIST_JOURNALS_LIMIT {
                    limit as int
                } else {
                    MAX_LIST_JOURNALS_LIMIT as int
                },
            ),
    {
        let limit = if limit < MAX_LIST_JOURNALS_LIMIT {
            limit
        } else {
            MAX_LIST_JOURNALS_LIMIT
        };
        let ghost jn = names_model(journal_names@);
        let ghost bv = match before {
            Some(b) => Some(b@),
            None => None,
        };
        let mut dates: Vec<JournalDate> = Vec::new();
        let mut i: usize = 0;
        while i < journal_names.len()
            invariant
                i <= journal_names@.len(),
                jn == names_model(journal_names@),
                bv == match before {
                    Some(b) => Some(b@),
                    None => None::<(int, int, int)>,
                },
                dates_model(dates@) == journal_candidates(jn.take(i as int), bv),
            decreases journal_names@.len() - i,
        {
            proof {
                assert(jn.take(i + 1).drop_last() =~= jn.take(i as int));
                assert(jn.take(i + 1).last() == journal_names@[i as int]@);
            }
            match journal_file_date(journal_names[i].as_str()) {
                Some(d) => {
                    let keep = match &before {
                        Some(b) => d.is_before(b),
                        None => true,
                    };
                    if keep {
                        dates.push(d);
                        assert(dates_model(dates@) =~= journal_candidates(jn.take(i + 1), bv));
                    }
                },
                None => {},
            }
            i += 1;
        }
        assert(jn.take(journal_names@.len() as int) =~= jn);
        let sorted = sort_newest_first(dates);
        let ghost all = dates_model(sorted@);
        let mut r: Vec<JournalDate> = Vec::new();
        let mut k: usize = 0;
        while k < sorted.len() && k < limit
            invariant
                k <= sorted@.len(),
                k <= limit,
                all == dates_model(sorted@),
                r@.len() == k,
                dates_model(r@) == all.take(k as int),
            decreases sorted@.len() - k,
        {
            let ghost prev = r@;
            r.push(sorted[k]);
            proof {
                assert(all[k as int] == sorted@[k as int]@);
                assert(r@ == prev.push(sorted@[k as int]));
                assert forall|j: int| 0 <= j < k + 1 implies #[trigger] dates_model(r@)[j] == all.take(k + 1)[j] by {
                    if j < k {
                        assert(r@[j] == prev[j]);
                        assert(dates_model(prev)[j] == all.take(k as int)[j]);
                    }
                }
                assert(dates_model(r@) =~= all.take(k + 1));
            }
            k += 1;
        }
        proof {
            if k == sorted@.len() {
                assert(all.take(k as int) =~= all);
            }
        }
        r
    }

    /// The page named `name`, opened: `existing` is the text of its file
    /// (at `pages/` + slug + `.md`), `None` when there is none yet. A
    /// missing page is created with its name as given (not the slug) as
    /// title and one empty block: the second result is then the text to
    /// write, and the page is the one that text holds.
    pub fn open_page(&self, name: &str, existing: Option<&str>) -> (r: Result<(Page, Option<String>), CoreError>)
        ensures
            ({
                let text = match existing {
                    Some(t) => t@,
                    None => created_page_text(name@),
                };
                match (r, parse_outcome(body_of(text))) {
                    (Ok((page, created)), Ok(ls)) => page.path@ == pages_prefix() + slug_of(name@) + md_suffix()
                        && tree_lines(trees_of(page.blocks@), 0) == ls && match page_title(text) {
                        Some(x) => page.title matches Some(y) && y@ == x,
                        None => page.title is None,
                    } && match existing {
                        Some(_) => created is None,
                        None => created matches Some(w) && w@ == text,
                    },
                    (Err(e), Err(p)) => is_malformed(e, p.0, p.1),
                    _ => false,
                }
            }),
    {
        let relative_path = Vault::page_relative_path(name);
        match existing {
            Some(t) => match page_from_text(relative_path.as_str(), t) {
                Ok(page) => Ok((page, None)),
                Err(e) => Err(e),
            },
            None => {
                let text = new_page_text(name);
                match page_from_text(relative_path.as_str(), text.as_str()) {
                    Ok(page) => Ok((page, Some(text))),
                    Err(e) => Err(e),
                }
            },
        }
    }

    /// Today's journal, opened: `existing` is the text of its file, `None`
    /// when there is no file yet. A missing file is created with one empty
    /// block: the second result is then the text to write, and the page is
    /// the one that text holds.
    pub fn open_today(&self, today: &JournalDate, existing: Option<&str>) -> (r: Result<(Page, Option<String>), CoreError>)
        ensures
            match existing {
                Some(t) => match (r, parse_outcome(body_of(t@))) {
                    (Ok((page, created)), Ok(ls)) => created is None && page.path@ == journals_prefix()
                        + file_stem(today@) + md_suffix() && tree_lines(trees_of(page.blocks@), 0) == ls
                        && match page_title(t@) {
                        Some(x) => page.title matches Some(y) && y@ == x,
                        None => page.title is None,
                    },
                    (Err(e), Err(p)) => is_malformed(e, p.0, p.1),
                    _ => false,
                },
                None => r matches Ok((page, created)) && created matches Some(w) && w@ == render_text(
                    seq![Tree { content: Seq::empty(), children: Seq::empty() }],
                ) && page.path@ == journals_prefix() + file_stem(today@) + md_suffix()
                    && trees_of(page.blocks@) == seq![Tree { content: Seq::<char>::empty(), children: Seq::<Tree>::empty() }]
                    && page.title is None,
            },
    {
        let relative_path = Vault::journal_relative_path(*today);
        match existing {
            Some(t) => match page_from_text(relative_path.as_str(), t) {
                Ok(page) => Ok((page, None)),
                Err(e) => Err(e),
            },
            None => {
                let empty_block = Block::new("");
                let mut blocks: Vec<Block> = Vec::new();
                blocks.push(empty_block);
                proof {
                    reveal_strlit("");
                    let ts = trees_of(blocks@);
                    assert(blocks@.drop_last() =~= Seq::<Block>::empty());
                    assert(empty_block.children@ =~= Seq::<Block>::empty());
                    assert(trees_of(empty_block.children@) == Seq::<Tree>::empty());
                    assert(""@ =~= Seq::<char>::empty());
                    assert(blocks@.last() == empty_block);
                    assert(trees_of(blocks@.drop_last()) == Seq::<Tree>::empty());
                    assert(ts == Seq::<Tree>::empty().push(tree_of(empty_block)));
                    assert(ts =~= seq![Tree { content: Seq::<char>::empty(), children: Seq::<Tree>::empty() }]);
                    assert(crate::parser::depth(ts) < usize::MAX) by {
                        reveal_with_fuel(crate::parser::depth, 3);
                    }
                }
                let text = page_text_to_write(None, blocks.as_slice());
                let ghost ts = trees_of(blocks@);
                proof {
                    assert(crate::vault::kept_front(None) == Seq::<char>::empty());
                    assert(text@ =~= render_text(ts));
                    assert(single_line_texts(tree_lines(ts, 0))) by {
                        reveal_with_fuel(tree_lines, 3);
                    }
                    law_read_after_write(None, ts);
                    assert(Seq::<char>::empty() + render_text(ts) =~= render_text(ts));
                }
                match page_from_text(relative_path.as_str(), text.as_str()) {
                    Ok(page) => {
                        proof {
                            crate::round_trip::lemma_tree_lines_injective(trees_of(page.blocks@), ts, 0);
                        }
                        Ok((page, Some(text)))
                    },
                    Err(e) => Err(e),
                }
            },
        }
    }
}

} // verus!
