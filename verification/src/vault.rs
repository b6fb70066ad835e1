//! The vault: a folder of `journals/` and `pages/` markdown files. What is
//! decided about paths, file names and file texts stands here; the file
//! system calls stand outside.
use vstd::prelude::*;

use crate::block::{Block, Page, Tree, trees_of};
use crate::error::CoreError;
use crate::frontmatter::{split_front_matter, extract_title, front_matter_end, title_of, line_end, closing_end, is_closing_line, lemma_line_end, lemma_line_end_at, lemma_closing_end_bounds};
use crate::round_trip::{single_line_texts, law_parse_render, lemma_tree_lines_well_leveled};
use crate::parser::{LineModel, lines_text, line_text, spaces, split_nl};
use crate::journal_date::{JournalDate, file_stem};
use crate::parser::{parse, render, parse_outcome, render_text, depth, tree_lines, is_malformed};
use crate::slug::{slugify, slug_of};
use crate::text::{chars_of, string_from_chars};

verus! {

/// A vault, identified by its root folder.
pub struct Vault {
    pub root: String,
}

/// Note counts, for the settings panel.
#[derive(Debug, Clone, Copy, PartialEq, Eq)]
pub struct VaultStats {
    pub journal_count: usize,
    pub page_count: usize,
}

/// An entry of the page list, for `[[link]]` completion.
#[derive(Debug, Clone, PartialEq, Eq)]
pub struct PageSummary {
    pub slug: String,
    /// Title from the front matter, or the slug itself when there is none.
    pub title: String,
}

/// `journals/`
pub open spec fn journals_prefix() -> Seq<char> {
    seq!['j', 'o', 'u', 'r', 'n', 'a', 'l', 's', '/']
}

/// `pages/`
pub open spec fn pages_prefix() -> Seq<char> {
    seq!['p', 'a', 'g', 'e', 's', '/']
}

/// `.md`
pub open spec fn md_suffix() -> Seq<char> {
    seq!['.', 'm', 'd']
}

/// A path that starts at the root (`/...`).
pub open spec fn is_absolute(p: Seq<char>) -> bool {
    p.len() > 0 && p[0] == '/'
}

/// A path whose first component is `.`.
pub open spec fn starts_with_cur_dir(p: Seq<char>) -> bool {
    p.len() >= 1 && p[0] == '.' && (p.len() == 1 || p[1] == '/')
}

/// A `..` component at index `i`.
pub open spec fn parent_at(p: Seq<char>, i: int) -> bool {
    &&& 0 <= i && i + 1 < p.len()
    &&& p[i] == '.' && p[i + 1] == '.'
    &&& (i == 0 || p[i - 1] == '/')
    &&& (i + 2 == p.len() || p[i + 2] == '/')
}

/// A relative path made of plain names only: no root, no `..`, no leading
/// `.`; the only paths that `resolve` lets into the vault.
pub open spec fn stays_inside(p: Seq<char>) -> bool {
    &&& !is_absolute(p)
    &&& !starts_with_cur_dir(p)
    &&& forall|i: int| !#[trigger] parent_at(p, i)
}

/// `PathBuf::join` of a relative path onto `root`.
pub open spec fn join_path(root: Seq<char>, rel: Seq<char>) -> Seq<char> {
    if root.len() > 0 && root.last() != '/' {
        root + seq!['/'] + rel
    } else {
        root + rel
    }
}

impl Vault {
    pub fn new(root: String) -> (v: Vault)
        ensures
            v.root@ == root@,
    {
        Vault { root }
    }

    /// Relative path of the journal of a day, e.g. `journals/2026-09-02.md`.
    pub fn journal_relative_path(date: JournalDate) -> (p: String)
        ensures
            p@ == journals_prefix() + file_stem(date@) + md_suffix(),
    {
        let mut p = String::from_str("journals/");
        let stem = date.to_file_stem();
        p.append(stem.as_str());
        p.append(".md");
        proof {
            reveal_strlit("journals/");
            reveal_strlit(".md");
        }
        p
    }

    /// Relative path of a page from its name, e.g. `pages/page-name.md`.
    pub fn page_relative_path(name: &str) -> (p: String)
        ensures
            p@ == pages_prefix() + slug_of(name@) + md_suffix(),
    {
        let mut p = String::from_str("pages/");
        let slug = slugify(name);
        p.append(slug.as_str());
        p.append(".md");
        proof {
            reveal_strlit("pages/");
            reveal_strlit(".md");
        }
        p
    }

    /// Resolves a path relative to the vault into a path under its root,
    /// refusing anything that could leave the root (`..`, absolute paths, a
    /// leading `.`). The single way into the vault's files.
    pub fn resolve(&self, relative_path: &str) -> (r: Result<String, CoreError>)
        ensures
            match r {
                Ok(p) => stays_inside(relative_path@) && p@ == join_path(self.root@, relative_path@),
                Err(e) => !stays_inside(relative_path@) && (e matches CoreError::InvalidPath(x)
                    && x@ == relative_path@),
            },
    {
        let v = chars_of(relative_path);
        let n = v.len();
        let refused = CoreError::InvalidPath(String::from_str(relative_path));
        if n > 0 && v[0] == '/' {
            return Err(refused);
        }
        if n >= 1 && v[0] == '.' && (n == 1 || v[1] == '/') {
            return Err(refused);
        }
        let mut i: usize = 0;
        while i < n
            invariant
                n == v@.len(),
                v@ == relative_path@,
                i <= n,
                refused matches CoreError::InvalidPath(x) && x@ == relative_path@,
                forall|j: int| 0 <= j < i ==> !#[trigger] parent_at(v@, j),
            decreases n - i,
        {
            if i + 1 < n && v[i] == '.' && v[i + 1] == '.' && (i == 0 || v[i - 1] == '/') && (i
                + 2 == n || v[i + 2] == '/') {
                assert(parent_at(v@, i as int));
                return Err(refused);
            }
            i += 1;
        }
        assert forall|j: int| !#[trigger] parent_at(v@, j) by {
            if 0 <= j < n {
            }
        }
        let rv = chars_of(self.root.as_str());
        let mut out = self.root.clone();
        if rv.len() > 0 && rv[rv.len() - 1] != '/' {
            out.append("/");
            proof {
                reveal_strlit("/");
            }
        }
        out.append(relative_path);
        Ok(out)
    }
}


/// The front matter of a file text, if it has one.
pub open spec fn front_of(t: Seq<char>) -> Option<Seq<char>> {
    match front_matter_end(t) {
        Some(e) => Some(t.take(e)),
        None => None,
    }
}

/// The text of a file after its front matter.
pub open spec fn body_of(t: Seq<char>) -> Seq<char> {
    match front_matter_end(t) {
        Some(e) => t.skip(e),
        None => t,
    }
}

/// The title a file text gives its page.
pub open spec fn page_title(t: Seq<char>) -> Option<Seq<char>> {
    match front_of(t) {
        Some(f) => title_of(f),
        None => None,
    }
}

/// A front matter closed by a newline: as it is when it ends with one
/// (or is empty), else with a newline added, so that the blocks written
/// after it start on a line of their own.
pub open spec fn closed_by_newline(f: Seq<char>) -> Seq<char> {
    if f.len() > 0 && f.last() != '\n' {
        f.push('\n')
    } else {
        f
    }
}

/// The front matter that a write keeps from the text it replaces, closed
/// by a newline.
pub open spec fn kept_front(existing: Option<Seq<char>>) -> Seq<char> {
    match existing {
        Some(t) => match front_of(t) {
            Some(f) => closed_by_newline(f),
            None => Seq::empty(),
        },
        None => Seq::empty(),
    }
}

/// The page that a file text holds, as `Vault::read_page` builds it once
/// the file is read: the front matter gives the title, the rest the
/// blocks.
pub fn page_from_text(relative_path: &str, text: &str) -> (r: Result<Page, CoreError>)
    ensures
        match (r, parse_outcome(body_of(text@))) {
            (Ok(page), Ok(ls)) => page.path@ == relative_path@ && tree_lines(trees_of(page.blocks@), 0)
                == ls && match page_title(text@) {
                Some(t) => page.title matches Some(x) && x@ == t,
                None => page.title is None,
            },
            (Err(e), Err(p)) => is_malformed(e, p.0, p.1),
            _ => false,
        },
{
    let (front, body) = split_front_matter(text);
    let title = match front {
        Some(f) => extract_title(f),
        None => None,
    };
    let blocks = match parse(body) {
        Ok(b) => b,
        Err(e) => { return Err(e); },
    };
    Ok(Page { path: String::from_str(relative_path), title, blocks })
}

/// The new text of a file written with `blocks`: the front matter of the
/// text it replaces (a page's title) is kept, closed by a newline when its
/// closing `---` ended the file, then the blocks.
pub fn page_text_to_write(existing: Option<&str>, blocks: &[Block]) -> (out: String)
    requires
        depth(trees_of(blocks@)) < usize::MAX,
    ensures
        out@ == kept_front(match existing {
            Some(t) => Some(t@),
            None => None,
        }) + render_text(trees_of(blocks@)),
{
    let mut out = match existing {
        Some(t) => match split_front_matter(t).0 {
            Some(f) => {
                let fv = chars_of(f);
                let mut kept = f.to_owned();
                if fv.len() > 0 && fv[fv.len() - 1] != '\n' {
                    crate::text::push_char(&mut kept, '\n');
                }
                kept
            },
            None => String::new(),
        },
        None => String::new(),
    };
    let body = render(blocks);
    out.append(body.as_str());
    out
}

/// The text of a page created by `Vault::open_page`: a front matter whose
/// title is the name as given (not the slug), then one empty block.
pub fn new_page_text(name: &str) -> (out: String)
    ensures
        out@ == seq!['-', '-', '-', '\n', 't', 'i', 't', 'l', 'e', ':', ' '] + name@ + seq![
            '\n',
            '-',
            '-',
            '-',
            '\n',
            '-',
            ' ',
            '\n',
        ],
{
    let mut out = String::from_str("---\ntitle: ");
    out.append(name);
    out.append("\n---\n- \n");
    proof {
        reveal_strlit("---\ntitle: ");
        reveal_strlit("\n---\n- \n");
    }
    out
}


// ---------------------------------------------------------------- laws

/// The title of the page that `existing` (the text being replaced) holds.
pub open spec fn existing_title(existing: Option<Seq<char>>) -> Option<Seq<char>> {
    match existing {
        Some(t) => page_title(t),
        None => None,
    }
}

proof fn lemma_line_end_same(t: Seq<char>, u: Seq<char>, p: int, j: int)
    requires
        0 <= p <= j < t.len(),
        j < u.len(),
        t[j] == '\n',
        forall|k: int| p <= k <= j ==> #[trigger] t[k] == u[k],
    ensures
        line_end(t, p) == line_end(u, p),
        line_end(t, p) <= j + 1,
    decreases j - p,
{
    if t[p] != '\n' {
        lemma_line_end_same(t, u, p + 1, j);
    }
}

proof fn lemma_closing_end_prefix(t: Seq<char>, u: Seq<char>, p: int, e: int)
    requires
        0 <= p,
        closing_end(t, p) == Some(e),
        e <= u.len(),
        t.take(e) == u.take(e),
        t[e - 1] == '\n',
    ensures
        closing_end(u, p) == Some(e),
    decreases t.len() - p,
{
    lemma_closing_end_bounds(t, p);
    lemma_line_end(t, p);
    assert forall|k: int| p <= k <= e - 1 implies #[trigger] t[k] == u[k] by {
        assert(t.take(e)[k] == t[k]);
        assert(u.take(e)[k] == u[k]);
    }
    lemma_line_end_same(t, u, p, e - 1);
    let le = line_end(t, p);
    assert(t.subrange(p, le) == u.subrange(p, le)) by {
        assert forall|k: int| 0 <= k < le - p implies t.subrange(p, le)[k] == u.subrange(p, le)[k] by {
            assert(t[p + k] == u[p + k]);
        }
        assert(t.subrange(p, le) =~= u.subrange(p, le));
    }
    if !is_closing_line(t.subrange(p, le)) {
        lemma_closing_end_prefix(t, u, le, e);
    }
}

proof fn lemma_render_has_no_front(ts: Seq<Tree>)
    ensures
        front_matter_end(render_text(ts)) is None,
{
    let ls = tree_lines(ts, 0);
    lemma_tree_lines_well_leveled(ts, 0);
    let r = render_text(ts);
    if ls.len() > 0 {
        assert(ls == seq![ls[0]] + ls.drop_first());
        crate::parser::lemma_lines_text_append(seq![ls[0]], ls.drop_first());
        assert(seq![ls[0]].drop_first() == Seq::<LineModel>::empty());
        assert(lines_text(seq![ls[0]]) == line_text(ls[0]) + lines_text(Seq::<LineModel>::empty()));
        assert(ls[0].0 == 0);
        assert(spaces(0) =~= Seq::<char>::empty());
        assert(line_text(ls[0])[1] == ' ');
        assert(r[1] == ' ');
        if r.len() >= 4 {
            assert(r.take(4)[1] == ' ');
        }
    }
}

/// A closing line ends with a newline, or ends the text.
proof fn lemma_closing_end_shape(t: Seq<char>, p: int)
    requires
        0 <= p,
    ensures
        closing_end(t, p) matches Some(e) ==> (e == t.len() || t[e - 1] == '\n'),
    decreases t.len() - p,
{
    if 0 <= p < t.len() {
        lemma_line_end(t, p);
        lemma_closing_end_shape(t, line_end(t, p));
    }
}

/// A front matter whose closing `---` ends the text still closes, one
/// character later, once a newline is added.
proof fn lemma_closing_end_newline(t: Seq<char>, p: int)
    requires
        0 <= p,
        t.len() > 0,
        t.last() != '\n',
        closing_end(t, p) == Some(t.len() as int),
    ensures
        closing_end(t.push('\n'), p) == Some(t.len() + 1int),
    decreases t.len() - p,
{
    let u = t.push('\n');
    lemma_line_end(t, p);
    let le = line_end(t, p);
    if le < t.len() {
        assert(t[le - 1] == '\n');
        assert forall|k: int| p <= k <= le - 1 implies #[trigger] t[k] == u[k] by {}
        lemma_line_end_same(t, u, p, le - 1);
        assert(t.subrange(p, le) =~= u.subrange(p, le));
        lemma_closing_end_bounds(t, le);
        lemma_closing_end_newline(t, le);
    } else {
        assert forall|k: int| p <= k < t.len() implies #[trigger] u[k] != '\n' by {
            assert(u[k] == t[k]);
            if k < t.len() - 1 {
            } else {
                assert(t[k] == t.last());
            }
        }
        lemma_line_end_at(u, p, t.len() as int);
        assert(closing_end(t, le) is None);
        assert(is_closing_line(t.subrange(p, le)));
        assert(t.subrange(p, le).last() == t.last());
        assert(t.subrange(p, le) == seq!['-', '-', '-']);
        assert(u.subrange(p, t.len() + 1int) =~= t.subrange(p, le).push('\n'));
        assert(u.subrange(p, t.len() + 1int) =~= seq!['-', '-', '-', '\n']);
    }
}

/// Adding a final newline to a front matter does not change its title.
proof fn lemma_title_of_newline(f: Seq<char>)
    ensures
        title_of(f.push('\n')) == title_of(f),
{
    let u = f.push('\n');
    assert(u.drop_last() =~= f);
    assert(split_nl(u) == split_nl(f).push(Seq::<char>::empty()));
    assert(split_nl(f).push(Seq::<char>::empty()).drop_last() =~= split_nl(f));
    assert(crate::frontmatter::title_of_line(Seq::<char>::empty()) is None);
}

proof fn lemma_written_front(existing: Option<Seq<char>>, r: Seq<char>)
    requires
        front_matter_end(r) is None,
    ensures
        body_of(kept_front(existing) + r) == r,
        page_title(kept_front(existing) + r) == existing_title(existing),
{
    let f = kept_front(existing);
    let w = f + r;
    match existing {
        None => {
            assert(w == r);
        },
        Some(t) => {
            match front_matter_end(t) {
                None => {
                    assert(w == r);
                },
                Some(e) => {
                    lemma_closing_end_bounds(t, 4);
                    lemma_closing_end_shape(t, 4);
                    let g = t.take(e);
                    assert(g.len() == e);
                    assert(g.last() == t[e - 1]);
                    if t[e - 1] == '\n' {
                        assert(f == g);
                        assert(w.take(e) == t.take(e));
                        assert(w.take(4) == t.take(4));
                        lemma_closing_end_prefix(t, w, 4, e);
                        assert(w.skip(e) == r);
                    } else {
                        assert(e == t.len());
                        assert(g =~= t);
                        assert(f == t.push('\n'));
                        lemma_closing_end_newline(t, 4);
                        let u = t.push('\n');
                        assert(u.take(4) =~= t.take(4));
                        assert(front_matter_end(u) == Some(e + 1));
                        assert(u.take(e + 1) =~= u);
                        assert(w.take(e + 1) =~= u);
                        assert(w.take(4) =~= t.take(4));
                        assert(u[e] == '\n');
                        lemma_closing_end_prefix(u, w, 4, e + 1);
                        assert(front_matter_end(w) == Some(e + 1));
                        assert(w.skip(e + 1) =~= r);
                        lemma_title_of_newline(t);
                    }
                },
            }
        },
    }
}

/// Law (what a read gives back of a write): writing blocks over a file and
/// reading the file again gives back those blocks, with the title of the
/// file that was replaced, whatever that file held. It holds for blocks
/// whose texts hold no newline.
pub proof fn law_read_after_write(existing: Option<Seq<char>>, ts: Seq<Tree>)
    requires
        single_line_texts(tree_lines(ts, 0)),
    ensures
        body_of(kept_front(existing) + render_text(ts)) == render_text(ts),
        page_title(kept_front(existing) + render_text(ts)) == existing_title(existing),
        parse_outcome(body_of(kept_front(existing) + render_text(ts))) == Ok::<
            Seq<LineModel>,
            (int, Seq<char>),
        >(tree_lines(ts, 0)),
{
    law_parse_render(ts);
    lemma_render_has_no_front(ts);
    lemma_written_front(existing, render_text(ts));
}

} // verus!
