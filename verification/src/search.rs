//! Full-text search, local part: the document that stands for a page, the
//! query that is run, and the hit that is reported. The search engine and
//! its files stand outside.
use vstd::prelude::*;

use crate::block::{Block, Page, Tree, tree_of, trees_of};
use crate::index::{kind_of, opt_view, page_kind};
use crate::links::{flatten_blocks, preorder};
use crate::round_trip::join_nl;
use crate::text::{chars_of, string_from_range, trim, trim_bounds};

verus! {

/// At most this many hits are reported, by relevance.
pub const MAX_SEARCH_RESULTS: usize = 20;

/// Length of a snippet, in characters.
pub const SNIPPET_MAX_CHARS: usize = 160;

/// Memory given to the writer of the search engine, in bytes.
pub const WRITER_HEAP_BYTES: usize = 25000000;

/// A hit: a whole page or journal day, never a single block.
#[derive(Debug, Clone, PartialEq, Eq)]
pub struct SearchHit {
    pub path: String,
    pub kind: String,
    pub title: Option<String>,
    /// HTML of the search engine: the surrounding text escaped, the
    /// matching terms in `<b>`.
    pub snippet_html: String,
}

/// What is indexed for one page.
#[derive(Debug, Clone, PartialEq, Eq)]
pub struct SearchDocument {
    pub path: String,
    pub kind: String,
    pub title: String,
    pub content: String,
}

/// The texts of the blocks of a forest, in preorder.
pub open spec fn contents(ts: Seq<Tree>) -> Seq<Seq<char>> {
    preorder(ts).map_values(|t: Tree| t.content)
}

/// The document of a page: its path, its kind, its title (empty when it
/// has none) and the texts of all its blocks in preorder, one per line.
pub fn search_document(relative_path: &str, page: &Page) -> (d: SearchDocument)
    ensures
        d.path@ == relative_path@,
        d.kind@ == kind_of(relative_path@),
        d.title@ == match page.title {
            Some(t) => t@,
            None => Seq::<char>::empty(),
        },
        d.content@ == join_nl(contents(trees_of(page.blocks@))),
{
    let flat = flatten_blocks(page.blocks.as_slice());
    let ghost cs = contents(trees_of(page.blocks@));
    let n = flat.len();
    let mut content = String::new();
    for k in 0..n
        invariant
            n == flat@.len() == cs.len(),
            cs == contents(trees_of(page.blocks@)),
            forall|j: int| 0 <= j < n ==> tree_of(*#[trigger] flat@[j]) == preorder(trees_of(page.blocks@))[j],
            content@ == join_nl(cs.take(k as int)),
    {
        let block: &Block = flat[k];
        proof {
            assert(tree_of(*flat@[k as int]) == preorder(trees_of(page.blocks@))[k as int]);
            assert(cs[k as int] == block.content@);
            let t = cs.take(k + 1);
            assert(t.drop_last() =~= cs.take(k as int));
            assert(t.last() == block.content@);
        }
        if k > 0 {
            content.append("\n");
            proof {
                reveal_strlit("\n");
            }
        } else {
            proof {
                assert(cs.take(1) =~= seq![block.content@]);
            }
        }
        content.append(block.content.as_str());
    }
    proof {
        assert(cs.take(n as int) =~= cs);
    }
    let title = match &page.title {
        Some(t) => t.clone(),
        None => String::new(),
    };
    SearchDocument {
        path: String::from_str(relative_path),
        kind: String::from_str(page_kind(relative_path)),
        title,
        content,
    }
}

/// The query that is run for what the user typed: the text trimmed, or
/// `None` when nothing is left (the user is still typing: no hit, no
/// error).
pub fn search_query(query: &str) -> (q: Option<String>)
    ensures
        match q {
            Some(t) => t@ == trim(query@) && t@.len() > 0,
            None => trim(query@).len() == 0,
        },
{
    let v = chars_of(query);
    let (a, b) = trim_bounds(&v, 0, v.len());
    proof {
        assert(v@.subrange(0, v@.len() as int) == v@);
    }
    if a == b {
        None
    } else {
        Some(string_from_range(&v, a, b))
    }
}

/// A hit from the stored fields of a document: a missing path or kind
/// reads as empty, and an empty title as none.
pub fn search_hit(path: Option<String>, kind: Option<String>, title: Option<String>, snippet_html: String) -> (h: SearchHit)
    ensures
        h.path@ == match path {
            Some(p) => p@,
            None => Seq::<char>::empty(),
        },
        h.kind@ == match kind {
            Some(k) => k@,
            None => Seq::<char>::empty(),
        },
        opt_view(h.title) == match title {
            Some(t) => if t@.len() == 0 {
                None
            } else {
                Some(t@)
            },
            None => None,
        },
        h.snippet_html@ == snippet_html@,
{
    let path = match path {
        Some(p) => p,
        None => String::new(),
    };
    let kind = match kind {
        Some(k) => k,
        None => String::new(),
    };
    let title = match title {
        Some(t) => if t.as_str().unicode_len() == 0 {
            None
        } else {
            Some(t)
        },
        None => None,
    };
    SearchHit { path, kind, title, snippet_html }
}

} // verus!
