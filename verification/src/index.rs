//! The derived index of pages, blocks, links and tags: which pages a sync
//! refreshes or drops, the rows that stand for one page, and which link
//! rows are backlinks of a title. The database itself stands outside.
use vstd::prelude::*;

use crate::block::{Block, Page, Tree, tree_of, trees_of};
use crate::links::{extract_links, extract_tags, flatten_blocks, links_from, preorder, tags_from};
use crate::slug::{slug_of, slugify};
use crate::text::chars_of;
use crate::vault::journals_prefix;

verus! {

/// The kind of a page by its path: `journal` under `journals/`, `page`
/// otherwise.
pub open spec fn kind_of(relative_path: Seq<char>) -> Seq<char> {
    if relative_path.len() >= 9 && relative_path.take(9) == journals_prefix() {
        "journal"@
    } else {
        "page"@
    }
}

/// `journal` for a path under `journals/`, `page` otherwise.
pub fn page_kind(relative_path: &str) -> (k: &'static str)
    ensures
        k@ == kind_of(relative_path@),
{
    let v = chars_of(relative_path);
    let under = v.len() >= 9 && v[0] == 'j' && v[1] == 'o' && v[2] == 'u' && v[3] == 'r' && v[4] == 'n'
        && v[5] == 'a' && v[6] == 'l' && v[7] == 's' && v[8] == '/';
    proof {
        if v@.len() >= 9 {
            let t = v@.take(9);
            assert(t[0] == v@[0] && t[1] == v@[1] && t[2] == v@[2] && t[3] == v@[3] && t[4] == v@[4]);
            assert(t[5] == v@[5] && t[6] == v@[6] && t[7] == v@[7] && t[8] == v@[8]);
            if under {
                assert(t =~= journals_prefix());
            }
        }
    }
    if under {
        "journal"
    } else {
        "page"
    }
}

// ---------------------------------------------------------------- sync

/// What a sync of the index changed: the pages read again (new or changed
/// since they were indexed) and the pages dropped (no longer on disk).
#[derive(Debug, Clone, Default, PartialEq, Eq)]
pub struct SyncOutcome {
    pub refreshed: Vec<String>,
    pub removed: Vec<String>,
}

/// A (path, modification time) pair by its values.
pub open spec fn entry_model(e: (String, i64)) -> (Seq<char>, i64) {
    (e.0@, e.1)
}

pub open spec fn entries_model(s: Seq<(String, i64)>) -> Seq<(Seq<char>, i64)> {
    s.map_values(|e: (String, i64)| entry_model(e))
}

pub open spec fn paths_model(s: Seq<String>) -> Seq<Seq<char>> {
    s.map_values(|p: String| p@)
}

/// The page at `path` was indexed with modification time `mtime`.
pub open spec fn indexed_with(indexed: Seq<(Seq<char>, i64)>, path: Seq<char>, mtime: i64) -> bool {
    exists|i: int| 0 <= i < indexed.len() && #[trigger] indexed[i] == (path, mtime)
}

/// Some file on disk has the path `path`.
pub open spec fn on_disk(disk: Seq<(Seq<char>, i64)>, path: Seq<char>) -> bool {
    exists|i: int| 0 <= i < disk.len() && (#[trigger] disk[i]).0 == path
}

/// The pages on disk, in order, that are not indexed with their current
/// modification time.
pub open spec fn to_refresh(disk: Seq<(Seq<char>, i64)>, indexed: Seq<(Seq<char>, i64)>) -> Seq<Seq<char>>
    decreases disk.len(),
{
    if disk.len() == 0 {
        Seq::empty()
    } else {
        let r = to_refresh(disk.drop_last(), indexed);
        let e = disk.last();
        if indexed_with(indexed, e.0, e.1) {
            r
        } else {
            r.push(e.0)
        }
    }
}

/// The indexed pages, in order, that are no longer on disk.
pub open spec fn to_remove(indexed: Seq<(Seq<char>, i64)>, disk: Seq<(Seq<char>, i64)>) -> Seq<Seq<char>>
    decreases indexed.len(),
{
    if indexed.len() == 0 {
        Seq::empty()
    } else {
        let r = to_remove(indexed.drop_last(), disk);
        let e = indexed.last();
        if on_disk(disk, e.0) {
            r
        } else {
            r.push(e.0)
        }
    }
}

fn is_indexed_with(indexed: &Vec<(String, i64)>, path: &String, mtime: i64) -> (b: bool)
    ensures
        b == indexed_with(entries_model(indexed@), path@, mtime),
{
    let ghost m = entries_model(indexed@);
    let mut i: usize = 0;
    while i < indexed.len()
        invariant
            i <= indexed@.len(),
            m == entries_model(indexed@),
            forall|j: int| 0 <= j < i ==> #[trigger] m[j] != (path@, mtime),
        decreases indexed@.len() - i,
    {
        if indexed[i].0 == *path && indexed[i].1 == mtime {
            assert(m[i as int] == (path@, mtime));
            return true;
        }
        assert(m[i as int] == entry_model(indexed@[i as int]));
        i += 1;
    }
    false
}

fn is_on_disk(disk: &Vec<(String, i64)>, path: &String) -> (b: bool)
    ensures
        b == on_disk(entries_model(disk@), path@),
{
    let ghost m = entries_model(disk@);
    let mut i: usize = 0;
    while i < disk.len()
        invariant
            i <= disk@.len(),
            m == entries_model(disk@),
            forall|j: int| 0 <= j < i ==> (#[trigger] m[j]).0 != path@,
        decreases disk@.len() - i,
    {
        assert(m[i as int] == entry_model(disk@[i as int]));
        if disk[i].0 == *path {
            return true;
        }
        i += 1;
    }
    false
}

/// What a sync does, from the markdown files on disk (path relative to the
/// vault and modification time, in seconds) and the pages of the index
/// with the time they were indexed at: a file missing from the index or
/// changed since is read again; an indexed page that is no longer on disk
/// is dropped. Reading only times, never contents, decides it. An empty
/// index is the degenerate case: every file is read.
pub fn plan_sync(disk_pages: &Vec<(String, i64)>, indexed: &Vec<(String, i64)>) -> (o: SyncOutcome)
    ensures
        paths_model(o.refreshed@) == to_refresh(entries_model(disk_pages@), entries_model(indexed@)),
        paths_model(o.removed@) == to_remove(entries_model(indexed@), entries_model(disk_pages@)),
{
    let ghost d = entries_model(disk_pages@);
    let ghost x = entries_model(indexed@);
    let mut refreshed: Vec<String> = Vec::new();
    let mut i: usize = 0;
    while i < disk_pages.len()
        invariant
            i <= disk_pages@.len(),
            d == entries_model(disk_pages@),
            x == entries_model(indexed@),
            paths_model(refreshed@) == to_refresh(d.take(i as int), x),
        decreases disk_pages@.len() - i,
    {
        proof {
            assert(d.take(i + 1).drop_last() =~= d.take(i as int));
            assert(d.take(i + 1).last() == entry_model(disk_pages@[i as int]));
        }
        if !is_indexed_with(indexed, &disk_pages[i].0, disk_pages[i].1) {
            let p = disk_pages[i].0.clone();
            refreshed.push(p);
            assert(paths_model(refreshed@) =~= to_refresh(d.take(i + 1), x));
        }
        i += 1;
    }
    assert(d.take(disk_pages@.len() as int) =~= d);
    let mut removed: Vec<String> = Vec::new();
    let mut j: usize = 0;
    while j < indexed.len()
        invariant
            j <= indexed@.len(),
            d == entries_model(disk_pages@),
            x == entries_model(indexed@),
            paths_model(removed@) == to_remove(x.take(j as int), d),
        decreases indexed@.len() - j,
    {
        proof {
            assert(x.take(j + 1).drop_last() =~= x.take(j as int));
            assert(x.take(j + 1).last() == entry_model(indexed@[j as int]));
        }
        if !is_on_disk(disk_pages, &indexed[j].0) {
            let p = indexed[j].0.clone();
            removed.push(p);
            assert(paths_model(removed@) =~= to_remove(x.take(j + 1), d));
        }
        j += 1;
    }
    assert(x.take(indexed@.len() as int) =~= x);
    SyncOutcome { refreshed, removed }
}

/// Law: after a sync the index holds exactly the pages on disk. A page
/// that was dropped is not on disk, and every page on disk is either read
/// again or already indexed with its current time.
pub proof fn law_sync_covers_disk(disk: Seq<(Seq<char>, i64)>, indexed: Seq<(Seq<char>, i64)>)
    ensures
        forall|k: int| 0 <= k < to_remove(indexed, disk).len() ==> !on_disk(disk, #[trigger] to_remove(indexed, disk)[k]),
        forall|i: int| 0 <= i < disk.len() ==> indexed_with(indexed, (#[trigger] disk[i]).0, disk[i].1)
            || to_refresh(disk, indexed).contains(disk[i].0),
    decreases disk.len() + indexed.len(),
{
    if indexed.len() > 0 {
        law_sync_covers_disk(disk, indexed.drop_last());
        let r = to_remove(indexed.drop_last(), disk);
        assert forall|k: int| 0 <= k < to_remove(indexed, disk).len() implies !on_disk(disk, #[trigger] to_remove(indexed, disk)[k]) by {
            if k < r.len() {
                assert(to_remove(indexed, disk)[k] == r[k]);
            }
        }
    }
    if disk.len() > 0 {
        law_sync_covers_disk(disk.drop_last(), indexed);
        let p = disk.drop_last();
        let r = to_refresh(p, indexed);
        assert forall|i: int| 0 <= i < disk.len() implies indexed_with(indexed, (#[trigger] disk[i]).0, disk[i].1)
            || to_refresh(disk, indexed).contains(disk[i].0) by {
            if i < p.len() {
                assert(p[i] == disk[i]);
                if r.contains(disk[i].0) {
                    let k = choose|k: int| 0 <= k < r.len() && r[k] == disk[i].0;
                    assert(to_refresh(disk, indexed)[k] == r[k]);
                }
            } else {
                assert(disk[i] == disk.last());
                if !indexed_with(indexed, disk[i].0, disk[i].1) {
                    assert(to_refresh(disk, indexed) == r.push(disk[i].0));
                    assert(to_refresh(disk, indexed)[r.len() as int] == disk[i].0);
                }
            }
        }
    }
}

/// Law: a sync drops every indexed page that is no longer on disk and
/// reads again every page on disk that the index does not hold with its
/// current time; and it drops or reads nothing else.
pub proof fn law_sync_plan_is_exact(disk: Seq<(Seq<char>, i64)>, indexed: Seq<(Seq<char>, i64)>)
    ensures
        forall|i: int|
            0 <= i < indexed.len() && !on_disk(disk, (#[trigger] indexed[i]).0) ==> to_remove(indexed, disk).contains(
                indexed[i].0,
            ),
        forall|k: int|
            0 <= k < to_remove(indexed, disk).len() ==> exists|i: int|
                0 <= i < indexed.len() && (#[trigger] indexed[i]).0 == #[trigger] to_remove(indexed, disk)[k]
                    && !on_disk(disk, indexed[i].0),
        forall|i: int|
            0 <= i < disk.len() && !indexed_with(indexed, (#[trigger] disk[i]).0, disk[i].1) ==> to_refresh(
                disk,
                indexed,
            ).contains(disk[i].0),
        forall|k: int|
            0 <= k < to_refresh(disk, indexed).len() ==> exists|i: int|
                0 <= i < disk.len() && (#[trigger] disk[i]).0 == #[trigger] to_refresh(disk, indexed)[k]
                    && !indexed_with(indexed, disk[i].0, disk[i].1),
    decreases disk.len() + indexed.len(),
{
    if indexed.len() > 0 {
        let p = indexed.drop_last();
        law_sync_plan_is_exact(disk, p);
        let r = to_remove(p, disk);
        let full = to_remove(indexed, disk);
        let e = indexed.last();
        assert forall|i: int|
            0 <= i < indexed.len() && !on_disk(disk, (#[trigger] indexed[i]).0) implies full.contains(indexed[i].0) by {
            if i < p.len() {
                assert(p[i] == indexed[i]);
                let k = choose|k: int| 0 <= k < r.len() && r[k] == p[i].0;
                assert(full[k] == r[k]);
            } else {
                assert(indexed[i] == e);
                assert(full == r.push(e.0));
                assert(full[r.len() as int] == e.0);
            }
        }
        assert forall|k: int| 0 <= k < full.len() implies exists|i: int|
            0 <= i < indexed.len() && (#[trigger] indexed[i]).0 == #[trigger] full[k] && !on_disk(disk, indexed[i].0) by {
            if k < r.len() {
                assert(full[k] == r[k]);
                let i = choose|i: int| 0 <= i < p.len() && (#[trigger] p[i]).0 == r[k] && !on_disk(disk, p[i].0);
                assert(indexed[i] == p[i]);
            } else {
                assert(full[k] == e.0);
                assert(indexed[indexed.len() - 1] == e);
            }
        }
    }
    if disk.len() > 0 {
        let p = disk.drop_last();
        law_sync_plan_is_exact(p, indexed);
        let r = to_refresh(p, indexed);
        let full = to_refresh(disk, indexed);
        let e = disk.last();
        assert forall|i: int|
            0 <= i < disk.len() && !indexed_with(indexed, (#[trigger] disk[i]).0, disk[i].1) implies full.contains(
                disk[i].0,
            ) by {
            if i < p.len() {
                assert(p[i] == disk[i]);
                let k = choose|k: int| 0 <= k < r.len() && r[k] == p[i].0;
                assert(full[k] == r[k]);
            } else {
                assert(disk[i] == e);
                assert(full == r.push(e.0));
                assert(full[r.len() as int] == e.0);
            }
        }
        assert forall|k: int| 0 <= k < full.len() implies exists|i: int|
            0 <= i < disk.len() && (#[trigger] disk[i]).0 == #[trigger] full[k] && !indexed_with(
                indexed,
                disk[i].0,
                disk[i].1,
            ) by {
            if k < r.len() {
                assert(full[k] == r[k]);
                let i = choose|i: int|
                    0 <= i < p.len() && (#[trigger] p[i]).0 == r[k] && !indexed_with(indexed, p[i].0, p[i].1);
                assert(disk[i] == p[i]);
            } else {
                assert(full[k] == e.0);
                assert(disk[disk.len() - 1] == e);
            }
        }
    }
}

/// Law: an index that was deleted is rebuilt from the files alone: against
/// an empty index a sync reads every file on disk, in order, and drops
/// nothing.
pub proof fn law_sync_rebuilds_from_empty(disk: Seq<(Seq<char>, i64)>)
    ensures
        to_refresh(disk, Seq::empty()) == disk.map_values(|e: (Seq<char>, i64)| e.0),
        to_remove(Seq::empty(), disk).len() == 0,
    decreases disk.len(),
{
    if disk.len() > 0 {
        law_sync_rebuilds_from_empty(disk.drop_last());
        assert(!indexed_with(Seq::empty(), disk.last().0, disk.last().1));
        assert(disk.map_values(|e: (Seq<char>, i64)| e.0) =~= disk.drop_last().map_values(
            |e: (Seq<char>, i64)| e.0,
        ).push(disk.last().0));
    } else {
        assert(disk.map_values(|e: (Seq<char>, i64)| e.0) =~= Seq::<Seq<char>>::empty());
    }
}

proof fn lemma_nothing_to_refresh(disk: Seq<(Seq<char>, i64)>, indexed: Seq<(Seq<char>, i64)>)
    requires
        forall|i: int| 0 <= i < disk.len() ==> indexed_with(indexed, (#[trigger] disk[i]).0, disk[i].1),
    ensures
        to_refresh(disk, indexed).len() == 0,
    decreases disk.len(),
{
    if disk.len() > 0 {
        let p = disk.drop_last();
        assert forall|i: int| 0 <= i < p.len() implies indexed_with(indexed, (#[trigger] p[i]).0, p[i].1) by {
            assert(p[i] == disk[i]);
        }
        lemma_nothing_to_refresh(p, indexed);
        assert(disk.last() == disk[disk.len() - 1]);
    }
}

proof fn lemma_nothing_to_remove(indexed: Seq<(Seq<char>, i64)>, disk: Seq<(Seq<char>, i64)>)
    requires
        forall|i: int| 0 <= i < indexed.len() ==> on_disk(disk, (#[trigger] indexed[i]).0),
    ensures
        to_remove(indexed, disk).len() == 0,
    decreases indexed.len(),
{
    if indexed.len() > 0 {
        let p = indexed.drop_last();
        assert forall|i: int| 0 <= i < p.len() implies on_disk(disk, (#[trigger] p[i]).0) by {
            assert(p[i] == indexed[i]);
        }
        lemma_nothing_to_remove(p, disk);
        assert(indexed.last() == indexed[indexed.len() - 1]);
    }
}

/// Law: a second sync over files that did not change since the first one
/// reads nothing again and drops nothing, so no row is ever duplicated:
/// once the index holds exactly the files on disk with their times, in
/// whatever order it lists them, a sync has nothing to do.
pub proof fn law_second_sync_is_quiet(disk: Seq<(Seq<char>, i64)>, indexed: Seq<(Seq<char>, i64)>)
    requires
        forall|e: (Seq<char>, i64)| disk.contains(e) <==> indexed.contains(e),
    ensures
        to_refresh(disk, indexed).len() == 0,
        to_remove(indexed, disk).len() == 0,
{
    assert forall|i: int| 0 <= i < disk.len() implies indexed_with(indexed, (#[trigger] disk[i]).0, disk[i].1) by {
        assert(disk.contains(disk[i]));
        let k = choose|k: int| 0 <= k < indexed.len() && indexed[k] == disk[i];
        assert(indexed[k] == (disk[i].0, disk[i].1));
    }
    lemma_nothing_to_refresh(disk, indexed);
    assert forall|i: int| 0 <= i < indexed.len() implies on_disk(disk, (#[trigger] indexed[i]).0) by {
        assert(indexed.contains(indexed[i]));
        let k = choose|k: int| 0 <= k < disk.len() && disk[k] == indexed[i];
        assert(disk[k].0 == indexed[i].0);
    }
    lemma_nothing_to_remove(indexed, disk);
}

// ---------------------------------------------------------------- rows

/// A block as the index holds it: its place in preorder, its text, and the
/// links and tags it holds.
#[derive(Debug, Clone, PartialEq, Eq)]
pub struct BlockRow {
    pub position: usize,
    pub content: String,
    pub links: Vec<String>,
    pub tags: Vec<String>,
}

/// The rows of one page: its kind, its title, and its blocks in preorder.
#[derive(Debug, Clone, PartialEq, Eq)]
pub struct PageRows {
    pub kind: String,
    pub title: Option<String>,
    pub blocks: Vec<BlockRow>,
}

pub open spec fn opt_view(o: Option<String>) -> Option<Seq<char>> {
    match o {
        Some(s) => Some(s@),
        None => None,
    }
}

/// The row of the block `t` at `position`.
pub open spec fn row_is(r: BlockRow, position: int, t: Tree) -> bool {
    &&& r.position == position
    &&& r.content@ == t.content
    &&& paths_model(r.links@) == links_from(t.content, 0)
    &&& paths_model(r.tags@) == tags_from(t.content, 0)
}

/// The rows that stand for a page in the index: the hierarchy is dropped
/// and the preorder kept, each block with the links and tags of its text.
pub fn page_rows(relative_path: &str, page: &Page) -> (r: PageRows)
    ensures
        r.kind@ == kind_of(relative_path@),
        opt_view(r.title) == opt_view(page.title),
        r.blocks@.len() == preorder(trees_of(page.blocks@)).len(),
        forall|k: int| 0 <= k < r.blocks@.len() ==> row_is(
            #[trigger] r.blocks@[k],
            k,
            preorder(trees_of(page.blocks@))[k],
        ),
{
    let flat = flatten_blocks(page.blocks.as_slice());
    let ghost pre = preorder(trees_of(page.blocks@));
    let mut rows: Vec<BlockRow> = Vec::new();
    let n = flat.len();
    for k in 0..n
        invariant
            n == flat@.len() == pre.len(),
            pre == preorder(trees_of(page.blocks@)),
            forall|j: int| 0 <= j < n ==> tree_of(*#[trigger] flat@[j]) == pre[j],
            rows@.len() == k,
            forall|j: int| 0 <= j < k ==> row_is(#[trigger] rows@[j], j, pre[j]),
    {
        let block: &Block = flat[k];
        let links = extract_links(block.content.as_str());
        let tags = extract_tags(block.content.as_str());
        proof {
            assert(tree_of(*flat@[k as int]) == pre[k as int]);
            assert(paths_model(links@) =~= links_from(block.content@, 0));
            assert(paths_model(tags@) =~= tags_from(block.content@, 0));
        }
        rows.push(BlockRow { position: k, content: block.content.clone(), links, tags });
    }
    let kind = String::from_str(page_kind(relative_path));
    let title = match &page.title {
        Some(t) => Some(t.clone()),
        None => None,
    };
    PageRows { kind, title, blocks: rows }
}

// ---------------------------------------------------------------- backlinks

/// One answer to "who links to this page".
#[derive(Debug, Clone, PartialEq, Eq)]
pub struct Backlink {
    pub source_path: String,
    pub source_title: Option<String>,
    pub block_content: String,
}

/// A stored link: its target title, the text of the block that holds it,
/// and the path and title of that block's page.
pub struct LinkRow {
    pub target_title: String,
    pub block_content: String,
    pub source_path: String,
    pub source_title: Option<String>,
}

/// The backlink that a link row gives.
pub open spec fn backlink_of(r: LinkRow) -> (Seq<char>, Option<Seq<char>>, Seq<char>) {
    (r.source_path@, opt_view(r.source_title), r.block_content@)
}

pub open spec fn backlink_view(b: Backlink) -> (Seq<char>, Option<Seq<char>>, Seq<char>) {
    (b.source_path@, opt_view(b.source_title), b.block_content@)
}

/// The rows, in order, whose target has the same slug as `target`.
pub open spec fn backlinks_spec(target: Seq<char>, rows: Seq<LinkRow>) -> Seq<(Seq<char>, Option<Seq<char>>, Seq<char>)>
    decreases rows.len(),
{
    if rows.len() == 0 {
        Seq::empty()
    } else {
        let r = backlinks_spec(target, rows.drop_last());
        if slug_of(rows.last().target_title@) == slug_of(target) {
            r.push(backlink_of(rows.last()))
        } else {
            r
        }
    }
}

/// The blocks that link to `target_title`, from all the link rows of the
/// index: titles are compared by their slug, so `Project X` and
/// `project x` name the same page.
pub fn select_backlinks(target_title: &str, rows: Vec<LinkRow>) -> (bs: Vec<Backlink>)
    ensures
        bs@.map_values(|b: Backlink| backlink_view(b)) == backlinks_spec(target_title@, rows@),
{
    let ghost rs = rows@;
    let target_slug = slugify(target_title);
    let mut out: Vec<Backlink> = Vec::new();
    proof {
        assert(rs.take(0) =~= Seq::<LinkRow>::empty());
        assert(out@.map_values(|b: Backlink| backlink_view(b)) =~= Seq::<(Seq<char>, Option<Seq<char>>, Seq<char>)>::empty());
    }
    for row in it: rows
        invariant
            it.seq() == rs,
            target_slug@ == slug_of(target_title@),
            out@.map_values(|b: Backlink| backlink_view(b)) == backlinks_spec(target_title@, rs.take(it.index() as int)),
    {
        proof {
            let i = it.index() as int;
            assert(rs.take(i + 1).drop_last() =~= rs.take(i));
            assert(rs.take(i + 1).last() == row);
        }
        let slug = slugify(row.target_title.as_str());
        if slug == target_slug {
            let LinkRow { target_title: _, block_content, source_path, source_title } = row;
            let ghost before = out@;
            out.push(Backlink { source_path, source_title, block_content });
            proof {
                assert(out@.map_values(|b: Backlink| backlink_view(b)) =~= before.map_values(
                    |b: Backlink| backlink_view(b),
                ).push(backlink_of(row)));
            }
        }
    }
    proof {
        assert(rs.take(rs.len() as int) =~= rs);
    }
    out
}

/// The link row points at a title with the same slug as `target`.
pub open spec fn links_to(target: Seq<char>, r: LinkRow) -> bool {
    slug_of(r.target_title@) == slug_of(target)
}

proof fn lemma_backlinks_complete(target: Seq<char>, rows: Seq<LinkRow>)
    ensures
        forall|j: int|
            0 <= j < rows.len() && links_to(target, #[trigger] rows[j]) ==> backlinks_spec(target, rows).contains(
                backlink_of(rows[j]),
            ),
    decreases rows.len(),
{
    if rows.len() > 0 {
        let p = rows.drop_last();
        let x = rows.last();
        lemma_backlinks_complete(target, p);
        let r = backlinks_spec(target, p);
        let res = backlinks_spec(target, rows);
        assert forall|j: int| 0 <= j < rows.len() && links_to(target, #[trigger] rows[j]) implies res.contains(
            backlink_of(rows[j]),
        ) by {
            if j < p.len() {
                assert(rows[j] == p[j]);
                let k = choose|k: int| 0 <= k < r.len() && r[k] == backlink_of(p[j]);
                assert(res[k] == r[k]);
            } else {
                assert(rows[j] == x);
                assert(res[r.len() as int] == backlink_of(x));
            }
        }
    }
}

/// The link rows that point at `target`, in order.
pub open spec fn linking_rows(target: Seq<char>, rows: Seq<LinkRow>) -> Seq<LinkRow> {
    rows.filter(links_pred(target))
}

/// `links_to` as a predicate on rows.
pub open spec fn links_pred(target: Seq<char>) -> spec_fn(LinkRow) -> bool {
    |r: LinkRow| links_to(target, r)
}

proof fn lemma_filter_from(rows: Seq<LinkRow>, pred: spec_fn(LinkRow) -> bool)
    ensures
        forall|k: int| 0 <= k < rows.filter(pred).len() ==> rows.contains(#[trigger] rows.filter(pred)[k]),
    decreases rows.len(),
{
    reveal(Seq::filter);
    if rows.len() > 0 {
        let p = rows.drop_last();
        lemma_filter_from(p, pred);
        let f = rows.filter(pred);
        let fp = p.filter(pred);
        assert forall|k: int| 0 <= k < f.len() implies rows.contains(#[trigger] f[k]) by {
            if k < fp.len() {
                assert(f[k] == fp[k]);
                let i = choose|i: int| 0 <= i < p.len() && p[i] == fp[k];
                assert(rows[i] == p[i]);
            } else {
                assert(f[k] == rows.last());
                assert(rows[rows.len() - 1] == rows.last());
            }
        }
    }
}

proof fn lemma_backlinks_filter(target: Seq<char>, rows: Seq<LinkRow>)
    ensures
        backlinks_spec(target, rows) == linking_rows(target, rows).map_values(|r: LinkRow| backlink_of(r)),
    decreases rows.len(),
{
    if rows.len() == 0 {
        reveal(Seq::filter);
        assert(linking_rows(target, rows).map_values(|r: LinkRow| backlink_of(r)) =~= backlinks_spec(target, rows));
    } else {
        let p = rows.drop_last();
        let x = rows.last();
        lemma_backlinks_filter(target, p);
        assert(p.push(x) =~= rows);
        p.lemma_filter_push(x, links_pred(target));
        let fp = linking_rows(target, p);
        if links_to(target, x) {
            assert(fp.push(x).map_values(|r: LinkRow| backlink_of(r)) =~= fp.map_values(|r: LinkRow| backlink_of(r)).push(
                backlink_of(x),
            ));
        }
    }
}

/// Law: the backlinks of a title are exactly the link rows whose target
/// has the slug of that title, each once, in the order of the rows: the
/// k-th backlink is that of the k-th such row, every one of those rows
/// does point at the title, and every row that points at it gives a
/// backlink.
pub proof fn law_backlinks_match_slug(target: Seq<char>, rows: Seq<LinkRow>)
    ensures
        backlinks_spec(target, rows).len() == linking_rows(target, rows).len(),
        forall|k: int|
            0 <= k < linking_rows(target, rows).len() ==> slug_of((#[trigger] linking_rows(target, rows)[k]).target_title@)
                == slug_of(target) && rows.contains(linking_rows(target, rows)[k]) && backlinks_spec(target, rows)[k]
                == backlink_of(linking_rows(target, rows)[k]),
        forall|j: int|
            0 <= j < rows.len() && slug_of((#[trigger] rows[j]).target_title@) == slug_of(target)
                ==> backlinks_spec(target, rows).contains(backlink_of(rows[j])),
{
    lemma_backlinks_complete(target, rows);
    lemma_backlinks_filter(target, rows);
    lemma_filter_from(rows, links_pred(target));
    let f = linking_rows(target, rows);
    assert forall|k: int| 0 <= k < f.len() implies slug_of((#[trigger] f[k]).target_title@) == slug_of(target)
        && rows.contains(f[k]) by {
        rows.lemma_filter_pred(links_pred(target), k);
        assert(links_pred(target)(f[k]));
    }
    assert forall|j: int| 0 <= j < rows.len() && slug_of((#[trigger] rows[j]).target_title@) == slug_of(target)
        implies backlinks_spec(target, rows).contains(backlink_of(rows[j])) by {
        assert(links_to(target, rows[j]));
    }
}

} // verus!
