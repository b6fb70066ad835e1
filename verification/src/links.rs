//! `[[links]]`, `#tags` and the preorder walk of a block tree: what the
//! link/tag index and the full-text index read from a page.
use vstd::prelude::*;

use crate::block::{Block, Tree, tree_of, trees_of, lemma_trees_of_len, lemma_trees_of_index, lemma_trees_of_push};
use crate::text::{chars_of, string_from_range};

verus! {

broadcast use vstd::std_specs::vec::group_vec_axioms;

/// First `k >= i` where `[[` starts.
pub open spec fn find_open(t: Seq<char>, i: int) -> Option<int>
    decreases t.len() - i,
{
    if i < 0 || i + 1 >= t.len() {
        None
    } else if t[i] == '[' && t[i + 1] == '[' {
        Some(i)
    } else {
        find_open(t, i + 1)
    }
}

/// First `k >= i` holding `]`.
pub open spec fn find_close(t: Seq<char>, i: int) -> Option<int>
    decreases t.len() - i,
{
    if i < 0 || i >= t.len() {
        None
    } else if t[i] == ']' {
        Some(i)
    } else {
        find_close(t, i + 1)
    }
}

pub proof fn lemma_find_open(t: Seq<char>, i: int)
    requires
        0 <= i,
    ensures
        find_open(t, i) matches Some(k) ==> i <= k && k + 1 < t.len() && t[k] == '[' && t[k + 1] == '[',
        find_open(t, i) is None ==> forall|k: int| i <= k < t.len() - 1 ==> !(#[trigger] t[k] == '[' && t[k + 1] == '['),
    decreases t.len() - i,
{
    if i + 1 < t.len() && !(t[i] == '[' && t[i + 1] == '[') {
        lemma_find_open(t, i + 1);
    }
}

pub proof fn lemma_find_close(t: Seq<char>, i: int)
    requires
        0 <= i,
    ensures
        find_close(t, i) matches Some(k) ==> i <= k < t.len() && t[k] == ']',
    decreases t.len() - i,
{
    if i < t.len() && t[i] != ']' {
        lemma_find_close(t, i + 1);
    }
}

/// The `[[link]]` titles from position `i` on: the text, non-empty and
/// free of `]`, between `[[` and `]]`.
pub open spec fn links_from(t: Seq<char>, i: int) -> Seq<Seq<char>>
    decreases t.len() - i,
{
    if i < 0 {
        Seq::empty()
    } else {
        match find_open(t, i) {
            None => Seq::empty(),
            Some(k) => {
                let start = k + 2;
                match find_close(t, start) {
                    None => Seq::empty(),
                    Some(c) => {
                        proof {
                            lemma_find_open(t, i);
                            lemma_find_close(t, start);
                        }
                        if c > start && c + 1 < t.len() && t[c + 1] == ']' {
                            seq![t.subrange(start, c)] + links_from(t, c + 2)
                        } else {
                            links_from(t, start)
                        }
                    },
                }
            },
        }
    }
}

fn next_open(v: &Vec<char>, i: usize) -> (r: Option<usize>)
    ensures
        match find_open(v@, i as int) {
            Some(k) => r == Some(k as usize),
            None => r is None,
        },
{
    let n = v.len();
    let mut k = i;
    while n > 0 && k < n - 1
        invariant
            n == v@.len(),
            i <= k,
            find_open(v@, i as int) == find_open(v@, k as int),
        decreases n - k,
    {
        if v[k] == '[' && v[k + 1] == '[' {
            return Some(k);
        }
        k += 1;
    }
    None
}

fn next_close(v: &Vec<char>, i: usize) -> (r: Option<usize>)
    ensures
        match find_close(v@, i as int) {
            Some(k) => r == Some(k as usize),
            None => r is None,
        },
{
    let n = v.len();
    let mut k = i;
    while k < n
        invariant
            n == v@.len(),
            i <= k,
            find_close(v@, i as int) == find_close(v@, k as int),
        decreases n - k,
    {
        if v[k] == ']' {
            return Some(k);
        }
        k += 1;
    }
    None
}

/// Extracts the `[[link]]` titles of a block: text that is non-empty and
/// free of `]` between `[[` and `]]`, in order.
pub fn extract_links(content: &str) -> (links: Vec<String>)
    ensures
        links@.len() == links_from(content@, 0).len(),
        forall|j: int| 0 <= j < links@.len() ==> #[trigger] links@[j]@ == links_from(content@, 0)[j],
{
    let v = chars_of(content);
    let n = v.len();
    let mut links: Vec<String> = Vec::new();
    let mut i: usize = 0;
    loop
        invariant
            n == v@.len(),
            v@ == content@,
            i <= n,
            links@.len() + links_from(v@, i as int).len() == links_from(v@, 0).len(),
            forall|j: int| 0 <= j < links@.len() ==> #[trigger] links@[j]@ == links_from(v@, 0)[j],
            forall|j: int| 0 <= j < links_from(v@, i as int).len() ==> #[trigger] links_from(v@, i as int)[j] == links_from(v@, 0)[links@.len() + j],
        ensures
            links_from(v@, i as int).len() == 0,
            links@.len() == links_from(v@, 0).len(),
            forall|j: int| 0 <= j < links@.len() ==> #[trigger] links@[j]@ == links_from(v@, 0)[j],
        decreases n - i,
    {
        let ghost rest = links_from(v@, i as int);
        proof {
            lemma_find_open(v@, i as int);
        }
        let k = match next_open(&v, i) {
            None => { break; },
            Some(k) => k,
        };
        let start = k + 2;
        proof {
            lemma_find_close(v@, start as int);
        }
        let c = match next_close(&v, start) {
            None => { break; },
            Some(c) => c,
        };
        if c > start && c + 1 < n && v[c + 1] == ']' {
            let s = string_from_range(&v, start, c);
            proof {
                assert(rest == seq![v@.subrange(start as int, c as int)] + links_from(v@, c + 2));
                assert(rest[0] == v@.subrange(start as int, c as int));
                assert forall|j: int| 0 <= j < links_from(v@, c + 2).len() implies #[trigger] links_from(v@, c + 2)[j] == links_from(v@, 0)[links@.len() + 1 + j] by {
                    assert(links_from(v@, c + 2)[j] == rest[j + 1]);
                }
            }
            links.push(s);
            i = c + 2;
        } else {
            i = start;
        }
    }
    links
}

/// The characters of a `#tag`: ASCII letters and digits, `_` and `-`.
pub open spec fn tag_char(c: char) -> bool {
    ('a' <= c && c <= 'z') || ('A' <= c && c <= 'Z') || ('0' <= c && c <= '9') || c == '_' || c == '-'
}

pub fn is_tag_char(c: char) -> (b: bool)
    ensures
        b == tag_char(c),
{
    ('a' <= c && c <= 'z') || ('A' <= c && c <= 'Z') || ('0' <= c && c <= '9') || c == '_' || c == '-'
}

/// First `k >= i` that is not a tag character (or the end).
pub open spec fn tag_end(t: Seq<char>, i: int) -> int
    decreases t.len() - i,
{
    if i >= t.len() {
        t.len() as int
    } else if tag_char(t[i]) {
        tag_end(t, i + 1)
    } else {
        i
    }
}

pub proof fn lemma_tag_end(t: Seq<char>, i: int)
    requires
        0 <= i <= t.len(),
    ensures
        i <= tag_end(t, i) <= t.len(),
    decreases t.len() - i,
{
    if i < t.len() && tag_char(t[i]) {
        lemma_tag_end(t, i + 1);
    }
}

/// The `#tag` names from position `i` on: each `#` followed by at least one
/// tag character gives the longest run of them.
pub open spec fn tags_from(t: Seq<char>, i: int) -> Seq<Seq<char>>
    decreases t.len() - i,
{
    if i < 0 || i >= t.len() {
        Seq::empty()
    } else if t[i] == '#' && tag_end(t, i + 1) > i + 1 {
        proof {
            lemma_tag_end(t, i + 1);
        }
        seq![t.subrange(i + 1, tag_end(t, i + 1))] + tags_from(t, tag_end(t, i + 1))
    } else {
        tags_from(t, i + 1)
    }
}

/// The characters that may make up a tag, as the format has them: ASCII
/// letters of either case, ASCII digits, `_` and `-`.
pub open spec fn ascii_word_char(c: char) -> bool {
    ('a' <= c && c <= 'z') || ('A' <= c && c <= 'Z') || ('0' <= c && c <= '9') || c == '_' || c == '-'
}

/// A `#` at `p` opens the tag that runs to `k`: at least one tag
/// character follows the `#`, every character up to `k` is one, and the
/// one at `k` is not (or the text ends there).
pub open spec fn tag_at(t: Seq<char>, p: int, k: int) -> bool {
    &&& 0 <= p
    &&& p + 1 < k <= t.len()
    &&& t[p] == '#'
    &&& forall|q: int| p + 1 <= q < k ==> ascii_word_char(#[trigger] t[q])
    &&& (k == t.len() || !ascii_word_char(t[k]))
}

proof fn lemma_tag_end_run(t: Seq<char>, i: int)
    requires
        0 <= i <= t.len(),
    ensures
        i <= tag_end(t, i) <= t.len(),
        forall|q: int| i <= q < tag_end(t, i) ==> ascii_word_char(#[trigger] t[q]),
        tag_end(t, i) == t.len() || !ascii_word_char(t[tag_end(t, i)]),
    decreases t.len() - i,
{
    if i < t.len() && tag_char(t[i]) {
        lemma_tag_end_run(t, i + 1);
    }
}

/// The positions, from `i` on and in order, of the `#` characters that are
/// followed by a tag character.
pub open spec fn hash_starts(t: Seq<char>, i: int) -> Seq<int>
    decreases t.len() - i,
{
    if i < 0 || i >= t.len() {
        Seq::empty()
    } else if t[i] == '#' && i + 1 < t.len() && ascii_word_char(t[i + 1]) {
        seq![i] + hash_starts(t, i + 1)
    } else {
        hash_starts(t, i + 1)
    }
}

proof fn lemma_hash_starts_skip(t: Seq<char>, i: int, e: int)
    requires
        0 <= i <= e <= t.len(),
        forall|q: int| i <= q < e ==> ascii_word_char(#[trigger] t[q]),
    ensures
        hash_starts(t, i) == hash_starts(t, e),
    decreases e - i,
{
    if i < e {
        assert(ascii_word_char(t[i]));
        assert(t[i] != '#');
        lemma_hash_starts_skip(t, i + 1, e);
    }
}

proof fn lemma_tags_from(t: Seq<char>, i: int)
    requires
        0 <= i <= t.len(),
    ensures
        tags_from(t, i).len() == hash_starts(t, i).len(),
        forall|j: int|
            0 <= j < tags_from(t, i).len() ==> tag_at(
                t,
                hash_starts(t, i)[j],
                hash_starts(t, i)[j] + 1 + (#[trigger] tags_from(t, i)[j]).len(),
            ) && tags_from(t, i)[j] == t.subrange(
                hash_starts(t, i)[j] + 1,
                hash_starts(t, i)[j] + 1 + tags_from(t, i)[j].len(),
            ),
    decreases t.len() - i,
{
    if i < t.len() {
        let e = tag_end(t, i + 1);
        lemma_tag_end_run(t, i + 1);
        let res = tags_from(t, i);
        let hs = hash_starts(t, i);
        if t[i] == '#' && e > i + 1 {
            lemma_tags_from(t, e);
            let rest = tags_from(t, e);
            assert(ascii_word_char(t[i + 1]));
            lemma_hash_starts_skip(t, i + 1, e);
            assert(res == seq![t.subrange(i + 1, e)] + rest);
            assert(hs == seq![i] + hash_starts(t, e));
            assert forall|j: int| 0 <= j < res.len() implies tag_at(t, hs[j], hs[j] + 1 + (#[trigger] res[j]).len())
                && res[j] == t.subrange(hs[j] + 1, hs[j] + 1 + res[j].len()) by {
                if j == 0 {
                    assert(res[0] == t.subrange(i + 1, e));
                    assert(hs[0] == i);
                } else {
                    assert(res[j] == rest[j - 1]);
                    assert(hs[j] == hash_starts(t, e)[j - 1]);
                }
            }
        } else {
            lemma_tags_from(t, i + 1);
            if t[i] == '#' && i + 1 < t.len() && ascii_word_char(t[i + 1]) {
                assert(tag_char(t[i + 1]));
                lemma_tag_end_run(t, i + 2);
                assert(e > i + 1);
            }
            assert(res == tags_from(t, i + 1));
            assert(hs == hash_starts(t, i + 1));
        }
    }
}

/// Law: the tags of a text are the runs of tag characters that follow a
/// `#`, each taken whole, one for every `#` that a tag character follows,
/// in order: the j-th tag starts right after the j-th such `#` and runs up
/// to the first character that is not an ASCII letter (of either case), an
/// ASCII digit, `_` or `-`, or to the end of the text.
pub proof fn law_tags_are_whole_runs(t: Seq<char>)
    ensures
        tags_from(t, 0).len() == hash_starts(t, 0).len(),
        forall|j: int|
            0 <= j < tags_from(t, 0).len() ==> tag_at(
                t,
                hash_starts(t, 0)[j],
                hash_starts(t, 0)[j] + 1 + (#[trigger] tags_from(t, 0)[j]).len(),
            ) && tags_from(t, 0)[j] == t.subrange(
                hash_starts(t, 0)[j] + 1,
                hash_starts(t, 0)[j] + 1 + tags_from(t, 0)[j].len(),
            ),
{
    lemma_tags_from(t, 0);
}

/// Extracts the `#tag` names of a block, in order.
pub fn extract_tags(content: &str) -> (tags: Vec<String>)
    ensures
        tags@.len() == tags_from(content@, 0).len(),
        forall|j: int| 0 <= j < tags@.len() ==> #[trigger] tags@[j]@ == tags_from(content@, 0)[j],
{
    let v = chars_of(content);
    let n = v.len();
    let mut tags: Vec<String> = Vec::new();
    let mut idx: usize = 0;
    while idx < n
        invariant
            n == v@.len(),
            v@ == content@,
            idx <= n,
            tags@.len() + tags_from(v@, idx as int).len() == tags_from(v@, 0).len(),
            forall|j: int| 0 <= j < tags@.len() ==> #[trigger] tags@[j]@ == tags_from(v@, 0)[j],
            forall|j: int| 0 <= j < tags_from(v@, idx as int).len() ==> #[trigger] tags_from(v@, idx as int)[j] == tags_from(v@, 0)[tags@.len() + j],
        decreases n - idx,
    {
        let ghost rest = tags_from(v@, idx as int);
        if v[idx] == '#' {
            let start = idx + 1;
            let mut end = start;
            while end < n && is_tag_char(v[end])
                invariant
                    n == v@.len(),
                    start <= end <= n,
                    tag_end(v@, start as int) == tag_end(v@, end as int),
                decreases n - end,
            {
                end += 1;
            }
            if end > start {
                let s = string_from_range(&v, start, end);
                proof {
                    assert(rest == seq![v@.subrange(start as int, end as int)] + tags_from(v@, end as int));
                    assert(rest[0] == v@.subrange(start as int, end as int));
                    assert forall|j: int| 0 <= j < tags_from(v@, end as int).len() implies #[trigger] tags_from(v@, end as int)[j] == tags_from(v@, 0)[tags@.len() + 1 + j] by {
                        assert(tags_from(v@, end as int)[j] == rest[j + 1]);
                    }
                }
                tags.push(s);
                idx = end;
                continue;
            }
        }
        idx += 1;
    }
    tags
}

/// The nodes of a forest in preorder.
pub open spec fn preorder(ts: Seq<Tree>) -> Seq<Tree>
    decreases ts,
{
    if ts.len() == 0 {
        Seq::empty()
    } else {
        seq![ts[0]] + preorder(ts[0].children) + preorder(ts.drop_first())
    }
}

pub proof fn lemma_preorder_append(a: Seq<Tree>, b: Seq<Tree>)
    ensures
        preorder(a + b) == preorder(a) + preorder(b),
    decreases a.len(),
{
    if a.len() == 0 {
        assert(a + b == b);
    } else {
        assert((a + b)[0] == a[0]);
        assert((a + b).drop_first() == a.drop_first() + b);
        lemma_preorder_append(a.drop_first(), b);
    }
}

fn flatten_into<'a>(blocks: &'a [Block], flat: &mut Vec<&'a Block>)
    ensures
        final(flat)@.len() == old(flat)@.len() + preorder(trees_of(blocks@)).len(),
        forall|j: int| 0 <= j < old(flat)@.len() ==> #[trigger] final(flat)@[j] == old(flat)@[j],
        forall|j: int| 0 <= j < preorder(trees_of(blocks@)).len() ==> tree_of(*#[trigger] final(flat)@[old(flat)@.len() + j]) == preorder(trees_of(blocks@))[j],
    decreases blocks@,
{
    let ghost start = flat@;
    proof {
        lemma_trees_of_len(blocks@);
    }
    let n = blocks.len();
    let mut i: usize = 0;
    while i < n
        invariant
            n == blocks@.len(),
            i <= n,
            flat@.len() == start.len() + preorder(trees_of(blocks@.take(i as int))).len(),
            forall|j: int| 0 <= j < start.len() ==> #[trigger] flat@[j] == start[j],
            forall|j: int| 0 <= j < preorder(trees_of(blocks@.take(i as int))).len() ==> tree_of(*#[trigger] flat@[start.len() + j]) == preorder(trees_of(blocks@.take(i as int)))[j],
        decreases n - i,
    {
        let block = &blocks[i];
        let ghost before = flat@;
        let ghost prev = trees_of(blocks@.take(i as int));
        flat.push(block);
        proof {
            lemma_trees_of_index(blocks@, i as int);
            assert(decreases_to!(blocks@ => blocks@[i as int].children@));
        }
        flatten_into(block.children.as_slice(), flat);
        proof {
            let t = tree_of(blocks@[i as int]);
            assert(blocks@.take(i + 1) == blocks@.take(i as int).push(blocks@[i as int]));
            lemma_trees_of_push(blocks@.take(i as int), blocks@[i as int]);
            assert(prev.push(t) == prev + seq![t]);
            lemma_preorder_append(prev, seq![t]);
            assert(seq![t].drop_first() == Seq::<Tree>::empty());
            assert(preorder(seq![t]) == seq![t] + preorder(t.children) + preorder(Seq::<Tree>::empty()));
            let all = preorder(trees_of(blocks@.take(i + 1)));
            assert(all =~= preorder(prev) + seq![t] + preorder(t.children));
            assert forall|j: int| 0 <= j < all.len() implies tree_of(*#[trigger] flat@[start.len() + j]) == all[j] by {
                if j < preorder(prev).len() {
                    assert(flat@[start.len() + j] == before[start.len() + j]);
                } else if j == preorder(prev).len() {
                    assert(flat@[start.len() + j] == before.push(block)[start.len() + j]);
                } else {
                    let k = j - preorder(prev).len() - 1;
                    assert(flat@[start.len() + j] == flat@[before.len() + 1 + k]);
                }
            }
        }
        i += 1;
    }
    assert(blocks@.take(n as int) == blocks@);
}

/// The blocks of a tree in preorder: the hierarchy is dropped, the order
/// kept.
pub fn flatten_blocks<'a>(blocks: &'a [Block]) -> (flat: Vec<&'a Block>)
    ensures
        flat@.len() == preorder(trees_of(blocks@)).len(),
        forall|j: int| 0 <= j < flat@.len() ==> tree_of(*#[trigger] flat@[j]) == preorder(trees_of(blocks@))[j],
{
    let mut flat: Vec<&'a Block> = Vec::new();
    flatten_into(blocks, &mut flat);
    assert forall|j: int| 0 <= j < flat@.len() implies tree_of(*#[trigger] flat@[j]) == preorder(trees_of(blocks@))[j] by {
        assert(flat@[0 + j] == flat@[j]);
    }
    flat
}

} // verus!
