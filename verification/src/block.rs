//! The block tree of a page, and its mathematical model.
use vstd::prelude::*;

verus! {

broadcast use vstd::std_specs::vec::group_vec_axioms;

/// One outliner block: its inline markdown text (without the `- ` prefix)
/// and its nested children.
#[derive(Debug, PartialEq, Eq)]
pub struct Block {
    pub content: String,
    pub children: Vec<Block>,
}

/// A page as read from disk.
#[derive(Debug, PartialEq, Eq)]
pub struct Page {
    /// Path relative to the vault root, e.g. `journals/2026-09-01.md`.
    pub path: String,
    /// From the front matter (pages only, never journals); `None` when the
    /// file has no front matter or no `title` field.
    pub title: Option<String>,
    pub blocks: Vec<Block>,
}

/// Mathematical model of a block: its text and its subtrees.
pub struct Tree {
    pub content: Seq<char>,
    pub children: Seq<Tree>,
}

/// The model of a block.
pub open spec fn tree_of(b: Block) -> Tree
    decreases b, 0int,
{
    Tree { content: b.content@, children: trees_of(b.children@) }
}

/// The models of a sequence of blocks, in order.
pub open spec fn trees_of(bs: Seq<Block>) -> Seq<Tree>
    decreases bs, 1int,
{
    if bs.len() == 0 {
        Seq::empty()
    } else {
        trees_of(bs.drop_last()).push(tree_of(bs.last()))
    }
}

pub proof fn lemma_trees_of_len(bs: Seq<Block>)
    ensures
        trees_of(bs).len() == bs.len(),
    decreases bs.len(),
{
    if bs.len() > 0 {
        lemma_trees_of_len(bs.drop_last());
    }
}

pub proof fn lemma_trees_of_index(bs: Seq<Block>, i: int)
    requires
        0 <= i < bs.len(),
    ensures
        trees_of(bs)[i] == tree_of(bs[i]),
    decreases bs.len(),
{
    lemma_trees_of_len(bs.drop_last());
    if i < bs.len() - 1 {
        lemma_trees_of_index(bs.drop_last(), i);
    }
}

pub proof fn lemma_trees_of_push(bs: Seq<Block>, b: Block)
    ensures
        trees_of(bs.push(b)) == trees_of(bs).push(tree_of(b)),
{
    assert(bs.push(b).drop_last() == bs);
}

pub proof fn lemma_trees_of_append(a: Seq<Block>, b: Seq<Block>)
    ensures
        trees_of(a + b) == trees_of(a) + trees_of(b),
    decreases b.len(),
{
    if b.len() == 0 {
        assert(a + b == a);
        assert(trees_of(b) == Seq::<Tree>::empty());
        assert(trees_of(a) + trees_of(b) =~= trees_of(a));
    } else {
        assert((a + b).drop_last() == a + b.drop_last());
        assert((a + b).last() == b.last());
        lemma_trees_of_append(a, b.drop_last());
        assert(trees_of(a) + trees_of(b) =~= trees_of(a) + trees_of(b.drop_last()) + seq![tree_of(b.last())]);
    }
}

impl Block {
    /// A leaf block with the given text.
    pub fn new(content: &str) -> (b: Block)
        ensures
            b.content@ == content@,
            b.children@.len() == 0,
            tree_of(b) == (Tree { content: content@, children: Seq::empty() }),
    {
        let b = Block { content: String::from_str(content), children: Vec::new() };
        assert(trees_of(b.children@) == Seq::<Tree>::empty());
        b
    }
}

} // verus!
