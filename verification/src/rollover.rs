//! Moving the unfinished `[ ] ` tasks of past journal days to today: the
//! extraction rule and the plan of a rollover.
use vstd::prelude::*;

use crate::block::{Block, Tree, tree_of, trees_of, lemma_trees_of_push, lemma_trees_of_append};
use crate::links::{preorder, lemma_preorder_append};
use crate::text::chars_of;
use crate::journal_date::{JournalDate, is_first_date, prev_day};

verus! {

broadcast use vstd::std_specs::vec::group_vec_axioms;

/// A block text that opens with `[ ] `: a task not yet done.
pub open spec fn unfinished(c: Seq<char>) -> bool {
    c.len() >= 4 && c.take(4) == seq!['[', ' ', ']', ' ']
}

pub fn is_unfinished_task(content: &str) -> (b: bool)
    ensures
        b == unfinished(content@),
{
    let v = chars_of(content);
    let b = v.len() >= 4 && v[0] == '[' && v[1] == ' ' && v[2] == ']' && v[3] == ' ';
    proof {
        if v@.len() >= 4 {
            let t = v@.take(4);
            assert(t[0] == v@[0] && t[1] == v@[1] && t[2] == v@[2] && t[3] == v@[3]);
            if b {
                assert(t =~= seq!['[', ' ', ']', ' ']);
            }
        }
    }
    b
}

/// Splits a forest into what stays and the unfinished-task subtrees taken
/// out of it: a task subtree leaves whole, with its children; the
/// children of any other block are searched in turn.
pub open spec fn extract_spec(ts: Seq<Tree>) -> (Seq<Tree>, Seq<Tree>)
    decreases ts,
{
    if ts.len() == 0 {
        (Seq::empty(), Seq::empty())
    } else {
        let (r0, e0) = extract_spec(ts.drop_last());
        let t = ts.last();
        if unfinished(t.content) {
            (r0, e0.push(t))
        } else {
            let (cr, ce) = extract_spec(t.children);
            (r0.push(Tree { content: t.content, children: cr }), e0 + ce)
        }
    }
}

/// Takes out of `blocks` every subtree whose root is an unfinished task,
/// children included, and leaves the rest of the structure in place.
/// Returns (what remains, what was taken), both in document order.
pub fn extract_unfinished_tasks(blocks: Vec<Block>) -> (r: (Vec<Block>, Vec<Block>))
    ensures
        trees_of(r.0@) == extract_spec(trees_of(blocks@)).0,
        trees_of(r.1@) == extract_spec(trees_of(blocks@)).1,
    decreases blocks@,
{
    let ghost bs = blocks@;
    let mut remaining: Vec<Block> = Vec::new();
    let mut extracted: Vec<Block> = Vec::new();
    proof {
        assert(bs.take(0) =~= Seq::<Block>::empty());
        assert(trees_of(remaining@) == Seq::<Tree>::empty());
    }
    for block in it: blocks
        invariant
            it.seq() == bs,
            trees_of(remaining@) == extract_spec(trees_of(bs.take(it.index() as int))).0,
            trees_of(extracted@) == extract_spec(trees_of(bs.take(it.index() as int))).1,
    {
        let ghost i = it.index() as int;
        let ghost prev = trees_of(bs.take(i));
        proof {
            assert(bs.take(i + 1) == bs.take(i).push(block));
            lemma_trees_of_push(bs.take(i), block);
            assert(trees_of(bs.take(i + 1)).drop_last() == prev);
            assert(trees_of(bs.take(i + 1)).last() == tree_of(block));
        }
        if is_unfinished_task(block.content.as_str()) {
            proof {
                lemma_trees_of_push(extracted@, block);
            }
            extracted.push(block);
        } else {
            let Block { content, children } = block;
            proof {
                assert(decreases_to!(bs => bs[i].children@));
            }
            let (kept, mut taken) = extract_unfinished_tasks(children);
            let b = Block { content, children: kept };
            proof {
                lemma_trees_of_push(remaining@, b);
                lemma_trees_of_append(extracted@, taken@);
            }
            remaining.push(b);
            extracted.append(&mut taken);
        }
    }
    proof {
        assert(bs.take(bs.len() as int) == bs);
    }
    (remaining, extracted)
}

// ---------------------------------------------------------------- the plan

/// How many tasks a rollover moved.
#[derive(Debug, Clone, Copy, PartialEq, Eq, Structural)]
pub struct RolloverOutcome {
    pub moved_count: usize,
}

/// The day before `d`; the first representable day stays itself, as
/// `JournalDate::pred` does.
pub open spec fn pred_day(d: (int, int, int)) -> (int, int, int) {
    if is_first_date(d) {
        d
    } else {
        prev_day(d)
    }
}

/// `d` taken `n` days back.
pub open spec fn days_back_from(d: (int, int, int), n: nat) -> (int, int, int)
    decreases n,
{
    if n == 0 {
        d
    } else {
        pred_day(days_back_from(d, (n - 1) as nat))
    }
}

/// The journal days a rollover looks at: the `days_back` days before
/// `today`, oldest first.
pub fn lookback_dates(today: &JournalDate, days_back: u32) -> (r: Vec<JournalDate>)
    ensures
        r@.len() == days_back,
        forall|k: int| 0 <= k < days_back ==> (#[trigger] r@[k])@ == days_back_from(
            today@,
            (days_back - k) as nat,
        ),
{
    let mut back: Vec<JournalDate> = Vec::new();
    let mut date = *today;
    for i in 0..days_back
        invariant
            back@.len() == i,
            date@ == days_back_from(today@, i as nat),
            forall|k: int| 0 <= k < i ==> (#[trigger] back@[k])@ == days_back_from(today@, (k + 1) as nat),
    {
        date = date.pred();
        back.push(date);
    }
    let n = back.len();
    let mut r: Vec<JournalDate> = Vec::new();
    let mut j = n;
    while j > 0
        invariant
            n == back@.len() == days_back,
            j <= n,
            r@.len() == n - j,
            forall|k: int| 0 <= k < n ==> (#[trigger] back@[k])@ == days_back_from(today@, (k + 1) as nat),
            forall|k: int| 0 <= k < r@.len() ==> (#[trigger] r@[k])@ == days_back_from(today@, (n - k) as nat),
        decreases j,
    {
        j -= 1;
        r.push(back[j]);
    }
    r
}

/// A journal page read for a rollover, by its models: path and blocks.
pub open spec fn source_model(p: (String, Vec<Block>)) -> (Seq<char>, Seq<Tree>) {
    (p.0@, trees_of(p.1@))
}

pub open spec fn sources_model(s: Seq<(String, Vec<Block>)>) -> Seq<(Seq<char>, Seq<Tree>)> {
    s.map_values(|p: (String, Vec<Block>)| source_model(p))
}

/// What a rollover does with the past journal pages, taken in date order:
/// the unfinished-task subtrees of each, one page after the other (what is
/// appended to today), and the pages to rewrite without them (only those
/// that lost something).
pub open spec fn plan_spec(srcs: Seq<(Seq<char>, Seq<Tree>)>) -> (Seq<Tree>, Seq<(Seq<char>, Seq<Tree>)>)
    decreases srcs.len(),
{
    if srcs.len() == 0 {
        (Seq::empty(), Seq::empty())
    } else {
        let (m, w) = plan_spec(srcs.drop_last());
        let (path, ts) = srcs.last();
        let (rem, ext) = extract_spec(ts);
        if ext.len() == 0 {
            (m, w)
        } else {
            (m + ext, w.push((path, rem)))
        }
    }
}

/// The plan of a rollover: the blocks to append to today's journal, the
/// pages to rewrite afterwards, and the count that is reported.
pub struct RolloverPlan {
    pub moved: Vec<Block>,
    pub rewrites: Vec<(String, Vec<Block>)>,
    pub outcome: RolloverOutcome,
}

/// Plans the rollover of the past journal pages `sources` (path and
/// blocks, oldest first): every unfinished task subtree is taken out of its
/// page and goes, in that order, to the end of today's journal. The caller
/// writes today first and only then the rewritten sources, so that a failed
/// write of today loses nothing; when nothing moves, nothing is written.
pub fn roll_over_unfinished_tasks(sources: Vec<(String, Vec<Block>)>) -> (p: RolloverPlan)
    ensures
        trees_of(p.moved@) == plan_spec(sources_model(sources@)).0,
        sources_model(p.rewrites@) == plan_spec(sources_model(sources@)).1,
        p.outcome.moved_count == p.moved@.len(),
{
    let ghost ss = sources@;
    let mut moved: Vec<Block> = Vec::new();
    let mut rewrites: Vec<(String, Vec<Block>)> = Vec::new();
    proof {
        assert(sources_model(ss.take(0)) =~= Seq::<(Seq<char>, Seq<Tree>)>::empty());
        assert(sources_model(rewrites@) =~= Seq::<(Seq<char>, Seq<Tree>)>::empty());
    }
    for src in it: sources
        invariant
            it.seq() == ss,
            trees_of(moved@) == plan_spec(sources_model(ss.take(it.index() as int))).0,
            sources_model(rewrites@) == plan_spec(sources_model(ss.take(it.index() as int))).1,
    {
        let ghost i = it.index() as int;
        proof {
            assert(ss.take(i + 1) == ss.take(i).push(src));
            assert(sources_model(ss.take(i + 1)).drop_last() =~= sources_model(ss.take(i)));
            assert(sources_model(ss.take(i + 1)).last() == source_model(src));
        }
        let (path, blocks) = src;
        let (remaining, mut extracted) = extract_unfinished_tasks(blocks);
        if extracted.len() == 0 {
            proof {
                crate::block::lemma_trees_of_len(extracted@);
            }
        } else {
            proof {
                crate::block::lemma_trees_of_len(extracted@);
                lemma_trees_of_append(moved@, extracted@);
                let old_w = rewrites@;
                assert(sources_model(old_w.push((path, remaining))) =~= sources_model(old_w).push(
                    (path@, trees_of(remaining@)),
                ));
            }
            moved.append(&mut extracted);
            rewrites.push((path, remaining));
        }
    }
    proof {
        assert(ss.take(ss.len() as int) == ss);
    }
    let count = moved.len();
    RolloverPlan { moved, rewrites, outcome: RolloverOutcome { moved_count: count } }
}

/// Today's journal after a rollover: its blocks as they were (the one
/// empty block of a journal that was just created), then the moved task
/// subtrees in the order of the plan.
pub fn today_after_rollover(today_blocks: Vec<Block>, moved: Vec<Block>) -> (r: Vec<Block>)
    ensures
        r@ == today_blocks@ + moved@,
        trees_of(r@) == trees_of(today_blocks@) + trees_of(moved@),
{
    let ghost t = today_blocks@;
    let ghost m = moved@;
    let mut r = today_blocks;
    let mut rest = moved;
    r.append(&mut rest);
    proof {
        lemma_trees_of_append(t, m);
    }
    r
}

/// Law: a rollover moves something exactly when it rewrites some page, so
/// a vault without unfinished tasks in the window sees no write at all;
/// and every page it rewrites is one of the sources.
pub proof fn law_plan_writes_only_when_moving(srcs: Seq<(Seq<char>, Seq<Tree>)>)
    ensures
        plan_spec(srcs).0.len() == 0 <==> plan_spec(srcs).1.len() == 0,
        forall|k: int| 0 <= k < plan_spec(srcs).1.len() ==> exists|j: int| 0 <= j < srcs.len() && (#[trigger] plan_spec(srcs).1[k]).0 == srcs[j].0,
    decreases srcs.len(),
{
    if srcs.len() > 0 {
        let prev = srcs.drop_last();
        law_plan_writes_only_when_moving(prev);
        let (m, w) = plan_spec(prev);
        let (path, ts) = srcs.last();
        let (rem, ext) = extract_spec(ts);
        assert forall|k: int| 0 <= k < plan_spec(srcs).1.len() implies exists|j: int| 0 <= j < srcs.len() && (#[trigger] plan_spec(srcs).1[k]).0 == srcs[j].0 by {
            if ext.len() != 0 && k == w.len() {
                assert(plan_spec(srcs).1[k].0 == srcs[srcs.len() - 1].0);
            } else {
                assert(plan_spec(srcs).1[k] == w[k]);
                let j = choose|j: int| 0 <= j < prev.len() && w[k].0 == prev[j].0;
                assert(srcs[j] == prev[j]);
            }
        }
    }
}

// ---------------------------------------------------------------- laws

/// No node of the forest is an unfinished task.
pub open spec fn no_unfinished(ts: Seq<Tree>) -> bool {
    forall|i: int| 0 <= i < preorder(ts).len() ==> !unfinished(#[trigger] preorder(ts)[i].content)
}

proof fn lemma_preorder_push(ts: Seq<Tree>, t: Tree)
    ensures
        preorder(ts.push(t)) == preorder(ts) + seq![t] + preorder(t.children),
{
    assert(ts.push(t) == ts + seq![t]);
    lemma_preorder_append(ts, seq![t]);
    assert(seq![t].drop_first() == Seq::<Tree>::empty());
    assert(seq![t][0] == t);
    assert(preorder(seq![t]) == seq![t] + preorder(t.children) + preorder(Seq::<Tree>::empty()));
    assert(preorder(seq![t]) =~= seq![t] + preorder(t.children));
    assert(preorder(ts) + (seq![t] + preorder(t.children)) =~= preorder(ts) + seq![t] + preorder(t.children));
}

/// Law: after the extraction no unfinished task is left anywhere in the
/// remaining forest, every extracted subtree has an unfinished task at its
/// root, and no block is lost or duplicated: the two forests together hold
/// as many blocks as the forest they came from.
pub proof fn law_extract_unfinished(ts: Seq<Tree>)
    ensures
        no_unfinished(extract_spec(ts).0),
        forall|i: int| 0 <= i < extract_spec(ts).1.len() ==> unfinished(#[trigger] extract_spec(ts).1[i].content),
        preorder(extract_spec(ts).0).len() + preorder(extract_spec(ts).1).len() == preorder(ts).len(),
    decreases ts,
{
    if ts.len() > 0 {
        let prev = ts.drop_last();
        let t = ts.last();
        law_extract_unfinished(prev);
        let (r0, e0) = extract_spec(prev);
        assert(ts == prev.push(t));
        lemma_preorder_push(prev, t);
        if unfinished(t.content) {
            lemma_preorder_push(e0, t);
            assert forall|i: int| 0 <= i < e0.push(t).len() implies unfinished(#[trigger] e0.push(t)[i].content) by {
                if i < e0.len() {
                    assert(e0.push(t)[i] == e0[i]);
                }
            }
        } else {
            law_extract_unfinished(t.children);
            let (cr, ce) = extract_spec(t.children);
            let nt = Tree { content: t.content, children: cr };
            lemma_preorder_push(r0, nt);
            lemma_preorder_append(e0, ce);
            let pr = preorder(r0.push(nt));
            assert forall|i: int| 0 <= i < pr.len() implies !unfinished(#[trigger] pr[i].content) by {
                if i < preorder(r0).len() {
                    assert(pr[i] == preorder(r0)[i]);
                } else if i == preorder(r0).len() {
                    assert(pr[i] == nt);
                } else {
                    assert(pr[i] == preorder(cr)[i - preorder(r0).len() - 1]);
                }
            }
            assert forall|i: int| 0 <= i < (e0 + ce).len() implies unfinished(#[trigger] (e0 + ce)[i].content) by {
                if i < e0.len() {
                    assert((e0 + ce)[i] == e0[i]);
                } else {
                    assert((e0 + ce)[i] == ce[i - e0.len()]);
                }
            }
        }
    }
}

/// Law: a forest without unfinished tasks is left exactly as it is, and
/// nothing is taken out of it.
pub proof fn law_extract_without_tasks(ts: Seq<Tree>)
    requires
        no_unfinished(ts),
    ensures
        extract_spec(ts).0 == ts,
        extract_spec(ts).1.len() == 0,
    decreases ts,
{
    if ts.len() > 0 {
        let prev = ts.drop_last();
        let t = ts.last();
        assert(ts == prev.push(t));
        lemma_preorder_push(prev, t);
        let p = preorder(ts);
        assert(no_unfinished(prev)) by {
            assert forall|i: int| 0 <= i < preorder(prev).len() implies !unfinished(#[trigger] preorder(prev)[i].content) by {
                assert(p[i] == preorder(prev)[i]);
            }
        }
        assert(!unfinished(t.content)) by {
            assert(p[preorder(prev).len() as int] == t);
        }
        assert(no_unfinished(t.children)) by {
            assert forall|i: int| 0 <= i < preorder(t.children).len() implies !unfinished(#[trigger] preorder(t.children)[i].content) by {
                assert(p[preorder(prev).len() + 1 + i] == preorder(t.children)[i]);
            }
        }
        law_extract_without_tasks(prev);
        law_extract_without_tasks(t.children);
        let (cr, ce) = extract_spec(t.children);
        assert(Tree { content: t.content, children: cr } == t);
        assert(extract_spec(prev).1 + ce =~= Seq::<Tree>::empty());
    }
}

proof fn lemma_extract_concat(a: Seq<Tree>, b: Seq<Tree>)
    ensures
        extract_spec(a + b).0 == extract_spec(a).0 + extract_spec(b).0,
        extract_spec(a + b).1 == extract_spec(a).1 + extract_spec(b).1,
    decreases b.len(),
{
    if b.len() == 0 {
        assert(a + b =~= a);
        assert(extract_spec(a).0 + extract_spec(b).0 =~= extract_spec(a).0);
        assert(extract_spec(a).1 + extract_spec(b).1 =~= extract_spec(a).1);
    } else {
        let b0 = b.drop_last();
        let t = b.last();
        assert((a + b).drop_last() =~= a + b0);
        assert((a + b).last() == t);
        lemma_extract_concat(a, b0);
        let (ra, ea) = extract_spec(a);
        let (rb, eb) = extract_spec(b0);
        if unfinished(t.content) {
            assert((ea + eb).push(t) =~= ea + eb.push(t));
        } else {
            let (cr, ce) = extract_spec(t.children);
            let nt = Tree { content: t.content, children: cr };
            assert((ra + rb).push(nt) =~= ra + rb.push(nt));
            assert((ea + eb) + ce =~= ea + (eb + ce));
        }
    }
}

proof fn lemma_extract_nothing(ts: Seq<Tree>)
    requires
        extract_spec(ts).1.len() == 0,
    ensures
        extract_spec(ts).0 == ts,
        no_unfinished(ts),
    decreases ts,
{
    if ts.len() > 0 {
        let prev = ts.drop_last();
        let t = ts.last();
        let (r0, e0) = extract_spec(prev);
        if unfinished(t.content) {
            assert(extract_spec(ts).1 == e0.push(t));
        } else {
            let (cr, ce) = extract_spec(t.children);
            assert(extract_spec(ts).1 == e0 + ce);
            assert(e0.len() == 0 && ce.len() == 0);
            lemma_extract_nothing(prev);
            lemma_extract_nothing(t.children);
            assert(Tree { content: t.content, children: cr } == t);
            assert(prev.push(t) =~= ts);
        }
    }
    law_extract_unfinished(ts);
}

/// The forests of the pages, one after the other.
pub open spec fn all_forests(srcs: Seq<(Seq<char>, Seq<Tree>)>) -> Seq<Tree>
    decreases srcs.len(),
{
    if srcs.len() == 0 {
        Seq::empty()
    } else {
        all_forests(srcs.drop_last()) + srcs.last().1
    }
}

/// How many blocks the pages hold, at every depth.
pub open spec fn blocks_in(srcs: Seq<(Seq<char>, Seq<Tree>)>) -> nat
    decreases srcs.len(),
{
    if srcs.len() == 0 {
        0
    } else {
        blocks_in(srcs.drop_last()) + preorder(srcs.last().1).len()
    }
}

/// How many blocks the pages without any unfinished task hold.
pub open spec fn blocks_in_pages_without_tasks(srcs: Seq<(Seq<char>, Seq<Tree>)>) -> nat
    decreases srcs.len(),
{
    if srcs.len() == 0 {
        0
    } else {
        blocks_in_pages_without_tasks(srcs.drop_last()) + if no_unfinished(srcs.last().1) {
            preorder(srcs.last().1).len()
        } else {
            0
        }
    }
}

/// Law: a rollover loses no task and no block. What goes to today is
/// every unfinished-task subtree of the pages, in the order they come in
/// the pages laid end to end, just as one extraction over all of them
/// would take them; the blocks that move, those of the rewritten pages
/// and those of the pages that are left alone add up to all the blocks of
/// the pages; and no rewritten page keeps an unfinished task.
pub proof fn law_rollover_loses_nothing(srcs: Seq<(Seq<char>, Seq<Tree>)>)
    ensures
        plan_spec(srcs).0 == extract_spec(all_forests(srcs)).1,
        preorder(plan_spec(srcs).0).len() + blocks_in(plan_spec(srcs).1) + blocks_in_pages_without_tasks(srcs)
            == blocks_in(srcs),
        forall|k: int| 0 <= k < plan_spec(srcs).1.len() ==> no_unfinished((#[trigger] plan_spec(srcs).1[k]).1),
    decreases srcs.len(),
{
    if srcs.len() == 0 {
        assert(extract_spec(Seq::<Tree>::empty()).1 == Seq::<Tree>::empty());
        assert(preorder(Seq::<Tree>::empty()) == Seq::<Tree>::empty());
    } else {
        let prev = srcs.drop_last();
        law_rollover_loses_nothing(prev);
        let (m, w) = plan_spec(prev);
        let (path, ts) = srcs.last();
        let (rem, ext) = extract_spec(ts);
        lemma_extract_concat(all_forests(prev), ts);
        law_extract_unfinished(ts);
        if ext.len() == 0 {
            lemma_extract_nothing(ts);
            assert(m + ext =~= m);
        } else {
            if no_unfinished(ts) {
                law_extract_without_tasks(ts);
            }
            lemma_preorder_append(m, ext);
            let w2 = w.push((path, rem));
            assert(w2.drop_last() =~= w);
            assert(w2.last() == (path, rem));
            assert forall|k: int| 0 <= k < w2.len() implies no_unfinished((#[trigger] w2[k]).1) by {
                if k < w.len() {
                    assert(w2[k] == w[k]);
                }
            }
        }
    }
}

} // verus!
