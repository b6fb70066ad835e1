//! Conversion between the on-disk format (`- ` lines, indented by two
//! spaces per level) and the block tree. The round trip is exact:
//! `parse(render(blocks))` gives the blocks back for every tree whose texts
//! hold no newline, and `render(parse(text))` gives `text` back for every
//! text already in the format (see the laws at the end of this file).
use vstd::prelude::*;

use crate::block::{Block, Tree, tree_of, trees_of, lemma_trees_of_len, lemma_trees_of_index, lemma_trees_of_push};
use crate::error::CoreError;
use crate::text::{chars_of, string_from_range, debug_text, str_debug};

verus! {

broadcast use vstd::std_specs::vec::group_vec_axioms;

/// A line of the format, as (indentation level, text).
pub type LineModel = (nat, Seq<char>);

/// The lines of a forest whose roots sit at `level`, in preorder.
pub open spec fn tree_lines(ts: Seq<Tree>, level: nat) -> Seq<LineModel>
    decreases ts,
{
    if ts.len() == 0 {
        Seq::empty()
    } else {
        seq![(level, ts[0].content)] + tree_lines(ts[0].children, level + 1) + tree_lines(
            ts.drop_first(),
            level,
        )
    }
}

/// `n` spaces.
pub open spec fn spaces(n: nat) -> Seq<char> {
    Seq::new(n, |i: int| ' ')
}

/// The text of one line, newline included.
pub open spec fn line_text(l: LineModel) -> Seq<char> {
    spaces(2 * l.0) + seq!['-', ' '] + l.1 + seq!['\n']
}

/// The text of a sequence of lines.
pub open spec fn lines_text(ls: Seq<LineModel>) -> Seq<char>
    decreases ls.len(),
{
    if ls.len() == 0 {
        Seq::empty()
    } else {
        line_text(ls[0]) + lines_text(ls.drop_first())
    }
}

/// The file text of a forest.
pub open spec fn render_text(ts: Seq<Tree>) -> Seq<char> {
    lines_text(tree_lines(ts, 0))
}

/// Depth of a forest: the number of levels it spans.
pub open spec fn depth(ts: Seq<Tree>) -> nat
    decreases ts,
{
    if ts.len() == 0 {
        0
    } else {
        let a = 1 + depth(ts[0].children);
        let b = depth(ts.drop_first());
        if a >= b {
            a
        } else {
            b
        }
    }
}

// ---------------------------------------------------------------- lemmas on the model

pub proof fn lemma_tree_lines_append(a: Seq<Tree>, b: Seq<Tree>, level: nat)
    ensures
        tree_lines(a + b, level) == tree_lines(a, level) + tree_lines(b, level),
    decreases a.len(),
{
    if a.len() == 0 {
        assert(a + b == b);
    } else {
        assert((a + b)[0] == a[0]);
        assert((a + b).drop_first() == a.drop_first() + b);
        lemma_tree_lines_append(a.drop_first(), b, level);
    }
}

pub proof fn lemma_tree_lines_push(ts: Seq<Tree>, t: Tree, level: nat)
    ensures
        tree_lines(ts.push(t), level) == tree_lines(ts, level) + seq![(level, t.content)]
            + tree_lines(t.children, level + 1),
{
    assert(ts.push(t) == ts + seq![t]);
    lemma_tree_lines_append(ts, seq![t], level);
    assert(seq![t].drop_first() == Seq::<Tree>::empty());
    assert(seq![t][0] == t);
    assert(tree_lines(Seq::<Tree>::empty(), level) == Seq::<LineModel>::empty());
    assert(tree_lines(seq![t], level) == seq![(level, t.content)] + tree_lines(t.children, level + 1)
        + tree_lines(Seq::<Tree>::empty(), level));
    assert(seq![(level, t.content)] + tree_lines(t.children, level + 1) + Seq::<LineModel>::empty()
        == seq![(level, t.content)] + tree_lines(t.children, level + 1));
    assert(tree_lines(ts, level) + (seq![(level, t.content)] + tree_lines(t.children, level + 1))
        == tree_lines(ts, level) + seq![(level, t.content)] + tree_lines(t.children, level + 1));
}

pub proof fn lemma_lines_text_append(a: Seq<LineModel>, b: Seq<LineModel>)
    ensures
        lines_text(a + b) == lines_text(a) + lines_text(b),
    decreases a.len(),
{
    if a.len() == 0 {
        assert(a + b == b);
    } else {
        assert((a + b)[0] == a[0]);
        assert((a + b).drop_first() == a.drop_first() + b);
        lemma_lines_text_append(a.drop_first(), b);
    }
}

pub proof fn lemma_lines_text_push(a: Seq<LineModel>, l: LineModel)
    ensures
        lines_text(a.push(l)) == lines_text(a) + line_text(l),
{
    assert(a.push(l) == a + seq![l]);
    lemma_lines_text_append(a, seq![l]);
    assert(seq![l].drop_first() == Seq::<LineModel>::empty());
    assert(seq![l][0] == l);
    assert(lines_text(Seq::<LineModel>::empty()) == Seq::<char>::empty());
    assert(lines_text(seq![l]) == line_text(l) + lines_text(Seq::<LineModel>::empty()));
    assert(line_text(l) + Seq::<char>::empty() == line_text(l));
}

pub proof fn lemma_depth_child(ts: Seq<Tree>, i: int)
    requires
        0 <= i < ts.len(),
    ensures
        1 + depth(ts[i].children) <= depth(ts),
    decreases ts.len(),
{
    if i > 0 {
        lemma_depth_child(ts.drop_first(), i - 1);
    }
}

/// A forest whose lines all stand at most at level `bound` spans at most
/// the levels from `level` to `bound`.
pub proof fn lemma_depth_by_levels(ts: Seq<Tree>, level: nat, bound: nat)
    requires
        forall|i: int| 0 <= i < tree_lines(ts, level).len() ==> (#[trigger] tree_lines(ts, level)[i]).0 <= bound,
    ensures
        ts.len() > 0 ==> level + depth(ts) <= bound + 1,
    decreases ts,
{
    if ts.len() > 0 {
        let l1 = tree_lines(ts[0].children, level + 1);
        let l2 = tree_lines(ts.drop_first(), level);
        let all = tree_lines(ts, level);
        assert(all == seq![(level, ts[0].content)] + l1 + l2);
        assert(all[0].0 == level);
        assert forall|i: int| 0 <= i < l1.len() implies (#[trigger] l1[i]).0 <= bound by {
            assert(all[1 + i] == l1[i]);
        }
        assert forall|i: int| 0 <= i < l2.len() implies (#[trigger] l2[i]).0 <= bound by {
            assert(all[1 + l1.len() + i] == l2[i]);
        }
        lemma_depth_by_levels(ts[0].children, level + 1, bound);
        lemma_depth_by_levels(ts.drop_first(), level, bound);
    }
}

// ---------------------------------------------------------------- render

/// Converts the block tree into the file text, newline at the end of
/// every line.
pub fn render(blocks: &[Block]) -> (out: String)
    requires
        depth(trees_of(blocks@)) < usize::MAX,
    ensures
        out@ == render_text(trees_of(blocks@)),
{
    let mut out = String::new();
    render_into(blocks, 0, &mut out);
    out
}

fn render_into(blocks: &[Block], level: usize, out: &mut String)
    requires
        level + depth(trees_of(blocks@)) <= usize::MAX,
    ensures
        final(out)@ == old(out)@ + lines_text(tree_lines(trees_of(blocks@), level as nat)),
    decreases blocks@,
{
    let ghost start = out@;
    let ghost ts = trees_of(blocks@);
    proof {
        lemma_trees_of_len(blocks@);
    }
    let n = blocks.len();
    let mut i: usize = 0;
    while i < n
        invariant
            n == blocks@.len(),
            ts == trees_of(blocks@),
            ts.len() == n,
            i <= n,
            level + depth(ts) <= usize::MAX,
            out@ == start + lines_text(tree_lines(trees_of(blocks@.take(i as int)), level as nat)),
        decreases n - i,
    {
        let block = &blocks[i];
        let ghost before = out@;
        let mut k: usize = 0;
        while k < level
            invariant
                k <= level,
                out@ == before + spaces(2 * k as nat),
            decreases level - k,
        {
            out.append("  ");
            proof {
                reveal_strlit("  ");
                assert(spaces(2 * k as nat) + "  "@ == spaces(2 * (k + 1) as nat));
            }
            k += 1;
        }
        out.append("- ");
        out.append(block.content.as_str());
        out.append("\n");
        proof {
            reveal_strlit("- ");
            reveal_strlit("\n");
            lemma_trees_of_index(blocks@, i as int);
            lemma_depth_child(ts, i as int);
            assert(decreases_to!(blocks@ => blocks@[i as int].children@));
        }
        render_into(block.children.as_slice(), level + 1, out);
        proof {
            let t = tree_of(blocks@[i as int]);
            let prev = trees_of(blocks@.take(i as int));
            assert(blocks@.take(i + 1) == blocks@.take(i as int).push(blocks@[i as int]));
            lemma_trees_of_push(blocks@.take(i as int), blocks@[i as int]);
            lemma_tree_lines_push(prev, t, level as nat);
            let l = (level as nat, t.content);
            lemma_lines_text_push(tree_lines(prev, level as nat), l);
            lemma_lines_text_append(
                tree_lines(prev, level as nat).push(l),
                tree_lines(t.children, level as nat + 1),
            );
            assert(tree_lines(prev, level as nat) + seq![l] == tree_lines(prev, level as nat).push(l));
        }
        i += 1;
    }
    assert(blocks@.take(n as int) == blocks@);
}


// ---------------------------------------------------------------- parse: model

/// `s` cut at every newline, as `str::split('\n')` cuts it: always at least
/// one piece, the last one after the final newline.
pub open spec fn split_nl(s: Seq<char>) -> Seq<Seq<char>>
    decreases s.len(),
{
    if s.len() == 0 {
        seq![Seq::empty()]
    } else {
        let p = split_nl(s.drop_last());
        if s.last() == '\n' {
            p.push(Seq::empty())
        } else {
            p.update(p.len() - 1, p.last().push(s.last()))
        }
    }
}

/// The raw lines of a file: its newline-separated pieces, without the
/// empty piece after a final newline.
pub open spec fn raw_lines(s: Seq<char>) -> Seq<Seq<char>> {
    let p = split_nl(s);
    if p.last().len() == 0 {
        p.drop_last()
    } else {
        p
    }
}

/// Number of spaces at the start of `s`.
pub open spec fn leading_spaces(s: Seq<char>) -> nat
    decreases s.len(),
{
    if s.len() > 0 && s[0] == ' ' {
        1 + leading_spaces(s.drop_first())
    } else {
        0
    }
}

pub open spec fn odd_indent_reason() -> Seq<char> {
    "l'indentazione non è un multiplo di due spazi"@
}

pub open spec fn missing_dash_reason() -> Seq<char> {
    "la riga non inizia con \"- \": "@
}

pub open spec fn indented_first_reason() -> Seq<char> {
    "il primo blocco non può essere indentato"@
}

pub open spec fn level_jump_reason() -> Seq<char> {
    "salto di più di un livello di indentazione"@
}

/// One raw line, numbered `index` from 1: its level and text, or the
/// (line, reason) of the error it raises.
pub open spec fn parse_line_spec(raw: Seq<char>, index: int) -> Result<LineModel, (int, Seq<char>)> {
    let n = leading_spaces(raw);
    let rest = raw.skip(n as int);
    if n % 2 == 1 {
        Err((index, odd_indent_reason()))
    } else if rest.len() >= 2 && rest[0] == '-' && rest[1] == ' ' {
        Ok(((n / 2) as nat, rest.skip(2)))
    } else if rest.len() == 1 && rest[0] == '-' {
        Ok(((n / 2) as nat, Seq::empty()))
    } else {
        Err((index, missing_dash_reason() + str_debug(rest)))
    }
}

/// All raw lines parsed in order; the first failing line decides the error.
pub open spec fn parse_all(raws: Seq<Seq<char>>) -> Result<Seq<LineModel>, (int, Seq<char>)>
    decreases raws.len(),
{
    if raws.len() == 0 {
        Ok(Seq::empty())
    } else {
        match parse_all(raws.drop_last()) {
            Err(e) => Err(e),
            Ok(ls) => match parse_line_spec(raws.last(), raws.len() as int) {
                Err(e) => Err(e),
                Ok(l) => Ok(ls.push(l)),
            },
        }
    }
}

/// No line is indented more than one level deeper than the line before.
pub open spec fn no_jump(ls: Seq<LineModel>) -> bool {
    forall|i: int| 0 <= i < ls.len() - 1 ==> #[trigger] ls[i + 1].0 <= ls[i].0 + 1
}

/// What `parse` gives for a text: the lines of the tree, or the
/// (line, reason) of its error.
pub open spec fn parse_outcome(s: Seq<char>) -> Result<Seq<LineModel>, (int, Seq<char>)> {
    if s.len() == 0 {
        Ok(Seq::empty())
    } else {
        match parse_all(raw_lines(s)) {
            Err(e) => Err(e),
            Ok(ls) => if ls[0].0 != 0 {
                Err((1, indented_first_reason()))
            } else if !no_jump(ls) {
                Err((0, level_jump_reason()))
            } else {
                Ok(ls)
            },
        }
    }
}

/// `e` is a malformed-block error with this line and reason.
pub open spec fn is_malformed(e: CoreError, line: int, reason: Seq<char>) -> bool {
    &&& e matches CoreError::MalformedBlock { line: l, reason: r }
    &&& l == line
    &&& r@ == reason
}

pub proof fn lemma_split_nl_len(s: Seq<char>)
    ensures
        split_nl(s).len() >= 1,
    decreases s.len(),
{
    if s.len() > 0 {
        lemma_split_nl_len(s.drop_last());
    }
}

pub proof fn lemma_parse_all_len(raws: Seq<Seq<char>>)
    ensures
        parse_all(raws) matches Ok(ls) ==> ls.len() == raws.len(),
    decreases raws.len(),
{
    if raws.len() > 0 {
        lemma_parse_all_len(raws.drop_last());
    }
}

proof fn lemma_leading_spaces(s: Seq<char>, i: int)
    requires
        0 <= i <= s.len(),
        forall|j: int| 0 <= j < i ==> #[trigger] s[j] == ' ',
        i == s.len() || s[i] != ' ',
    ensures
        leading_spaces(s) == i,
    decreases s.len(),
{
    if s.len() > 0 && i > 0 {
        let t = s.drop_first();
        assert forall|j: int| 0 <= j < i - 1 implies #[trigger] t[j] == ' ' by {
            assert(t[j] == s[j + 1]);
        }
        if i - 1 < t.len() {
            assert(t[i - 1] == s[i]);
        }
        lemma_leading_spaces(t, i - 1);
    }
}

/// The pieces of a prefix, but its last, are pieces of the whole.
pub proof fn lemma_split_nl_prefix(s: Seq<char>, i: int)
    requires
        0 <= i <= s.len(),
    ensures
        split_nl(s).len() >= split_nl(s.take(i)).len(),
        forall|k: int|
            0 <= k < split_nl(s.take(i)).len() - 1 ==> #[trigger] split_nl(s)[k] == split_nl(
                s.take(i),
            )[k],
    decreases s.len(),
{
    lemma_split_nl_len(s);
    if i < s.len() {
        assert(s.drop_last().take(i) == s.take(i));
        lemma_split_nl_prefix(s.drop_last(), i);
        lemma_split_nl_len(s.drop_last());
    } else {
        assert(s.take(i) == s);
    }
}

proof fn lemma_raw_lines_prefix(s: Seq<char>, i: int, pre: Seq<Seq<char>>)
    requires
        0 <= i < s.len(),
        s[i] == '\n',
        split_nl(s.take(i)) == pre,
    ensures
        pre.len() <= raw_lines(s).len(),
        raw_lines(s).take(pre.len() as int) == pre,
{
    let t = s.take(i + 1);
    assert(t.drop_last() == s.take(i));
    lemma_split_nl_len(s.take(i));
    assert(split_nl(t) == pre.push(Seq::empty()));
    lemma_split_nl_prefix(s, i + 1);
    assert(s.take(i + 1) == t);
    let p = split_nl(s);
    assert forall|k: int| 0 <= k < pre.len() implies #[trigger] raw_lines(s)[k] == pre[k] by {
        assert(p[k] == split_nl(t)[k]);
    }
    assert(raw_lines(s).take(pre.len() as int) =~= pre);
}

proof fn lemma_parse_all_prefix(raws: Seq<Seq<char>>, k: int)
    requires
        0 <= k <= raws.len(),
        parse_all(raws.take(k)) is Err,
    ensures
        parse_all(raws) == parse_all(raws.take(k)),
    decreases raws.len(),
{
    if k < raws.len() {
        assert(raws.drop_last().take(k) == raws.take(k));
        lemma_parse_all_prefix(raws.drop_last(), k);
    } else {
        assert(raws.take(k) == raws);
    }
}

proof fn lemma_split_nl_single(s: Seq<char>)
    requires
        split_nl(s).len() == 1,
    ensures
        split_nl(s)[0] == s,
    decreases s.len(),
{
    if s.len() > 0 {
        lemma_split_nl_len(s.drop_last());
        if s.last() != '\n' {
            lemma_split_nl_single(s.drop_last());
            assert(s.drop_last().push(s.last()) == s);
        }
    }
}

// ---------------------------------------------------------------- parse: code

/// One parsed line: level and text.
struct Line {
    level: usize,
    content: String,
}

spec fn line_model(l: Line) -> LineModel {
    (l.level as nat, l.content@)
}

spec fn lines_model(ls: Seq<Line>) -> Seq<LineModel> {
    Seq::new(ls.len(), |i: int| line_model(ls[i]))
}

fn malformed(line: usize, reason: &str) -> (e: CoreError)
    ensures
        is_malformed(e, line as int, reason@),
{
    CoreError::MalformedBlock { line, reason: String::from_str(reason) }
}

fn parse_line(v: &Vec<char>, from: usize, to: usize, index: usize) -> (r: Result<Line, CoreError>)
    requires
        from <= to <= v.len(),
    ensures
        match (r, parse_line_spec(v@.subrange(from as int, to as int), index as int)) {
            (Ok(x), Ok(l)) => line_model(x) == l && x.level <= (to - from) / 2,
            (Err(e), Err(p)) => is_malformed(e, p.0, p.1),
            _ => false,
        },
{
    let ghost raw = v@.subrange(from as int, to as int);
    let mut k = from;
    while k < to && v[k] == ' '
        invariant
            from <= k <= to <= v.len(),
            forall|j: int| from <= j < k ==> #[trigger] v@[j] == ' ',
        decreases to - k,
    {
        k += 1;
    }
    let n = k - from;
    proof {
        assert forall|j: int| 0 <= j < n implies #[trigger] raw[j] == ' ' by {
            assert(raw[j] == v@[from + j]);
        }
        if k < to {
            assert(raw[n as int] == v@[k as int]);
        }
        lemma_leading_spaces(raw, n as int);
        assert(raw.skip(n as int) == v@.subrange(k as int, to as int));
    }
    if n % 2 == 1 {
        return Err(malformed(index, "l'indentazione non è un multiplo di due spazi"));
    }
    if to - k >= 2 && v[k] == '-' && v[k + 1] == ' ' {
        let content = string_from_range(v, k + 2, to);
        assert(v@.subrange(k as int, to as int).skip(2) == v@.subrange(k + 2, to as int));
        Ok(Line { level: n / 2, content })
    } else if to - k == 1 && v[k] == '-' {
        Ok(Line { level: n / 2, content: String::new() })
    } else {
        let rest = string_from_range(v, k, to);
        let mut reason = String::from_str("la riga non inizia con \"- \": ");
        let shown = debug_text(rest.as_str());
        reason.append(shown.as_str());
        Err(CoreError::MalformedBlock { line: index, reason })
    }
}

/// Splits the characters of a non-empty text into lines and parses each.
fn read_lines(v: &Vec<char>) -> (r: Result<Vec<Line>, CoreError>)
    requires
        v.len() > 0,
    ensures
        match (r, parse_all(raw_lines(v@))) {
            (Ok(x), Ok(ls)) => lines_model(x@) == ls && forall|i: int|
                0 <= i < x@.len() ==> (#[trigger] x@[i]).level <= usize::MAX / 2,
            (Err(e), Err(p)) => is_malformed(e, p.0, p.1),
            _ => false,
        },
{
    let n = v.len();
    let mut lines: Vec<Line> = Vec::new();
    let mut start: usize = 0;
    let mut i: usize = 0;
    let ghost mut done: Seq<Seq<char>> = Seq::empty();
    proof {
        assert(v@.take(0) =~= Seq::<char>::empty());
        assert(v@.subrange(0, 0) =~= Seq::<char>::empty());
        assert(split_nl(v@.take(0)) == seq![Seq::<char>::empty()]);
        assert(done.push(v@.subrange(0, 0)) =~= seq![Seq::<char>::empty()]);
        assert(lines_model(lines@) =~= Seq::<LineModel>::empty());
    }
    while i < n
        invariant
            n == v.len(),
            start <= i <= n,
            split_nl(v@.take(i as int)) == done.push(v@.subrange(start as int, i as int)),
            parse_all(done) == Ok::<Seq<LineModel>, (int, Seq<char>)>(lines_model(lines@)),
            lines@.len() == done.len(),
            lines@.len() <= start,
            forall|j: int| 0 <= j < lines@.len() ==> (#[trigger] lines@[j]).level <= usize::MAX / 2,
        decreases n - i,
    {
        proof {
            assert(v@.take(i + 1).drop_last() == v@.take(i as int));
            assert(v@.take(i + 1).last() == v@[i as int]);
        }
        if v[i] == '\n' {
            let ghost cur = v@.subrange(start as int, i as int);
            let line = match parse_line(v, start, i, lines.len() + 1) {
                Ok(l) => l,
                Err(e) => {
                    proof {
                        assert(done.push(cur).drop_last() == done);
                        lemma_split_nl_len(v@);
                        lemma_raw_lines_prefix(v@, i as int, done.push(cur));
                        lemma_parse_all_prefix(raw_lines(v@), done.len() + 1int);
                    }
                    return Err(e);
                },
            };
            proof {
                assert(done.push(cur).drop_last() == done);
                assert(lines_model(lines@.push(line)) == lines_model(lines@).push(line_model(line)));
            }
            lines.push(line);
            proof {
                lemma_split_nl_len(v@.take(i as int));
                assert(split_nl(v@.take(i + 1)) == done.push(cur).push(Seq::empty()));
                done = done.push(cur);
                assert(v@.subrange(i + 1, i + 1) =~= Seq::<char>::empty());
            }
            start = i + 1;
        } else {
            proof {
                let cur = v@.subrange(start as int, i as int);
                assert(v@.subrange(start as int, i + 1) == cur.push(v@[i as int]));
                let p = split_nl(v@.take(i as int));
                assert(split_nl(v@.take(i + 1)) == p.update(p.len() - 1, p.last().push(v@[i as int])));
                assert(p.update(p.len() - 1, p.last().push(v@[i as int])) =~= done.push(cur.push(v@[i as int])));
            }
        }
        i += 1;
    }
    assert(v@.take(n as int) == v@);
    if start < n {
        let ghost cur = v@.subrange(start as int, n as int);
        assert(done.push(cur).drop_last() == done);
        assert(done.push(cur).last() == cur);
        assert(raw_lines(v@) == done.push(cur));
        let line = match parse_line(v, start, n, lines.len() + 1) {
            Ok(l) => l,
            Err(e) => { return Err(e); },
        };
        assert(lines_model(lines@.push(line)) == lines_model(lines@).push(line_model(line)));
        lines.push(line);
    } else {
        assert(done.push(v@.subrange(start as int, n as int)).drop_last() == done);
        assert(v@.subrange(start as int, n as int).len() == 0);
        assert(raw_lines(v@) == done);
    }
    Ok(lines)
}


fn build_tree(lines: &Vec<Line>, idx: &mut usize, level: usize) -> (blocks: Vec<Block>)
    requires
        *old(idx) <= lines@.len(),
        *old(idx) < lines@.len() ==> lines@[*old(idx) as int].level <= level,
        forall|k: int|
            *old(idx) <= k < lines@.len() - 1 ==> #[trigger] lines@[k + 1].level <= lines@[k].level
                + 1,
        forall|k: int| 0 <= k < lines@.len() ==> (#[trigger] lines@[k]).level < usize::MAX,
    ensures
        *old(idx) <= *final(idx) <= lines@.len(),
        *final(idx) == lines@.len() || lines@[*final(idx) as int].level < level,
        tree_lines(trees_of(blocks@), level as nat) == lines_model(lines@).subrange(
            *old(idx) as int,
            *final(idx) as int,
        ),
    decreases lines@.len() - *old(idx),
{
    let ghost start = *idx;
    let mut blocks: Vec<Block> = Vec::new();
    proof {
        assert(lines_model(lines@).subrange(start as int, start as int) =~= Seq::<LineModel>::empty());
    }
    while *idx < lines.len()
        invariant
            start == *old(idx),
            start <= *idx <= lines@.len(),
            *idx < lines@.len() ==> lines@[*idx as int].level <= level,
            forall|k: int|
                start <= k < lines@.len() - 1 ==> #[trigger] lines@[k + 1].level <= lines@[k].level
                    + 1,
            forall|k: int| 0 <= k < lines@.len() ==> (#[trigger] lines@[k]).level < usize::MAX,
            tree_lines(trees_of(blocks@), level as nat) == lines_model(lines@).subrange(
                start as int,
                *idx as int,
            ),
        ensures
            start <= *idx <= lines@.len(),
            *idx == lines@.len() || lines@[*idx as int].level < level,
            tree_lines(trees_of(blocks@), level as nat) == lines_model(lines@).subrange(
                start as int,
                *idx as int,
            ),
        decreases lines@.len() - *idx,
    {
        let i = *idx;
        if lines[i].level < level {
            break;
        }
        let content = lines[i].content.clone();
        *idx = i + 1;
        let children = build_tree(lines, idx, level + 1);
        let ghost mid = *idx;
        let b = Block { content, children };
        proof {
            let m = lines_model(lines@);
            let prev = trees_of(blocks@);
            lemma_trees_of_push(blocks@, b);
            lemma_tree_lines_push(prev, tree_of(b), level as nat);
            assert(m[i as int] == (level as nat, b.content@));
            assert(m.subrange(start as int, mid as int) =~= m.subrange(start as int, i as int)
                + seq![m[i as int]] + m.subrange(i + 1, mid as int));
        }
        blocks.push(b);
    }
    blocks
}

/// Converts the text of a page file into its block tree.
pub fn parse(text: &str) -> (res: Result<Vec<Block>, CoreError>)
    ensures
        match (res, parse_outcome(text@)) {
            (Ok(bs), Ok(ls)) => tree_lines(trees_of(bs@), 0) == ls,
            (Err(e), Err(p)) => is_malformed(e, p.0, p.1),
            _ => false,
        },
        res matches Ok(bs) ==> depth(trees_of(bs@)) < usize::MAX,
{
    let v = chars_of(text);
    if v.len() == 0 {
        proof {
            assert(trees_of(Seq::<Block>::empty()) == Seq::<Tree>::empty());
        }
        return Ok(Vec::new());
    }
    let lines = match read_lines(&v) {
        Ok(lines) => lines,
        Err(e) => { return Err(e); },
    };
    proof {
        lemma_split_nl_len(v@);
        lemma_parse_all_len(raw_lines(v@));
        if split_nl(v@).len() == 1 {
            lemma_split_nl_single(v@);
        }
    }
    if lines[0].level != 0 {
        return Err(malformed(1, "il primo blocco non può essere indentato"));
    }
    let mut i: usize = 0;
    while i < lines.len() - 1
        invariant
            lines@.len() >= 1,
            i < lines@.len(),
            lines@[0].level == 0,
            v@ == text@,
            v@.len() > 0,
            parse_all(raw_lines(v@)) == Ok::<Seq<LineModel>, (int, Seq<char>)>(lines_model(lines@)),
            forall|j: int| 0 <= j < lines@.len() ==> (#[trigger] lines@[j]).level <= usize::MAX / 2,
            forall|k: int| 0 <= k < i ==> #[trigger] lines@[k + 1].level <= lines@[k].level + 1,
        decreases lines@.len() - i,
    {
        if lines[i + 1].level > lines[i].level + 1 {
            proof {
                let m = lines_model(lines@);
                assert(m[i + 1].0 > m[i as int].0 + 1);
                assert(lines@[0].level == 0);
                if let Ok(ls) = parse_all(raw_lines(v@)) {
                    assert(ls == m);
                    assert(ls[0].0 == 0);
                    assert(!no_jump(ls));
                }
            }
            return Err(malformed(0, "salto di più di un livello di indentazione"));
        }
        i += 1;
    }
    proof {
        let m = lines_model(lines@);
        assert forall|k: int| 0 <= k < m.len() - 1 implies #[trigger] m[k + 1].0 <= m[k].0 + 1 by {
            assert(lines@[k + 1].level <= lines@[k].level + 1);
        }
    }
    let mut idx: usize = 0;
    let blocks = build_tree(&lines, &mut idx, 0);
    proof {
        let m = lines_model(lines@);
        assert(m.subrange(0, lines@.len() as int) == m);
        assert forall|j: int| 0 <= j < m.len() implies (#[trigger] m[j]).0 <= usize::MAX / 2 by {
            assert(m[j].0 == lines@[j].level);
        }
        lemma_depth_by_levels(trees_of(blocks@), 0, (usize::MAX / 2) as nat);
    }
    Ok(blocks)
}

} // verus!
