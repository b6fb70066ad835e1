//! The round-trip laws of the block format: what `parse` gives back of
//! `render`, and what `render` gives back of `parse`.
use vstd::prelude::*;

use crate::block::Tree;
use crate::parser::{
    LineModel, tree_lines, spaces, line_text, lines_text, render_text, split_nl, raw_lines,
    leading_spaces, parse_line_spec, parse_all, no_jump, parse_outcome, lemma_split_nl_len,
    lemma_lines_text_push, lemma_parse_all_len,
};

verus! {

/// No text of the lines holds a newline.
pub open spec fn single_line_texts(ls: Seq<LineModel>) -> bool {
    forall|i: int, j: int| 0 <= i < ls.len() && 0 <= j < ls[i].1.len() ==> #[trigger] ls[i].1[j] != '\n'
}

/// The lines of a forest at `level`: all at least `level` deep, the first at
/// `level`, and no jump of more than one level.
pub open spec fn well_leveled(ls: Seq<LineModel>, level: nat) -> bool {
    &&& forall|i: int| 0 <= i < ls.len() ==> #[trigger] ls[i].0 >= level
    &&& ls.len() > 0 ==> ls[0].0 == level
    &&& no_jump(ls)
}

proof fn lemma_no_jump_concat(x: Seq<LineModel>, y: Seq<LineModel>)
    requires
        no_jump(x),
        no_jump(y),
        x.len() > 0 && y.len() > 0 ==> y[0].0 <= x.last().0 + 1,
    ensures
        no_jump(x + y),
{
    let z = x + y;
    assert forall|i: int| 0 <= i < z.len() - 1 implies #[trigger] z[i + 1].0 <= z[i].0 + 1 by {
        if i + 1 < x.len() {
            assert(z[i + 1] == x[i + 1] && z[i] == x[i]);
            assert(x[i + 1].0 <= x[i].0 + 1);
        } else if i + 1 == x.len() {
            assert(z[i + 1] == y[0] && z[i] == x.last());
        } else {
            let k = i - x.len();
            assert(z[i + 1] == y[k + 1] && z[i] == y[k]);
            assert(y[k + 1].0 <= y[k].0 + 1);
        }
    }
}

pub proof fn lemma_tree_lines_well_leveled(ts: Seq<Tree>, level: nat)
    ensures
        well_leveled(tree_lines(ts, level), level),
        tree_lines(ts, level).len() == 0 <==> ts.len() == 0,
    decreases ts,
{
    if ts.len() > 0 {
        let h = seq![(level, ts[0].content)];
        let a = tree_lines(ts[0].children, level + 1);
        let b = tree_lines(ts.drop_first(), level);
        lemma_tree_lines_well_leveled(ts[0].children, level + 1);
        lemma_tree_lines_well_leveled(ts.drop_first(), level);
        assert(no_jump(h));
        lemma_no_jump_concat(h, a);
        let ha = h + a;
        assert forall|i: int| 0 <= i < ha.len() implies #[trigger] ha[i].0 >= level by {
            if i > 0 {
                assert(ha[i] == a[i - 1]);
            }
        }
        lemma_no_jump_concat(ha, b);
        let all = ha + b;
        assert(all == tree_lines(ts, level));
        assert forall|i: int| 0 <= i < all.len() implies #[trigger] all[i].0 >= level by {
            if i < ha.len() {
                assert(all[i] == ha[i]);
            } else {
                assert(all[i] == b[i - ha.len()]);
            }
        }
        assert(all[0] == h[0]);
    }
}

/// The preorder lines determine the forest: two forests with the same
/// lines at the same level are the same forest.
pub proof fn lemma_tree_lines_injective(a: Seq<Tree>, b: Seq<Tree>, level: nat)
    requires
        tree_lines(a, level) == tree_lines(b, level),
    ensures
        a == b,
    decreases a,
{
    lemma_tree_lines_well_leveled(a, level);
    lemma_tree_lines_well_leveled(b, level);
    if a.len() == 0 {
        assert(a =~= b);
    } else {
        let x = tree_lines(a, level);
        let aa = tree_lines(a[0].children, level + 1);
        let ra = tree_lines(a.drop_first(), level);
        let ab = tree_lines(b[0].children, level + 1);
        let rb = tree_lines(b.drop_first(), level);
        lemma_tree_lines_well_leveled(a[0].children, level + 1);
        lemma_tree_lines_well_leveled(a.drop_first(), level);
        lemma_tree_lines_well_leveled(b[0].children, level + 1);
        lemma_tree_lines_well_leveled(b.drop_first(), level);
        let y = x.drop_first();
        assert(y == aa + ra);
        assert(y == ab + rb);
        assert(a[0].content == b[0].content) by {
            assert(x[0] == (level, a[0].content));
            assert(tree_lines(b, level)[0] == (level, b[0].content));
        }
        if aa.len() < ab.len() {
            let p = aa.len() as int;
            assert(y[p] == ab[p]);
            assert(ra.len() > 0);
            assert(y[p] == ra[0]);
            assert(false);
        }
        if ab.len() < aa.len() {
            let p = ab.len() as int;
            assert(y[p] == aa[p]);
            assert(rb.len() > 0);
            assert(y[p] == rb[0]);
            assert(false);
        }
        assert(aa == y.take(aa.len() as int));
        assert(ab == y.take(ab.len() as int));
        assert(ra == y.skip(aa.len() as int));
        assert(rb == y.skip(ab.len() as int));
        lemma_tree_lines_injective(a[0].children, b[0].children, level + 1);
        lemma_tree_lines_injective(a.drop_first(), b.drop_first(), level);
        assert(a[0] == b[0]);
        assert forall|i: int| 0 <= i < a.len() implies a[i] == b[i] by {
            if i > 0 {
                assert(a[i] == a.drop_first()[i - 1]);
                assert(b[i] == b.drop_first()[i - 1]);
            }
        }
        assert(a =~= b);
    }
}


/// The text of a line without its newline.
pub open spec fn raw_text(l: LineModel) -> Seq<char> {
    spaces(2 * l.0) + seq!['-', ' '] + l.1
}

/// The raw text of each line.
pub open spec fn raw_texts(ls: Seq<LineModel>) -> Seq<Seq<char>> {
    Seq::new(ls.len(), |i: int| raw_text(ls[i]))
}

pub proof fn lemma_split_nl_append_plain(s: Seq<char>, w: Seq<char>)
    requires
        forall|j: int| 0 <= j < w.len() ==> #[trigger] w[j] != '\n',
    ensures
        split_nl(s + w) == split_nl(s).update(split_nl(s).len() - 1, split_nl(s).last() + w),
    decreases w.len(),
{
    lemma_split_nl_len(s);
    if w.len() == 0 {
        assert(s + w == s);
        assert(split_nl(s).last() + w == split_nl(s).last());
        assert(split_nl(s).update(split_nl(s).len() - 1, split_nl(s).last()) =~= split_nl(s));
    } else {
        let w0 = w.drop_last();
        lemma_split_nl_append_plain(s, w0);
        assert((s + w).drop_last() == s + w0);
        assert((s + w).last() == w.last());
        lemma_split_nl_len(s + w0);
        let p = split_nl(s);
        let q = split_nl(s + w0);
        assert(q.last() == p.last() + w0);
        assert(q.len() == p.len());
        assert((p.last() + w0).push(w.last()) =~= p.last() + w);
        assert(q.update(q.len() - 1, q.last().push(w.last())) =~= p.update(
            p.len() - 1,
            p.last() + w,
        ));
    }
}

proof fn lemma_raw_text_single_line(l: LineModel)
    requires
        forall|j: int| 0 <= j < l.1.len() ==> #[trigger] l.1[j] != '\n',
    ensures
        forall|j: int| 0 <= j < raw_text(l).len() ==> #[trigger] raw_text(l)[j] != '\n',
{
    let r = raw_text(l);
    let n = 2 * l.0;
    assert forall|j: int| 0 <= j < r.len() implies #[trigger] r[j] != '\n' by {
        if j < n {
            assert(r[j] == ' ');
        } else if j < n + 2 {
        } else {
            assert(r[j] == l.1[j - n - 2]);
        }
    }
}

proof fn lemma_split_lines_text(ls: Seq<LineModel>)
    requires
        single_line_texts(ls),
    ensures
        split_nl(lines_text(ls)) == raw_texts(ls).push(Seq::empty()),
    decreases ls.len(),
{
    if ls.len() == 0 {
        assert(split_nl(Seq::<char>::empty()) == seq![Seq::<char>::empty()]);
        assert(raw_texts(ls).push(Seq::empty()) =~= seq![Seq::<char>::empty()]);
    } else {
        let prev = ls.drop_last();
        let l = ls.last();
        assert forall|i: int, j: int| 0 <= i < prev.len() && 0 <= j < prev[i].1.len() implies #[trigger] prev[i].1[j] != '\n' by {
            assert(prev[i] == ls[i]);
        }
        lemma_split_lines_text(prev);
        assert(ls == prev.push(l));
        lemma_lines_text_push(prev, l);
        let t = lines_text(prev);
        let r = raw_text(l);
        assert forall|j: int| 0 <= j < l.1.len() implies #[trigger] l.1[j] != '\n' by {
            assert(ls[ls.len() - 1].1[j] != '\n');
        }
        lemma_raw_text_single_line(l);
        lemma_split_nl_append_plain(t, r);
        assert(line_text(l) == r + seq!['\n']);
        assert(t + line_text(l) == (t + r).push('\n'));
        assert((t + r).push('\n').drop_last() == t + r);
        let p = split_nl(t);
        assert(p.update(p.len() - 1, p.last() + r) =~= raw_texts(prev).push(r));
        assert(raw_texts(prev).push(r).push(Seq::empty()) =~= raw_texts(ls).push(Seq::empty()));
    }
}

proof fn lemma_parse_raw_text(l: LineModel, index: int)
    ensures
        parse_line_spec(raw_text(l), index) == Ok::<LineModel, (int, Seq<char>)>(l),
{
    let r = raw_text(l);
    let n = 2 * l.0;
    assert forall|j: int| 0 <= j < n implies #[trigger] r[j] == ' ' by {}
    assert(r[n as int] == '-');
    lemma_leading_spaces_at(r, n as int);
    let rest = r.skip(n as int);
    assert(rest == seq!['-', ' '] + l.1);
    assert(rest.skip(2) == l.1);
    assert((n / 2) as nat == l.0);
}

proof fn lemma_leading_spaces_at(s: Seq<char>, i: int)
    requires
        0 <= i <= s.len(),
        forall|j: int| 0 <= j < i ==> #[trigger] s[j] == ' ',
        i == s.len() || s[i] != ' ',
    ensures
        leading_spaces(s) == i,
    decreases s.len(),
{
    if s.len() > 0 && i > 0 {
        let t = s.drop_first();
        assert forall|j: int| 0 <= j < i - 1 implies #[trigger] t[j] == ' ' by {
            assert(t[j] == s[j + 1]);
        }
        if i - 1 < t.len() {
            assert(t[i - 1] == s[i]);
        }
        lemma_leading_spaces_at(t, i - 1);
    }
}

proof fn lemma_parse_all_raw_texts(ls: Seq<LineModel>)
    ensures
        parse_all(raw_texts(ls)) == Ok::<Seq<LineModel>, (int, Seq<char>)>(ls),
    decreases ls.len(),
{
    if ls.len() > 0 {
        let prev = ls.drop_last();
        assert(raw_texts(ls).drop_last() == raw_texts(prev));
        lemma_parse_all_raw_texts(prev);
        lemma_parse_raw_text(ls.last(), ls.len() as int);
        assert(raw_texts(ls).last() == raw_text(ls.last()));
        assert(prev.push(ls.last()) == ls);
        assert(raw_texts(ls).len() > 0);
    } else {
        assert(raw_texts(ls) =~= Seq::<Seq<char>>::empty());
        assert(ls =~= Seq::<LineModel>::empty());
    }
}

/// Law: parsing the rendered text of a forest whose texts hold no newline
/// gives back exactly that forest's lines; since the lines determine the
/// forest, `parse(render(blocks))` gives back the blocks.
pub proof fn law_parse_render(ts: Seq<Tree>)
    requires
        single_line_texts(tree_lines(ts, 0)),
    ensures
        parse_outcome(render_text(ts)) == Ok::<Seq<LineModel>, (int, Seq<char>)>(
            tree_lines(ts, 0),
        ),
        forall|us: Seq<Tree>| tree_lines(us, 0) == tree_lines(ts, 0) ==> us == ts,
{
    let ls = tree_lines(ts, 0);
    lemma_tree_lines_well_leveled(ts, 0);
    let text = lines_text(ls);
    if ls.len() == 0 {
        assert(text == Seq::<char>::empty());
    } else {
        lemma_split_lines_text(ls);
        assert(split_nl(text).last() == Seq::<char>::empty());
        assert(split_nl(text).drop_last() =~= raw_texts(ls));
        assert(raw_lines(text) == raw_texts(ls));
        lemma_parse_all_raw_texts(ls);
        assert(text.len() > 0) by {
            assert(split_nl(text).len() > 1);
            if text.len() == 0 {
                assert(split_nl(text) == seq![Seq::<char>::empty()]);
            }
        }
    }
    assert forall|us: Seq<Tree>| tree_lines(us, 0) == tree_lines(ts, 0) implies us == ts by {
        lemma_tree_lines_injective(us, ts, 0);
    }
}


/// Pieces joined back with newlines: the inverse of `split_nl`.
pub open spec fn join_nl(ps: Seq<Seq<char>>) -> Seq<char>
    decreases ps.len(),
{
    if ps.len() == 0 {
        Seq::empty()
    } else if ps.len() == 1 {
        ps[0]
    } else {
        join_nl(ps.drop_last()) + seq!['\n'] + ps.last()
    }
}

proof fn lemma_join_split(s: Seq<char>)
    ensures
        join_nl(split_nl(s)) == s,
    decreases s.len(),
{
    if s.len() > 0 {
        let t = s.drop_last();
        lemma_join_split(t);
        lemma_split_nl_len(t);
        let p = split_nl(t);
        if s.last() == '\n' {
            assert(p.push(Seq::empty()).drop_last() == p);
            assert(join_nl(p) + seq!['\n'] + Seq::<char>::empty() =~= s);
        } else {
            let q = p.update(p.len() - 1, p.last().push(s.last()));
            if p.len() == 1 {
                assert(q[0] =~= s);
            } else {
                assert(q.drop_last() == p.drop_last());
                assert(join_nl(p) == join_nl(p.drop_last()) + seq!['\n'] + p.last());
                assert(join_nl(q) =~= join_nl(p).push(s.last()));
                assert(t.push(s.last()) == s);
            }
        }
    }
}

proof fn lemma_leading_spaces_are_spaces(s: Seq<char>)
    ensures
        leading_spaces(s) <= s.len(),
        forall|j: int| 0 <= j < leading_spaces(s) ==> #[trigger] s[j] == ' ',
    decreases s.len(),
{
    if s.len() > 0 && s[0] == ' ' {
        let t = s.drop_first();
        lemma_leading_spaces_are_spaces(t);
        assert forall|j: int| 0 <= j < leading_spaces(s) implies #[trigger] s[j] == ' ' by {
            if j > 0 {
                assert(s[j] == t[j - 1]);
            }
        }
    }
}

/// The text after the indentation of a raw line is exactly `-`.
pub open spec fn bare_dash(r: Seq<char>) -> bool {
    r.skip(leading_spaces(r) as int) == seq!['-']
}

proof fn lemma_line_text_of_raw(r: Seq<char>, index: int, l: LineModel)
    requires
        parse_line_spec(r, index) == Ok::<LineModel, (int, Seq<char>)>(l),
        !bare_dash(r),
    ensures
        line_text(l) == r + seq!['\n'],
{
    let n = leading_spaces(r);
    lemma_leading_spaces_are_spaces(r);
    let rest = r.skip(n as int);
    assert(rest.len() >= 2 && rest[0] == '-' && rest[1] == ' ') by {
        if !(rest.len() >= 2 && rest[0] == '-' && rest[1] == ' ') {
            assert(rest.len() == 1 && rest[0] == '-');
            assert(rest =~= seq!['-']);
        }
    }
    assert(2 * l.0 == n);
    assert(spaces(2 * l.0) =~= r.take(n as int));
    assert(rest =~= seq!['-', ' '] + l.1);
    assert(r =~= r.take(n as int) + rest);
}

proof fn lemma_lines_text_of_raws(rs: Seq<Seq<char>>, ls: Seq<LineModel>)
    requires
        rs.len() >= 1,
        parse_all(rs) == Ok::<Seq<LineModel>, (int, Seq<char>)>(ls),
        forall|i: int| 0 <= i < rs.len() ==> !bare_dash(#[trigger] rs[i]),
    ensures
        lines_text(ls) == join_nl(rs) + seq!['\n'],
    decreases rs.len(),
{
    lemma_parse_all_len(rs);
    let prev = rs.drop_last();
    let r = rs.last();
    lemma_parse_all_len(prev);
    if let Ok(pl) = parse_all(prev) {
        if let Ok(l) = parse_line_spec(r, rs.len() as int) {
            assert(ls == pl.push(l));
            assert(!bare_dash(rs[rs.len() - 1]));
            lemma_line_text_of_raw(r, rs.len() as int, l);
            lemma_lines_text_push(pl, l);
            if rs.len() == 1 {
                assert(pl.len() == 0);
                assert(lines_text(pl) == Seq::<char>::empty());
                assert(lines_text(ls) =~= join_nl(rs) + seq!['\n']);
            } else {
                assert forall|i: int| 0 <= i < prev.len() implies !bare_dash(#[trigger] prev[i]) by {
                    assert(prev[i] == rs[i]);
                }
                lemma_lines_text_of_raws(prev, pl);
                assert(lines_text(ls) =~= join_nl(rs) + seq!['\n']);
            }
        }
    }
}

/// A text already in the format: it parses, ends with a newline (or is
/// empty), and writes every block as `- ` rather than a bare `-`.
pub open spec fn conformant(text: Seq<char>) -> bool {
    &&& parse_outcome(text) is Ok
    &&& text.len() > 0 ==> text.last() == '\n'
    &&& forall|i: int| 0 <= i < raw_lines(text).len() ==> !bare_dash(#[trigger] raw_lines(text)[i])
}

/// Law: rendering the lines that `parse` reads from a text already in the
/// format writes that text again, character for character.
pub proof fn law_render_parse(text: Seq<char>)
    requires
        conformant(text),
    ensures
        parse_outcome(text) matches Ok(ls) && lines_text(ls) == text,
{
    if text.len() > 0 {
        let t = text.drop_last();
        lemma_split_nl_len(t);
        assert(split_nl(text) == split_nl(t).push(Seq::empty()));
        let rs = raw_lines(text);
        assert(rs == split_nl(t));
        lemma_join_split(text);
        assert(split_nl(text).drop_last() == rs);
        assert(join_nl(split_nl(text)) == join_nl(rs) + seq!['\n'] + Seq::<char>::empty());
        if let Ok(ls) = parse_all(rs) {
            lemma_lines_text_of_raws(rs, ls);
        }
    } else {
        if let Ok(ls) = parse_outcome(text) {
            assert(ls == Seq::<LineModel>::empty());
        }
    }
}

/// Law: the forest that `parse` reads from a text already in the format,
/// rendered again, is that text, character for character.
pub proof fn law_render_of_parsed(text: Seq<char>, ts: Seq<Tree>)
    requires
        conformant(text),
        parse_outcome(text) == Ok::<Seq<LineModel>, (int, Seq<char>)>(tree_lines(ts, 0)),
    ensures
        render_text(ts) == text,
{
    law_render_parse(text);
}

} // verus!
