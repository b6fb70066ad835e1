//! Which events of the file system are changes of the vault's notes: a
//! markdown file under the vault root created, modified or removed by
//! another process. Watching the folder stands outside.
use vstd::prelude::*;

use crate::text::{chars_of, string_from_range};

verus! {

broadcast use vstd::std_specs::vec::group_vec_axioms;

/// A `.md` file of the vault was created, modified or removed on disk.
#[derive(Debug, Clone, PartialEq, Eq)]
pub struct VaultChange {
    /// Path relative to the vault root.
    pub relative_path: String,
}

/// The kind of a file system event.
#[derive(Debug, Clone, Copy, PartialEq, Eq, Structural)]
pub enum ChangeKind {
    Create,
    Modify,
    Remove,
    Other,
}

/// The pieces of a path between its slashes, in order: a path without a
/// slash is one piece, and two slashes in a row leave an empty piece.
pub open spec fn split_slash(p: Seq<char>) -> Seq<Seq<char>>
    decreases p.len(),
{
    if p.len() == 0 {
        seq![Seq::<char>::empty()]
    } else {
        let r = split_slash(p.drop_last());
        if p.last() == '/' {
            r.push(Seq::<char>::empty())
        } else {
            r.update(r.len() - 1, r.last().push(p.last()))
        }
    }
}

/// A piece after the first one names a component unless it is empty or `.`.
pub open spec fn is_named_piece(c: Seq<char>) -> bool {
    c.len() > 0 && c != seq!['.']
}

/// The pieces that name components: the first one when it is not empty (a
/// leading `.` stays), and every later one that is neither empty nor `.`.
pub open spec fn kept_pieces(ps: Seq<Seq<char>>) -> Seq<Seq<char>>
    decreases ps.len(),
{
    if ps.len() == 0 {
        Seq::empty()
    } else if ps.len() == 1 {
        if ps[0].len() > 0 {
            seq![ps[0]]
        } else {
            Seq::empty()
        }
    } else {
        let r = kept_pieces(ps.drop_last());
        if is_named_piece(ps.last()) {
            r.push(ps.last())
        } else {
            r
        }
    }
}

/// The component that stands for the root directory; no other component
/// holds a slash.
pub open spec fn root_mark() -> Seq<char> {
    seq!['/']
}

/// The components of a path: the root first when the path starts with a
/// slash, then the named pieces. Repeated slashes, a trailing slash and `.`
/// (but at the start of a relative path) name nothing.
pub open spec fn components(p: Seq<char>) -> Seq<Seq<char>> {
    let root = if p.len() > 0 && p[0] == '/' {
        seq![root_mark()]
    } else {
        Seq::empty()
    };
    root + kept_pieces(split_slash(p))
}

/// A file name whose extension is `md`: it ends with `.md` and has
/// something before that dot.
pub open spec fn is_md_name(n: Seq<char>) -> bool {
    n.len() >= 4 && n.skip(n.len() - 3) == seq!['.', 'm', 'd']
}

/// A path whose last component is a file name with the extension `md`.
pub open spec fn is_md_file(p: Seq<char>) -> bool {
    let c = components(p);
    c.len() > 0 && is_md_name(c.last())
}

/// The path lies under the root: the components of the root begin those
/// of the path.
pub open spec fn is_under(root: Seq<char>, p: Seq<char>) -> bool {
    let rc = components(root);
    let pc = components(p);
    rc.len() <= pc.len() && pc.take(rc.len() as int) == rc
}

/// Components joined by slashes.
pub open spec fn join_slash(cs: Seq<Seq<char>>) -> Seq<char>
    decreases cs.len(),
{
    if cs.len() == 0 {
        Seq::empty()
    } else if cs.len() == 1 {
        cs[0]
    } else {
        join_slash(cs.drop_last()) + seq!['/'] + cs.last()
    }
}

/// The text of a path made of components: a leading root is written as a
/// slash, and the others are joined by slashes.
pub open spec fn path_text(cs: Seq<Seq<char>>) -> Seq<char> {
    if cs.len() > 0 && cs[0] == root_mark() {
        seq!['/'] + join_slash(cs.skip(1))
    } else {
        join_slash(cs)
    }
}

/// The path relative to the root: the text of the components of the path
/// that follow those of the root.
pub open spec fn relative_to(root: Seq<char>, p: Seq<char>) -> Seq<char> {
    path_text(components(p).skip(components(root).len() as int))
}

/// The components of a path as texts.
fn components_of(p: &Vec<char>) -> (cs: Vec<Vec<char>>)
    ensures
        cs@.map_values(|c: Vec<char>| c@) == components(p@),
{
    let n = p.len();
    let mut out: Vec<Vec<char>> = Vec::new();
    if n > 0 && p[0] == '/' {
        let mut r: Vec<char> = Vec::new();
        r.push('/');
        out.push(r);
        assert(out@.map_values(|c: Vec<char>| c@) =~= seq![root_mark()]);
    } else {
        assert(out@.map_values(|c: Vec<char>| c@) =~= Seq::<Seq<char>>::empty());
    }
    let ghost root_part = out@.map_values(|c: Vec<char>| c@);
    let mut cur: Vec<char> = Vec::new();
    let mut first = true;
    let ghost mut done: Seq<Seq<char>> = Seq::empty();
    assert(p@.take(0) =~= Seq::<char>::empty());
    assert(split_slash(p@.take(0)) =~= done.push(cur@));
    for i in 0..n
        invariant
            n == p@.len(),
            split_slash(p@.take(i as int)) == done.push(cur@),
            first == (done.len() == 0),
            out@.map_values(|c: Vec<char>| c@) == root_part + kept_pieces(done),
            root_part == (if p@.len() > 0 && p@[0] == '/' {
                seq![root_mark()]
            } else {
                Seq::<Seq<char>>::empty()
            }),
    {
        let c = p[i];
        proof {
            assert(p@.take(i + 1).drop_last() =~= p@.take(i as int));
            assert(p@.take(i + 1).last() == c);
        }
        if c == '/' {
            let named = if first {
                cur.len() > 0
            } else {
                cur.len() > 0 && !(cur.len() == 1 && cur[0] == '.')
            };
            let ghost piece = cur@;
            proof {
                if cur.len() == 1 && cur[0] == '.' {
                    assert(piece =~= seq!['.']);
                }
                if piece == seq!['.'] {
                    assert(cur@[0] == '.');
                }
                assert(done.push(piece).drop_last() =~= done);
            }
            let ghost before = out@;
            if named {
                out.push(cur);
                proof {
                    assert(out@.map_values(|c: Vec<char>| c@) =~= before.map_values(|c: Vec<char>| c@).push(piece));
                }
            }
            cur = Vec::new();
            proof {
                done = done.push(piece);
                assert(split_slash(p@.take(i + 1)) =~= done.push(cur@));
            }
            first = false;
        } else {
            cur.push(c);
            proof {
                assert(split_slash(p@.take(i + 1)) =~= done.push(cur@));
            }
        }
    }
    let named = if first {
        cur.len() > 0
    } else {
        cur.len() > 0 && !(cur.len() == 1 && cur[0] == '.')
    };
    let ghost piece = cur@;
    proof {
        if cur.len() == 1 && cur[0] == '.' {
            assert(piece =~= seq!['.']);
        }
        if piece == seq!['.'] {
            assert(cur@[0] == '.');
        }
        assert(done.push(piece).drop_last() =~= done);
        assert(p@.take(n as int) =~= p@);
    }
    let ghost before = out@;
    if named {
        out.push(cur);
        proof {
            assert(out@.map_values(|c: Vec<char>| c@) =~= before.map_values(|c: Vec<char>| c@).push(piece));
        }
    }
    out
}

/// Whether two texts are equal.
fn same_chars(a: &Vec<char>, b: &Vec<char>) -> (e: bool)
    ensures
        e == (a@ == b@),
{
    if a.len() != b.len() {
        return false;
    }
    let mut i: usize = 0;
    while i < a.len()
        invariant
            a@.len() == b@.len(),
            i <= a@.len(),
            forall|q: int| 0 <= q < i ==> a@[q] == b@[q],
        decreases a@.len() - i,
    {
        if a[i] != b[i] {
            return false;
        }
        i += 1;
    }
    assert(a@ =~= b@);
    true
}

/// The text of the components `cs[from..]`.
fn path_text_from(cs: &Vec<Vec<char>>, from: usize) -> (t: String)
    requires
        from <= cs@.len(),
    ensures
        t@ == path_text(cs@.map_values(|c: Vec<char>| c@).skip(from as int)),
{
    let ghost all = cs@.map_values(|c: Vec<char>| c@);
    let ghost rest = all.skip(from as int);
    let m = cs.len();
    let mut t = String::new();
    let mut start = from;
    proof {
        reveal_strlit("/");
    }
    if from < m && cs[from].len() == 1 && cs[from][0] == '/' {
        assert(rest[0] =~= root_mark());
        t.append("/");
        start = from + 1;
    } else {
        proof {
            if rest.len() > 0 {
                assert(rest[0] == cs@[from as int]@);
                if rest[0] == root_mark() {
                    assert(cs@[from as int]@[0] == '/');
                }
            }
        }
    }
    let ghost lead = t@;
    assert(all.subrange(start as int, start as int) =~= Seq::<Seq<char>>::empty());
    for q in start..m
        invariant
            start <= m == cs@.len(),
            all == cs@.map_values(|c: Vec<char>| c@),
            t@ == lead + join_slash(all.subrange(start as int, q as int)),
    {
        let ghost sub = all.subrange(start as int, q + 1);
        proof {
            assert(sub.drop_last() =~= all.subrange(start as int, q as int));
            assert(sub.last() == cs@[q as int]@);
        }
        if q > start {
            proof {
                reveal_strlit("/");
            }
            t.append("/");
        } else {
            assert(sub =~= seq![cs@[q as int]@]);
        }
        let piece = string_from_range(&cs[q], 0, cs[q].len());
        assert(cs@[q as int]@.subrange(0, cs@[q as int]@.len() as int) =~= cs@[q as int]@);
        t.append(piece.as_str());
        proof {
            if q > start {
                assert(t@ =~= lead + (join_slash(sub.drop_last()) + seq!['/'] + sub.last()));
            }
        }
    }
    proof {
        if lead.len() > 0 {
            assert(all.subrange(start as int, m as int) =~= rest.skip(1));
        } else {
            assert(all.subrange(start as int, m as int) =~= rest);
        }
    }
    t
}

/// The change of the vault that a path of an event stands for: a `.md`
/// file under the root, by its path relative to the root. Paths are taken
/// by their components, so `a//b`, `a/./b` and `a/b/` name `a/b`.
pub fn vault_change(root: &str, path: &str) -> (r: Option<VaultChange>)
    ensures
        match r {
            Some(c) => is_md_file(path@) && is_under(root@, path@) && c.relative_path@ == relative_to(
                root@,
                path@,
            ),
            None => !(is_md_file(path@) && is_under(root@, path@)),
        },
{
    let p = chars_of(path);
    let pc = components_of(&p);
    let ghost pcs = components(path@);
    let m = pc.len();
    if m == 0 {
        return None;
    }
    let k = pc[m - 1].len();
    let md = k >= 4 && pc[m - 1][k - 3] == '.' && pc[m - 1][k - 2] == 'm' && pc[m - 1][k - 1] == 'd';
    proof {
        let name = pcs.last();
        assert(name == pc@[m - 1]@);
        if k >= 4 {
            let tail = name.skip(name.len() - 3);
            assert(tail[0] == name[k - 3] && tail[1] == name[k - 2] && tail[2] == name[k - 1]);
            if md {
                assert(tail =~= seq!['.', 'm', 'd']);
            }
        }
    }
    if !md {
        return None;
    }
    let rt = chars_of(root);
    let rc = components_of(&rt);
    let ghost rcs = components(root@);
    let l = rc.len();
    if l > m {
        return None;
    }
    let mut j: usize = 0;
    while j < l
        invariant
            j <= l <= m,
            l == rcs.len(),
            m == pcs.len(),
            pcs == pc@.map_values(|c: Vec<char>| c@),
            rcs == rc@.map_values(|c: Vec<char>| c@),
            pcs == components(path@),
            rcs == components(root@),
            forall|q: int| 0 <= q < j ==> #[trigger] pcs[q] == rcs[q],
        decreases l - j,
    {
        if !same_chars(&pc[j], &rc[j]) {
            proof {
                assert(pcs[j as int] == pc@[j as int]@);
                assert(rcs[j as int] == rc@[j as int]@);
                assert(pcs.take(l as int)[j as int] == pcs[j as int]);
            }
            return None;
        }
        j += 1;
    }
    assert(pcs.take(l as int) =~= rcs);
    let rel = path_text_from(&pc, l);
    Some(VaultChange { relative_path: rel })
}

/// No character of the text is a slash.
pub open spec fn no_slash(c: Seq<char>) -> bool {
    forall|j: int| 0 <= j < c.len() ==> c[j] != '/'
}

/// The shape of the components of a path: the first is the root or a
/// non-empty name, every later one a name other than `.`; no name holds a
/// slash.
pub open spec fn components_shape(cs: Seq<Seq<char>>) -> bool {
    forall|i: int|
        0 <= i < cs.len() ==> (i > 0 ==> is_named_piece(#[trigger] cs[i]) && no_slash(cs[i])) && (i == 0
            ==> (cs[i] == root_mark() || (cs[i].len() > 0 && no_slash(cs[i]))))
}

proof fn lemma_split_pieces(p: Seq<char>)
    ensures
        split_slash(p).len() >= 1,
        forall|i: int| 0 <= i < split_slash(p).len() ==> no_slash(#[trigger] split_slash(p)[i]),
    decreases p.len(),
{
    if p.len() > 0 {
        lemma_split_pieces(p.drop_last());
        let r = split_slash(p.drop_last());
        if p.last() != '/' {
            let l = r.last().push(p.last());
            assert(no_slash(l)) by {
                assert(no_slash(r[r.len() - 1]));
            }
        }
    }
}

proof fn lemma_split_leading_slash(p: Seq<char>)
    requires
        p.len() > 0,
        p[0] == '/',
    ensures
        split_slash(p).len() >= 2,
        split_slash(p)[0] == Seq::<char>::empty(),
    decreases p.len(),
{
    if p.len() == 1 {
        assert(p.drop_last() =~= Seq::<char>::empty());
    } else {
        lemma_split_leading_slash(p.drop_last());
    }
}

proof fn lemma_split_no_slash(x: Seq<char>)
    requires
        no_slash(x),
    ensures
        split_slash(x) == seq![x],
    decreases x.len(),
{
    if x.len() == 0 {
        assert(x =~= Seq::<char>::empty());
    } else {
        let d = x.drop_last();
        assert(no_slash(d)) by {
            assert forall|j: int| 0 <= j < d.len() implies d[j] != '/' by {
                assert(d[j] == x[j]);
            }
        }
        lemma_split_no_slash(d);
        assert(x[x.len() - 1] != '/');
        assert(d.push(x.last()) =~= x);
        assert(seq![d].update(0, d.push(x.last())) =~= seq![x]);
    }
}

proof fn lemma_split_concat(a: Seq<char>, b: Seq<char>)
    ensures
        split_slash(a + seq!['/'] + b) == split_slash(a) + split_slash(b),
    decreases b.len(),
{
    let x = a + seq!['/'] + b;
    if b.len() == 0 {
        assert(x.drop_last() =~= a);
        assert(split_slash(b) == seq![Seq::<char>::empty()]);
        assert(split_slash(a).push(Seq::<char>::empty()) =~= split_slash(a) + split_slash(b));
    } else {
        let b0 = b.drop_last();
        assert(x.drop_last() =~= a + seq!['/'] + b0);
        assert(x.last() == b.last());
        lemma_split_concat(a, b0);
        lemma_split_pieces(b0);
        let sa = split_slash(a);
        let t = split_slash(b0);
        if b.last() == '/' {
            assert((sa + t).push(Seq::<char>::empty()) =~= sa + t.push(Seq::<char>::empty()));
        } else {
            let u = (sa + t).last().push(b.last());
            assert((sa + t).last() == t.last());
            assert((sa + t).update((sa + t).len() - 1, u) =~= sa + t.update(t.len() - 1, u));
        }
    }
}

proof fn lemma_split_join(cs: Seq<Seq<char>>)
    requires
        cs.len() >= 1,
        forall|i: int| 0 <= i < cs.len() ==> no_slash(#[trigger] cs[i]),
    ensures
        split_slash(join_slash(cs)) == cs,
    decreases cs.len(),
{
    if cs.len() == 1 {
        lemma_split_no_slash(cs[0]);
        assert(seq![cs[0]] =~= cs);
    } else {
        let d = cs.drop_last();
        assert forall|i: int| 0 <= i < d.len() implies no_slash(#[trigger] d[i]) by {
            assert(d[i] == cs[i]);
        }
        lemma_split_join(d);
        assert(no_slash(cs[cs.len() - 1]));
        lemma_split_no_slash(cs.last());
        lemma_split_concat(join_slash(d), cs.last());
        assert(d + seq![cs.last()] =~= cs);
    }
}

proof fn lemma_kept_pieces(ps: Seq<Seq<char>>)
    requires
        forall|i: int| 0 <= i < ps.len() ==> no_slash(#[trigger] ps[i]),
    ensures
        forall|i: int|
            0 <= i < kept_pieces(ps).len() ==> (#[trigger] kept_pieces(ps)[i]).len() > 0 && no_slash(
                kept_pieces(ps)[i],
            ) && ((i > 0 || ps[0].len() == 0) ==> is_named_piece(kept_pieces(ps)[i])),
    decreases ps.len(),
{
    let k = kept_pieces(ps);
    if ps.len() >= 2 {
        let d = ps.drop_last();
        assert forall|i: int| 0 <= i < d.len() implies no_slash(#[trigger] d[i]) by {
            assert(d[i] == ps[i]);
        }
        lemma_kept_pieces(d);
        assert(d[0] == ps[0]);
        assert(no_slash(ps[ps.len() - 1]));
        let r = kept_pieces(d);
        assert forall|i: int| 0 <= i < k.len() implies (#[trigger] k[i]).len() > 0 && no_slash(k[i]) && ((i
            > 0 || ps[0].len() == 0) ==> is_named_piece(k[i])) by {
            if i < r.len() {
                assert(k[i] == r[i]);
            } else {
                assert(k[i] == ps.last());
            }
        }
    } else if ps.len() == 1 {
        assert(no_slash(ps[0]));
        assert forall|i: int| 0 <= i < k.len() implies (#[trigger] k[i]).len() > 0 && no_slash(k[i]) && ((i
            > 0 || ps[0].len() == 0) ==> is_named_piece(k[i])) by {
            assert(k[i] == ps[0]);
        }
    }
}

proof fn lemma_kept_all_named(ps: Seq<Seq<char>>)
    requires
        ps.len() >= 1,
        ps[0].len() > 0,
        forall|i: int| 1 <= i < ps.len() ==> is_named_piece(#[trigger] ps[i]),
    ensures
        kept_pieces(ps) == ps,
    decreases ps.len(),
{
    if ps.len() == 1 {
        assert(seq![ps[0]] =~= ps);
    } else {
        let d = ps.drop_last();
        assert forall|i: int| 1 <= i < d.len() implies is_named_piece(#[trigger] d[i]) by {
            assert(d[i] == ps[i]);
        }
        lemma_kept_all_named(d);
        assert(is_named_piece(ps[ps.len() - 1]));
        assert(d.push(ps.last()) =~= ps);
    }
}

proof fn lemma_kept_after_empty(ps: Seq<Seq<char>>)
    requires
        ps.len() >= 1,
        ps[0] == Seq::<char>::empty(),
        forall|i: int| 1 <= i < ps.len() ==> is_named_piece(#[trigger] ps[i]),
    ensures
        kept_pieces(ps) == ps.skip(1),
    decreases ps.len(),
{
    if ps.len() == 1 {
        assert(ps.skip(1) =~= Seq::<Seq<char>>::empty());
    } else {
        let d = ps.drop_last();
        assert forall|i: int| 1 <= i < d.len() implies is_named_piece(#[trigger] d[i]) by {
            assert(d[i] == ps[i]);
        }
        lemma_kept_after_empty(d);
        assert(is_named_piece(ps[ps.len() - 1]));
        assert(d.skip(1).push(ps.last()) =~= ps.skip(1));
    }
}

proof fn lemma_components_shape(p: Seq<char>)
    ensures
        components_shape(components(p)),
{
    let ps = split_slash(p);
    lemma_split_pieces(p);
    lemma_kept_pieces(ps);
    let k = kept_pieces(ps);
    let c = components(p);
    if p.len() > 0 && p[0] == '/' {
        lemma_split_leading_slash(p);
        assert forall|i: int| 0 <= i < c.len() implies (i > 0 ==> is_named_piece(#[trigger] c[i]) && no_slash(
            c[i],
        )) && (i == 0 ==> (c[i] == root_mark() || (c[i].len() > 0 && no_slash(c[i])))) by {
            if i > 0 {
                assert(c[i] == k[i - 1]);
            }
        }
    } else {
        assert(c =~= k);
    }
}

proof fn lemma_components_of_text(cs: Seq<Seq<char>>)
    requires
        components_shape(cs),
    ensures
        components(path_text(cs)) == cs,
{
    if cs.len() == 0 {
        assert(split_slash(Seq::<char>::empty()) == seq![Seq::<char>::empty()]);
        assert(components(path_text(cs)) =~= cs);
    } else if cs[0] == root_mark() {
        let r = cs.skip(1);
        let text = path_text(cs);
        assert(text == seq!['/'] + join_slash(r));
        assert(text =~= Seq::<char>::empty() + seq!['/'] + join_slash(r));
        assert forall|i: int| 0 <= i < r.len() implies no_slash(#[trigger] r[i]) && is_named_piece(r[i]) by {
            assert(r[i] == cs[i + 1]);
        }
        lemma_split_concat(Seq::<char>::empty(), join_slash(r));
        assert(split_slash(Seq::<char>::empty()) == seq![Seq::<char>::empty()]);
        if r.len() == 0 {
            assert(join_slash(r) == Seq::<char>::empty());
            assert(split_slash(join_slash(r)) == seq![Seq::<char>::empty()]);
        } else {
            lemma_split_join(r);
        }
        let ps = split_slash(text);
        if r.len() == 0 {
            assert(ps =~= seq![Seq::<char>::empty(), Seq::<char>::empty()]);
            assert(ps.drop_last() =~= seq![Seq::<char>::empty()]);
            assert(kept_pieces(ps.drop_last()) =~= Seq::<Seq<char>>::empty());
            assert(!is_named_piece(ps.last()));
            assert(kept_pieces(ps) =~= Seq::<Seq<char>>::empty());
        } else {
            assert(ps =~= seq![Seq::<char>::empty()] + r);
            assert forall|i: int| 1 <= i < ps.len() implies is_named_piece(#[trigger] ps[i]) by {
                assert(ps[i] == r[i - 1]);
            }
            lemma_kept_after_empty(ps);
            assert(ps.skip(1) =~= r);
        }
        assert(text[0] == '/');
        assert(seq![root_mark()] + r =~= cs);
    } else {
        let text = path_text(cs);
        assert forall|i: int| 0 <= i < cs.len() implies no_slash(#[trigger] cs[i]) by {}
        lemma_split_join(cs);
        assert(split_slash(text) == cs);
        if text.len() > 0 && text[0] == '/' {
            lemma_split_leading_slash(text);
        }
        lemma_kept_all_named(cs);
        assert(Seq::<Seq<char>>::empty() + cs =~= cs);
    }
}

/// Law: the relative path of a change, taken onto the root, names the
/// file that changed: the components of the root followed by those of the
/// relative path are the components of the path.
pub proof fn law_change_path_under_root(root: Seq<char>, p: Seq<char>)
    requires
        is_under(root, p),
    ensures
        components(root) + components(relative_to(root, p)) == components(p),
{
    let pc = components(p);
    let l = components(root).len() as int;
    let rest = pc.skip(l);
    lemma_components_shape(p);
    assert(components_shape(rest)) by {
        assert forall|i: int| 0 <= i < rest.len() implies (i > 0 ==> is_named_piece(#[trigger] rest[i])
            && no_slash(rest[i])) && (i == 0 ==> (rest[i] == root_mark() || (rest[i].len() > 0 && no_slash(
            rest[i])))) by {
            assert(rest[i] == pc[i + l]);
        }
    }
    lemma_components_of_text(rest);
    assert(pc.take(l) + rest =~= pc);
}

/// The changes of the vault that one event reports: none unless the event
/// creates, modifies or removes files; then one for each of its paths that
/// is a `.md` file under the root, in order.
pub open spec fn changes_spec(kind: ChangeKind, root: Seq<char>, paths: Seq<Seq<char>>) -> Seq<Seq<char>>
    decreases paths.len(),
{
    if kind == ChangeKind::Other || paths.len() == 0 {
        Seq::empty()
    } else {
        let r = changes_spec(kind, root, paths.drop_last());
        let p = paths.last();
        if is_md_file(p) && is_under(root, p) {
            r.push(relative_to(root, p))
        } else {
            r
        }
    }
}

/// The changes of the vault that a file system event reports.
pub fn vault_changes(kind: ChangeKind, root: &str, paths: &Vec<String>) -> (r: Vec<VaultChange>)
    ensures
        r@.map_values(|c: VaultChange| c.relative_path@) == changes_spec(
            kind,
            root@,
            paths@.map_values(|p: String| p@),
        ),
{
    let ghost ps = paths@.map_values(|p: String| p@);
    let mut r: Vec<VaultChange> = Vec::new();
    if kind == ChangeKind::Other {
        assert(r@.map_values(|c: VaultChange| c.relative_path@) =~= Seq::<Seq<char>>::empty());
        return r;
    }
    let mut i: usize = 0;
    proof {
        assert(ps.take(0) =~= Seq::<Seq<char>>::empty());
        assert(r@.map_values(|c: VaultChange| c.relative_path@) =~= Seq::<Seq<char>>::empty());
    }
    while i < paths.len()
        invariant
            i <= paths@.len(),
            kind != ChangeKind::Other,
            ps == paths@.map_values(|p: String| p@),
            r@.map_values(|c: VaultChange| c.relative_path@) == changes_spec(kind, root@, ps.take(i as int)),
        decreases paths@.len() - i,
    {
        proof {
            assert(ps.take(i + 1).drop_last() =~= ps.take(i as int));
            assert(ps.take(i + 1).last() == paths@[i as int]@);
        }
        match vault_change(root, paths[i].as_str()) {
            Some(c) => {
                let ghost before = r@;
                r.push(c);
                proof {
                    assert(r@.map_values(|c: VaultChange| c.relative_path@) =~= before.map_values(
                        |c: VaultChange| c.relative_path@,
                    ).push(relative_to(root@, ps[i as int])));
                }
            },
            None => {},
        }
        i += 1;
    }
    proof {
        assert(ps.take(paths@.len() as int) =~= ps);
    }
    r
}

/// How long, in milliseconds, a path that the application wrote itself is
/// ignored by the watcher.
pub const SELF_WRITE_WINDOW_MILLIS: u64 = 2000;

/// What the session does with a change of the vault that the watcher saw.
#[derive(Debug, Clone, Copy, PartialEq, Eq, Structural)]
pub enum WatchAction {
    /// The application's own recent write: nothing is done.
    Ignore,
    /// The file is there: both indexes are refreshed for it, then the
    /// interface is told.
    RefreshAndNotify,
    /// The file is gone: the interface is told.
    Notify,
}

/// The change follows a write of the application itself, made less than
/// the window ago.
pub open spec fn is_own_recent_write(own_write_age_millis: Option<u64>) -> bool {
    match own_write_age_millis {
        Some(age) => age < SELF_WRITE_WINDOW_MILLIS,
        None => false,
    }
}

/// The action for a change of the vault: ignored when the application
/// wrote that path itself less than the window ago; otherwise the indexes
/// are refreshed when the file exists, and the interface is told in every
/// case.
pub fn watch_action(own_write_age_millis: Option<u64>, file_exists: bool) -> (a: WatchAction)
    ensures
        is_own_recent_write(own_write_age_millis) ==> a == WatchAction::Ignore,
        !is_own_recent_write(own_write_age_millis) && file_exists ==> a == WatchAction::RefreshAndNotify,
        !is_own_recent_write(own_write_age_millis) && !file_exists ==> a == WatchAction::Notify,
{
    let own = match own_write_age_millis {
        Some(age) => age < SELF_WRITE_WINDOW_MILLIS,
        None => false,
    };
    if own {
        WatchAction::Ignore
    } else if file_exists {
        WatchAction::RefreshAndNotify
    } else {
        WatchAction::Notify
    }
}

} // verus!
