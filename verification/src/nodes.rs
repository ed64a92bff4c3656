//! The node-level model of a path string and its normalization.
//!
//! A path is split on the canonical separator `/` into *nodes*.
//! Normalization unifies separators, removes the empty nodes that doubled
//! separators leave behind, collapses `..` against a preceding node, and
//! strips bare `.` nodes (keeping a path made of nothing but `.` nodes).
//! The specification functions here are the reference model; the
//! executable functions are proved to compute exactly that model.

use vstd::prelude::*;

use crate::text::append_chars;
use crate::text::clone_chars;

verus! {

/// The node spelled `.`.
pub open spec fn dot() -> Seq<char> {
    seq!['.']
}

/// The node spelled `..`.
pub open spec fn dotdot() -> Seq<char> {
    seq!['.', '.']
}

/// Every alternate separator `\` replaced by the canonical `/`.
pub open spec fn canon_seps(s: Seq<char>) -> Seq<char> {
    s.map_values(|c: char| if c == '\\' { '/' } else { c })
}

/// `s` split on `/`; always at least one node.
pub open spec fn split_nodes(s: Seq<char>) -> Seq<Seq<char>>
    decreases s.len(),
{
    if s.len() == 0 {
        seq![Seq::<char>::empty()]
    } else if s[0] == '/' {
        seq![Seq::<char>::empty()] + split_nodes(s.drop_first())
    } else {
        let rest = split_nodes(s.drop_first());
        seq![seq![s[0]] + rest[0]] + rest.drop_first()
    }
}

/// Nodes joined with a single `/` between them.
pub open spec fn join_nodes(ns: Seq<Seq<char>>) -> Seq<char>
    decreases ns.len(),
{
    if ns.len() == 0 {
        Seq::<char>::empty()
    } else if ns.len() == 1 {
        ns[0]
    } else {
        ns[0] + seq!['/'] + join_nodes(ns.drop_first())
    }
}

/// The nodes of `ns` that are not empty.
pub open spec fn keep_nonempty(ns: Seq<Seq<char>>) -> Seq<Seq<char>>
    decreases ns.len(),
{
    if ns.len() == 0 {
        ns
    } else if ns[0].len() == 0 {
        keep_nonempty(ns.drop_first())
    } else {
        seq![ns[0]] + keep_nonempty(ns.drop_first())
    }
}

/// Empty nodes between the first and the last node removed; they are what
/// doubled separators split into.
pub open spec fn drop_empty_middle(ns: Seq<Seq<char>>) -> Seq<Seq<char>> {
    if ns.len() <= 2 {
        ns
    } else {
        seq![ns[0]] + keep_nonempty(ns.subrange(1, ns.len() - 1)) + seq![ns.last()]
    }
}

/// One left-to-right pass over `ns` with stack `st`: a `..` node removes
/// the node below it unless that node is itself `..`.
pub open spec fn collapse_from(st: Seq<Seq<char>>, ns: Seq<Seq<char>>) -> Seq<Seq<char>>
    decreases ns.len(),
{
    if ns.len() == 0 {
        st
    } else {
        let st2 = if ns[0] == dotdot() && st.len() > 0 && st.last() != dotdot() {
            st.drop_last()
        } else {
            st.push(ns[0])
        };
        collapse_from(st2, ns.drop_first())
    }
}

/// All `..` nodes collapsed against a preceding non-`..` node, wherever
/// syntactically possible.
pub open spec fn collapse_dotdot(ns: Seq<Seq<char>>) -> Seq<Seq<char>> {
    collapse_from(Seq::<Seq<char>>::empty(), ns)
}

/// Whether some node of `ns` is `.`.
pub open spec fn has_dot(ns: Seq<Seq<char>>) -> bool {
    exists|i: int| 0 <= i < ns.len() && ns[i] == dot()
}

/// Whether every node of `ns` is `.`.
pub open spec fn all_dots(ns: Seq<Seq<char>>) -> bool {
    forall|i: int| 0 <= i < ns.len() ==> ns[i] == dot()
}

/// The nodes of `ns` that are not `.`.
pub open spec fn keep_nondot(ns: Seq<Seq<char>>) -> Seq<Seq<char>>
    decreases ns.len(),
{
    if ns.len() == 0 {
        ns
    } else if ns[0] == dot() {
        keep_nondot(ns.drop_first())
    } else {
        seq![ns[0]] + keep_nondot(ns.drop_first())
    }
}

/// Bare `.` nodes removed, unless the path consists of nothing but `.`
/// nodes.
pub open spec fn strip_dots(ns: Seq<Seq<char>>) -> Seq<Seq<char>> {
    if has_dot(ns) && !all_dots(ns) {
        keep_nondot(ns)
    } else {
        ns
    }
}

/// The node sequence of the normalized form of a raw path string.
pub open spec fn normal_nodes(s: Seq<char>) -> Seq<Seq<char>> {
    strip_dots(collapse_dotdot(drop_empty_middle(split_nodes(canon_seps(s)))))
}

/// Full normalization of a raw path string.
pub open spec fn normalize(s: Seq<char>) -> Seq<char> {
    join_nodes(normal_nodes(s))
}

/// The character sequences held by a vector of nodes.
pub open spec fn nodes_view(ns: Seq<Vec<char>>) -> Seq<Seq<char>> {
    ns.map_values(|v: Vec<char>| v@)
}

pub broadcast proof fn lemma_nodes_view_len(ns: Seq<Vec<char>>)
    ensures
        #[trigger] nodes_view(ns).len() == ns.len(),
{
}

pub broadcast proof fn lemma_nodes_view_index(ns: Seq<Vec<char>>, i: int)
    requires
        0 <= i < ns.len(),
    ensures
        #[trigger] nodes_view(ns)[i] == ns[i]@,
{
}

/// `prefix` prepended onto the first node of `ns`.
pub open spec fn graft(prefix: Seq<char>, ns: Seq<Seq<char>>) -> Seq<Seq<char>>
    recommends
        ns.len() >= 1,
{
    seq![prefix + ns[0]] + ns.drop_first()
}

pub proof fn lemma_split_len_pos(s: Seq<char>)
    ensures
        split_nodes(s).len() >= 1,
    decreases s.len(),
{
    if s.len() != 0 {
        lemma_split_len_pos(s.drop_first());
    }
}

// Executable counterparts ----------------------------------------------


/// A copy of a node list.
pub(crate) fn clone_nodes(ns: &Vec<Vec<char>>) -> (r: Vec<Vec<char>>)
    ensures
        nodes_view(r@) == nodes_view(ns@),
{
    broadcast use {lemma_nodes_view_len, lemma_nodes_view_index};
    let mut r: Vec<Vec<char>> = Vec::new();
    let mut i: usize = 0;
    proof {
        assert(nodes_view(r@) =~= nodes_view(ns@.take(0)));
    }
    while i < ns.len()
        invariant
            i <= ns@.len(),
            nodes_view(r@) == nodes_view(ns@.take(i as int)),
        decreases ns@.len() - i,
    {
        let ghost old_r = r@;
        r.push(clone_chars(&ns[i]));
        i = i + 1;
        proof {
            assert(nodes_view(r@) =~= nodes_view(old_r).push(ns@[i - 1]@));
            assert(nodes_view(ns@.take(i as int)) =~= nodes_view(ns@.take(i - 1)).push(
                ns@[i - 1]@,
            ));
        }
    }
    proof {
        assert(ns@.take(ns@.len() as int) =~= ns@);
    }
    r
}


/// Whether `v` spells `.`.
pub(crate) fn is_dot_node(v: &Vec<char>) -> (r: bool)
    ensures
        r == (v@ == dot()),
{
    let r = v.len() == 1 && v[0] == '.';
    proof {
        if r {
            assert(v@ =~= dot());
        }
    }
    r
}

/// Whether `v` spells `..`.
pub(crate) fn is_dotdot_node(v: &Vec<char>) -> (r: bool)
    ensures
        r == (v@ == dotdot()),
{
    let r = v.len() == 2 && v[0] == '.' && v[1] == '.';
    proof {
        if r {
            assert(v@ =~= dotdot());
        }
    }
    r
}

/// Every `\` replaced by `/`.
pub(crate) fn unify_separators(cs: &Vec<char>) -> (r: Vec<char>)
    ensures
        r@ == canon_seps(cs@),
{
    let mut r: Vec<char> = Vec::new();
    let mut i: usize = 0;
    while i < cs.len()
        invariant
            i <= cs@.len(),
            r@ == canon_seps(cs@.take(i as int)),
        decreases cs@.len() - i,
    {
        let c = cs[i];
        if c == '\\' {
            r.push('/');
        } else {
            r.push(c);
        }
        i = i + 1;
        proof {
            assert(r@ =~= canon_seps(cs@.take(i as int)));
        }
    }
    proof {
        assert(canon_seps(cs@.take(cs@.len() as int)) =~= canon_seps(cs@));
    }
    r
}

/// `cs` split on `/` into its nodes.
pub(crate) fn split_path(cs: &Vec<char>) -> (r: Vec<Vec<char>>)
    ensures
        nodes_view(r@) == split_nodes(cs@),
{
    broadcast use {lemma_nodes_view_len, lemma_nodes_view_index};
    let n = cs.len();
    let mut done: Vec<Vec<char>> = Vec::new();
    let mut cur: Vec<char> = Vec::new();
    let mut i: usize = 0;
    proof {
        lemma_split_len_pos(cs@);
        assert(cs@.skip(0) =~= cs@);
        assert(cur@ + split_nodes(cs@)[0] =~= split_nodes(cs@)[0]);
        assert(graft(cur@, split_nodes(cs@)) =~= split_nodes(cs@));
        assert(nodes_view(done@) + split_nodes(cs@) =~= split_nodes(cs@));
    }
    while i < n
        invariant
            i <= n,
            n == cs@.len(),
            split_nodes(cs@) == nodes_view(done@) + graft(cur@, split_nodes(cs@.skip(i as int))),
        decreases n - i,
    {
        proof {
            lemma_split_len_pos(cs@.skip(i as int));
            lemma_split_len_pos(cs@.skip(i + 1 as int));
            assert(cs@.skip(i as int).drop_first() =~= cs@.skip(i + 1 as int));
            assert(cs@.skip(i as int)[0] == cs@[i as int]);
        }
        let ghost pre = split_nodes(cs@.skip(i as int));
        let ghost post = split_nodes(cs@.skip(i + 1 as int));
        let c = cs[i];
        if c == '/' {
            let ghost old_done = done@;
            let ghost old_cur = cur@;
            done.push(cur);
            cur = Vec::new();
            proof {
                // pre == [empty] + post, so grafting old_cur yields [old_cur] + post.
                assert(pre =~= seq![Seq::<char>::empty()] + post);
                assert(graft(old_cur, pre)[0] =~= old_cur);
                assert(graft(old_cur, pre) =~= seq![old_cur] + post);
                assert(nodes_view(done@) =~= nodes_view(old_done).push(old_cur));
                assert(graft(cur@, post)[0] =~= post[0]);
                assert(graft(cur@, post) =~= post);
                assert(nodes_view(done@) + graft(cur@, post) =~= nodes_view(old_done) + graft(
                    old_cur,
                    pre,
                ));
            }
        } else {
            let ghost old_cur = cur@;
            cur.push(c);
            proof {
                // pre grafts the head character onto post's first node.
                assert(pre =~= graft(seq![cs@[i as int]], post));
                assert(graft(old_cur, pre)[0] =~= cur@ + post[0]);
                assert(graft(old_cur, pre) =~= graft(cur@, post));
            }
        }
        i = i + 1;
    }
    proof {
        assert(cs@.skip(n as int) =~= Seq::<char>::empty());
        assert(graft(cur@, split_nodes(cs@.skip(n as int))) =~= seq![cur@]);
    }
    let ghost final_done = done@;
    let ghost final_cur = cur@;
    done.push(cur);
    proof {
        assert(nodes_view(done@) =~= nodes_view(final_done) + seq![final_cur]);
    }
    done
}

pub proof fn lemma_join_concat(a: Seq<Seq<char>>, b: Seq<Seq<char>>)
    requires
        a.len() >= 1,
        b.len() >= 1,
    ensures
        join_nodes(a + b) == join_nodes(a) + seq!['/'] + join_nodes(b),
    decreases a.len(),
{
    if a.len() == 1 {
        assert((a + b).len() >= 2);
        assert((a + b).drop_first() =~= b);
        assert((a + b)[0] == a[0]);
        assert(join_nodes(a + b) == a[0] + seq!['/'] + join_nodes(b));
    } else {
        assert((a + b).drop_first() =~= a.drop_first() + b);
        lemma_join_concat(a.drop_first(), b);
        assert(join_nodes(a + b) == a[0] + seq!['/'] + (join_nodes(a.drop_first()) + seq!['/']
            + join_nodes(b)));
        assert(a[0] + seq!['/'] + (join_nodes(a.drop_first()) + seq!['/'] + join_nodes(b)) =~= (a[0]
            + seq!['/'] + join_nodes(a.drop_first())) + seq!['/'] + join_nodes(b));
    }
}

/// The nodes of `ns` joined with `/`.
pub(crate) fn join_path(ns: &Vec<Vec<char>>) -> (r: Vec<char>)
    ensures
        r@ == join_nodes(nodes_view(ns@)),
{
    broadcast use {lemma_nodes_view_len, lemma_nodes_view_index};
    let n = ns.len();
    let mut r: Vec<char> = Vec::new();
    let mut i: usize = 0;
    while i < n
        invariant
            i <= n,
            n == ns@.len(),
            i == 0 ==> r@.len() == 0,
            i >= 1 ==> r@ == join_nodes(nodes_view(ns@.take(i as int))),
        decreases n - i,
    {
        let ghost old_r = r@;
        if i > 0 {
            r.push('/');
        }
        append_chars(&mut r, &ns[i]);
        proof {
            if i == 0 {
                assert(nodes_view(ns@.take(1)) =~= seq![ns@[0]@]);
                assert(r@ =~= ns@[0]@);
            } else {
                let pre = nodes_view(ns@.take(i as int));
                assert(nodes_view(ns@.take(i + 1 as int)) =~= pre + seq![ns@[i as int]@]);
                lemma_join_concat(pre, seq![ns@[i as int]@]);
                assert(r@ =~= join_nodes(pre) + seq!['/'] + ns@[i as int]@);
            }
        }
        i = i + 1;
    }
    proof {
        if n == 0 {
            assert(nodes_view(ns@) =~= Seq::<Seq<char>>::empty());
        } else {
            assert(ns@.take(n as int) =~= ns@);
        }
    }
    r
}

/// The nonempty nodes of `ns`.
pub(crate) fn keep_nonempty_nodes(ns: &Vec<Vec<char>>) -> (r: Vec<Vec<char>>)
    ensures
        nodes_view(r@) == keep_nonempty(nodes_view(ns@)),
{
    broadcast use {lemma_nodes_view_len, lemma_nodes_view_index};
    let n = ns.len();
    let mut r: Vec<Vec<char>> = Vec::new();
    let mut i: usize = 0;
    proof {
        assert(nodes_view(ns@).skip(0) =~= nodes_view(ns@));
        assert(nodes_view(r@) + keep_nonempty(nodes_view(ns@)) =~= keep_nonempty(nodes_view(ns@)));
    }
    while i < n
        invariant
            i <= n,
            n == ns@.len(),
            keep_nonempty(nodes_view(ns@)) == nodes_view(r@) + keep_nonempty(
                nodes_view(ns@).skip(i as int),
            ),
        decreases n - i,
    {
        proof {
            assert(nodes_view(ns@).skip(i as int).drop_first() =~= nodes_view(ns@).skip(
                i + 1 as int,
            ));
            assert(nodes_view(ns@).skip(i as int)[0] == ns@[i as int]@);
        }
        let ghost old_r = r@;
        if ns[i].len() > 0 {
            r.push(clone_chars(&ns[i]));
            proof {
                assert(nodes_view(r@) =~= nodes_view(old_r) + seq![ns@[i as int]@]);
                assert(nodes_view(old_r) + (seq![ns@[i as int]@] + keep_nonempty(
                    nodes_view(ns@).skip(i + 1 as int),
                )) =~= nodes_view(r@) + keep_nonempty(nodes_view(ns@).skip(i + 1 as int)));
            }
        }
        i = i + 1;
    }
    proof {
        assert(nodes_view(ns@).skip(n as int) =~= Seq::<Seq<char>>::empty());
        assert(nodes_view(r@) + keep_nonempty(Seq::<Seq<char>>::empty()) =~= nodes_view(r@));
    }
    r
}

/// The nodes of `ns` that are not `.`.
pub(crate) fn keep_nondot_nodes(ns: &Vec<Vec<char>>) -> (r: Vec<Vec<char>>)
    ensures
        nodes_view(r@) == keep_nondot(nodes_view(ns@)),
{
    broadcast use {lemma_nodes_view_len, lemma_nodes_view_index};
    let n = ns.len();
    let mut r: Vec<Vec<char>> = Vec::new();
    let mut i: usize = 0;
    proof {
        assert(nodes_view(ns@).skip(0) =~= nodes_view(ns@));
        assert(nodes_view(r@) + keep_nondot(nodes_view(ns@)) =~= keep_nondot(nodes_view(ns@)));
    }
    while i < n
        invariant
            i <= n,
            n == ns@.len(),
            keep_nondot(nodes_view(ns@)) == nodes_view(r@) + keep_nondot(
                nodes_view(ns@).skip(i as int),
            ),
        decreases n - i,
    {
        proof {
            assert(nodes_view(ns@).skip(i as int).drop_first() =~= nodes_view(ns@).skip(
                i + 1 as int,
            ));
            assert(nodes_view(ns@).skip(i as int)[0] == ns@[i as int]@);
        }
        let ghost old_r = r@;
        if !is_dot_node(&ns[i]) {
            r.push(clone_chars(&ns[i]));
            proof {
                assert(nodes_view(r@) =~= nodes_view(old_r) + seq![ns@[i as int]@]);
                assert(nodes_view(old_r) + (seq![ns@[i as int]@] + keep_nondot(
                    nodes_view(ns@).skip(i + 1 as int),
                )) =~= nodes_view(r@) + keep_nondot(nodes_view(ns@).skip(i + 1 as int)));
            }
        }
        i = i + 1;
    }
    proof {
        assert(nodes_view(ns@).skip(n as int) =~= Seq::<Seq<char>>::empty());
        assert(nodes_view(r@) + keep_nondot(Seq::<Seq<char>>::empty()) =~= nodes_view(r@));
    }
    r
}

/// A sub-list of nodes, from index `from` up to (excluding) `to`.
pub(crate) fn subrange_nodes(ns: &Vec<Vec<char>>, from: usize, to: usize) -> (r: Vec<Vec<char>>)
    requires
        from <= to <= ns@.len(),
    ensures
        nodes_view(r@) == nodes_view(ns@).subrange(from as int, to as int),
{
    broadcast use {lemma_nodes_view_len, lemma_nodes_view_index};
    let mut r: Vec<Vec<char>> = Vec::new();
    let mut i: usize = from;
    proof {
        assert(nodes_view(r@) =~= nodes_view(ns@).subrange(from as int, from as int));
    }
    while i < to
        invariant
            from <= i <= to <= ns@.len(),
            nodes_view(r@) == nodes_view(ns@).subrange(from as int, i as int),
        decreases to - i,
    {
        let ghost old_r = r@;
        r.push(clone_chars(&ns[i]));
        i = i + 1;
        proof {
            assert(nodes_view(r@) =~= nodes_view(old_r).push(ns@[i - 1]@));
            assert(nodes_view(ns@).subrange(from as int, i as int) =~= nodes_view(ns@).subrange(
                from as int,
                i - 1,
            ).push(ns@[i - 1]@));
        }
    }
    r
}

/// The empty middle nodes of `ns` removed.
pub(crate) fn drop_doubled_separators(ns: &Vec<Vec<char>>) -> (r: Vec<Vec<char>>)
    ensures
        nodes_view(r@) == drop_empty_middle(nodes_view(ns@)),
{
    broadcast use {lemma_nodes_view_len, lemma_nodes_view_index};
    if ns.len() <= 2 {
        clone_nodes(ns)
    } else {
        let mid = subrange_nodes(ns, 1, ns.len() - 1);
        let kept = keep_nonempty_nodes(&mid);
        let mut r: Vec<Vec<char>> = Vec::new();
        r.push(clone_chars(&ns[0]));
        let ghost first_r = r@;
        proof {
            assert(nodes_view(first_r) =~= seq![ns@[0]@]);
        }
        let mut j: usize = 0;
        proof {
            assert(nodes_view(kept@.take(0)) =~= Seq::<Seq<char>>::empty());
            assert(nodes_view(r@) =~= nodes_view(first_r) + nodes_view(kept@.take(0)));
        }
        while j < kept.len()
            invariant
                j <= kept@.len(),
                nodes_view(r@) == nodes_view(first_r) + nodes_view(kept@.take(j as int)),
            decreases kept@.len() - j,
        {
            let ghost old_r = r@;
            r.push(clone_chars(&kept[j]));
            j = j + 1;
            proof {
                assert(nodes_view(r@) =~= nodes_view(old_r).push(kept@[j - 1]@));
                assert(nodes_view(first_r) + nodes_view(kept@.take(j as int)) =~= (nodes_view(
                    first_r,
                ) + nodes_view(kept@.take(j - 1))).push(kept@[j - 1]@));
            }
        }
        proof {
            assert(kept@.take(kept@.len() as int) =~= kept@);
        }
        let ghost before_last = r@;
        r.push(clone_chars(&ns[ns.len() - 1]));
        proof {
            let full = nodes_view(ns@);
            assert(nodes_view(r@) =~= nodes_view(before_last).push(ns@[ns@.len() - 1]@));
            assert(full.last() == ns@[ns@.len() - 1]@);
            assert(nodes_view(mid@) == full.subrange(1, full.len() - 1));
            assert(nodes_view(before_last) == seq![full[0]] + keep_nonempty(
                full.subrange(1, full.len() - 1),
            ));
            assert(nodes_view(before_last).push(full.last()) =~= seq![full[0]] + keep_nonempty(
                full.subrange(1, full.len() - 1),
            ) + seq![full.last()]);
        }
        r
    }
}

/// `..` nodes collapsed against the node before them.
pub(crate) fn collapse_parents(ns: &Vec<Vec<char>>) -> (r: Vec<Vec<char>>)
    ensures
        nodes_view(r@) == collapse_dotdot(nodes_view(ns@)),
{
    broadcast use {lemma_nodes_view_len, lemma_nodes_view_index};
    let n = ns.len();
    let mut st: Vec<Vec<char>> = Vec::new();
    let mut i: usize = 0;
    proof {
        assert(nodes_view(ns@).skip(0) =~= nodes_view(ns@));
        assert(nodes_view(st@) =~= Seq::<Seq<char>>::empty());
    }
    while i < n
        invariant
            i <= n,
            n == ns@.len(),
            collapse_dotdot(nodes_view(ns@)) == collapse_from(
                nodes_view(st@),
                nodes_view(ns@).skip(i as int),
            ),
        decreases n - i,
    {
        proof {
            assert(nodes_view(ns@).skip(i as int).drop_first() =~= nodes_view(ns@).skip(
                i + 1 as int,
            ));
            assert(nodes_view(ns@).skip(i as int)[0] == ns@[i as int]@);
        }
        let ghost old_st = st@;
        if is_dotdot_node(&ns[i]) && st.len() > 0 && !is_dotdot_node(&st[st.len() - 1]) {
            st.pop();
            proof {
                assert(nodes_view(old_st).last() == old_st[old_st.len() - 1]@);
                assert(nodes_view(st@) =~= nodes_view(old_st).drop_last());
            }
        } else {
            st.push(clone_chars(&ns[i]));
            proof {
                if st@.len() > 1 {
                    assert(nodes_view(old_st).last() == old_st[old_st.len() - 1]@);
                }
                assert(nodes_view(st@) =~= nodes_view(old_st).push(ns@[i as int]@));
            }
        }
        i = i + 1;
    }
    proof {
        assert(nodes_view(ns@).skip(n as int) =~= Seq::<Seq<char>>::empty());
    }
    st
}

/// Bare `.` nodes removed unless every node is `.`.
pub(crate) fn strip_dot_nodes(ns: &Vec<Vec<char>>) -> (r: Vec<Vec<char>>)
    ensures
        nodes_view(r@) == strip_dots(nodes_view(ns@)),
{
    broadcast use {lemma_nodes_view_len, lemma_nodes_view_index};
    let n = ns.len();
    let mut some_dot = false;
    let mut every_dot = true;
    let mut i: usize = 0;
    while i < n
        invariant
            i <= n,
            n == ns@.len(),
            some_dot == exists|j: int| 0 <= j < i && nodes_view(ns@)[j] == dot(),
            every_dot == forall|j: int| 0 <= j < i ==> nodes_view(ns@)[j] == dot(),
        decreases n - i,
    {
        if is_dot_node(&ns[i]) {
            some_dot = true;
            proof {
                assert(nodes_view(ns@)[i as int] == dot());
            }
        } else {
            every_dot = false;
            proof {
                assert(nodes_view(ns@)[i as int] != dot());
            }
        }
        i = i + 1;
    }
    proof {
        assert(some_dot == has_dot(nodes_view(ns@)));
        assert(every_dot == all_dots(nodes_view(ns@)));
    }
    if some_dot && !every_dot {
        keep_nondot_nodes(ns)
    } else {
        clone_nodes(ns)
    }
}

/// The normalized form of the raw path characters `cs`.
pub(crate) fn normalize_path_chars(cs: &Vec<char>) -> (r: Vec<char>)
    ensures
        r@ == normalize(cs@),
{
    let unified = unify_separators(cs);
    let raw_nodes = split_path(&unified);
    let singles = drop_doubled_separators(&raw_nodes);
    let collapsed = collapse_parents(&singles);
    let stripped = strip_dot_nodes(&collapsed);
    join_path(&stripped)
}


/// Trailing empty nodes removed; a trailing separator leaves one behind.
pub open spec fn drop_trailing_empties(ns: Seq<Seq<char>>) -> Seq<Seq<char>>
    decreases ns.len(),
{
    if ns.len() > 0 && ns.last().len() == 0 {
        drop_trailing_empties(ns.drop_last())
    } else {
        ns
    }
}

/// The nodes of `s`, without the empties a trailing separator leaves.
pub open spec fn trimmed_nodes(s: Seq<char>) -> Seq<Seq<char>> {
    drop_trailing_empties(split_nodes(s))
}

/// The final `/`-delimited node of `s`; empty when `s` ends in `/`.
pub open spec fn last_node_of(s: Seq<char>) -> Seq<char> {
    split_nodes(s).last()
}

/// Whether `s` is an absolute path: it carries a disk separator.
pub open spec fn is_absolute(s: Seq<char>) -> bool {
    s.contains(':')
}

/// The extension of the last node: what follows its final `.`, if any.
pub open spec fn extension_of(s: Seq<char>) -> Option<Seq<char>> {
    let name = last_node_of(s);
    match crate::text::find_last(name, '.') {
        Option::None => Option::None,
        Option::Some(i) => Option::Some(name.skip(i + 1)),
    }
}

/// The last node with its `.`-extension suffix trimmed away.
pub open spec fn stem_of(s: Seq<char>) -> Seq<char> {
    let name = last_node_of(s);
    match extension_of(s) {
        Option::None => name,
        Option::Some(ext) => crate::text::trim_end_matches_seq(name, seq!['.'] + ext),
    }
}

/// The nodes of `cs`, trailing empties removed.
pub(crate) fn split_trimmed(cs: &Vec<char>) -> (r: Vec<Vec<char>>)
    ensures
        nodes_view(r@) == trimmed_nodes(cs@),
{
    broadcast use {lemma_nodes_view_len, lemma_nodes_view_index};
    let mut ns = split_path(cs);
    loop
        invariant
            drop_trailing_empties(split_nodes(cs@)) == drop_trailing_empties(nodes_view(ns@)),
        ensures
            drop_trailing_empties(split_nodes(cs@)) == drop_trailing_empties(nodes_view(ns@)),
            nodes_view(ns@).len() == 0 || nodes_view(ns@).last().len() > 0,
        decreases ns@.len(),
    {
        let n = ns.len();
        if n == 0 {
            break;
        }
        if ns[n - 1].len() > 0 {
            proof {
                assert(nodes_view(ns@).last() == ns@[n - 1]@);
            }
            break;
        }
        let ghost old_ns = ns@;
        ns.pop();
        proof {
            assert(nodes_view(old_ns).last() == old_ns[n - 1]@);
            assert(nodes_view(ns@) =~= nodes_view(old_ns).drop_last());
        }
    }
    ns
}

/// The final node of `cs`.
pub(crate) fn last_node_chars(cs: &Vec<char>) -> (r: Vec<char>)
    ensures
        r@ == last_node_of(cs@),
{
    broadcast use {lemma_nodes_view_len, lemma_nodes_view_index};
    proof {
        lemma_split_len_pos(cs@);
    }
    let ns = split_path(cs);
    let r = clone_chars(&ns[ns.len() - 1]);
    proof {
        assert(nodes_view(ns@).last() == ns@[ns@.len() - 1]@);
    }
    r
}

} // verus!
