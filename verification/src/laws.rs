//! Laws of path normalization.
//!
//! The headline result is [`lemma_normalize_idempotent`]: normalizing an
//! already normalized path changes nothing. The supporting lemmas
//! characterize what each stage of the pipeline leaves behind — nodes
//! free of separators, empty nodes only at the ends, `..` nodes only in
//! a leading run, `.` nodes only when nothing else is there — and show
//! that each stage is the identity on its own output.

use vstd::prelude::*;

use crate::nodes::all_dots;
use crate::nodes::canon_seps;
use crate::nodes::collapse_dotdot;
use crate::nodes::collapse_from;
use crate::nodes::dot;
use crate::nodes::dotdot;
use crate::nodes::drop_empty_middle;
use crate::nodes::has_dot;
use crate::nodes::join_nodes;
use crate::nodes::keep_nondot;
use crate::nodes::keep_nonempty;
use crate::nodes::lemma_split_len_pos;
use crate::nodes::normal_nodes;
use crate::nodes::normalize;
use crate::nodes::split_nodes;
use crate::nodes::strip_dots;

verus! {

/// A node may not contain a separator of either spelling.
pub open spec fn ok_node(n: Seq<char>) -> bool {
    forall|j: int| 0 <= j < n.len() ==> n[j] != '/' && n[j] != '\\'
}

/// Every node separator-free.
pub open spec fn ok_nodes(ns: Seq<Seq<char>>) -> bool {
    forall|i: int| 0 <= i < ns.len() ==> ok_node(#[trigger] ns[i])
}

/// No alternate separator anywhere in the string.
pub open spec fn no_backslash(s: Seq<char>) -> bool {
    forall|j: int| 0 <= j < s.len() ==> s[j] != '\\'
}

/// Empty nodes only at the first or last position.
pub open spec fn empties_at_ends(ns: Seq<Seq<char>>) -> bool {
    forall|i: int| 0 < i < ns.len() - 1 ==> (#[trigger] ns[i]).len() > 0
}

/// Empty nodes only at the first position.
pub open spec fn empties_at_front(ns: Seq<Seq<char>>) -> bool {
    forall|i: int| 0 < i < ns.len() ==> (#[trigger] ns[i]).len() > 0
}

/// Every `..` node sits behind another `..` node: the `..` nodes form a
/// leading run, so no pair is left to collapse.
pub open spec fn parents_leading(ns: Seq<Seq<char>>) -> bool {
    forall|i: int| 1 <= i < ns.len() && #[trigger] ns[i] == dotdot() ==> ns[i - 1] == dotdot()
}

// Separator unification --------------------------------------------------

proof fn lemma_canon_no_backslash(s: Seq<char>)
    ensures
        no_backslash(canon_seps(s)),
{
    assert forall|j: int| 0 <= j < canon_seps(s).len() implies canon_seps(s)[j] != '\\' by {
        assert(canon_seps(s)[j] == if s[j] == '\\' {
            '/'
        } else {
            s[j]
        });
    }
}

proof fn lemma_canon_id(s: Seq<char>)
    requires
        no_backslash(s),
    ensures
        canon_seps(s) == s,
{
    assert forall|j: int| 0 <= j < s.len() implies canon_seps(s)[j] == s[j] by {
        assert(canon_seps(s)[j] == if s[j] == '\\' {
            '/'
        } else {
            s[j]
        });
    }
    assert(canon_seps(s) =~= s);
}

// Splitting and joining --------------------------------------------------

proof fn lemma_split_ok(s: Seq<char>)
    requires
        no_backslash(s),
    ensures
        ok_nodes(split_nodes(s)),
    decreases s.len(),
{
    if s.len() == 0 {
        assert(ok_node(split_nodes(s)[0]));
    } else {
        assert forall|j: int| 0 <= j < s.drop_first().len() implies s.drop_first()[j] != '\\' by {
            assert(s.drop_first()[j] == s[j + 1]);
        }
        lemma_split_ok(s.drop_first());
        let rest = split_nodes(s.drop_first());
        lemma_split_len_pos(s.drop_first());
        if s[0] == '/' {
            assert forall|i: int| 0 <= i < split_nodes(s).len() implies ok_node(
                #[trigger] split_nodes(s)[i],
            ) by {
                if i == 0 {
                    assert(split_nodes(s)[0] =~= Seq::<char>::empty());
                } else {
                    assert(split_nodes(s)[i] == rest[i - 1]);
                }
            }
        } else {
            let head = seq![s[0]] + rest[0];
            assert(ok_node(head)) by {
                assert forall|j: int| 0 <= j < head.len() implies head[j] != '/' && head[j]
                    != '\\' by {
                    if j == 0 {
                        assert(head[0] == s[0]);
                    } else {
                        assert(head[j] == rest[0][j - 1]);
                        assert(ok_node(rest[0]));
                    }
                }
            }
            assert forall|i: int| 0 <= i < split_nodes(s).len() implies ok_node(
                #[trigger] split_nodes(s)[i],
            ) by {
                if i == 0 {
                    assert(split_nodes(s)[0] == head);
                } else {
                    assert(split_nodes(s)[i] == rest[i]);
                }
            }
        }
    }
}

proof fn lemma_join_no_backslash(ns: Seq<Seq<char>>)
    requires
        ok_nodes(ns),
    ensures
        no_backslash(join_nodes(ns)),
    decreases ns.len(),
{
    if ns.len() == 0 {
    } else if ns.len() == 1 {
        assert(ok_node(ns[0]));
    } else {
        assert forall|i: int| 0 <= i < ns.drop_first().len() implies ok_node(
            #[trigger] ns.drop_first()[i],
        ) by {
            assert(ns.drop_first()[i] == ns[i + 1]);
        }
        lemma_join_no_backslash(ns.drop_first());
        let tail = join_nodes(ns.drop_first());
        let whole = ns[0] + seq!['/'] + tail;
        assert(ok_node(ns[0]));
        assert forall|j: int| 0 <= j < whole.len() implies whole[j] != '\\' by {
            if j < ns[0].len() {
                assert(whole[j] == ns[0][j]);
            } else if j == ns[0].len() {
                assert(whole[j] == '/');
            } else {
                assert(whole[j] == tail[j - ns[0].len() - 1]);
            }
        }
    }
}

proof fn lemma_split_sep_free(s: Seq<char>)
    requires
        ok_node(s),
    ensures
        split_nodes(s) == seq![s],
    decreases s.len(),
{
    if s.len() == 0 {
        assert(s =~= Seq::<char>::empty());
        assert(split_nodes(s) =~= seq![s]);
    } else {
        assert(s[0] != '/');
        assert forall|j: int| 0 <= j < s.drop_first().len() implies s.drop_first()[j] != '/'
            && s.drop_first()[j] != '\\' by {
            assert(s.drop_first()[j] == s[j + 1]);
        }
        lemma_split_sep_free(s.drop_first());
        let rest = split_nodes(s.drop_first());
        assert(rest == seq![s.drop_first()]);
        assert(seq![s[0]] + rest[0] =~= s);
        assert(rest.drop_first() =~= Seq::<Seq<char>>::empty());
        assert(seq![seq![s[0]] + rest[0]] + rest.drop_first() =~= seq![s]);
    }
}

proof fn lemma_split_prepend(a: Seq<char>, t: Seq<char>)
    requires
        ok_node(a),
    ensures
        split_nodes(a + seq!['/'] + t) == seq![a] + split_nodes(t),
    decreases a.len(),
{
    let s = a + seq!['/'] + t;
    if a.len() == 0 {
        assert(s[0] == '/');
        assert(s.drop_first() =~= t);
        assert(a =~= Seq::<char>::empty());
        assert(seq![Seq::<char>::empty()] + split_nodes(t) =~= seq![a] + split_nodes(t));
    } else {
        assert(s[0] == a[0]);
        assert(a[0] != '/');
        assert forall|j: int| 0 <= j < a.drop_first().len() implies a.drop_first()[j] != '/'
            && a.drop_first()[j] != '\\' by {
            assert(a.drop_first()[j] == a[j + 1]);
        }
        lemma_split_prepend(a.drop_first(), t);
        assert(s.drop_first() =~= a.drop_first() + seq!['/'] + t);
        let rest = split_nodes(s.drop_first());
        assert(rest == seq![a.drop_first()] + split_nodes(t));
        lemma_split_len_pos(t);
        assert(rest[0] == a.drop_first());
        assert(seq![s[0]] + rest[0] =~= a);
        assert(rest.drop_first() =~= split_nodes(t));
        assert(split_nodes(s) =~= seq![a] + split_nodes(t));
    }
}

proof fn lemma_split_join(ns: Seq<Seq<char>>)
    requires
        ns.len() >= 1,
        ok_nodes(ns),
    ensures
        split_nodes(join_nodes(ns)) == ns,
    decreases ns.len(),
{
    if ns.len() == 1 {
        lemma_split_sep_free(ns[0]);
        assert(seq![ns[0]] =~= ns);
    } else {
        assert forall|i: int| 0 <= i < ns.drop_first().len() implies ok_node(
            #[trigger] ns.drop_first()[i],
        ) by {
            assert(ns.drop_first()[i] == ns[i + 1]);
        }
        lemma_split_join(ns.drop_first());
        lemma_split_prepend(ns[0], join_nodes(ns.drop_first()));
        assert(seq![ns[0]] + ns.drop_first() =~= ns);
    }
}

// Empty middle nodes -----------------------------------------------------

proof fn lemma_keep_nonempty_all(ns: Seq<Seq<char>>)
    ensures
        forall|i: int|
            0 <= i < keep_nonempty(ns).len() ==> (#[trigger] keep_nonempty(ns)[i]).len() > 0,
    decreases ns.len(),
{
    if ns.len() > 0 {
        lemma_keep_nonempty_all(ns.drop_first());
        if ns[0].len() != 0 {
            assert forall|i: int| 0 <= i < keep_nonempty(ns).len() implies (
            #[trigger] keep_nonempty(ns)[i]).len() > 0 by {
                if i > 0 {
                    assert(keep_nonempty(ns)[i] == keep_nonempty(ns.drop_first())[i - 1]);
                }
            }
        }
    }
}

proof fn lemma_keep_nonempty_id(ns: Seq<Seq<char>>)
    requires
        forall|i: int| 0 <= i < ns.len() ==> (#[trigger] ns[i]).len() > 0,
    ensures
        keep_nonempty(ns) == ns,
    decreases ns.len(),
{
    if ns.len() > 0 {
        assert(ns[0].len() > 0);
        assert forall|i: int| 0 <= i < ns.drop_first().len() implies (
        #[trigger] ns.drop_first()[i]).len() > 0 by {
            assert(ns.drop_first()[i] == ns[i + 1]);
        }
        lemma_keep_nonempty_id(ns.drop_first());
        assert(keep_nonempty(ns) =~= ns);
    }
}

proof fn lemma_keep_nonempty_ok(ns: Seq<Seq<char>>)
    requires
        ok_nodes(ns),
    ensures
        ok_nodes(keep_nonempty(ns)),
    decreases ns.len(),
{
    if ns.len() > 0 {
        assert forall|i: int| 0 <= i < ns.drop_first().len() implies ok_node(
            #[trigger] ns.drop_first()[i],
        ) by {
            assert(ns.drop_first()[i] == ns[i + 1]);
        }
        lemma_keep_nonempty_ok(ns.drop_first());
        if ns[0].len() == 0 {
        } else {
            assert forall|i: int| 0 <= i < keep_nonempty(ns).len() implies ok_node(
                #[trigger] keep_nonempty(ns)[i],
            ) by {
                if i == 0 {
                    assert(keep_nonempty(ns)[0] == ns[0]);
                } else {
                    assert(keep_nonempty(ns)[i] == keep_nonempty(ns.drop_first())[i - 1]);
                }
            }
        }
    }
}

proof fn lemma_dropmid_ends(ns: Seq<Seq<char>>)
    ensures
        empties_at_ends(drop_empty_middle(ns)),
{
    if ns.len() <= 2 {
    } else {
        let mid = keep_nonempty(ns.subrange(1, ns.len() - 1));
        lemma_keep_nonempty_all(ns.subrange(1, ns.len() - 1));
        let r = drop_empty_middle(ns);
        assert forall|i: int| 0 < i < r.len() - 1 implies (#[trigger] r[i]).len() > 0 by {
            assert(r[i] == mid[i - 1]);
        }
    }
}

proof fn lemma_dropmid_id(ns: Seq<Seq<char>>)
    requires
        empties_at_ends(ns),
    ensures
        drop_empty_middle(ns) == ns,
{
    if ns.len() <= 2 {
    } else {
        let mid = ns.subrange(1, ns.len() - 1);
        assert forall|i: int| 0 <= i < mid.len() implies (#[trigger] mid[i]).len() > 0 by {
            assert(mid[i] == ns[i + 1]);
        }
        lemma_keep_nonempty_id(mid);
        assert(drop_empty_middle(ns) =~= ns);
    }
}

proof fn lemma_dropmid_ok(ns: Seq<Seq<char>>)
    requires
        ok_nodes(ns),
    ensures
        ok_nodes(drop_empty_middle(ns)),
{
    if ns.len() <= 2 {
    } else {
        let mid = ns.subrange(1, ns.len() - 1);
        assert forall|i: int| 0 <= i < mid.len() implies ok_node(#[trigger] mid[i]) by {
            assert(mid[i] == ns[i + 1]);
        }
        lemma_keep_nonempty_ok(mid);
        let r = drop_empty_middle(ns);
        assert forall|i: int| 0 <= i < r.len() implies ok_node(#[trigger] r[i]) by {
            if i == 0 {
                assert(r[0] == ns[0]);
            } else if i == r.len() - 1 {
                assert(r[i] == ns.last());
            } else {
                assert(r[i] == keep_nonempty(mid)[i - 1]);
            }
        }
    }
}

// Collapsing `..` nodes --------------------------------------------------

proof fn lemma_collapse_parents_leading_from(st: Seq<Seq<char>>, ns: Seq<Seq<char>>)
    requires
        parents_leading(st),
    ensures
        parents_leading(collapse_from(st, ns)),
    decreases ns.len(),
{
    if ns.len() > 0 {
        let n = ns[0];
        if n == dotdot() && st.len() > 0 && st.last() != dotdot() {
            let st2 = st.drop_last();
            assert forall|i: int| 1 <= i < st2.len() && #[trigger] st2[i] == dotdot() implies st2[i
                - 1] == dotdot() by {
                assert(st2[i] == st[i]);
                assert(st2[i - 1] == st[i - 1]);
            }
            lemma_collapse_parents_leading_from(st2, ns.drop_first());
        } else {
            let st2 = st.push(n);
            assert forall|i: int| 1 <= i < st2.len() && #[trigger] st2[i] == dotdot() implies st2[i
                - 1] == dotdot() by {
                if i < st.len() {
                    assert(st2[i] == st[i]);
                    assert(st2[i - 1] == st[i - 1]);
                } else {
                    assert(st2[i] == n);
                    if n == dotdot() {
                        assert(st.len() == 0 || st.last() == dotdot());
                        assert(st2[i - 1] == st[i - 1]);
                    }
                }
            }
            lemma_collapse_parents_leading_from(st2, ns.drop_first());
        }
    }
}

proof fn lemma_collapse_id_from(st: Seq<Seq<char>>, ns: Seq<Seq<char>>)
    requires
        parents_leading(st + ns),
    ensures
        collapse_from(st, ns) == st + ns,
    decreases ns.len(),
{
    if ns.len() == 0 {
        assert(st + ns =~= st);
    } else {
        let n = ns[0];
        let whole = st + ns;
        assert(whole[st.len() as int] == n);
        if n == dotdot() && st.len() > 0 {
            assert(whole[st.len() - 1] == st.last());
            assert(st.last() == dotdot());
        }
        let st2 = st.push(n);
        assert(st2 + ns.drop_first() =~= whole);
        lemma_collapse_id_from(st2, ns.drop_first());
    }
}

proof fn lemma_collapse_ends_from(st: Seq<Seq<char>>, ns: Seq<Seq<char>>)
    requires
        empties_at_front(st),
        forall|i: int| 0 <= i < ns.len() - 1 ==> (#[trigger] ns[i]).len() > 0,
    ensures
        empties_at_ends(collapse_from(st, ns)),
    decreases ns.len(),
{
    if ns.len() == 0 {
        assert forall|i: int| 0 < i < st.len() - 1 implies (#[trigger] st[i]).len() > 0 by {}
    } else if ns.len() == 1 {
        let n = ns[0];
        assert(ns.drop_first().len() == 0);
        if n == dotdot() && st.len() > 0 && st.last() != dotdot() {
            let st2 = st.drop_last();
            assert(collapse_from(st2, ns.drop_first()) == st2);
            assert forall|i: int| 0 < i < st2.len() - 1 implies (#[trigger] st2[i]).len() > 0 by {
                assert(st2[i] == st[i]);
            }
        } else {
            let st2 = st.push(n);
            assert(collapse_from(st2, ns.drop_first()) == st2);
            assert forall|i: int| 0 < i < st2.len() - 1 implies (#[trigger] st2[i]).len() > 0 by {
                assert(st2[i] == st[i]);
            }
        }
    } else {
        let n = ns[0];
        assert(n.len() > 0);
        assert forall|i: int| 0 <= i < ns.drop_first().len() - 1 implies (
        #[trigger] ns.drop_first()[i]).len() > 0 by {
            assert(ns.drop_first()[i] == ns[i + 1]);
        }
        if n == dotdot() && st.len() > 0 && st.last() != dotdot() {
            let st2 = st.drop_last();
            assert forall|i: int| 0 < i < st2.len() implies (#[trigger] st2[i]).len() > 0 by {
                assert(st2[i] == st[i]);
            }
            lemma_collapse_ends_from(st2, ns.drop_first());
        } else {
            let st2 = st.push(n);
            assert forall|i: int| 0 < i < st2.len() implies (#[trigger] st2[i]).len() > 0 by {
                if i < st.len() {
                    assert(st2[i] == st[i]);
                } else {
                    assert(st2[i] == n);
                }
            }
            lemma_collapse_ends_from(st2, ns.drop_first());
        }
    }
}

proof fn lemma_collapse_ok_from(st: Seq<Seq<char>>, ns: Seq<Seq<char>>)
    requires
        ok_nodes(st),
        ok_nodes(ns),
    ensures
        ok_nodes(collapse_from(st, ns)),
    decreases ns.len(),
{
    if ns.len() > 0 {
        let n = ns[0];
        assert(ok_node(n));
        assert forall|i: int| 0 <= i < ns.drop_first().len() implies ok_node(
            #[trigger] ns.drop_first()[i],
        ) by {
            assert(ns.drop_first()[i] == ns[i + 1]);
        }
        if n == dotdot() && st.len() > 0 && st.last() != dotdot() {
            let st2 = st.drop_last();
            assert forall|i: int| 0 <= i < st2.len() implies ok_node(#[trigger] st2[i]) by {
                assert(st2[i] == st[i]);
            }
            lemma_collapse_ok_from(st2, ns.drop_first());
        } else {
            let st2 = st.push(n);
            assert forall|i: int| 0 <= i < st2.len() implies ok_node(#[trigger] st2[i]) by {
                if i < st.len() {
                    assert(st2[i] == st[i]);
                } else {
                    assert(st2[i] == n);
                }
            }
            lemma_collapse_ok_from(st2, ns.drop_first());
        }
    }
}

proof fn lemma_collapse_ends(ns: Seq<Seq<char>>)
    requires
        empties_at_ends(ns),
    ensures
        empties_at_ends(collapse_dotdot(ns)),
{
    let empty_stack = Seq::<Seq<char>>::empty();
    if ns.len() > 1 && ns[0].len() == 0 {
        // The leading empty node is pushed first; afterwards only the
        // last remaining node may be empty.
        assert(ns[0] != dotdot());
        assert(collapse_dotdot(ns) == collapse_from(empty_stack.push(ns[0]), ns.drop_first()));
        let st = empty_stack.push(ns[0]);
        assert forall|i: int| 0 < i < st.len() implies (#[trigger] st[i]).len() > 0 by {}
        assert forall|i: int| 0 <= i < ns.drop_first().len() - 1 implies (
        #[trigger] ns.drop_first()[i]).len() > 0 by {
            assert(ns.drop_first()[i] == ns[i + 1]);
        }
        lemma_collapse_ends_from(st, ns.drop_first());
    } else {
        assert forall|i: int| 0 <= i < ns.len() - 1 implies (#[trigger] ns[i]).len() > 0 by {}
        lemma_collapse_ends_from(empty_stack, ns);
    }
}

// Removing `.` nodes -----------------------------------------------------

proof fn lemma_keep_nondot_nodots(ns: Seq<Seq<char>>)
    ensures
        !has_dot(keep_nondot(ns)),
    decreases ns.len(),
{
    if ns.len() > 0 {
        lemma_keep_nondot_nodots(ns.drop_first());
        if ns[0] != dot() {
            let r = keep_nondot(ns);
            assert forall|i: int| 0 <= i < r.len() implies r[i] != dot() by {
                if i == 0 {
                    assert(r[0] == ns[0]);
                } else {
                    assert(r[i] == keep_nondot(ns.drop_first())[i - 1]);
                    assert(!has_dot(keep_nondot(ns.drop_first())));
                }
            }
        }
    }
}

proof fn lemma_keep_nondot_ok(ns: Seq<Seq<char>>)
    requires
        ok_nodes(ns),
    ensures
        ok_nodes(keep_nondot(ns)),
    decreases ns.len(),
{
    if ns.len() > 0 {
        assert forall|i: int| 0 <= i < ns.drop_first().len() implies ok_node(
            #[trigger] ns.drop_first()[i],
        ) by {
            assert(ns.drop_first()[i] == ns[i + 1]);
        }
        lemma_keep_nondot_ok(ns.drop_first());
        if ns[0] == dot() {
        } else {
            let r = keep_nondot(ns);
            assert forall|i: int| 0 <= i < r.len() implies ok_node(#[trigger] r[i]) by {
                if i == 0 {
                    assert(r[0] == ns[0]);
                } else {
                    assert(r[i] == keep_nondot(ns.drop_first())[i - 1]);
                }
            }
        }
    }
}

proof fn lemma_keep_nondot_parents(ns: Seq<Seq<char>>)
    requires
        parents_leading(ns),
    ensures
        parents_leading(keep_nondot(ns)),
        keep_nondot(ns).len() > 0 && keep_nondot(ns)[0] == dotdot() ==> ns.len() > 0 && ns[0]
            == dotdot(),
    decreases ns.len(),
{
    if ns.len() > 0 {
        assert forall|i: int|
            1 <= i < ns.drop_first().len() && #[trigger] ns.drop_first()[i] == dotdot() implies
            ns.drop_first()[i - 1] == dotdot() by {
            assert(ns.drop_first()[i] == ns[i + 1]);
            assert(ns.drop_first()[i - 1] == ns[i]);
        }
        lemma_keep_nondot_parents(ns.drop_first());
        let kr = keep_nondot(ns.drop_first());
        if ns[0] == dot() {
            // The head is removed; the rest cannot begin with `..`, since
            // a `..` there would have to sit behind the removed `.`.
            if kr.len() > 0 && kr[0] == dotdot() {
                assert(ns.drop_first()[0] == ns[1]);
                assert(ns[1] == dotdot());
                assert(ns[0] == dotdot());
                assert(false);
            }
        } else {
            let r = keep_nondot(ns);
            assert(r == seq![ns[0]] + kr);
            assert forall|i: int| 1 <= i < r.len() && #[trigger] r[i] == dotdot() implies r[i - 1]
                == dotdot() by {
                assert(r[i] == kr[i - 1]);
                if i == 1 {
                    assert(kr[0] == dotdot());
                    assert(ns.drop_first().len() > 0 && ns.drop_first()[0] == dotdot());
                    assert(ns[1] == dotdot());
                    assert(ns[0] == dotdot());
                    assert(r[0] == ns[0]);
                } else {
                    assert(r[i - 1] == kr[i - 2]);
                }
            }
            assert(r[0] == ns[0]);
        }
    }
}

proof fn lemma_keep_nondot_ends(ns: Seq<Seq<char>>)
    requires
        empties_at_ends(ns),
    ensures
        empties_at_ends(keep_nondot(ns)),
        keep_nondot(ns).len() > 1 && keep_nondot(ns)[0].len() == 0 ==> ns.len() > 0 && ns[0].len()
            == 0,
        keep_nondot(ns).len() > 0 && keep_nondot(ns).last().len() == 0 ==> (ns.len() > 0
            && ns.last().len() == 0) || (keep_nondot(ns).len() == 1 && ns.len() > 0 && ns[0].len()
            == 0),
    decreases ns.len(),
{
    if ns.len() > 0 {
        let rest = ns.drop_first();
        assert forall|i: int| 0 < i < rest.len() - 1 implies (#[trigger] rest[i]).len() > 0 by {
            assert(rest[i] == ns[i + 1]);
        }
        lemma_keep_nondot_ends(rest);
        let kr = keep_nondot(rest);
        if ns[0] == dot() {
            if kr.len() > 1 && kr[0].len() == 0 {
                // Only possible when the rest is a single empty node,
                // which contradicts the length.
                assert(rest.len() > 0 && rest[0].len() == 0);
                assert(rest[0] == ns[1]);
                if ns.len() > 2 {
                    assert(ns[1].len() > 0);
                    assert(false);
                } else {
                    assert(rest.len() == 1);
                    assert(kr.len() <= rest.len()) by {
                        lemma_keep_nondot_len(rest);
                    }
                    assert(false);
                }
            }
            if kr.len() > 0 && kr.last().len() == 0 {
                if kr.len() == 1 && rest.len() > 0 && rest[0].len() == 0 {
                    assert(rest[0] == ns[1]);
                    if ns.len() > 2 {
                        assert(false);
                    } else {
                        assert(rest.len() == 1);
                        assert(rest.last() == rest[0]);
                        assert(ns.last() == ns[1]);
                    }
                } else {
                    assert(rest.len() > 0 && rest.last().len() == 0);
                    assert(rest.last() == ns.last());
                }
            }
        } else {
            let r = keep_nondot(ns);
            assert(r == seq![ns[0]] + kr);
            assert(r[0] == ns[0]);
            assert forall|i: int| 0 < i < r.len() - 1 implies (#[trigger] r[i]).len() > 0 by {
                assert(r[i] == kr[i - 1]);
                if i - 1 == 0 {
                    if kr[0].len() == 0 {
                        if kr.len() > 1 {
                            assert(rest.len() > 0 && rest[0].len() == 0);
                            assert(rest[0] == ns[1]);
                            if ns.len() > 2 {
                                assert(false);
                            } else {
                                assert(rest.len() == 1);
                                lemma_keep_nondot_len(rest);
                                assert(false);
                            }
                        } else {
                            // kr has a single element, so i - 1 == 0 is
                            // its last position and i == r.len() - 1.
                            assert(false);
                        }
                    }
                } else {
                    assert(0 < i - 1 < kr.len() - 1);
                }
            }
            if r.len() > 0 && r.last().len() == 0 {
                if kr.len() > 0 {
                    assert(r.last() == kr.last());
                    if kr.len() == 1 && rest.len() > 0 && rest[0].len() == 0 {
                        assert(rest[0] == ns[1]);
                        if ns.len() > 2 {
                            assert(false);
                        } else {
                            assert(rest.len() == 1);
                            assert(ns.last() == ns[1]);
                        }
                    } else {
                        assert(rest.len() > 0 && rest.last().len() == 0);
                        assert(rest.last() == ns.last());
                    }
                } else {
                    assert(r.last() == ns[0]);
                }
            }
        }
    }
}

proof fn lemma_keep_nondot_len(ns: Seq<Seq<char>>)
    ensures
        keep_nondot(ns).len() <= ns.len(),
    decreases ns.len(),
{
    if ns.len() > 0 {
        lemma_keep_nondot_len(ns.drop_first());
    }
}

// The pieces assembled ---------------------------------------------------

/// Whether `s` holds no two adjacent separators.
pub open spec fn no_doubled_separator(s: Seq<char>) -> bool {
    forall|i: int| 0 <= i < s.len() - 1 ==> !(s[i] == '/' && #[trigger] s[i + 1] == '/')
}

proof fn lemma_join_no_doubled(ns: Seq<Seq<char>>)
    requires
        ok_nodes(ns),
        empties_at_ends(ns),
    ensures
        no_doubled_separator(join_nodes(ns)),
    decreases ns.len(),
{
    if ns.len() == 0 {
    } else if ns.len() == 1 {
        let t = join_nodes(ns);
        assert(ok_node(ns[0]));
        assert forall|i: int| 0 <= i < t.len() - 1 implies !(t[i] == '/' && #[trigger] t[i + 1]
            == '/') by {
            assert(t[i] != '/');
        }
    } else {
        let rest = ns.drop_first();
        assert forall|i: int| 0 <= i < rest.len() implies ok_node(#[trigger] rest[i]) by {
            assert(rest[i] == ns[i + 1]);
        }
        assert forall|i: int| 0 < i < rest.len() - 1 implies (#[trigger] rest[i]).len() > 0 by {
            assert(rest[i] == ns[i + 1]);
        }
        lemma_join_no_doubled(rest);
        let t = join_nodes(rest);
        let whole = ns[0] + seq!['/'] + t;
        assert(ok_node(ns[0]));
        // The joined tail never begins with a separator: its first node
        // is separator-free, and empty only when it is the whole tail.
        assert(t.len() > 0 ==> t[0] != '/') by {
            if rest.len() == 1 {
                assert(t == rest[0]);
                if t.len() > 0 {
                    assert(ok_node(rest[0]));
                }
            } else {
                assert(rest[0].len() > 0) by {
                    assert(rest[0] == ns[1]);
                }
                assert(t == rest[0] + seq!['/'] + join_nodes(rest.drop_first()));
                assert(t[0] == rest[0][0]);
                assert(ok_node(rest[0]));
            }
        }
        assert forall|i: int| 0 <= i < whole.len() - 1 implies !(whole[i] == '/'
            && #[trigger] whole[i + 1] == '/') by {
            let head = ns[0].len() as int;
            assert(whole.len() == head + 1 + t.len());
            if i < head {
                assert(whole[i] == ns[0][i]);
                assert(ns[0][i] != '/');
            } else if i == head {
                assert(t.len() > 0);
                assert(whole[i] == '/');
                assert(whole[i + 1] == t[0]);
                assert(t[0] != '/');
            } else {
                let j = i - head - 1;
                assert(whole[i] == t[j]);
                assert(whole[i + 1] == t[j + 1]);
                assert(!(t[j] == '/' && t[j + 1] == '/'));
            }
        }
    }
}

/// The node sequence of a normalized path is canonical: nodes are
/// separator-free, empty nodes stand only at the ends, every `..` node
/// belongs to a leading run (nothing is left to collapse), and bare `.`
/// nodes survive only in an all-`.` path.
pub proof fn lemma_normal_nodes_shape(s: Seq<char>)
    ensures
        ok_nodes(normal_nodes(s)),
        empties_at_ends(normal_nodes(s)),
        parents_leading(normal_nodes(s)),
        strip_dots(normal_nodes(s)) == normal_nodes(s),
{
    let c = canon_seps(s);
    let ns0 = split_nodes(c);
    let ns1 = drop_empty_middle(ns0);
    let ns2 = collapse_dotdot(ns1);
    let ns4 = strip_dots(ns2);
    lemma_canon_no_backslash(s);
    lemma_split_ok(c);
    lemma_dropmid_ok(ns0);
    lemma_dropmid_ends(ns0);
    lemma_collapse_ok_from(Seq::<Seq<char>>::empty(), ns1);
    lemma_collapse_ends(ns1);
    lemma_collapse_parents_leading_from(Seq::<Seq<char>>::empty(), ns1);
    if has_dot(ns2) && !all_dots(ns2) {
        assert(ns4 == keep_nondot(ns2));
        lemma_keep_nondot_ok(ns2);
        lemma_keep_nondot_parents(ns2);
        lemma_keep_nondot_ends(ns2);
        lemma_keep_nondot_nodots(ns2);
        assert(strip_dots(ns4) == ns4);
    } else {
        assert(ns4 == ns2);
        assert(strip_dots(ns4) == ns4);
    }
}

/// Normalization is idempotent: re-normalizing the normalized form of
/// any raw path yields it unchanged.
pub proof fn lemma_normalize_idempotent(s: Seq<char>)
    ensures
        normalize(normalize(s)) == normalize(s),
{
    let ns4 = normal_nodes(s);
    let t = normalize(s);
    lemma_normal_nodes_shape(s);
    if ns4.len() == 0 {
        assert(t =~= Seq::<char>::empty());
        lemma_normalize_empty();
    } else {
        lemma_join_no_backslash(ns4);
        lemma_canon_id(t);
        lemma_split_join(ns4);
        lemma_dropmid_id(ns4);
        assert(Seq::<Seq<char>>::empty() + ns4 =~= ns4);
        lemma_collapse_id_from(Seq::<Seq<char>>::empty(), ns4);
        assert(normal_nodes(t) == ns4);
    }
}

/// A normalized path carries no alternate separator and no doubled
/// separator.
pub proof fn lemma_normalize_separators(s: Seq<char>)
    ensures
        no_backslash(normalize(s)),
        no_doubled_separator(normalize(s)),
{
    lemma_normal_nodes_shape(s);
    lemma_join_no_backslash(normal_nodes(s));
    lemma_join_no_doubled(normal_nodes(s));
}

proof fn lemma_normalize_empty()
    ensures
        normalize(Seq::<char>::empty()) == Seq::<char>::empty(),
{
    let e = Seq::<char>::empty();
    assert(canon_seps(e) =~= e);
    assert(split_nodes(e) == seq![Seq::<char>::empty()]);
    let ns0 = split_nodes(e);
    assert(drop_empty_middle(ns0) == ns0);
    let st = Seq::<Seq<char>>::empty();
    assert(ns0[0] != dotdot());
    assert(collapse_from(st, ns0) == collapse_from(st.push(ns0[0]), ns0.drop_first()));
    assert(ns0.drop_first() =~= Seq::<Seq<char>>::empty());
    assert(collapse_dotdot(ns0) =~= st.push(ns0[0]));
    let ns2 = collapse_dotdot(ns0);
    assert(ns2[0] != dot());
    assert(!has_dot(ns2)) by {
        if has_dot(ns2) {
            let i = choose|i: int| 0 <= i < ns2.len() && ns2[i] == dot();
            assert(i == 0);
        }
    }
    assert(strip_dots(ns2) == ns2);
    assert(join_nodes(ns2) == ns2[0]);
}

} // verus!
