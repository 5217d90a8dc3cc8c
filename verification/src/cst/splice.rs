//! Replacing one node of a green tree by another: only the path from the
//! root down to the replaced node is rebuilt, every other subtree is
//! copied as it stands.
use vstd::prelude::*;

use crate::cst::green::{
    child_leaves, child_len, children_len, lemma_child_node_smaller, lemma_children_len_prefix,
    seq_leaves, GreenChild, GreenNode,
};
use crate::cst::syntax::SyntaxKind;

verus! {

/// The leaves of the children of `n` from the `k`-th on, the `k`-th
/// starting at byte `pos`, once the splice is made: while not yet `done`,
/// the first child that is a node of `sp`'s kind spanning exactly
/// `[s, e)` gives way to `sp`, and otherwise the first node child whose
/// span holds `[s, e)` is spliced into in the same way; either ends the
/// search at this level. All other children keep their leaves.
pub open spec fn splice_from(
    n: GreenNode,
    k: int,
    s: int,
    e: int,
    sp: GreenNode,
    pos: int,
    done: bool,
) -> Seq<(SyntaxKind, nat)>
    decreases n, n.spec_children().len() - k,
{
    let cs = n.spec_children();
    if k < 0 || k >= cs.len() {
        seq![]
    } else {
        let c = cs[k];
        let end = pos + child_len(c);
        if !done && pos == s && end == e && (c matches GreenChild::Node(m) && m.spec_kind()
            == sp.spec_kind()) {
            seq_leaves(sp.spec_children()) + splice_from(n, k + 1, s, e, sp, end, true)
        } else if !done && pos <= s && end >= e && c is Node {
            proof {
                lemma_child_node_smaller(n, k);
            }
            splice_from(c->Node_0, 0, s, e, sp, pos, false) + splice_from(
                n,
                k + 1,
                s,
                e,
                sp,
                end,
                true,
            )
        } else {
            child_leaves(c) + splice_from(n, k + 1, s, e, sp, end, done)
        }
    }
}

/// Whether the splice described by [`splice_from`] finds a node to
/// replace among the children of `n` from the `k`-th on.
pub open spec fn splice_hits(
    n: GreenNode,
    k: int,
    s: int,
    e: int,
    kind: SyntaxKind,
    pos: int,
    done: bool,
) -> bool
    decreases n, n.spec_children().len() - k,
{
    let cs = n.spec_children();
    if done || k < 0 || k >= cs.len() {
        false
    } else {
        let c = cs[k];
        let end = pos + child_len(c);
        if pos == s && end == e && (c matches GreenChild::Node(m) && m.spec_kind() == kind) {
            true
        } else if pos <= s && end >= e && c is Node {
            proof {
                lemma_child_node_smaller(n, k);
            }
            splice_hits(c->Node_0, 0, s, e, kind, pos, false)
        } else {
            splice_hits(n, k + 1, s, e, kind, end, false)
        }
    }
}

/// The leaves of a run of children, from the front: the first child's,
/// then the rest's.
proof fn lemma_seq_leaves_front(cs: Seq<GreenChild>, k: int)
    requires
        0 <= k < cs.len(),
    ensures
        seq_leaves(cs.skip(k)) == child_leaves(cs[k]) + seq_leaves(cs.skip(k + 1)),
{
    assert(cs.skip(k) =~= seq![cs[k]] + cs.skip(k + 1));
    crate::cst::green::lemma_seq_leaves_concat(seq![cs[k]], cs.skip(k + 1));
    assert(seq![cs[k]].drop_last() =~= Seq::<GreenChild>::empty());
    assert(seq![cs[k]].last() == cs[k]);
    assert(seq_leaves(Seq::<GreenChild>::empty()) =~= Seq::<(SyntaxKind, nat)>::empty());
    assert(seq_leaves(seq![cs[k]]) =~= child_leaves(cs[k]));
}

/// The splice from the `k`-th child on either changes nothing, or keeps
/// everything but one node of `sp`'s kind, whose leaves give way to
/// `sp`'s; the result names that split.
proof fn lemma_splice_split(n: GreenNode, k: int, s: int, e: int, sp: GreenNode, pos: int, done: bool) -> (w: (
    Seq<(SyntaxKind, nat)>,
    GreenNode,
    Seq<(SyntaxKind, nat)>,
))
    requires
        0 <= k <= n.spec_children().len(),
    ensures
        !splice_hits(n, k, s, e, sp.spec_kind(), pos, done) ==> splice_from(n, k, s, e, sp, pos, done)
            == seq_leaves(n.spec_children().skip(k)),
        splice_hits(n, k, s, e, sp.spec_kind(), pos, done) ==> {
            &&& w.1.spec_kind() == sp.spec_kind()
            &&& seq_leaves(n.spec_children().skip(k)) == w.0 + seq_leaves(w.1.spec_children()) + w.2
            &&& splice_from(n, k, s, e, sp, pos, done) == w.0 + seq_leaves(sp.spec_children()) + w.2
        },
    decreases n, n.spec_children().len() - k,
{
    let cs = n.spec_children();
    let none = Seq::<(SyntaxKind, nat)>::empty();
    if k >= cs.len() {
        assert(cs.skip(k) =~= Seq::<GreenChild>::empty());
        return (none, sp, none);
    }
    lemma_seq_leaves_front(cs, k);
    let c = cs[k];
    let end = pos + child_len(c);
    if !done && pos == s && end == e && (c matches GreenChild::Node(m) && m.spec_kind() == sp.spec_kind()) {
        lemma_splice_split(n, k + 1, s, e, sp, end, true);
        let m = c->Node_0;
        assert(none + seq_leaves(m.spec_children()) + seq_leaves(cs.skip(k + 1)) =~= seq_leaves(cs.skip(k)));
        assert(none + seq_leaves(sp.spec_children()) + seq_leaves(cs.skip(k + 1)) =~= splice_from(
            n,
            k,
            s,
            e,
            sp,
            pos,
            done,
        ));
        (none, m, seq_leaves(cs.skip(k + 1)))
    } else if !done && pos <= s && end >= e && c is Node {
        lemma_child_node_smaller(n, k);
        let inner = c->Node_0;
        let wi = lemma_splice_split(inner, 0, s, e, sp, pos, false);
        lemma_splice_split(n, k + 1, s, e, sp, end, true);
        assert(inner.spec_children().skip(0) =~= inner.spec_children());
        let rest = seq_leaves(cs.skip(k + 1));
        if splice_hits(inner, 0, s, e, sp.spec_kind(), pos, false) {
            assert(seq_leaves(cs.skip(k)) =~= wi.0 + seq_leaves(wi.1.spec_children()) + (wi.2 + rest));
            assert(splice_from(n, k, s, e, sp, pos, done) =~= wi.0 + seq_leaves(sp.spec_children()) + (
            wi.2 + rest));
            (wi.0, wi.1, wi.2 + rest)
        } else {
            (none, sp, none)
        }
    } else {
        let wr = lemma_splice_split(n, k + 1, s, e, sp, end, done);
        let here = child_leaves(c);
        if splice_hits(n, k, s, e, sp.spec_kind(), pos, done) {
            assert(seq_leaves(cs.skip(k)) =~= (here + wr.0) + seq_leaves(wr.1.spec_children()) + wr.2);
            assert(splice_from(n, k, s, e, sp, pos, done) =~= (here + wr.0) + seq_leaves(
                sp.spec_children(),
            ) + wr.2);
            (here + wr.0, wr.1, wr.2)
        } else {
            (none, sp, none)
        }
    }
}

/// A splice changes one node or none: where no node of the spliced
/// node's kind is found on the path to `[s, e)`, the tree's leaves stay
/// as they are; where one is, the leaves split as `a`, the leaves of a
/// node `t` of that kind, and `c`, and the splice gives `a`, the spliced
/// node's leaves, and `c`.
pub proof fn lemma_splice_replaces_one_node(n: GreenNode, s: int, e: int, sp: GreenNode, base: int)
    ensures
        !splice_hits(n, 0, s, e, sp.spec_kind(), base, false) ==> splice_from(n, 0, s, e, sp, base, false)
            == seq_leaves(n.spec_children()),
        splice_hits(n, 0, s, e, sp.spec_kind(), base, false) ==> exists|
            a: Seq<(SyntaxKind, nat)>,
            t: GreenNode,
            c: Seq<(SyntaxKind, nat)>,
        |
            #![trigger a + seq_leaves(t.spec_children()) + c]
            t.spec_kind() == sp.spec_kind() && seq_leaves(n.spec_children()) == a + seq_leaves(
                t.spec_children(),
            ) + c && splice_from(n, 0, s, e, sp, base, false) == a + seq_leaves(sp.spec_children())
                + c,
{
    let w = lemma_splice_split(n, 0, s, e, sp, base, false);
    assert(n.spec_children().skip(0) =~= n.spec_children());
    if splice_hits(n, 0, s, e, sp.spec_kind(), base, false) {
        assert(seq_leaves(n.spec_children()) == w.0 + seq_leaves(w.1.spec_children()) + w.2);
    }
}

/// `node`, placed at byte `base`, with `spliced` put in place of the node
/// of its kind spanning `[splice_old_start, splice_old_end)` (see
/// [`splice_from`]); the rest of the tree is copied.
pub fn splice_recursive(
    node: &GreenNode,
    splice_old_start: usize,
    splice_old_end: usize,
    spliced: GreenNode,
    base: usize,
) -> (r: GreenNode)
    requires
        base + node.spec_text_len() <= usize::MAX,
        node.spec_text_len() + spliced.spec_text_len() <= usize::MAX,
    ensures
        r.spec_kind() == node.spec_kind(),
        seq_leaves(r.spec_children()) == splice_from(
            *node,
            0,
            splice_old_start as int,
            splice_old_end as int,
            spliced,
            base as int,
            false,
        ),
        r.spec_text_len() <= node.spec_text_len() + spliced.spec_text_len(),
    decreases node,
{
    let s = splice_old_start;
    let e = splice_old_end;
    let ghost sp = spliced;
    let children = node.children();
    let ghost cs = node.spec_children();
    let total = node.text_len();
    let mut new_children: Vec<GreenChild> = Vec::new();
    let mut pos = base;
    let mut consumed = false;
    let mut spliced_opt = Some(spliced);
    let mut k: usize = 0;
    proof {
        assert(cs.take(0) =~= Seq::<GreenChild>::empty());
    }
    while k < children.len()
        invariant
            children@ == cs,
            cs == node.spec_children(),
            total == children_len(cs),
            k <= cs.len(),
            base + total <= usize::MAX,
            total + sp.spec_text_len() <= usize::MAX,
            pos == base + children_len(cs.take(k as int)),
            spliced_opt == if consumed {
                None
            } else {
                Some(sp)
            },
            seq_leaves(new_children@) + splice_from(*node, k as int, s as int, e as int, sp, pos as int, consumed)
                == splice_from(*node, 0, s as int, e as int, sp, base as int, false),
            children_len(new_children@) <= children_len(cs.take(k as int)) + if consumed {
                sp.spec_text_len() as nat
            } else {
                0
            },
        decreases cs.len() - k,
    {
        proof {
            assert(cs.take(k + 1).drop_last() =~= cs.take(k as int));
            lemma_children_len_prefix(cs, k + 1);
        }
        let child = &children[k];
        let len = child.text_len();
        let child_start = pos;
        let child_end = pos + len;
        let ghost before = new_children@;
        let ghost was_consumed = consumed;
        let is_node = match child {
            GreenChild::Node(_) => true,
            GreenChild::Token { .. } => false,
        };
        let exact = match child {
            GreenChild::Node(n) => match &spliced_opt {
                Some(t) => n.kind() == t.kind(),
                None => false,
            },
            GreenChild::Token { .. } => false,
        };
        if !consumed && child_start == s && child_end == e && exact {
            match spliced_opt.take() {
                Some(t) => {
                    new_children.push(GreenChild::Node(t));
                },
                None => {},
            }
            consumed = true;
        } else if !consumed && child_start <= s && child_end >= e && is_node {
            match child {
                GreenChild::Node(inner) => {
                    proof {
                        lemma_child_node_smaller(*node, k as int);
                    }
                    match spliced_opt.take() {
                        Some(t) => {
                            let new_inner = splice_recursive(inner, s, e, t, child_start);
                            new_children.push(GreenChild::Node(new_inner));
                        },
                        None => {},
                    }
                    consumed = true;
                },
                GreenChild::Token { .. } => {},
            }
        } else {
            new_children.push(child.clone());
        }
        proof {
            assert(new_children@.drop_last() =~= before);
            assert(seq_leaves(new_children@) == seq_leaves(before) + child_leaves(
                new_children@.last(),
            ));
            assert(seq_leaves(new_children@) + splice_from(
                *node,
                k + 1,
                s as int,
                e as int,
                sp,
                child_end as int,
                consumed,
            ) =~= seq_leaves(before) + splice_from(
                *node,
                k as int,
                s as int,
                e as int,
                sp,
                pos as int,
                was_consumed,
            ));
        }
        pos = child_end;
        k += 1;
    }
    proof {
        assert(cs.take(k as int) =~= cs);
        assert(seq_leaves(new_children@) + Seq::<(SyntaxKind, nat)>::empty() =~= seq_leaves(
            new_children@,
        ));
    }
    GreenNode::new(node.kind(), new_children)
}

/// `old_root` with `spliced` put in place of the node of its kind that
/// spans `[splice_old_start, splice_old_end)` (see [`splice_from`]).
pub fn rebuild_with_splice(
    old_root: &GreenNode,
    splice_old_start: usize,
    splice_old_end: usize,
    spliced: GreenNode,
) -> (r: GreenNode)
    requires
        old_root.spec_text_len() + spliced.spec_text_len() <= usize::MAX,
    ensures
        r.spec_kind() == old_root.spec_kind(),
        seq_leaves(r.spec_children()) == splice_from(
            *old_root,
            0,
            splice_old_start as int,
            splice_old_end as int,
            spliced,
            0,
            false,
        ),
{
    splice_recursive(old_root, splice_old_start, splice_old_end, spliced, 0)
}

} // verus!
