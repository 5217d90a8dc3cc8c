//! The mapping around an edit site, and the quoting style its other
//! entries agree on.
use vstd::prelude::*;

use crate::cst::document::{dominant_of, dominant_sibling_value_kind, tally};
use crate::cst::green::{child_len, children_len, lemma_child_node_smaller, GreenChild, GreenNode};
use crate::cst::syntax::SyntaxKind;

verus! {

/// The innermost block mapping around the leaf at byte `target`, walking
/// the children of `n` from the `k`-th on (the `k`-th starting at `pos`),
/// with `m` the innermost mapping so far, `here` telling whether `n` is
/// that mapping, and `entry` the innermost mapping entry so far (`Some`
/// holding its index among the mapping's children when it is one of
/// them). The answer exists when the leaf has both a mapping and an
/// entry around it.
pub open spec fn enclosing_walk(
    n: GreenNode,
    k: int,
    target: int,
    pos: int,
    m: Option<GreenNode>,
    here: bool,
    entry: Option<Option<usize>>,
) -> Option<(GreenNode, Option<usize>)>
    decreases n, n.spec_children().len() - k,
{
    let cs = n.spec_children();
    if k < 0 || k >= cs.len() {
        None
    } else {
        let c = cs[k];
        let end = pos + child_len(c);
        if pos <= target < end {
            match c {
                GreenChild::Token { .. } => match (m, entry) {
                    (Some(mm), Some(ex)) => Some((mm, ex)),
                    _ => None,
                },
                GreenChild::Node(inner) => {
                    proof {
                        lemma_child_node_smaller(n, k);
                    }
                    let is_map = inner.spec_kind() == SyntaxKind::BlockMapping;
                    let m2 = if is_map {
                        Some(inner)
                    } else {
                        m
                    };
                    let entry2 = if inner.spec_kind() == SyntaxKind::MappingEntry {
                        Some(
                            if here && k <= usize::MAX {
                                Some(k as usize)
                            } else {
                                None
                            },
                        )
                    } else if is_map {
                        match entry {
                            Some(_) => Some(None),
                            None => None,
                        }
                    } else {
                        entry
                    };
                    match enclosing_walk(inner, 0, target, pos, m2, is_map, entry2) {
                        Some(x) => Some(x),
                        None => enclosing_walk(n, k + 1, target, end, m, here, entry),
                    }
                },
            }
        } else {
            enclosing_walk(n, k + 1, target, end, m, here, entry)
        }
    }
}

/// An optional reference, read as an optional value.
pub open spec fn deref_opt(o: Option<&GreenNode>) -> Option<GreenNode> {
    match o {
        Some(x) => Some(*x),
        None => None,
    }
}

fn walk<'a>(
    node: &'a GreenNode,
    target: usize,
    base: usize,
    cur_mapping: Option<&'a GreenNode>,
    here: bool,
    cur_entry: Option<Option<usize>>,
) -> (r: Option<(&'a GreenNode, Option<usize>)>)
    requires
        base + node.spec_text_len() <= usize::MAX,
    ensures
        match enclosing_walk(
            *node,
            0,
            target as int,
            base as int,
            deref_opt(cur_mapping),
            here,
            cur_entry,
        ) {
            Some((mm, ex)) => r matches Some((x, e)) && *x == mm && e == ex,
            None => r is None,
        },
    decreases node,
{
    let children = node.children();
    let ghost cs = node.spec_children();
    let total = node.text_len();
    let mut pos = base;
    let mut k: usize = 0;
    proof {
        assert(cs.take(0) =~= Seq::<GreenChild>::empty());
    }
    while k < children.len()
        invariant
            children@ == cs,
            cs == node.spec_children(),
            total == children_len(cs),
            base + total <= usize::MAX,
            k <= cs.len(),
            pos == base + children_len(cs.take(k as int)),
            enclosing_walk(
                *node,
                0,
                target as int,
                base as int,
                deref_opt(cur_mapping),
                here,
                cur_entry,
            ) == enclosing_walk(
                *node,
                k as int,
                target as int,
                pos as int,
                deref_opt(cur_mapping),
                here,
                cur_entry,
            ),
        decreases cs.len() - k,
    {
        proof {
            assert(cs.take(k + 1).drop_last() =~= cs.take(k as int));
            crate::cst::green::lemma_children_len_prefix(cs, k + 1);
        }
        let len = children[k].text_len();
        if pos <= target && target < pos + len {
            match &children[k] {
                GreenChild::Token { .. } => {
                    return match (cur_mapping, cur_entry) {
                        (Some(m), Some(e)) => Some((m, e)),
                        _ => None,
                    };
                },
                GreenChild::Node(inner) => {
                    proof {
                        lemma_child_node_smaller(*node, k as int);
                    }
                    let is_map = inner.kind() == SyntaxKind::BlockMapping;
                    let new_mapping = if is_map {
                        Some(inner)
                    } else {
                        cur_mapping
                    };
                    let new_entry = if inner.kind() == SyntaxKind::MappingEntry {
                        Some(
                            if here {
                                Some(k)
                            } else {
                                None
                            },
                        )
                    } else if is_map {
                        match cur_entry {
                            Some(_) => Some(None),
                            None => None,
                        }
                    } else {
                        cur_entry
                    };
                    if let Some(found) = walk(inner, target, pos, new_mapping, is_map, new_entry) {
                        return Some(found);
                    }
                },
            }
        }
        pos = pos + len;
        k += 1;
    }
    None
}

/// The innermost block mapping around the leaf at byte `target` of
/// `node` (placed at byte `base`), when a mapping entry also encloses the
/// leaf; with the index of that entry among the mapping's children when
/// it is one of them (see [`enclosing_walk`]).
pub fn enclosing_mapping_and_entry<'a>(node: &'a GreenNode, target: usize, base: usize) -> (r: Option<
    (&'a GreenNode, Option<usize>),
>)
    requires
        base + node.spec_text_len() <= usize::MAX,
    ensures
        match enclosing_walk(*node, 0, target as int, base as int, None, false, None) {
            Some((mm, ex)) => r matches Some((x, e)) && *x == mm && e == ex,
            None => r is None,
        },
{
    walk(node, target, base, None, false, None)
}

/// The quoting style that the other entries of the mapping around the
/// leaf at byte `target` agree on (see [`dominant_of`]), when a mapping
/// and an entry enclose that leaf.
pub fn sibling_dominant_scalar_kind(node: &GreenNode, target: usize) -> (r: Option<SyntaxKind>)
    requires
        node.spec_text_len() <= usize::MAX,
    ensures
        r == match enclosing_walk(*node, 0, target as int, 0, None, false, None) {
            Some((m, ex)) => dominant_of(
                tally(m.spec_children(), ex, SyntaxKind::PlainScalar),
                tally(m.spec_children(), ex, SyntaxKind::SingleQuotedScalar),
                tally(m.spec_children(), ex, SyntaxKind::DoubleQuotedScalar),
            ),
            None => None,
        },
{
    match enclosing_mapping_and_entry(node, target, 0) {
        Some((mapping, entry)) => dominant_sibling_value_kind(mapping, entry),
        None => None,
    }
}

} // verus!
