//! Depth-first traversal: an externally-driven iterator over the scalar
//! leaves of a tree. The traversal holds an explicit stack of per-level
//! cursors instead of relying on native recursion, so it can pause and
//! resume across calls and its stack use does not grow with host recursion
//! limits.

use vstd::prelude::*;
use crate::json_node::{lemma_entries_view, lemma_nodes_view, node_view, JsonNode};
use crate::model::{
    is_scalar, leaves, leaves_elems, leaves_props, lemma_size_elems_nonneg,
    lemma_size_props_nonneg, lemma_size_pos, size_elems, size_props, JsonModel,
};

verus! {

broadcast use vstd::seq::group_seq_axioms;

/// The leaves a frame has still to yield: those of the children from its
/// cursor on; a scalar frame yields its own node once.
pub open spec fn frame_rem(f: (&JsonNode, usize)) -> Seq<JsonModel> {
    match node_view(*f.0) {
        JsonModel::Array(es) => leaves_elems(es.skip(f.1 as int)),
        JsonModel::Object(ps) => leaves_props(ps.skip(f.1 as int)),
        m => if f.1 == 0 {
            seq![m]
        } else {
            Seq::empty()
        },
    }
}

/// A frame's cursor stays within its node's children.
pub open spec fn frame_wf(f: (&JsonNode, usize)) -> bool {
    match node_view(*f.0) {
        JsonModel::Array(es) => f.1 <= es.len(),
        JsonModel::Object(ps) => f.1 <= ps.len(),
        _ => f.1 <= 1,
    }
}

/// The number of nodes a frame has still to walk; the traversal's measure.
pub open spec fn frame_work(f: (&JsonNode, usize)) -> int {
    match node_view(*f.0) {
        JsonModel::Array(es) => size_elems(es.skip(f.1 as int)),
        JsonModel::Object(ps) => size_props(ps.skip(f.1 as int)),
        _ => if f.1 == 0 {
            1int
        } else {
            0int
        },
    }
}

/// The leaves a whole stack has still to yield: the top frame's first.
pub open spec fn stack_rem(st: Seq<(&JsonNode, usize)>) -> Seq<JsonModel>
    decreases st.len(),
{
    if st.len() == 0 {
        Seq::empty()
    } else {
        frame_rem(st.last()) + stack_rem(st.drop_last())
    }
}

pub open spec fn stack_work(st: Seq<(&JsonNode, usize)>) -> int
    decreases st.len(),
{
    if st.len() == 0 {
        0
    } else {
        frame_work(st.last()) + stack_work(st.drop_last())
    }
}

proof fn lemma_frame_work_nonneg(f: (&JsonNode, usize))
    requires
        frame_wf(f),
    ensures
        frame_work(f) >= 0,
{
    match node_view(*f.0) {
        JsonModel::Array(es) => {
            lemma_size_elems_nonneg(es.skip(f.1 as int));
        },
        JsonModel::Object(ps) => {
            lemma_size_props_nonneg(ps.skip(f.1 as int));
        },
        _ => {},
    }
}

proof fn lemma_stack_work_nonneg(st: Seq<(&JsonNode, usize)>)
    requires
        forall|j: int| 0 <= j < st.len() ==> frame_wf(#[trigger] st[j]),
    ensures
        stack_work(st) >= 0,
    decreases st.len(),
{
    if st.len() > 0 {
        lemma_frame_work_nonneg(st.last());
        lemma_stack_work_nonneg(st.drop_last());
    }
}

/// A depth-first traversal over the scalar leaves of a tree, driven by
/// repeated calls of `next`.
pub struct Iter<'a> {
    stack: Vec<(&'a JsonNode, usize)>,
}

impl<'a> Iter<'a> {
    /// The abstract values of the leaves still to be yielded, in order.
    pub closed spec fn remaining(&self) -> Seq<JsonModel> {
        stack_rem(self.stack@)
    }

    /// Every frame's cursor is in bounds; established at construction and
    /// preserved by `next`.
    pub closed spec fn wf(&self) -> bool {
        forall|j: int| 0 <= j < self.stack@.len() ==> frame_wf(#[trigger] self.stack@[j])
    }

    /// Yields the next scalar leaf in depth-first order, or nothing once the
    /// tree is exhausted. The sequence is not restartable once consumed.
    pub fn next(&mut self) -> (r: Option<&'a JsonNode>)
        requires
            old(self).wf(),
        ensures
            final(self).wf(),
            match r {
                Some(n) => is_scalar(node_view(*n)) && old(self).remaining() == seq![
                    node_view(*n),
                ] + final(self).remaining(),
                None => old(self).remaining() == Seq::<JsonModel>::empty()
                    && final(self).remaining() == Seq::<JsonModel>::empty(),
            },
    {
        loop
            invariant
                self.wf(),
                stack_rem(self.stack@) == stack_rem(old(self).stack@),
            decreases stack_work(self.stack@), self.stack@.len(),
        {
            proof {
                lemma_stack_work_nonneg(self.stack@);
            }
            if self.stack.len() == 0 {
                return None;
            }
            let ghost st0 = self.stack@;
            let frame = self.stack.pop().unwrap();
            let (n, i) = frame;
            proof {
                assert(st0.last() == frame);
                assert(self.stack@ =~= st0.drop_last());
                assert(stack_rem(st0) == frame_rem(frame) + stack_rem(self.stack@));
                assert(stack_work(st0) == frame_work(frame) + stack_work(self.stack@));
                lemma_stack_work_nonneg(self.stack@);
            }
            match n {
                JsonNode::Array(es) => {
                    let ghost es_v = crate::json_node::nodes_view(es@);
                    proof {
                        assert(node_view(*n) == JsonModel::Array(es_v));
                        lemma_nodes_view(es@);
                    }
                    if i < es.len() {
                        proof {
                            assert(es_v.skip(i as int).len() > 0);
                            assert(es_v.skip(i as int)[0] == es_v[i as int]);
                            assert(es_v.skip(i as int).drop_first() =~= es_v.skip(i + 1));
                            assert(frame_rem(frame) == leaves(es_v[i as int]) + leaves_elems(
                                es_v.skip(i + 1),
                            ));
                            assert(frame_work(frame) == crate::model::size(es_v[i as int])
                                + size_elems(es_v.skip(i + 1)));
                            lemma_size_pos(es_v[i as int]);
                        }
                        let ghost st1 = self.stack@;
                        self.stack.push((n, i + 1));
                        proof {
                            assert(self.stack@.drop_last() =~= st1);
                            assert(self.stack@.last() == (n, (i + 1) as usize));
                            assert(stack_rem(self.stack@) == leaves_elems(es_v.skip(i + 1))
                                + stack_rem(st1));
                            assert(stack_work(self.stack@) == size_elems(es_v.skip(i + 1))
                                + stack_work(st1));
                        }
                        let child = &es[i];
                        proof {
                            assert(node_view(*child) == es_v[i as int]);
                        }
                        if child.is_object() || child.is_array() {
                            let ghost st2 = self.stack@;
                            self.stack.push((child, 0));
                            proof {
                                assert(self.stack@.drop_last() =~= st2);
                                assert(self.stack@.last() == (child, 0usize));
                                match node_view(*child) {
                                    JsonModel::Array(ces) => {
                                        assert(ces.skip(0) =~= ces);
                                    },
                                    JsonModel::Object(cps) => {
                                        assert(cps.skip(0) =~= cps);
                                    },
                                    _ => {
                                        assert(false);
                                    },
                                }
                                assert(frame_rem((child, 0usize)) == leaves(es_v[i as int]));
                                assert(frame_work((child, 0usize)) == crate::model::size(
                                    es_v[i as int],
                                ) - 1);
                            }
                        } else {
                            proof {
                                assert(is_scalar(es_v[i as int]));
                                assert(leaves(es_v[i as int]) == seq![es_v[i as int]]);
                                assert(stack_rem(st0) =~= seq![node_view(*child)] + stack_rem(
                                    self.stack@,
                                ));
                            }
                            return Some(child);
                        }
                    } else {
                        proof {
                            assert(i == es_v.len());
                            assert(es_v.skip(i as int) =~= Seq::<JsonModel>::empty());
                            assert(frame_rem(frame) =~= Seq::<JsonModel>::empty());
                            assert(frame_work(frame) == 0);
                            assert(stack_work(st0) == stack_work(self.stack@));
                            assert(stack_rem(st0) =~= stack_rem(self.stack@));
                        }
                    }
                },
                JsonNode::Object(map) => {
                    let ghost ps_v = crate::json_node::entries_view(map.0@);
                    proof {
                        assert(node_view(*n) == JsonModel::Object(ps_v));
                        lemma_entries_view(map.0@);
                    }
                    if i < map.0.len() {
                        proof {
                            assert(ps_v.skip(i as int).len() > 0);
                            assert(ps_v.skip(i as int)[0] == ps_v[i as int]);
                            assert(ps_v.skip(i as int).drop_first() =~= ps_v.skip(i + 1));
                            assert(frame_rem(frame) == leaves(ps_v[i as int].1) + leaves_props(
                                ps_v.skip(i + 1),
                            ));
                            assert(frame_work(frame) == crate::model::size(ps_v[i as int].1)
                                + size_props(ps_v.skip(i + 1)));
                            lemma_size_pos(ps_v[i as int].1);
                        }
                        let ghost st1 = self.stack@;
                        self.stack.push((n, i + 1));
                        proof {
                            assert(self.stack@.drop_last() =~= st1);
                            assert(self.stack@.last() == (n, (i + 1) as usize));
                            assert(stack_rem(self.stack@) == leaves_props(ps_v.skip(i + 1))
                                + stack_rem(st1));
                            assert(stack_work(self.stack@) == size_props(ps_v.skip(i + 1))
                                + stack_work(st1));
                        }
                        let child = &map.0[i].1;
                        proof {
                            assert(node_view(*child) == ps_v[i as int].1);
                        }
                        if child.is_object() || child.is_array() {
                            let ghost st2 = self.stack@;
                            self.stack.push((child, 0));
                            proof {
                                assert(self.stack@.drop_last() =~= st2);
                                assert(self.stack@.last() == (child, 0usize));
                                match node_view(*child) {
                                    JsonModel::Array(ces) => {
                                        assert(ces.skip(0) =~= ces);
                                    },
                                    JsonModel::Object(cps) => {
                                        assert(cps.skip(0) =~= cps);
                                    },
                                    _ => {
                                        assert(false);
                                    },
                                }
                                assert(frame_rem((child, 0usize)) == leaves(ps_v[i as int].1));
                                assert(frame_work((child, 0usize)) == crate::model::size(
                                    ps_v[i as int].1,
                                ) - 1);
                            }
                        } else {
                            proof {
                                assert(is_scalar(ps_v[i as int].1));
                                assert(leaves(ps_v[i as int].1) == seq![ps_v[i as int].1]);
                                assert(stack_rem(st0) =~= seq![node_view(*child)] + stack_rem(
                                    self.stack@,
                                ));
                            }
                            return Some(child);
                        }
                    } else {
                        proof {
                            assert(i == ps_v.len());
                            assert(ps_v.skip(i as int) =~= Seq::<(Seq<char>, JsonModel)>::empty());
                            assert(frame_rem(frame) =~= Seq::<JsonModel>::empty());
                            assert(frame_work(frame) == 0);
                            assert(stack_work(st0) == stack_work(self.stack@));
                            assert(stack_rem(st0) =~= stack_rem(self.stack@));
                        }
                    }
                },
                _ => {
                    if i == 0 {
                        proof {
                            assert(is_scalar(node_view(*n)));
                            assert(frame_rem(frame) == seq![node_view(*n)]);
                            assert(stack_rem(st0) =~= seq![node_view(*n)] + stack_rem(
                                self.stack@,
                            ));
                        }
                        return Some(n);
                    }
                    proof {
                        assert(frame_rem(frame) =~= Seq::<JsonModel>::empty());
                        assert(frame_work(frame) == 0);
                        assert(stack_work(st0) == stack_work(self.stack@));
                        assert(stack_rem(st0) =~= stack_rem(self.stack@));
                    }
                },
            }
            proof {
                lemma_stack_work_nonneg(self.stack@);
            }
        }
    }
}

impl JsonNode {
    /// Begins a depth-first traversal over every scalar leaf of the tree,
    /// visiting array elements and object values in their stored order.
    pub fn into_iter(&self) -> (r: Iter<'_>)
        ensures
            r.wf(),
            r.remaining() == leaves(self@),
    {
        let mut stack: Vec<(&JsonNode, usize)> = Vec::new();
        stack.push((self, 0));
        proof {
            assert(stack@.last() == (self, 0usize));
            assert(stack@.drop_last() =~= Seq::<(&JsonNode, usize)>::empty());
            match node_view(*self) {
                JsonModel::Array(es) => {
                    assert(es.skip(0) =~= es);
                },
                JsonModel::Object(ps) => {
                    assert(ps.skip(0) =~= ps);
                },
                _ => {},
            }
            assert(stack_rem(Seq::<(&JsonNode, usize)>::empty()) == Seq::<JsonModel>::empty());
            assert(stack_rem(stack@) =~= leaves(node_view(*self)));
        }
        Iter { stack }
    }
}

} // verus!
