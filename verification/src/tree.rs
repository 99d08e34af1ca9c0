//! The tree facade: `put` and `get` over a root node. A `put` may replace a
//! value in place, graft a fresh mapping chain, split a terminal into a
//! subtree, or push a full node's smallest slot one level down.

use crate::node::child_lookup;
use crate::node::child_node;
use crate::node::child_wf;
use crate::node::lemma_resolve_domain;
use crate::node::lemma_resolve_match0;
use crate::node::lemma_resolve_smallest;
use crate::node::lemma_slots_size_all_some;
use crate::node::lemma_slots_size_agree;
use crate::node::lemma_slots_size_ge_elem;
use crate::node::lemma_slots_size_shift;
use crate::node::lemma_slots_size_update;
use crate::node::opt_size;
use crate::node::resolve_spec;
use crate::node::slots_size;
use crate::node::ResolvedChild;
use crate::node::TSIMTreeNode;
use crate::node::TSIMTreeNodeChild;
use crate::node::MAX_STORED_KEY_SEGMENT_SIZE;
use crate::node::TREE_RADIX;
use crate::order::key_cmp;
use crate::order::lemma_key_cmp_eq;
use crate::order::lemma_key_cmp_gt;
use crate::order::lemma_key_cmp_mono;
use crate::order::lemma_key_cmp_self_trunc;
use crate::order::lemma_key_trunc_lt;
use crate::order::lemma_lex_trans;
use crate::order::lex_cmp;
use crate::order::trunc;
use vstd::pervasive::unreached;
use vstd::prelude::*;
use vstd::slice::slice_subrange;
use vstd::slice::slice_to_vec;

verus! {

/// The ordered byte-string map: a root node behind the crate's two public
/// operations. Exclusive and shared references enforce the single-writer /
/// multi-reader discipline: any number of `get`s may run at once, a `put`
/// runs alone.
#[derive(Debug)]
pub struct TSIMTree {
    pub root: TSIMTreeNode,
}

impl TSIMTree {
    /// Whether every node of the tree satisfies the layout invariants.
    pub open spec fn well_formed(self) -> bool {
        self.root.well_formed()
    }

    /// What a descent answers for a key.
    pub open spec fn lookup(self, key: Seq<u8>) -> Option<Seq<u8>> {
        self.root.lookup(key)
    }

    /// An empty tree: a root node with zero children, mapping no key.
    pub fn new() -> (t: TSIMTree)
        ensures
            t.well_formed(),
            t.root.count() == 0,
            forall|k: Seq<u8>| t.lookup(k) == None::<Seq<u8>>,
    {
        TSIMTree { root: TSIMTreeNode::empty() }
    }

    /// Inserts or overwrites the mapping for `k`. Afterwards a descent for
    /// `k` finds exactly `v`, every node invariant still holds, and no node
    /// is ever dropped. Into an empty tree, a key that fits one fragment maps
    /// alone: every other key stays absent.
    ///
    /// No clause relates other keys' descents across a general `put`: the
    /// resolver re-uses the whole key inside an in-domain slot's subtree, so
    /// distinct keys can come to share one terminal, and a later write through
    /// either key moves both.
    pub fn put(&mut self, k: &[u8], v: Vec<u8>)
        requires
            old(self).well_formed(),
        ensures
            final(self).well_formed(),
            final(self).lookup(k@) == Some(v@),
            final(self).root.size() >= old(self).root.size(),
            final(self).root.count() >= old(self).root.count(),
            old(self).root.count() == 0 && k@.len() <= MAX_STORED_KEY_SEGMENT_SIZE ==> forall|
                k2: Seq<u8>,
            |
                k2 != k@ ==> final(self).lookup(k2) == None::<Seq<u8>>,
    {
        put_node(&mut self.root, k, v)
    }

    /// Looks a key up; returns a copy of the stored value, or nothing when no
    /// descent path matches the key exactly.
    pub fn get(&self, k: &[u8]) -> (r: Option<Vec<u8>>)
        requires
            self.well_formed(),
        ensures
            match r {
                Some(v) => self.lookup(k@) == Some(v@),
                None => self.lookup(k@) == None::<Seq<u8>>,
            },
    {
        get_node(&self.root, k)
    }
}

/// The read descent: resolve, then stop at a terminal or recurse.
fn get_node(n: &TSIMTreeNode, key: &[u8]) -> (r: Option<Vec<u8>>)
    requires
        n.well_formed(),
    ensures
        match r {
            Some(v) => n.lookup(key@) == Some(v@),
            None => n.lookup(key@) == None::<Seq<u8>>,
        },
    decreases n.size(),
{
    match n.resolve_child(key) {
        ResolvedChild::Smallest => None,
        ResolvedChild::ExactMatch(i, rest) => {
            proof {
                assert(n.lookup(key@) == child_lookup(
                    n.children@[i as int],
                    key@.skip(n.frag(i as int).len() as int),
                ));
                assert(key@.skip(n.frag(i as int).len() as int) == rest@);
            }
            match &n.children[i] {
                Some(TSIMTreeNodeChild::Value(v)) => {
                    if rest.len() == 0 {
                        let out = slice_to_vec(v.as_slice());
                        proof {
                            assert(child_lookup(n.children@[i as int], rest@) == Some(v@));
                        }
                        Some(out)
                    } else {
                        None
                    }
                },
                Some(TSIMTreeNodeChild::Node(bn)) => {
                    proof {
                        lemma_slots_size_ge_elem(n.children@, i as int, TREE_RADIX as int);
                        assert(child_wf(n.children@[i as int]));
                        assert(child_lookup(n.children@[i as int], rest@) == bn.lookup(rest@));
                    }
                    get_node(bn, rest)
                },
                None => unreached(),
            }
        },
        ResolvedChild::InDomainOf(i) => {
            match &n.children[i] {
                Some(TSIMTreeNodeChild::Value(_)) => {
                    proof {
                        assert(n.lookup(key@) == None::<Seq<u8>>);
                    }
                    None
                },
                Some(TSIMTreeNodeChild::Node(bn)) => {
                    proof {
                        lemma_slots_size_ge_elem(n.children@, i as int, TREE_RADIX as int);
                        assert(child_wf(n.children@[i as int]));
                        assert(n.lookup(key@) == bn.lookup(key@));
                    }
                    get_node(bn, key)
                },
                None => unreached(),
            }
        },
    }
}

/// Splits a terminal slot: builds the chain for the new key, then hangs the
/// old value under the empty fragment at the chain's first node. Returns the
/// combined subtree, which answers the new key with the new value.
fn split_terminal(key: &[u8], value: Vec<u8>, old_val: Vec<u8>) -> (c: TSIMTreeNodeChild)
    requires
        key@.len() > 0,
    ensures
        c is Node,
        child_node(c).well_formed(),
        child_node(c).lookup(key@) == Some(value@),
{
    let nc = TSIMTreeNodeChild::with_mapping(key, value);
    match nc {
        TSIMTreeNodeChild::Node(mut bn) => {
            let ghost bn0 = *bn;
            let empty_frag: Vec<u8> = Vec::new();
            bn.insert_child(0, empty_frag.as_slice(), TSIMTreeNodeChild::Value(old_val));
            proof {
                let f = bn0.frag(0);
                assert(bn.frags() == bn0.frags().insert(0, Seq::<u8>::empty()));
                assert(bn.frags()[0] == Seq::<u8>::empty());
                assert(bn.frags()[1] == bn0.frags()[0]);
                assert(bn0.frags()[0] == f);
                assert(bn.frag(0) == Seq::<u8>::empty());
                assert(bn.frag(1) == f);
                assert(f == trunc(key@, MAX_STORED_KEY_SEGMENT_SIZE as int));
                assert(f.len() > 0);
                assert(lex_cmp(Seq::<u8>::empty(), f) < 0);
                assert(bn.shape_ok());
                assert(bn.children@[1] == bn0.children@[0]);
                assert(child_wf(bn.children@[0]));
                assert(child_wf(bn.children@[1]));
                assert(bn.well_formed());
                lemma_key_cmp_self_trunc(key@, MAX_STORED_KEY_SEGMENT_SIZE as int);
                assert(key_cmp(key@, bn.frags()[1]) == 0);
                assert(bn.resolution(key@) == resolve_spec(bn.frags(), key@, 0, 2));
                assert(resolve_spec(bn.frags(), key@, 0, 2) == (1int, 1int));
                assert(bn.lookup(key@) == child_lookup(
                    bn.children@[1],
                    key@.skip(bn.frag(1).len() as int),
                ));
                assert(child_lookup(bn.children@[1], key@.skip(f.len() as int)) == Some(value@));
            }
            TSIMTreeNodeChild::Node(bn)
        },
        TSIMTreeNodeChild::Value(_) => unreached(),
    }
}

/// The write descent. Afterwards the node is still well formed and a descent
/// for the key finds exactly the new value.
#[verifier::rlimit(100)]
fn put_node(node: &mut TSIMTreeNode, key: &[u8], value: Vec<u8>)
    requires
        old(node).well_formed(),
    ensures
        final(node).well_formed(),
        final(node).lookup(key@) == Some(value@),
        final(node).size() >= old(node).size(),
        final(node).count() >= old(node).count(),
        old(node).count() == 0 && key@.len() <= MAX_STORED_KEY_SEGMENT_SIZE ==> forall|
            k2: Seq<u8>,
        |
            k2 != key@ ==> final(node).lookup(k2) == None::<Seq<u8>>,
    decreases old(node).size(),
{
    let ghost n0 = *node;
    let r = node.resolve_child(key);
    match r {
        ResolvedChild::Smallest => {
            let cut: usize = if key.len() <= MAX_STORED_KEY_SEGMENT_SIZE {
                key.len()
            } else {
                MAX_STORED_KEY_SEGMENT_SIZE
            };
            if (node.children_count as usize) < TREE_RADIX {
                let child = TSIMTreeNodeChild::with_mapping(
                    slice_subrange(key, cut, key.len()),
                    value,
                );
                let ghost childg = child;
                proof {
                    if n0.count() > 0 {
                        lemma_resolve_smallest(n0.frags(), key@, 0, n0.count());
                    }
                }
                node.insert_child(0, slice_subrange(key, 0, cut), child);
                proof {
                    let fragnew = trunc(key@, MAX_STORED_KEY_SEGMENT_SIZE as int);
                    assert(key@.subrange(0, cut as int) =~= trunc(key@, cut as int));
                    assert(trunc(key@, cut as int) =~= fragnew);
                    assert(node.frags() == n0.frags().insert(0, key@.subrange(0, cut as int)));
                    assert(node.frags()[0] == fragnew);
                    assert(node.frag(0) == fragnew);
                    assert forall|j: int| 1 <= j < node.count() implies key_cmp(
                        key@,
                        #[trigger] node.frags()[j],
                    ) < 0 by {
                        assert(node.frags()[j] == n0.frags()[j - 1]);
                        assert(n0.frags()[0] == n0.frag(0));
                        assert(n0.frags()[j - 1] == n0.frag(j - 1));
                        if j - 1 > 0 {
                            assert(lex_cmp(n0.frag(0), n0.frag(j - 1)) < 0);
                            lemma_key_cmp_mono(key@, n0.frag(0), n0.frag(j - 1));
                        }
                    }
                    assert forall|j: int| 1 <= j < node.count() implies lex_cmp(
                        node.frag(0),
                        #[trigger] node.frag(j),
                    ) < 0 by {
                        assert(node.frags()[j] == n0.frags()[j - 1]);
                        assert(node.frags()[j] == node.frag(j));
                        lemma_key_trunc_lt(key@, n0.frag(0), cut as int);
                        if j - 1 > 0 {
                            assert(lex_cmp(n0.frag(0), n0.frag(j - 1)) < 0);
                            lemma_lex_trans(node.frag(0), n0.frag(0), n0.frag(j - 1));
                        }
                    }
                    assert forall|i: int, j: int| 1 <= i < j < node.count() implies lex_cmp(
                        #[trigger] node.frag(i),
                        #[trigger] node.frag(j),
                    ) < 0 by {
                        assert(node.frags()[i] == n0.frags()[i - 1]);
                        assert(node.frags()[j] == n0.frags()[j - 1]);
                        assert(node.frags()[i] == node.frag(i));
                        assert(node.frags()[j] == node.frag(j));
                        assert(n0.frags()[i - 1] == n0.frag(i - 1));
                        assert(n0.frags()[j - 1] == n0.frag(j - 1));
                        assert(lex_cmp(n0.frag(i - 1), n0.frag(j - 1)) < 0);
                    }
                    assert(node.shape_ok());
                    assert forall|i: int| 0 <= i < node.count() implies child_wf(
                        #[trigger] node.children@[i],
                    ) by {
                        if i == 0 {
                            assert(node.children@[0] == Some(childg));
                        } else {
                            assert(node.children@[i] == n0.children@[i - 1]);
                        }
                    }
                    assert(node.well_formed());
                    lemma_key_cmp_self_trunc(key@, MAX_STORED_KEY_SEGMENT_SIZE as int);
                    lemma_resolve_match0(node.frags(), key@, node.count());
                    assert(node.resolution(key@) == (1int, 0int));
                    assert(node.frag(0).len() == cut as int);
                    assert(node.lookup(key@) == child_lookup(
                        node.children@[0],
                        key@.skip(cut as int),
                    ));
                    assert(key@.subrange(cut as int, key@.len() as int) =~= key@.skip(cut as int));
                    assert(child_lookup(Some(childg), key@.skip(cut as int)) == child_node(
                        childg,
                    ).lookup(key@.skip(cut as int)));
                    assert(child_node(childg).lookup(key@.skip(cut as int)) == Some(value@));
                    if n0.count() == 0 && key@.len() <= MAX_STORED_KEY_SEGMENT_SIZE {
                        // First key into an empty node, short enough for one
                        // fragment: the node maps it alone. The sole slot's
                        // fragment is the whole key; below it hangs the chain
                        // for the empty remainder, which answers nothing else.
                        assert(node.count() == 1);
                        assert(node.frag(0) == key@);
                        assert(node.frags()[0] == key@);
                        assert(key@.skip(cut as int) =~= Seq::<u8>::empty());
                        assert forall|k2: Seq<u8>| k2 != key@ implies node.lookup(k2)
                            == None::<Seq<u8>> by {
                            let c0 = key_cmp(k2, key@);
                            if c0 == 0 {
                                lemma_key_cmp_eq(k2, key@);
                                assert(node.resolution(k2) == (1int, 0int));
                                if k2.len() == key@.len() {
                                    assert(k2.take(k2.len() as int) =~= k2);
                                    assert(false);
                                }
                                let rest = k2.skip(key@.len() as int);
                                assert(rest.len() > 0);
                                assert(node.lookup(k2) == child_lookup(node.children@[0], rest));
                                assert(child_lookup(node.children@[0], rest) == child_node(
                                    childg,
                                ).lookup(rest));
                                assert(child_node(childg).lookup(rest) == None::<Seq<u8>>);
                            } else if c0 > 0 {
                                lemma_key_cmp_gt(k2, key@);
                                assert(node.resolution(k2) == (2int, 0int));
                                assert(node.lookup(k2) == child_node(childg).lookup(k2));
                                assert(k2.len() > 0);
                                assert(child_node(childg).lookup(k2) == None::<Seq<u8>>);
                            } else {
                                assert(resolve_spec(node.frags(), k2, 0, 0) == (0int, 0int));
                                assert(node.resolution(k2) == (0int, 0int));
                                assert(node.lookup(k2) == None::<Seq<u8>>);
                            }
                        }
                    }
                    // Size: a fresh slot was added in front; nothing was lost.
                    assert(node.children@ =~= n0.children@.subrange(0, TREE_RADIX - 1).insert(
                        0,
                        Some(childg),
                    ));
                    lemma_slots_size_shift(
                        n0.children@.subrange(0, TREE_RADIX - 1),
                        Some(childg),
                        TREE_RADIX - 1,
                    );
                    lemma_slots_size_agree(
                        n0.children@.subrange(0, TREE_RADIX - 1),
                        n0.children@,
                        TREE_RADIX - 1,
                    );
                    assert(n0.children@[TREE_RADIX - 1] is None);
                    assert(slots_size(n0.children@, TREE_RADIX as int) == slots_size(
                        n0.children@,
                        TREE_RADIX - 1,
                    ));
                    assert(node.size() >= n0.size());
                }
            } else {
                // Full node: push slot 0 down one level, then continue inside
                // the fresh intermediate node.
                let old_key_fragment = slice_to_vec(node.get_segment(0));
                proof {
                    assert(old_key_fragment@ == n0.frag(0));
                    assert(n0.frag(0).len() <= MAX_STORED_KEY_SEGMENT_SIZE);
                    lemma_resolve_smallest(n0.frags(), key@, 0, n0.count());
                    assert(n0.frags()[0] == n0.frag(0));
                }
                let removed = match node.children.remove(0) {
                    Some(c) => c,
                    None => unreached(),
                };
                let ghost removedg = removed;
                let mut c0 = removed;
                proof {
                    assert(child_wf(Some(removedg)));
                }
                c0.pushdown_children_under_key(old_key_fragment.as_slice());
                let cut: usize = if key.len() <= old_key_fragment.len() {
                    key.len()
                } else {
                    old_key_fragment.len()
                };
                let head = slice_subrange(key, 0, cut);
                let tail = slice_subrange(key, cut, key.len());
                match c0 {
                    TSIMTreeNodeChild::Node(mut mbox) => {
                        proof {
                            lemma_slots_size_all_some(n0.children@, TREE_RADIX as int);
                            assert(slots_size(n0.children@, TREE_RADIX as int) >= opt_size(
                                n0.children@[0],
                            ) + 15);
                            assert(mbox.size() == 1 + opt_size(Some(removedg)));
                            assert(n0.size() >= mbox.size() + 15);
                        }
                        put_node(&mut *mbox, tail, value);
                        let ghost mg = *mbox;
                        node.children.insert(0, Some(TSIMTreeNodeChild::Node(mbox)));
                        node.set_segment(0, head);
                        proof {
                            assert(node.children@ =~= n0.children@.update(
                                0,
                                Some(TSIMTreeNodeChild::Node(Box::new(mg))),
                            ));
                            assert(node.children_count == n0.children_count);
                            let f0 = n0.frag(0);
                            let headseq = trunc(key@, cut as int);
                            assert(head@ =~= headseq);
                            assert(node.frag(0) == head@);
                            assert forall|j: int| 1 <= j < node.count() implies #[trigger] node.frag(
                                j,
                            ) == n0.frag(j) by {
                                assert(node.key_segments@[j] == n0.key_segments@[j]);
                            }
                            assert(node.frags() =~= n0.frags().update(0, headseq));
                            lemma_key_trunc_lt(key@, f0, cut as int);
                            assert(lex_cmp(headseq, f0) < 0);
                            assert forall|j: int| 1 <= j < node.count() implies lex_cmp(
                                node.frag(0),
                                #[trigger] node.frag(j),
                            ) < 0 by {
                                if j > 1 {
                                    assert(lex_cmp(n0.frag(0), n0.frag(j)) < 0);
                                    lemma_lex_trans(headseq, f0, n0.frag(j));
                                } else {
                                    assert(lex_cmp(n0.frag(0), n0.frag(1)) < 0);
                                    lemma_lex_trans(headseq, f0, n0.frag(1));
                                }
                            }
                            assert(node.shape_ok());
                            assert forall|i: int| 0 <= i < node.count() implies child_wf(
                                #[trigger] node.children@[i],
                            ) by {
                                if i > 0 {
                                    assert(node.children@[i] == n0.children@[i]);
                                }
                            }
                            assert(node.well_formed());
                            lemma_key_cmp_self_trunc(key@, cut as int);
                            assert(key_cmp(key@, node.frags()[0]) == 0);
                            assert forall|j: int| 1 <= j < node.count() implies key_cmp(
                                key@,
                                #[trigger] node.frags()[j],
                            ) < 0 by {
                                assert(node.frags()[j] == n0.frag(j));
                                assert(n0.frags()[j] == n0.frag(j));
                                assert(lex_cmp(n0.frag(0), n0.frag(j)) < 0);
                                lemma_key_cmp_mono(key@, n0.frag(0), n0.frag(j));
                            }
                            lemma_resolve_match0(node.frags(), key@, node.count());
                            assert(node.resolution(key@) == (1int, 0int));
                            assert(node.frag(0).len() == cut as int);
                            assert(tail@ =~= key@.skip(cut as int));
                            assert(node.lookup(key@) == child_lookup(
                                node.children@[0],
                                key@.skip(cut as int),
                            ));
                            assert(mg.lookup(tail@) == Some(value@));
                            // Size: the demoted child kept everything it had.
                            assert(mg.size() >= 1 + opt_size(Some(removedg)));
                            assert(n0.children@[0] == Some(removedg));
                            assert(opt_size(node.children@[0]) == 1 + mg.size());
                            lemma_size_after_child_update(*node, n0, 0);
                            assert(node.size() >= n0.size());
                        }
                    },
                    TSIMTreeNodeChild::Value(_) => unreached(),
                }
            }
        },
        ResolvedChild::ExactMatch(i, rest) => {
            let removed = match node.children.remove(i) {
                Some(c) => c,
                None => unreached(),
            };
            let ghost removed_g = removed;
            proof {
                assert(child_wf(n0.children@[i as int]));
                assert(n0.children@[i as int] == Some(removed_g));
            }
            match removed {
                TSIMTreeNodeChild::Value(old_val) => {
                    if rest.len() == 0 {
                        node.children.insert(i, Some(TSIMTreeNodeChild::Value(value)));
                        proof {
                            assert(opt_size(n0.children@[i as int]) == 1);
                            lemma_put_frame(
                                *node,
                                n0,
                                Some(TSIMTreeNodeChild::Value(value)),
                                i as int,
                                key@,
                            );
                            assert(node.lookup(key@) == child_lookup(
                                node.children@[i as int],
                                key@.skip(node.frag(i as int).len() as int),
                            ));
                            assert(key@.skip(node.frag(i as int).len() as int) =~= rest@);
                            assert(opt_size(node.children@[i as int]) == 1);
                            lemma_size_after_child_update(*node, n0, i as int);
                            assert(node.size() >= n0.size());
                        }
                    } else {
                        let combined = split_terminal(rest, value, old_val);
                        let ghost cg = combined;
                        node.children.insert(i, Some(combined));
                        proof {
                            lemma_put_frame(*node, n0, Some(cg), i as int, key@);
                            assert(key@.skip(node.frag(i as int).len() as int) =~= rest@);
                            assert(child_lookup(Some(cg), rest@) == child_node(cg).lookup(rest@));
                            assert(opt_size(n0.children@[i as int]) == 1);
                            assert(opt_size(node.children@[i as int]) >= 1);
                            lemma_size_after_child_update(*node, n0, i as int);
                            assert(node.size() >= n0.size());
                        }
                    }
                },
                TSIMTreeNodeChild::Node(mut bn) => {
                    proof {
                        lemma_slots_size_ge_elem(n0.children@, i as int, TREE_RADIX as int);
                        assert(opt_size(n0.children@[i as int]) == 1 + bn.size());
                    }
                    put_node(&mut *bn, rest, value);
                    let ghost bg = *bn;
                    node.children.insert(i, Some(TSIMTreeNodeChild::Node(bn)));
                    proof {
                        lemma_put_frame(
                            *node,
                            n0,
                            Some(TSIMTreeNodeChild::Node(Box::new(bg))),
                            i as int,
                            key@,
                        );
                        assert(key@.skip(node.frag(i as int).len() as int) =~= rest@);
                        assert(bg.lookup(rest@) == Some(value@));
                        assert(opt_size(node.children@[i as int]) == 1 + bg.size());
                        lemma_size_after_child_update(*node, n0, i as int);
                        assert(node.size() >= n0.size());
                    }
                },
            }
        },
        ResolvedChild::InDomainOf(i) => {
            proof {
                lemma_resolve_domain(n0.frags(), key@, 0, n0.count(), i as int);
                assert(n0.frags()[i as int] == n0.frag(i as int));
                lemma_key_cmp_gt(key@, n0.frag(i as int));
            }
            let removed = match node.children.remove(i) {
                Some(c) => c,
                None => unreached(),
            };
            proof {
                assert(child_wf(n0.children@[i as int]));
            }
            match removed {
                TSIMTreeNodeChild::Value(old_val) => {
                    let combined = split_terminal(key, value, old_val);
                    let ghost cg = combined;
                    node.children.insert(i, Some(combined));
                    proof {
                        lemma_put_frame(*node, n0, Some(cg), i as int, key@);
                        assert(node.lookup(key@) == child_node(cg).lookup(key@));
                        assert(opt_size(n0.children@[i as int]) == 1);
                        assert(opt_size(node.children@[i as int]) >= 1);
                        lemma_size_after_child_update(*node, n0, i as int);
                        assert(node.size() >= n0.size());
                    }
                },
                TSIMTreeNodeChild::Node(mut bn) => {
                    let ghost bn_size0 = bn.size();
                    proof {
                        lemma_slots_size_ge_elem(n0.children@, i as int, TREE_RADIX as int);
                        assert(opt_size(n0.children@[i as int]) == 1 + bn_size0);
                    }
                    put_node(&mut *bn, key, value);
                    let ghost bg = *bn;
                    node.children.insert(i, Some(TSIMTreeNodeChild::Node(bn)));
                    proof {
                        lemma_put_frame(
                            *node,
                            n0,
                            Some(TSIMTreeNodeChild::Node(Box::new(bg))),
                            i as int,
                            key@,
                        );
                        assert(bg.lookup(key@) == Some(value@));
                        assert(bg.size() >= bn_size0);
                        assert(opt_size(node.children@[i as int]) == 1 + bg.size());
                        lemma_size_after_child_update(*node, n0, i as int);
                        assert(node.size() >= n0.size());
                    }
                },
            }
        },
    }
}

/// Replacing the child of one occupied slot, segments untouched, leaves the
/// node's shape, order and resolution as they were; the slots away from the
/// replaced one keep their well-formedness.
proof fn lemma_put_frame(
    n: TSIMTreeNode,
    n0: TSIMTreeNode,
    x: Option<TSIMTreeNodeChild>,
    i: int,
    key: Seq<u8>,
)
    requires
        n0.well_formed(),
        0 <= i < n0.count(),
        x is Some,
        child_wf(x),
        n.key_segments == n0.key_segments,
        n.children_count == n0.children_count,
        n.children@ =~= n0.children@.update(i, x),
    ensures
        n.well_formed(),
        n.frags() == n0.frags(),
        n.resolution(key) == n0.resolution(key),
        n.children@[i] == x,
        forall|j: int| 0 <= j < n0.children@.len() && j != i ==> n.children@[j] == n0.children@[j],
{
    assert(n.key_segments@ == n0.key_segments@);
    assert(n.frags() =~= n0.frags());
    assert(n.children@.len() == n0.children@.len());
    assert forall|j: int| 0 <= j < n0.children@.len() && j != i implies n.children@[j]
        == n0.children@[j] by {
        assert(n.children@ == n0.children@.update(i, x));
    }
    assert(n.children@[i] == x);
    assert forall|j: int| 0 <= j < n.count() implies (#[trigger] n.children@[j]) is Some by {
        if j != i {
            assert(n.children@[j] == n0.children@[j]);
        }
    }
    assert forall|j: int| n.count() <= j < TREE_RADIX implies (#[trigger] n.children@[j])
        is None by {
        assert(n.children@[j] == n0.children@[j]);
    }
    assert forall|p: int, q: int| 0 <= p < q < n.count() implies lex_cmp(
        #[trigger] n.frag(p),
        #[trigger] n.frag(q),
    ) < 0 by {
        assert(n.frag(p) == n0.frag(p));
        assert(n.frag(q) == n0.frag(q));
        assert(lex_cmp(n0.frag(p), n0.frag(q)) < 0);
    }
    assert forall|j: int| 0 <= j < n.count() implies child_wf(#[trigger] n.children@[j]) by {
        if j != i {
            assert(n.children@[j] == n0.children@[j]);
            assert(child_wf(n0.children@[j]));
        }
    }
    assert(n.shape_ok());
    assert(n.well_formed());
}

/// A node whose slots all kept their size, but for one that grew or stayed,
/// did not shrink.
proof fn lemma_size_after_child_update(n: TSIMTreeNode, n0: TSIMTreeNode, i: int)
    requires
        n0.shape_ok(),
        0 <= i < n0.count(),
        n.children@.len() == n0.children@.len(),
        forall|j: int|
            0 <= j < n0.children@.len() && j != i ==> n.children@[j] == n0.children@[j],
        opt_size(n.children@[i]) >= opt_size(n0.children@[i]),
    ensures
        n.size() >= n0.size(),
{
    assert(n.children@ =~= n0.children@.update(i, n.children@[i]));
    lemma_slots_size_update(n0.children@, i, n.children@[i], n0.children@.len() as int);
}

} // verus!
