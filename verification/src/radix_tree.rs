//! The trie engine: node representation, insertion, membership test.

use vstd::prelude::*;

use crate::model::empty_kids;
use crate::model::lemma_common_len_is;
use crate::model::tree_ins;
use crate::model::tree_mem;
use crate::model::tree_wf;
use crate::model::wrap;
use crate::model::SlotTree;
use crate::Decomposable;
use vstd::pervasive::unreached;

verus! {

broadcast use vstd::std_specs::vec::group_vec_axioms;

/// One tree position: nothing stored, a fixed-width branch, or a
/// compressed run of parts with a single continuation.
pub(crate) enum Node<TParts> {
    Empty,
    Normal(Vec<Node<TParts>>),
    Compressed { compressed: Vec<TParts>, child: Box<Node<TParts>> },
}

impl<TParts> Node<TParts> {
    /// Abstract this node into a slot tree under slot assignment `sf`.
    pub(crate) open spec fn model(self, sf: spec_fn(TParts) -> int) -> SlotTree
        decreases self,
    {
        match self {
            Node::Empty => SlotTree::Leaf,
            Node::Normal(children) => SlotTree::Branch {
                kids: Seq::new(
                    children@.len(),
                    |i: int|
                        if 0 <= i < children@.len() {
                            children@[i].model(sf)
                        } else {
                            SlotTree::Leaf
                        },
                ),
            },
            Node::Compressed { compressed, child } => SlotTree::Run {
                run: compressed@.map_values(sf),
                next: Box::new((*child).model(sf)),
            },
        }
    }
}

/// The slot the index function assigns to a part: the one result it can
/// return for it. Meaningful whenever the function is deterministic.
pub open spec fn slot_of<TParts, FIndex: Fn(&TParts) -> usize>(f: FIndex, p: TParts) -> int {
    (choose|r: usize| call_ensures(f, (&p,), r)) as int
}

/// The slot assignment of an index function, as one spec-level function.
pub open spec fn slot_fn_of<TParts, FIndex: Fn(&TParts) -> usize>(f: FIndex) -> spec_fn(
    TParts,
) -> int {
    |p: TParts| slot_of(f, p)
}

/// The usage contract on the index function: callable on every part, and a
/// function of the part's value with results below the alphabet size.
pub open spec fn index_fn_wf<TParts, FIndex: Fn(&TParts) -> usize>(
    f: FIndex,
    asize: int,
) -> bool {
    &&& forall|p: TParts| call_requires(f, (&p,))
    &&& forall|p: TParts, r: usize|
        call_ensures(f, (&p,), r) ==> r as int == slot_of(f, p) && r < asize
}

/// The slot sequence of a part sequence under an index function.
pub open spec fn slots_of<TParts, FIndex: Fn(&TParts) -> usize>(
    f: FIndex,
    parts: Seq<TParts>,
) -> Seq<int> {
    parts.map_values(slot_fn_of(f))
}

/// A prefix tree over decomposed values, addressed through a caller-supplied
/// index function that maps each part to a branch slot.
pub struct Trie<TParts, FIndex> where FIndex: Fn(&TParts) -> usize {
    root: Node<TParts>,
    index_fn: FIndex,
    alphabet_size: usize,
}

impl<TParts, FIndex> Trie<TParts, FIndex> where FIndex: Fn(&TParts) -> usize {
    /// The alphabet size the trie was built with.
    pub closed spec fn asize(self) -> int {
        self.alphabet_size as int
    }

    /// The slot assignment of the trie's index function.
    pub closed spec fn slot_fn(self) -> spec_fn(TParts) -> int {
        slot_fn_of(self.index_fn)
    }

    /// The slot sequence a part sequence takes in this trie.
    pub open spec fn slots(self, parts: Seq<TParts>) -> Seq<int> {
        parts.map_values(self.slot_fn())
    }

    /// Abstract state: the stored tree, over slots.
    pub closed spec fn model(self) -> SlotTree {
        self.root.model(self.slot_fn())
    }

    /// Validity: the index function obeys its contract and the stored tree
    /// is structurally well-formed for the fixed alphabet size.
    pub closed spec fn wf(self) -> bool {
        &&& index_fn_wf(self.index_fn, self.asize())
        &&& tree_wf(self.model(), self.asize())
    }

    /// A fresh trie: an empty tree under the given index function and
    /// alphabet size, both fixed for the trie's lifetime.
    pub fn new(index_fn: FIndex, alphabet_size: usize) -> (t: Trie<TParts, FIndex>)
        requires
            index_fn_wf(index_fn, alphabet_size as int),
        ensures
            t.wf(),
            t.model() == SlotTree::Leaf,
            t.asize() == alphabet_size as int,
            t.slot_fn() == slot_fn_of(index_fn),
    {
        let new_node = Node::Empty;
        Trie { root: new_node, index_fn, alphabet_size }
    }

    /// Membership walk from `node`, matching `parts[i..]` slot by slot.
    #[verifier::loop_isolation(false)]
    fn contains_node(
        node: &Node<TParts>,
        f: &FIndex,
        parts: &Vec<TParts>,
        i: usize,
        Ghost(asize): Ghost<int>,
    ) -> (r: bool)
        requires
            index_fn_wf(*f, asize),
            tree_wf(node.model(slot_fn_of(*f)), asize),
            i <= parts@.len(),
        ensures
            r == tree_mem(node.model(slot_fn_of(*f)), slots_of(*f, parts@.skip(i as int))),
        decreases *node,
    {
        let ghost sf = slot_fn_of(*f);
        let ghost q = slots_of(*f, parts@.skip(i as int));
        match node {
            Node::Empty => i == parts.len(),
            Node::Normal(children) => {
                if i < parts.len() {
                    let pos = f(&parts[i]);
                    assert(pos == q[0] && pos < children@.len());
                    let r = Self::contains_node(&children[pos], f, parts, i + 1, Ghost(asize));
                    proof {
                        assert(slots_of(*f, parts@.skip(i + 1)) =~= q.skip(1));
                        assert(node.model(sf)->Branch_kids[q[0]] == children@[pos as int].model(
                            sf,
                        ));
                    }
                    r
                } else {
                    false
                }
            },
            Node::Compressed { compressed, child } => {
                let ghost run = compressed@.map_values(sf);
                let mut j: usize = 0;
                while j < compressed.len()
                    invariant
                        index_fn_wf(*f, asize),
                        i <= parts@.len(),
                        j <= compressed@.len(),
                        i + j <= parts@.len(),
                        run == compressed@.map_values(sf),
                        q == slots_of(*f, parts@.skip(i as int)),
                        sf == slot_fn_of(*f),
                        forall|jj: int| 0 <= jj < j ==> run[jj] == q[jj],
                    decreases compressed@.len() - j,
                {
                    if parts.len() - i <= j {
                        // input exhausted before the run is
                        assert(q.len() < run.len());
                        return false;
                    }
                    let a = f(&compressed[j]);
                    let b = f(&parts[i + j]);
                    if a != b {
                        proof {
                            assert(run[j as int] != q[j as int]);
                            if q.len() >= run.len() {
                                assert(q.take(run.len() as int)[j as int] == q[j as int]);
                            }
                        }
                        return false;
                    }
                    j += 1;
                }
                proof {
                    assert(parts.len() == parts@.len());
                    assert(i + compressed@.len() <= parts@.len());
                    assert(q.len() >= run.len());
                    assert(q.take(run.len() as int) =~= run);
                    assert(slots_of(*f, parts@.skip(i + compressed@.len())) =~= q.skip(
                        run.len() as int,
                    ));
                }
                Self::contains_node(child, f, parts, i + compressed.len(), Ghost(asize))
            },
        }
    }

    /// Wrap a run of parts around a continuation node; an empty run is
    /// dropped rather than stored.
    fn wrap_node(run_parts: Vec<TParts>, next: Box<Node<TParts>>) -> (r: Node<TParts>)
        ensures
            forall|sf: spec_fn(TParts) -> int|
                #[trigger] r.model(sf) == wrap(run_parts@.map_values(sf), (*next).model(sf)),
    {
        if run_parts.len() == 0 {
            *next
        } else {
            Node::Compressed { compressed: run_parts, child: next }
        }
    }

    /// Consult the index function on every part of `v`, so that the slots
    /// of a run about to be stored are known to lie below the bound.
    #[verifier::loop_isolation(false)]
    fn check_slots(v: &Vec<TParts>, f: &FIndex, asize: usize)
        requires
            index_fn_wf(*f, asize as int),
        ensures
            forall|jj: int|
                0 <= jj < v@.len() ==> 0 <= slot_fn_of(*f)(#[trigger] v@[jj]) < asize as int,
    {
        let ghost sf = slot_fn_of(*f);
        let mut j: usize = 0;
        while j < v.len()
            invariant
                j <= v@.len(),
                forall|jj: int| 0 <= jj < j ==> 0 <= sf(#[trigger] v@[jj]) < asize as int,
            decreases v@.len() - j,
        {
            let slot = f(&v[j]);
            proof {
                assert(slot as int == slot_of(*f, v@[j as int]));
                assert(sf(v@[j as int]) == slot_of(*f, v@[j as int]));
            }
            j += 1;
        }
    }

    /// Insertion walk from `node`, consuming `parts[i..]`: returns the node
    /// that takes this node's place, with the sequence recorded.
    #[verifier::loop_isolation(false)]
    #[verifier::rlimit(80)]
    fn insert_node(
        node: Node<TParts>,
        f: &FIndex,
        asize: usize,
        parts: Vec<TParts>,
        i: usize,
    ) -> (r: Node<TParts>)
        requires
            index_fn_wf(*f, asize as int),
            tree_wf(node.model(slot_fn_of(*f)), asize as int),
            i <= parts@.len(),
        ensures
            r.model(slot_fn_of(*f)) == tree_ins(
                node.model(slot_fn_of(*f)),
                slots_of(*f, parts@.skip(i as int)),
                asize as int,
            ),
            tree_wf(r.model(slot_fn_of(*f)), asize as int),
        decreases node,
    {
        let ghost sf = slot_fn_of(*f);
        let ghost q = slots_of(*f, parts@.skip(i as int));
        let ghost node0 = node;
        let mut parts = parts;
        match node {
            Node::Empty => {
                if i < parts.len() {
                    let ghost parts0 = parts@;
                    let compressed = parts.split_off(i);
                    Self::check_slots(&compressed, f, asize);
                    proof {
                        assert(compressed@ =~= parts0.skip(i as int));
                        assert(compressed@.map_values(sf) =~= q);
                    }
                    Node::Compressed { compressed, child: Box::new(Node::Empty) }
                } else {
                    proof {
                        assert(q.len() == 0);
                    }
                    Node::Empty
                }
            },
            Node::Normal(children) => {
                let mut children = children;
                if i < parts.len() {
                    let pos = f(&parts[i]);
                    proof {
                        assert(q[0] == sf(parts@.skip(i as int)[0]));
                        assert(pos as int == q[0] && pos < asize);
                        assert(node0.model(sf)->Branch_kids.len() == children@.len());
                        assert(children@.len() == asize as int);
                    }
                    let ghost kids0 = children@;
                    let sub = children.remove(pos);
                    proof {
                        assert(node0.model(sf)->Branch_kids[pos as int] == kids0[pos as int].model(
                            sf,
                        ));
                        assert(kids0 == node0->Normal_0@);
                        assert(decreases_to!(node0 => node0->Normal_0));
                        assert(decreases_to!(node0->Normal_0 => node0->Normal_0@));
                        assert(decreases_to!(node0->Normal_0@ => node0->Normal_0@[pos as int]));
                        assert(sub == node0->Normal_0@[pos as int]);
                        assert(decreases_to!(node0 => sub));
                        assert(slots_of(*f, parts@.skip(i + 1)) =~= q.skip(1));
                    }
                    let sub2 = Self::insert_node(sub, f, asize, parts, i + 1);
                    children.insert(pos, sub2);
                    let r = Node::Normal(children);
                    proof {
                        assert(children@ =~= kids0.update(pos as int, sub2));
                        assert(r.model(sf)->Branch_kids =~= node0.model(sf)->Branch_kids.update(
                            q[0],
                            tree_ins(node0.model(sf)->Branch_kids[q[0]], q.skip(1), asize as int),
                        ));
                    }
                    r
                } else {
                    proof {
                        assert(q.len() == 0);
                    }
                    Node::Normal(children)
                }
            },
            Node::Compressed { compressed, child } => {
                let mut compressed = compressed;
                let ghost run = compressed@.map_values(sf);
                let ghost child0 = child;
                proof {
                    assert(node0.model(sf) == SlotTree::Run {
                        run,
                        next: Box::new((*child0).model(sf)),
                    });
                }
                let mut j: usize = 0;
                loop
                    invariant
                        j <= compressed@.len(),
                        i + j <= parts@.len(),
                        compressed@.map_values(sf) == run,
                        q == slots_of(*f, parts@.skip(i as int)),
                        child == child0,
                        node0.model(sf) == (SlotTree::Run {
                            run,
                            next: Box::new((*child0).model(sf)),
                        }),
                        forall|jj: int| 0 <= jj < j ==> run[jj] == q[jj],
                    decreases compressed@.len() - j,
                {
                    if parts.len() - i == j {
                        // input exhausted: nothing further is recorded
                        proof {
                            assert(q.len() == j);
                            lemma_common_len_is(run, q, j as int);
                        }
                        return Node::Compressed { compressed, child };
                    }
                    if j == compressed.len() {
                        // the whole run matched and input remains
                        proof {
                            lemma_common_len_is(run, q, j as int);
                        }
                        let ghost k = run.len() as int;
                        proof {
                            assert(tree_wf(node0.model(sf), asize as int));
                            assert(tree_wf((*child0).model(sf), asize as int));
                        }
                        match *child {
                            Node::Empty => {
                                // single continuation: extend the run in place
                                let ghost parts0 = parts@;
                                let mut rest = parts.split_off(i + j);
                                Self::check_slots(&rest, f, asize);
                                let ghost rest0 = rest@;
                                compressed.append(&mut rest);
                                let leaf_node: Node<TParts> = Node::Empty;
                                let r = Node::Compressed { compressed, child: Box::new(leaf_node) };
                                proof {
                                    assert(rest0 =~= parts0.skip(i as int).skip(k));
                                    assert(compressed@.map_values(sf) =~= run + q.skip(k));
                                    assert(leaf_node.model(sf) == SlotTree::Leaf);
                                    assert(r.model(sf) == (SlotTree::Run {
                                        run: run + q.skip(k),
                                        next: Box::new(SlotTree::Leaf),
                                    }));
                                    assert forall|ii: int|
                                        0 <= ii < compressed@.len() implies 0 <= #[trigger] (run
                                        + q.skip(k))[ii] < asize as int by {
                                        if ii < run.len() {
                                            assert((run + q.skip(k))[ii] == run[ii]);
                                        } else {
                                            assert((run + q.skip(k))[ii] == sf(
                                                rest0[ii - run.len()],
                                            ));
                                        }
                                    }
                                    assert(tree_wf(r.model(sf), asize as int));
                                }
                                return r;
                            },
                            Node::Normal(grandkids) => {
                                // route the rest through the existing branch
                                let mut grandkids = grandkids;
                                let pos = f(&parts[i + j]);
                                proof {
                                    assert(q[k] == sf(parts@.skip(i as int)[k]));
                                    assert(pos as int == q[k] && pos < asize);
                                    assert((*child0).model(sf)->Branch_kids.len()
                                        == grandkids@.len());
                                    assert(grandkids@.len() == asize as int);
                                }
                                let ghost gk0 = grandkids@;
                                let sub = grandkids.remove(pos);
                                proof {
                                    assert((*child0).model(sf)->Branch_kids[pos as int]
                                        == gk0[pos as int].model(sf));
                                    assert(child0 == node0->Compressed_child);
                                    assert(gk0 == (*child0)->Normal_0@);
                                    assert(decreases_to!(node0 => node0->Compressed_child));
                                    assert(decreases_to!(*child0 => (*child0)->Normal_0));
                                    assert(decreases_to!(
                                        (*child0)->Normal_0 => (*child0)->Normal_0@));
                                    assert(decreases_to!(
                                        (*child0)->Normal_0@ => (*child0)->Normal_0@[pos as int]));
                                    assert(sub == (*child0)->Normal_0@[pos as int]);
                                    assert(decreases_to!(node0 => sub));
                                    assert(slots_of(*f, parts@.skip(i + j + 1)) =~= q.skip(k + 1));
                                }
                                let sub2 = Self::insert_node(sub, f, asize, parts, i + j + 1);
                                grandkids.insert(pos, sub2);
                                let child_node = Node::Normal(grandkids);
                                proof {
                                    assert(grandkids@ =~= gk0.update(pos as int, sub2));
                                    let ck = (*child0).model(sf)->Branch_kids;
                                    let goal = ck.update(
                                        q[k],
                                        tree_ins(ck[q[k]], q.skip(k + 1), asize as int),
                                    );
                                    let got = child_node.model(sf)->Branch_kids;
                                    assert(got.len() == grandkids@.len());
                                    assert(sub2.model(sf) == tree_ins(
                                        gk0[pos as int].model(sf),
                                        q.skip(k + 1),
                                        asize as int,
                                    ));
                                    assert forall|ii: int| 0 <= ii < gk0.len() implies got[ii]
                                        == goal[ii] by {
                                        assert(got[ii] == grandkids@[ii].model(sf));
                                        if ii == pos as int {
                                            assert(grandkids@[ii] == sub2);
                                        } else {
                                            assert(grandkids@[ii] == gk0[ii]);
                                            assert(goal[ii] == ck[ii]);
                                            assert(ck[ii] == gk0[ii].model(sf));
                                        }
                                    }
                                    assert(got =~= goal);
                                    assert(tree_wf(child_node.model(sf), asize as int));
                                }
                                let r = Node::Compressed {
                                    compressed,
                                    child: Box::new(child_node),
                                };
                                proof {
                                    assert(r.model(sf) == (SlotTree::Run {
                                        run,
                                        next: Box::new(child_node.model(sf)),
                                    }));
                                }
                                return r;
                            },
                            Node::Compressed { .. } => {
                                // a run's continuation is never itself a run
                                proof {
                                    assert((*child0).model(sf) is Run);
                                    assert(false);
                                }
                                unreached()
                            },
                        }
                    }
                    let pos_existing = f(&compressed[j]);
                    let pos_new = f(&parts[i + j]);
                    proof {
                        assert(run[j as int] == sf(compressed@[j as int]));
                        assert(q[j as int] == sf(parts@.skip(i as int)[j as int]));
                        assert(pos_existing as int == run[j as int] && pos_existing < asize);
                        assert(pos_new as int == q[j as int] && pos_new < asize);
                    }
                    if pos_existing != pos_new {
                        // divergence: split the run into a two-armed branch
                        proof {
                            lemma_common_len_is(run, q, j as int);
                        }
                        let ghost k = j as int;
                        let ghost comp0 = compressed@;
                        let ghost parts0 = parts@;
                        let stored_rest = compressed.split_off(j + 1);
                        compressed.truncate(j);
                        let new_rest = parts.split_off(i + j + 1);
                        Self::check_slots(&new_rest, f, asize);
                        proof {
                            assert(stored_rest@.map_values(sf) =~= run.skip(k + 1));
                            assert(new_rest@.map_values(sf) =~= q.skip(k + 1));
                            assert(compressed@.map_values(sf) =~= run.take(k));
                        }
                        let stored_arm = Self::wrap_node(stored_rest, child);
                        let leaf_node: Node<TParts> = Node::Empty;
                        proof {
                            assert(leaf_node.model(sf) == SlotTree::Leaf);
                        }
                        let new_arm = Self::wrap_node(new_rest, Box::new(leaf_node));
                        let mut kids: Vec<Node<TParts>> = Vec::new();
                        let mut c: usize = 0;
                        while c < asize
                            invariant
                                c <= asize,
                                kids@.len() == c as int,
                                forall|ii: int| 0 <= ii < c ==> kids@[ii] is Empty,
                            decreases asize - c,
                        {
                            kids.push(Node::Empty);
                            c += 1;
                        }
                        let ghost blanks = kids@;
                        let _ = kids.remove(pos_existing);
                        kids.insert(pos_existing, stored_arm);
                        let _ = kids.remove(pos_new);
                        kids.insert(pos_new, new_arm);
                        proof {
                            assert(kids@ =~= blanks.update(pos_existing as int, stored_arm).update(
                                pos_new as int,
                                new_arm,
                            ));
                        }
                        let branch = Node::Normal(kids);
                        proof {
                            assert(branch.model(sf)->Branch_kids =~= empty_kids(
                                asize as int,
                            ).update(run[k], stored_arm.model(sf)).update(q[k], new_arm.model(sf)));
                            // both arms and the blank slots are well-formed
                            assert(tree_wf((*child0).model(sf), asize as int));
                            assert forall|ii: int|
                                0 <= ii < run.skip(k + 1).len() implies 0 <= #[trigger] run.skip(
                                k + 1,
                            )[ii] < asize as int by {
                                assert(run.skip(k + 1)[ii] == run[k + 1 + ii]);
                            }
                            assert(tree_wf(stored_arm.model(sf), asize as int));
                            assert forall|ii: int|
                                0 <= ii < q.skip(k + 1).len() implies 0 <= #[trigger] q.skip(
                                k + 1,
                            )[ii] < asize as int by {
                                assert(q.skip(k + 1)[ii] == sf(new_rest@[ii]));
                            }
                            assert(new_arm.model(sf) == wrap(
                                new_rest@.map_values(sf),
                                SlotTree::Leaf,
                            ));
                            assert(new_rest@.map_values(sf) == q.skip(k + 1));
                            assert(tree_wf(SlotTree::Leaf, asize as int));
                            assert(tree_wf(new_arm.model(sf), asize as int));
                            assert forall|ii: int|
                                0 <= ii < asize as int implies tree_wf(
                                #[trigger] branch.model(sf)->Branch_kids[ii],
                                asize as int,
                            ) by {
                                if ii != run[k] && ii != q[k] {
                                    assert(branch.model(sf)->Branch_kids[ii] == SlotTree::Leaf);
                                }
                            }
                            assert(tree_wf(branch.model(sf), asize as int));
                        }
                        let r = Self::wrap_node(compressed, Box::new(branch));
                        proof {
                            assert forall|ii: int|
                                0 <= ii < run.take(k).len() implies 0 <= #[trigger] run.take(
                                k,
                            )[ii] < asize as int by {
                                assert(run.take(k)[ii] == run[ii]);
                            }
                            assert(r.model(sf) == tree_ins(node0.model(sf), q, asize as int));
                            assert(tree_wf(r.model(sf), asize as int));
                        }
                        return r;
                    }
                    j += 1;
                }
            },
        }
    }

    /// Record the value's decomposed sequence: afterwards a membership test
    /// with the same sequence succeeds, so long as no longer stored sequence
    /// runs through its end point.
    pub fn insert<T: Decomposable<TParts>>(&mut self, t: T)
        requires
            old(self).wf(),
        ensures
            final (self).wf(),
            final (self).model() == tree_ins(
                old(self).model(),
                old(self).slots(t.parts()),
                old(self).asize(),
            ),
            final (self).slot_fn() == old(self).slot_fn(),
            final (self).asize() == old(self).asize(),
    {
        let parts = t.decompose();
        proof {
            assert(parts@.skip(0) =~= parts@);
        }
        let mut root = Node::Empty;
        core::mem::swap(&mut root, &mut self.root);
        let new_root = Self::insert_node(root, &self.index_fn, self.alphabet_size, parts, 0);
        self.root = new_root;
    }

    /// Whether the value's decomposed sequence was fully inserted: its walk
    /// ends on a stored terminal with no parts left over.
    pub fn contains<T: Decomposable<TParts>>(&self, t: T) -> (r: bool)
        requires
            self.wf(),
        ensures
            r == tree_mem(self.model(), self.slots(t.parts())),
    {
        let parts = t.decompose();
        proof {
            assert(parts@.skip(0) =~= parts@);
        }
        Self::contains_node(&self.root, &self.index_fn, &parts, 0, Ghost(self.asize()))
    }
}

} // verus!

