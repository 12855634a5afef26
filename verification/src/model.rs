//! Mathematical model of the trie.
//!
//! A stored part matters to the tree only through the slot the index
//! function assigns to it, so the model abstracts a tree of parts into a
//! tree over slot numbers. Membership and insertion are defined here as
//! pure functions on that abstract tree; the executable code refines them.

use vstd::prelude::*;

verus! {

/// Abstract shape of a trie node: slots stand in for parts.
pub enum SlotTree {
    /// No stored continuation; a sequence ending here is present.
    Leaf,
    /// One child per slot of the alphabet.
    Branch { kids: Seq<SlotTree> },
    /// A run of slots with exactly one continuation after the whole run.
    Run { run: Seq<int>, next: Box<SlotTree> },
}

/// Structural well-formedness: every branch is exactly `asize` wide, every
/// stored slot lies below `asize`, and a run's continuation is never
/// itself a run.
pub open spec fn tree_wf(t: SlotTree, asize: int) -> bool
    decreases t,
{
    match t {
        SlotTree::Leaf => true,
        SlotTree::Branch { kids } => {
            &&& kids.len() == asize
            &&& forall|i: int| 0 <= i < kids.len() ==> tree_wf(#[trigger] kids[i], asize)
        },
        SlotTree::Run { run, next } => {
            &&& forall|i: int| 0 <= i < run.len() ==> 0 <= #[trigger] run[i] < asize
            &&& !(*next is Run)
            &&& tree_wf(*next, asize)
        },
    }
}

/// Membership walk: `q` is reported present exactly when consuming it
/// slot by slot ends on a `Leaf` with nothing left over.
pub open spec fn tree_mem(t: SlotTree, q: Seq<int>) -> bool
    decreases t,
{
    match t {
        SlotTree::Leaf => q.len() == 0,
        SlotTree::Branch { kids } => {
            &&& q.len() > 0
            &&& 0 <= q[0] < kids.len()
            &&& tree_mem(kids[q[0]], q.skip(1))
        },
        SlotTree::Run { run, next } => {
            &&& q.len() >= run.len()
            &&& q.take(run.len() as int) == run
            &&& tree_mem(*next, q.skip(run.len() as int))
        },
    }
}

/// Length of the longest common prefix of two slot sequences.
pub open spec fn common_len(a: Seq<int>, b: Seq<int>) -> int
    decreases a.len(),
{
    if a.len() == 0 || b.len() == 0 || a[0] != b[0] {
        0
    } else {
        1 + common_len(a.skip(1), b.skip(1))
    }
}

/// A branch of `asize` empty slots.
pub open spec fn empty_kids(asize: int) -> Seq<SlotTree> {
    Seq::new(asize as nat, |i: int| SlotTree::Leaf)
}

/// Wrap a slot run around a continuation; an empty run is dropped.
pub open spec fn wrap(run: Seq<int>, next: SlotTree) -> SlotTree {
    if run.len() == 0 {
        next
    } else {
        SlotTree::Run { run, next: Box::new(next) }
    }
}

/// Insertion walk: consume `s` from the root of `t`, mutating the shape.
///
/// A walk that exhausts `s` leaves the tree unchanged: an ending `Leaf` is
/// the only terminal marker. At a `Leaf` the remaining slots become a run.
/// At a branch the walk descends through the addressed slot. Along a run
/// the input is compared slot by slot; a run fully matched with a `Leaf`
/// continuation is extended in place (so the run then records only the
/// longer sequence), a run fully matched with a branch continuation routes
/// the rest through the branch, and a mismatch splits the run into a
/// two-armed branch, the old continuation kept under the arm of the stored
/// run's own slot.
pub open spec fn tree_ins(t: SlotTree, s: Seq<int>, asize: int) -> SlotTree
    decreases t,
{
    if s.len() == 0 {
        t
    } else {
        match t {
            SlotTree::Leaf => SlotTree::Run { run: s, next: Box::new(SlotTree::Leaf) },
            SlotTree::Branch { kids } => {
                if 0 <= s[0] < kids.len() {
                    SlotTree::Branch {
                        kids: kids.update(s[0], tree_ins(kids[s[0]], s.skip(1), asize)),
                    }
                } else {
                    t
                }
            },
            SlotTree::Run { run, next } => {
                let k = common_len(run, s);
                if k == s.len() {
                    // input exhausted inside or exactly at the end of the run
                    t
                } else if k == run.len() {
                    // run fully matched, input remains
                    match *next {
                        SlotTree::Leaf => SlotTree::Run {
                            run: run + s.skip(k),
                            next: Box::new(SlotTree::Leaf),
                        },
                        SlotTree::Branch { kids } => {
                            if 0 <= s[k] < kids.len() {
                                SlotTree::Run {
                                    run,
                                    next: Box::new(
                                        SlotTree::Branch {
                                            kids: kids.update(
                                                s[k],
                                                tree_ins(kids[s[k]], s.skip(k + 1), asize),
                                            ),
                                        },
                                    ),
                                }
                            } else {
                                t
                            }
                        },
                        SlotTree::Run { .. } => t,  // excluded by tree_wf
                    }
                } else {
                    // mismatch at position k of both the run and the input
                    let stored_arm = wrap(run.skip(k + 1), *next);
                    let new_arm = wrap(s.skip(k + 1), SlotTree::Leaf);
                    let branch = SlotTree::Branch {
                        kids: empty_kids(asize).update(run[k], stored_arm).update(s[k], new_arm),
                    };
                    wrap(run.take(k), branch)
                }
            },
        }
    }
}

/// `common_len` is at most both lengths, the prefixes up to it agree, and
/// it is maximal: if it stops short of both sequences, the next slots differ.
pub proof fn lemma_common_len(a: Seq<int>, b: Seq<int>)
    ensures
        0 <= common_len(a, b) <= a.len(),
        common_len(a, b) <= b.len(),
        forall|i: int| 0 <= i < common_len(a, b) ==> a[i] == b[i],
        common_len(a, b) < a.len() && common_len(a, b) < b.len() ==> a[common_len(a, b)]
            != b[common_len(a, b)],
    decreases a.len(),
{
    if a.len() == 0 || b.len() == 0 || a[0] != b[0] {
    } else {
        lemma_common_len(a.skip(1), b.skip(1));
        assert forall|i: int| 0 <= i < common_len(a, b) implies a[i] == b[i] by {
            if i > 0 {
                assert(a.skip(1)[i - 1] == a[i]);
                assert(b.skip(1)[i - 1] == b[i]);
            }
        }
        if common_len(a, b) < a.len() && common_len(a, b) < b.len() {
            assert(a.skip(1)[common_len(a, b) - 1] == a[common_len(a, b)]);
            assert(b.skip(1)[common_len(a, b) - 1] == b[common_len(a, b)]);
        }
    }
}

/// `common_len` is the one position with matching slots below it and a
/// length bound or a mismatch at it.
pub proof fn lemma_common_len_is(a: Seq<int>, b: Seq<int>, m: int)
    requires
        0 <= m <= a.len(),
        m <= b.len(),
        forall|i: int| 0 <= i < m ==> a[i] == b[i],
        m < a.len() && m < b.len() ==> a[m] != b[m],
    ensures
        common_len(a, b) == m,
    decreases m,
{
    if m == 0 {
        if a.len() > 0 && b.len() > 0 && a[0] == b[0] {
            assert(false);
        }
    } else {
        assert(a[0] == b[0]);
        assert forall|i: int| 0 <= i < m - 1 implies a.skip(1)[i] == b.skip(1)[i] by {
            assert(a.skip(1)[i] == a[i + 1]);
            assert(b.skip(1)[i] == b[i + 1]);
        }
        if m - 1 < a.skip(1).len() && m - 1 < b.skip(1).len() {
            assert(a.skip(1)[m - 1] == a[m]);
            assert(b.skip(1)[m - 1] == b[m]);
        }
        lemma_common_len_is(a.skip(1), b.skip(1), m - 1);
    }
}

/// Every slot of `s` lies below the alphabet bound.
pub open spec fn valid_slots(s: Seq<int>, asize: int) -> bool {
    forall|i: int| 0 <= i < s.len() ==> 0 <= #[trigger] s[i] < asize
}

/// `q` is a strict prefix of `s`.
pub open spec fn strict_prefix_of(q: Seq<int>, s: Seq<int>) -> bool {
    q.len() < s.len() && s.take(q.len() as int) == q
}

/// Some sequence reported present by `t` strictly extends `s`.
pub open spec fn has_strict_extension(t: SlotTree, s: Seq<int>) -> bool {
    exists|r: Seq<int>| tree_mem(t, r) && strict_prefix_of(s, r)
}

/// A run of in-range slots over a well-formed continuation that is not
/// itself a run makes a well-formed node, wrapped or written directly.
pub proof fn lemma_run_wf(runseq: Seq<int>, child: SlotTree, asize: int)
    requires
        valid_slots(runseq, asize),
        !(child is Run),
        tree_wf(child, asize),
    ensures
        tree_wf(wrap(runseq, child), asize),
        tree_wf(SlotTree::Run { run: runseq, next: Box::new(child) }, asize),
{
    let r = SlotTree::Run { run: runseq, next: Box::new(child) };
    assert(*r->Run_next == child);
}

/// In an empty tree only the empty sequence is reported present: a fresh
/// trie holds no non-empty sequence.
pub proof fn lemma_empty_tree_mem(q: Seq<int>)
    ensures
        tree_mem(SlotTree::Leaf, q) <==> q.len() == 0,
{
}

/// After the one insertion of `s` into an empty tree, exactly `s` is
/// reported present: every other sequence — diverging, longer, shorter or
/// empty — is not.
pub proof fn lemma_insert_into_empty(s: Seq<int>, q: Seq<int>, asize: int)
    requires
        s.len() > 0,
    ensures
        tree_mem(tree_ins(SlotTree::Leaf, s, asize), q) <==> q == s,
{
    let t = tree_ins(SlotTree::Leaf, s, asize);
    assert(t == (SlotTree::Run { run: s, next: Box::new(SlotTree::Leaf) }));
    assert(*t->Run_next == SlotTree::Leaf);
    if tree_mem(t, q) {
        assert(tree_mem(*t->Run_next, q.skip(s.len() as int)));
        assert(q.skip(s.len() as int).len() == 0);
        assert(q.len() == s.len());
        assert(q =~= q.take(s.len() as int));
    }
    if q == s {
        assert(q.take(s.len() as int) =~= s);
        assert(q.skip(s.len() as int).len() == 0);
        assert(tree_mem(SlotTree::Leaf, q.skip(s.len() as int)));
        assert(tree_mem(t, q));
    }
}

/// Every well-formed tree reports at least one sequence present.
pub proof fn lemma_mem_exists(t: SlotTree, asize: int)
    requires
        tree_wf(t, asize),
        asize >= 1,
    ensures
        exists|r: Seq<int>| tree_mem(t, r),
    decreases t,
{
    match t {
        SlotTree::Leaf => {
            assert(tree_mem(t, Seq::empty()));
        },
        SlotTree::Branch { kids } => {
            assert(kids[0] == t->Branch_kids[0]);
            assert(decreases_to!(t => t->Branch_kids));
            assert(decreases_to!(t->Branch_kids => t->Branch_kids[0]));
            assert(decreases_to!(t => kids[0]));
            lemma_mem_exists(kids[0], asize);
            let r0 = choose|r: Seq<int>| tree_mem(kids[0], r);
            let r = seq![0int] + r0;
            assert(r.skip(1) =~= r0);
            assert(r[0] == 0);
            assert(tree_mem(t, r));
        },
        SlotTree::Run { run, next } => {
            assert(decreases_to!(t => t->Run_next));
            assert(*next == *t->Run_next);
            lemma_mem_exists(*next, asize);
            let r0 = choose|r: Seq<int>| tree_mem(*next, r);
            let r = run + r0;
            assert(r.take(run.len() as int) =~= run);
            assert(r.skip(run.len() as int) =~= r0);
            assert(tree_mem(t, r));
        },
    }
}

/// Insertion preserves structural well-formedness.
pub proof fn lemma_ins_wf(t: SlotTree, s: Seq<int>, asize: int)
    requires
        tree_wf(t, asize),
        valid_slots(s, asize),
    ensures
        tree_wf(tree_ins(t, s, asize), asize),
    decreases t,
{
    if s.len() == 0 {
    } else {
        match t {
            SlotTree::Leaf => {
                lemma_run_wf(s, SlotTree::Leaf, asize);
            },
            SlotTree::Branch { kids } => {
                assert(s.skip(1) =~= s.subrange(1, s.len() as int));
                assert(valid_slots(s.skip(1), asize)) by {
                    assert forall|ii: int| 0 <= ii < s.skip(1).len() implies 0 <= #[trigger] s.skip(
                        1,
                    )[ii] < asize by {
                        assert(s.skip(1)[ii] == s[ii + 1]);
                    }
                }
                lemma_ins_wf(kids[s[0]], s.skip(1), asize);
                let out = tree_ins(t, s, asize);
                assert forall|ii: int| 0 <= ii < out->Branch_kids.len() implies tree_wf(
                    #[trigger] out->Branch_kids[ii],
                    asize,
                ) by {
                    if ii != s[0] {
                        assert(out->Branch_kids[ii] == kids[ii]);
                    }
                }
            },
            SlotTree::Run { run, next } => {
                let k = common_len(run, s);
                lemma_common_len(run, s);
                if k == s.len() {
                } else if k == run.len() {
                    match *next {
                        SlotTree::Leaf => {
                            let ext = run + s.skip(k);
                            assert forall|ii: int| 0 <= ii < ext.len() implies 0
                                <= #[trigger] ext[ii] < asize by {
                                if ii < run.len() {
                                    assert(ext[ii] == run[ii]);
                                } else {
                                    assert(ext[ii] == s.skip(k)[ii - run.len()]);
                                    assert(s.skip(k)[ii - run.len()] == s[ii - run.len() + k]);
                                }
                            }
                            lemma_run_wf(ext, SlotTree::Leaf, asize);
                        },
                        SlotTree::Branch { kids } => {
                            assert(valid_slots(s.skip(k + 1), asize)) by {
                                assert forall|ii: int|
                                    0 <= ii < s.skip(k + 1).len() implies 0 <= #[trigger] s.skip(
                                    k + 1,
                                )[ii] < asize by {
                                    assert(s.skip(k + 1)[ii] == s[ii + k + 1]);
                                }
                            }
                            assert(tree_wf(*next, asize));
                            assert(kids.len() == asize);
                            assert(0 <= s[k] < asize);
                            assert(decreases_to!(t => t->Run_next));
                            assert(decreases_to!(*next => (*next)->Branch_kids));
                            assert(decreases_to!(
                                (*next)->Branch_kids => (*next)->Branch_kids[s[k]]));
                            assert(kids[s[k]] == (*next)->Branch_kids[s[k]]);
                            assert(decreases_to!(t => kids[s[k]]));
                            lemma_ins_wf(kids[s[k]], s.skip(k + 1), asize);
                            let out = tree_ins(t, s, asize);
                            let okids = out->Run_next->Branch_kids;
                            assert forall|ii: int| 0 <= ii < okids.len() implies tree_wf(
                                #[trigger] okids[ii],
                                asize,
                            ) by {
                                if ii != s[k] {
                                    assert(okids[ii] == kids[ii]);
                                }
                            }
                            let branch = SlotTree::Branch {
                                kids: kids.update(s[k], tree_ins(kids[s[k]], s.skip(k + 1), asize)),
                            };
                            assert(tree_wf(branch, asize));
                            lemma_run_wf(run, branch, asize);
                        },
                        SlotTree::Run { .. } => {
                        },
                    }
                } else {
                    // split at the first divergence
                    let stored_arm = wrap(run.skip(k + 1), *next);
                    let new_arm = wrap(s.skip(k + 1), SlotTree::Leaf);
                    assert forall|ii: int|
                        0 <= ii < run.skip(k + 1).len() implies 0 <= #[trigger] run.skip(k + 1)[ii]
                        < asize by {
                        assert(run.skip(k + 1)[ii] == run[ii + k + 1]);
                    }
                    lemma_run_wf(run.skip(k + 1), *next, asize);
                    assert(tree_wf(stored_arm, asize));
                    assert forall|ii: int|
                        0 <= ii < s.skip(k + 1).len() implies 0 <= #[trigger] s.skip(k + 1)[ii]
                        < asize by {
                        assert(s.skip(k + 1)[ii] == s[ii + k + 1]);
                    }
                    lemma_run_wf(s.skip(k + 1), SlotTree::Leaf, asize);
                    assert(tree_wf(new_arm, asize));
                    let bkids = empty_kids(asize).update(run[k], stored_arm).update(s[k], new_arm);
                    assert forall|ii: int| 0 <= ii < bkids.len() implies tree_wf(
                        #[trigger] bkids[ii],
                        asize,
                    ) by {
                        if ii != run[k] && ii != s[k] {
                            assert(bkids[ii] == SlotTree::Leaf);
                        }
                    }
                    let branch = SlotTree::Branch { kids: bkids };
                    assert(tree_wf(branch, asize));
                    assert forall|ii: int|
                        0 <= ii < run.take(k).len() implies 0 <= #[trigger] run.take(k)[ii]
                        < asize by {
                        assert(run.take(k)[ii] == run[ii]);
                    }
                    lemma_run_wf(run.take(k), branch, asize);
                    assert(tree_wf(wrap(run.take(k), branch), asize));
                }
            },
        }
    }
}

/// Two sequences that agree below `m` and stand in the strict-prefix
/// relation from `m` on stand in it whole.
pub proof fn lemma_spo_extend(q: Seq<int>, s: Seq<int>, m: int)
    requires
        0 <= m <= q.len(),
        m <= s.len(),
        forall|i: int| 0 <= i < m ==> q[i] == s[i],
        strict_prefix_of(q.skip(m), s.skip(m)),
    ensures
        strict_prefix_of(q, s),
{
    assert forall|i: int| 0 <= i < q.len() implies s.take(q.len() as int)[i] == q[i] by {
        if i >= m {
            assert(s.skip(m).take(q.skip(m).len() as int)[i - m] == q.skip(m)[i - m]);
            assert(s.skip(m)[i - m] == s[i]);
            assert(q.skip(m)[i - m] == q[i]);
        }
    }
    assert(s.take(q.len() as int) =~= q);
}

/// Insertion never disturbs a stored sequence other than a strict prefix
/// of the inserted one: every other sequence reported present before the
/// insertion is still reported present after it.
pub proof fn lemma_insert_preserves(t: SlotTree, s: Seq<int>, q: Seq<int>, asize: int)
    requires
        tree_wf(t, asize),
        valid_slots(s, asize),
        tree_mem(t, q),
        !strict_prefix_of(q, s),
    ensures
        tree_mem(tree_ins(t, s, asize), q),
    decreases t,
{
    if s.len() == 0 {
    } else {
        let out = tree_ins(t, s, asize);
        match t {
            SlotTree::Leaf => {
                assert(q.len() == 0);
                assert(s.take(0) =~= q);
                assert(strict_prefix_of(q, s));
            },
            SlotTree::Branch { kids } => {
                assert(valid_slots(s.skip(1), asize)) by {
                    assert forall|ii: int| 0 <= ii < s.skip(1).len() implies 0 <= #[trigger] s.skip(
                        1,
                    )[ii] < asize by {
                        assert(s.skip(1)[ii] == s[ii + 1]);
                    }
                }
                if s[0] == q[0] {
                    if strict_prefix_of(q.skip(1), s.skip(1)) {
                        lemma_spo_extend(q, s, 1);
                    }
                    assert(decreases_to!(t => t->Branch_kids));
                    assert(decreases_to!(t->Branch_kids => t->Branch_kids[q[0]]));
                    assert(kids[q[0]] == t->Branch_kids[q[0]]);
                    lemma_insert_preserves(kids[q[0]], s.skip(1), q.skip(1), asize);
                    assert(out->Branch_kids[q[0]] == tree_ins(kids[s[0]], s.skip(1), asize));
                    assert(tree_mem(out, q));
                } else {
                    assert(out->Branch_kids[q[0]] == kids[q[0]]);
                    assert(tree_mem(out, q));
                }
            },
            SlotTree::Run { run, next } => {
                let k = common_len(run, s);
                lemma_common_len(run, s);
                let rl = run.len() as int;
                assert(tree_mem(*next, q.skip(rl)));
                if k == s.len() {
                } else if k == run.len() {
                    match *next {
                        SlotTree::Leaf => {
                            // q would be exactly the run, a strict prefix of s
                            assert(q.skip(rl).len() == 0);
                            assert(q =~= run);
                            assert(s.take(q.len() as int) =~= q);
                            assert(strict_prefix_of(q, s));
                        },
                        SlotTree::Branch { kids } => {
                            let qr = q.skip(rl);
                            assert(qr.len() > 0);
                            assert(tree_mem(kids[qr[0]], qr.skip(1)));
                            if qr[0] == s[k] {
                                assert(valid_slots(s.skip(k + 1), asize)) by {
                                    assert forall|ii: int|
                                        0 <= ii < s.skip(k + 1).len() implies 0
                                        <= #[trigger] s.skip(k + 1)[ii] < asize by {
                                        assert(s.skip(k + 1)[ii] == s[ii + k + 1]);
                                    }
                                }
                                if strict_prefix_of(qr.skip(1), s.skip(k + 1)) {
                                    assert(qr.skip(1) =~= q.skip(k + 1));
                                    assert forall|i: int| 0 <= i < k + 1 implies q[i] == s[i] by {
                                        if i < k {
                                            assert(q.take(rl)[i] == run[i]);
                                        } else {
                                            assert(q.take(rl)[k] == run[k]);
                                        }
                                    }
                                    lemma_spo_extend(q, s, k + 1);
                                }
                                assert(decreases_to!(t => t->Run_next));
                                assert(decreases_to!(*next => (*next)->Branch_kids));
                                assert(decreases_to!(
                                    (*next)->Branch_kids => (*next)->Branch_kids[qr[0]]));
                                assert(kids[qr[0]] == (*next)->Branch_kids[qr[0]]);
                                assert(tree_wf(*next, asize));
                                lemma_insert_preserves(kids[qr[0]], s.skip(k + 1), qr.skip(1), asize);
                                let okids = out->Run_next->Branch_kids;
                                assert(okids[qr[0]] == tree_ins(kids[s[k]], s.skip(k + 1), asize));
                                assert(tree_mem(*out->Run_next, qr));
                                assert(out->Run_run == run);
                                assert(tree_mem(out, q));
                            } else {
                                let okids = out->Run_next->Branch_kids;
                                assert(okids[qr[0]] == kids[qr[0]]);
                                assert(tree_mem(*out->Run_next, qr));
                                assert(tree_mem(out, q));
                            }
                        },
                        SlotTree::Run { .. } => {
                            assert(false);
                        },
                    }
                } else {
                    // split: q continues through the stored arm
                    let stored_arm = wrap(run.skip(k + 1), *next);
                    let new_arm = wrap(s.skip(k + 1), SlotTree::Leaf);
                    let bkids = empty_kids(asize).update(run[k], stored_arm).update(s[k], new_arm);
                    let branch = SlotTree::Branch { kids: bkids };
                    assert(q.take(rl)[k] == run[k]);
                    assert(q[k] == run[k]);
                    // the stored arm still reports q's remainder
                    if run.skip(k + 1).len() == 0 {
                        assert(q.skip(k + 1) =~= q.skip(rl));
                        assert(tree_mem(stored_arm, q.skip(k + 1)));
                    } else {
                        let sa = SlotTree::Run { run: run.skip(k + 1), next: Box::new(*next) };
                        assert(stored_arm == sa);
                        assert(*sa->Run_next == *next);
                        assert(q.skip(k + 1).take(run.skip(k + 1).len() as int) =~= run.skip(k + 1))
                            by {
                            assert forall|ii: int|
                                0 <= ii < run.skip(k + 1).len() implies q.skip(k + 1).take(
                                run.skip(k + 1).len() as int,
                            )[ii] == #[trigger] run.skip(k + 1)[ii] by {
                                assert(q.take(rl)[k + 1 + ii] == run[k + 1 + ii]);
                                assert(q.skip(k + 1)[ii] == q[k + 1 + ii]);
                            }
                        }
                        assert(q.skip(k + 1).skip(run.skip(k + 1).len() as int) =~= q.skip(rl));
                        assert(tree_mem(stored_arm, q.skip(k + 1)));
                    }
                    // and the branch routes q's slot at k to that arm
                    assert(run[k] != s[k]);
                    assert(bkids[q[k]] == stored_arm);
                    assert(q.skip(k as int).len() > 0);
                    assert(q.skip(k as int)[0] == q[k]);
                    assert(q.skip(k as int).skip(1) =~= q.skip(k + 1));
                    assert(tree_mem(branch, q.skip(k as int)));
                    if k == 0 {
                        assert(q.skip(0) =~= q);
                        assert(out == branch);
                    } else {
                        assert(out == (SlotTree::Run { run: run.take(k), next: Box::new(branch) }));
                        assert(*out->Run_next == branch);
                        assert(q.take(k as int) =~= run.take(k)) by {
                            assert forall|ii: int| 0 <= ii < k implies q.take(k as int)[ii]
                                == #[trigger] run.take(k)[ii] by {
                                assert(q.take(rl)[ii] == run[ii]);
                            }
                        }
                        assert(tree_mem(out, q));
                    }
                }
            },
        }
    }
}

/// After inserting `s`, `s` itself is reported present — unless some
/// already-stored sequence strictly extends `s`. In that one case the walk
/// for `s` ends inside existing structure and the compressed
/// representation keeps no marker for it, so `s` stays absent.
pub proof fn lemma_insert_then_contains(t: SlotTree, s: Seq<int>, asize: int)
    requires
        tree_wf(t, asize),
        valid_slots(s, asize),
        asize >= 1,
        !has_strict_extension(t, s),
    ensures
        tree_mem(tree_ins(t, s, asize), s),
    decreases t,
{
    let out = tree_ins(t, s, asize);
    if s.len() == 0 {
        match t {
            SlotTree::Leaf => {
            },
            SlotTree::Branch { kids } => {
                lemma_mem_exists(t, asize);
                let r = choose|r: Seq<int>| tree_mem(t, r);
                assert(r.len() > 0);
                assert(r.take(0) =~= s);
                assert(strict_prefix_of(s, r));
            },
            SlotTree::Run { run, next } => {
                if run.len() == 0 && *next is Leaf {
                    assert(s.take(0) =~= run);
                    assert(s.skip(0) =~= s);
                    assert(tree_mem(*next, s.skip(0)));
                    assert(tree_mem(t, s));
                } else {
                    assert(decreases_to!(t => t->Run_next));
                    lemma_mem_exists(*next, asize);
                    let r0 = choose|r: Seq<int>| tree_mem(*next, r);
                    let r = run + r0;
                    assert(r.take(run.len() as int) =~= run);
                    assert(r.skip(run.len() as int) =~= r0);
                    assert(tree_mem(t, r));
                    assert(r.len() > 0) by {
                        if run.len() == 0 {
                            assert(!(*next is Run));
                            assert(r0.len() > 0);
                        }
                    }
                    assert(r.take(0) =~= s);
                    assert(strict_prefix_of(s, r));
                }
            },
        }
    } else {
        match t {
            SlotTree::Leaf => {
                assert(out == (SlotTree::Run { run: s, next: Box::new(SlotTree::Leaf) }));
                assert(*out->Run_next == SlotTree::Leaf);
                assert(s.take(s.len() as int) =~= s);
                assert(s.skip(s.len() as int).len() == 0);
                assert(tree_mem(SlotTree::Leaf, s.skip(s.len() as int)));
                assert(tree_mem(out, s));
            },
            SlotTree::Branch { kids } => {
                assert(valid_slots(s.skip(1), asize)) by {
                    assert forall|ii: int| 0 <= ii < s.skip(1).len() implies 0 <= #[trigger] s.skip(
                        1,
                    )[ii] < asize by {
                        assert(s.skip(1)[ii] == s[ii + 1]);
                    }
                }
                if has_strict_extension(kids[s[0]], s.skip(1)) {
                    let rr = choose|r: Seq<int>|
                        tree_mem(kids[s[0]], r) && strict_prefix_of(s.skip(1), r);
                    let r = seq![s[0]] + rr;
                    assert(r.skip(1) =~= rr);
                    assert(r[0] == s[0]);
                    assert(tree_mem(t, r));
                    assert forall|i: int| 0 <= i < s.len() implies r.take(s.len() as int)[i]
                        == s[i] by {
                        if i > 0 {
                            assert(rr.take(s.skip(1).len() as int)[i - 1] == s.skip(1)[i - 1]);
                            assert(rr[i - 1] == r[i]);
                            assert(s.skip(1)[i - 1] == s[i]);
                        }
                    }
                    assert(r.take(s.len() as int) =~= s);
                    assert(strict_prefix_of(s, r));
                }
                assert(decreases_to!(t => t->Branch_kids));
                assert(decreases_to!(t->Branch_kids => t->Branch_kids[s[0]]));
                assert(kids[s[0]] == t->Branch_kids[s[0]]);
                lemma_insert_then_contains(kids[s[0]], s.skip(1), asize);
                assert(out->Branch_kids[s[0]] == tree_ins(kids[s[0]], s.skip(1), asize));
                assert(tree_mem(out, s));
            },
            SlotTree::Run { run, next } => {
                let k = common_len(run, s);
                lemma_common_len(run, s);
                let rl = run.len() as int;
                assert(decreases_to!(t => t->Run_next));
                if k == s.len() {
                    if k < run.len() {
                        lemma_mem_exists(*next, asize);
                        let r0 = choose|r: Seq<int>| tree_mem(*next, r);
                        let r = run + r0;
                        assert(r.take(rl) =~= run);
                        assert(r.skip(rl) =~= r0);
                        assert(tree_mem(t, r));
                        assert(r.take(s.len() as int) =~= s);
                        assert(strict_prefix_of(s, r));
                    } else {
                        // s matches the run exactly
                        match *next {
                            SlotTree::Leaf => {
                                assert(s.take(rl) =~= run);
                                assert(s.skip(rl).len() == 0);
                                assert(tree_mem(*next, s.skip(rl)));
                                assert(tree_mem(t, s));
                            },
                            SlotTree::Branch { .. } => {
                                assert(tree_wf(*next, asize));
                                lemma_mem_exists(*next, asize);
                                let r0 = choose|r: Seq<int>| tree_mem(*next, r);
                                assert(r0.len() > 0);
                                let r = run + r0;
                                assert(r.take(rl) =~= run);
                                assert(r.skip(rl) =~= r0);
                                assert(tree_mem(t, r));
                                assert(r.take(s.len() as int) =~= s);
                                assert(strict_prefix_of(s, r));
                            },
                            SlotTree::Run { .. } => {
                                assert(false);
                            },
                        }
                    }
                } else if k == run.len() {
                    match *next {
                        SlotTree::Leaf => {
                            assert(run + s.skip(k) =~= s);
                            assert(out == (SlotTree::Run { run: s, next: Box::new(SlotTree::Leaf) }));
                            assert(*out->Run_next == SlotTree::Leaf);
                            assert(s.take(s.len() as int) =~= s);
                            assert(s.skip(s.len() as int).len() == 0);
                            assert(tree_mem(SlotTree::Leaf, s.skip(s.len() as int)));
                            assert(tree_mem(out, s));
                        },
                        SlotTree::Branch { kids } => {
                            assert(tree_wf(*next, asize));
                            assert(valid_slots(s.skip(k + 1), asize)) by {
                                assert forall|ii: int|
                                    0 <= ii < s.skip(k + 1).len() implies 0 <= #[trigger] s.skip(
                                    k + 1,
                                )[ii] < asize by {
                                    assert(s.skip(k + 1)[ii] == s[ii + k + 1]);
                                }
                            }
                            if has_strict_extension(kids[s[k]], s.skip(k + 1)) {
                                let rr = choose|r: Seq<int>|
                                    tree_mem(kids[s[k]], r) && strict_prefix_of(s.skip(k + 1), r);
                                let r = run + (seq![s[k]] + rr);
                                assert(r.take(rl) =~= run);
                                assert(r.skip(rl) =~= seq![s[k]] + rr);
                                assert((seq![s[k]] + rr)[0] == s[k]);
                                assert((seq![s[k]] + rr).skip(1) =~= rr);
                                assert(tree_mem(*next, r.skip(rl)));
                                assert(tree_mem(t, r));
                                assert forall|i: int| 0 <= i < s.len() implies r.take(
                                    s.len() as int,
                                )[i] == s[i] by {
                                    if i < k {
                                        assert(r[i] == run[i]);
                                    } else if i == k {
                                        assert(r[i] == (seq![s[k]] + rr)[0]);
                                    } else {
                                        assert(r[i] == rr[i - k - 1]);
                                        assert(rr.take(s.skip(k + 1).len() as int)[i - k - 1]
                                            == s.skip(k + 1)[i - k - 1]);
                                        assert(s.skip(k + 1)[i - k - 1] == s[i]);
                                    }
                                }
                                assert(r.take(s.len() as int) =~= s);
                                assert(r.len() > s.len());
                                assert(strict_prefix_of(s, r));
                            }
                            assert(decreases_to!(*next => (*next)->Branch_kids));
                            assert(decreases_to!(
                                (*next)->Branch_kids => (*next)->Branch_kids[s[k]]));
                            assert(kids[s[k]] == (*next)->Branch_kids[s[k]]);
                            lemma_insert_then_contains(kids[s[k]], s.skip(k + 1), asize);
                            let okids = out->Run_next->Branch_kids;
                            assert(okids[s[k]] == tree_ins(kids[s[k]], s.skip(k + 1), asize));
                            assert(s.take(rl) =~= run);
                            assert(s.skip(rl)[0] == s[k]);
                            assert(s.skip(rl).skip(1) =~= s.skip(k + 1));
                            assert(tree_mem(*out->Run_next, s.skip(rl)));
                            assert(tree_mem(out, s));
                        },
                        SlotTree::Run { .. } => {
                            assert(false);
                        },
                    }
                } else {
                    // divergence: the new arm records exactly s's remainder
                    let stored_arm = wrap(run.skip(k + 1), *next);
                    let new_arm = wrap(s.skip(k + 1), SlotTree::Leaf);
                    let bkids = empty_kids(asize).update(run[k], stored_arm).update(s[k], new_arm);
                    let branch = SlotTree::Branch { kids: bkids };
                    if s.skip(k + 1).len() == 0 {
                        assert(tree_mem(new_arm, s.skip(k + 1)));
                    } else {
                        let na = SlotTree::Run {
                            run: s.skip(k + 1),
                            next: Box::new(SlotTree::Leaf),
                        };
                        assert(new_arm == na);
                        assert(*na->Run_next == SlotTree::Leaf);
                        assert(s.skip(k + 1).take(s.skip(k + 1).len() as int) =~= s.skip(k + 1));
                        assert(s.skip(k + 1).skip(s.skip(k + 1).len() as int).len() == 0);
                        assert(tree_mem(
                            SlotTree::Leaf,
                            s.skip(k + 1).skip(s.skip(k + 1).len() as int),
                        ));
                        assert(tree_mem(new_arm, s.skip(k + 1)));
                    }
                    assert(bkids[s[k]] == new_arm);
                    assert(s.skip(k as int)[0] == s[k]);
                    assert(s.skip(k as int).skip(1) =~= s.skip(k + 1));
                    assert(tree_mem(branch, s.skip(k as int)));
                    if k == 0 {
                        assert(s.skip(0) =~= s);
                        assert(out == branch);
                        assert(tree_mem(out, s));
                    } else {
                        assert(out == (SlotTree::Run { run: run.take(k), next: Box::new(branch) }));
                        assert(*out->Run_next == branch);
                        assert(s.take(k as int) =~= run.take(k));
                        assert(tree_mem(out, s));
                    }
                }
            },
        }
    }
}

/// Inserting a sequence twice is the same as inserting it once: the second
/// walk matches the first insertion's structure everywhere and changes
/// nothing, so no later query can tell the two trees apart.
pub proof fn lemma_insert_idempotent(t: SlotTree, s: Seq<int>, asize: int)
    requires
        tree_wf(t, asize),
        valid_slots(s, asize),
    ensures
        tree_ins(tree_ins(t, s, asize), s, asize) == tree_ins(t, s, asize),
    decreases t,
{
    if s.len() == 0 {
    } else {
        let o1 = tree_ins(t, s, asize);
        match t {
            SlotTree::Leaf => {
                assert(o1 == (SlotTree::Run { run: s, next: Box::new(SlotTree::Leaf) }));
                lemma_common_len_is(s, s, s.len() as int);
            },
            SlotTree::Branch { kids } => {
                assert(valid_slots(s.skip(1), asize)) by {
                    assert forall|ii: int| 0 <= ii < s.skip(1).len() implies 0 <= #[trigger] s.skip(
                        1,
                    )[ii] < asize by {
                        assert(s.skip(1)[ii] == s[ii + 1]);
                    }
                }
                assert(decreases_to!(t => t->Branch_kids));
                assert(decreases_to!(t->Branch_kids => t->Branch_kids[s[0]]));
                assert(kids[s[0]] == t->Branch_kids[s[0]]);
                lemma_insert_idempotent(kids[s[0]], s.skip(1), asize);
                let w = tree_ins(kids[s[0]], s.skip(1), asize);
                let kids1 = kids.update(s[0], w);
                assert(o1 == (SlotTree::Branch { kids: kids1 }));
                assert(kids1[s[0]] == w);
                assert(kids1.update(s[0], tree_ins(kids1[s[0]], s.skip(1), asize)) =~= kids1);
                assert(tree_ins(o1, s, asize) == o1);
            },
            SlotTree::Run { run, next } => {
                let k = common_len(run, s);
                lemma_common_len(run, s);
                if k == s.len() {
                } else if k == run.len() {
                    match *next {
                        SlotTree::Leaf => {
                            assert(run + s.skip(k) =~= s);
                            assert(o1 == (SlotTree::Run { run: s, next: Box::new(SlotTree::Leaf) }));
                            lemma_common_len_is(s, s, s.len() as int);
                        },
                        SlotTree::Branch { kids } => {
                            assert(valid_slots(s.skip(k + 1), asize)) by {
                                assert forall|ii: int|
                                    0 <= ii < s.skip(k + 1).len() implies 0 <= #[trigger] s.skip(
                                    k + 1,
                                )[ii] < asize by {
                                    assert(s.skip(k + 1)[ii] == s[ii + k + 1]);
                                }
                            }
                            assert(tree_wf(*next, asize));
                            assert(decreases_to!(t => t->Run_next));
                            assert(decreases_to!(*next => (*next)->Branch_kids));
                            assert(decreases_to!(
                                (*next)->Branch_kids => (*next)->Branch_kids[s[k]]));
                            assert(kids[s[k]] == (*next)->Branch_kids[s[k]]);
                            lemma_insert_idempotent(kids[s[k]], s.skip(k + 1), asize);
                            let w = tree_ins(kids[s[k]], s.skip(k + 1), asize);
                            let kids1 = kids.update(s[k], w);
                            let next1 = SlotTree::Branch { kids: kids1 };
                            assert(o1 == (SlotTree::Run { run, next: Box::new(next1) }));
                            assert(*o1->Run_next == next1);
                            assert(kids1[s[k]] == w);
                            assert(kids1.update(s[k], tree_ins(kids1[s[k]], s.skip(k + 1), asize))
                                =~= kids1);
                            assert(tree_ins(o1, s, asize) == o1);
                        },
                        SlotTree::Run { .. } => {
                            assert(false);
                        },
                    }
                } else {
                    let stored_arm = wrap(run.skip(k + 1), *next);
                    let new_arm = wrap(s.skip(k + 1), SlotTree::Leaf);
                    let bkids = empty_kids(asize).update(run[k], stored_arm).update(s[k], new_arm);
                    let branch = SlotTree::Branch { kids: bkids };
                    assert(bkids.len() == asize);
                    assert(bkids[s[k]] == new_arm);
                    // the second walk lands on the new arm and matches it whole
                    assert(tree_ins(new_arm, s.skip(k + 1), asize) == new_arm) by {
                        if s.skip(k + 1).len() == 0 {
                        } else {
                            assert(new_arm == (SlotTree::Run {
                                run: s.skip(k + 1),
                                next: Box::new(SlotTree::Leaf),
                            }));
                            lemma_common_len_is(s.skip(k + 1), s.skip(k + 1), s.skip(k + 1).len() as int);
                        }
                    }
                    assert(bkids.update(s[k], new_arm) =~= bkids);
                    if k == 0 {
                        assert(o1 == branch);
                        assert(tree_ins(o1, s, asize) == o1);
                    } else {
                        assert(o1 == (SlotTree::Run { run: run.take(k), next: Box::new(branch) }));
                        assert(*o1->Run_next == branch);
                        assert forall|i: int| 0 <= i < k implies run.take(k)[i] == s[i] by {
                            assert(run.take(k)[i] == run[i]);
                        }
                        lemma_common_len_is(run.take(k), s, k);
                        assert(tree_ins(o1, s, asize) == o1);
                    }
                }
            },
        }
    }
}

/// The converse caveat, exactly: when some stored sequence strictly
/// extends `s`, inserting `s` changes nothing at all — the walk ends
/// inside existing structure, where the compressed representation keeps no
/// terminal marker — and `s` is not reported present, before or after.
pub proof fn lemma_insert_under_extension(t: SlotTree, s: Seq<int>, asize: int)
    requires
        tree_wf(t, asize),
        valid_slots(s, asize),
        has_strict_extension(t, s),
    ensures
        tree_ins(t, s, asize) == t,
        !tree_mem(t, s),
    decreases t,
{
    let r = choose|r: Seq<int>| tree_mem(t, r) && strict_prefix_of(s, r);
    match t {
        SlotTree::Leaf => {
            assert(r.len() == 0);
            assert(false);
        },
        SlotTree::Branch { kids } => {
            if s.len() == 0 {
            } else {
                assert(r.take(s.len() as int)[0] == s[0]);
                assert(r[0] == s[0]);
                assert(tree_mem(kids[r[0]], r.skip(1)));
                assert(strict_prefix_of(s.skip(1), r.skip(1))) by {
                    assert forall|i: int| 0 <= i < s.skip(1).len() implies r.skip(1).take(
                        s.skip(1).len() as int,
                    )[i] == s.skip(1)[i] by {
                        assert(r.skip(1)[i] == r[i + 1]);
                        assert(r.take(s.len() as int)[i + 1] == s[i + 1]);
                        assert(s.skip(1)[i] == s[i + 1]);
                    }
                    assert(r.skip(1).take(s.skip(1).len() as int) =~= s.skip(1));
                }
                assert(has_strict_extension(kids[s[0]], s.skip(1)));
                assert(valid_slots(s.skip(1), asize)) by {
                    assert forall|ii: int| 0 <= ii < s.skip(1).len() implies 0 <= #[trigger] s.skip(
                        1,
                    )[ii] < asize by {
                        assert(s.skip(1)[ii] == s[ii + 1]);
                    }
                }
                assert(decreases_to!(t => t->Branch_kids));
                assert(decreases_to!(t->Branch_kids => t->Branch_kids[s[0]]));
                assert(kids[s[0]] == t->Branch_kids[s[0]]);
                lemma_insert_under_extension(kids[s[0]], s.skip(1), asize);
                assert(kids.update(s[0], tree_ins(kids[s[0]], s.skip(1), asize)) =~= kids);
                assert(tree_ins(t, s, asize) == t);
            }
        },
        SlotTree::Run { run, next } => {
            let rl = run.len() as int;
            assert(tree_mem(*next, r.skip(rl)));
            if s.len() == 0 {
                if rl == 0 {
                    match *next {
                        SlotTree::Leaf => {
                            assert(r.skip(0) =~= r);
                            assert(r.len() == 0);
                            assert(false);
                        },
                        SlotTree::Branch { .. } => {
                            assert(!tree_mem(*next, s.skip(0)));
                        },
                        SlotTree::Run { .. } => {
                            assert(false);
                        },
                    }
                }
            } else {
                assert forall|i: int| 0 <= i < rl && i < s.len() implies #[trigger] run[i]
                    == s[i] by {
                    assert(r.take(rl)[i] == run[i]);
                    assert(r.take(s.len() as int)[i] == s[i]);
                }
                if s.len() <= rl {
                    lemma_common_len_is(run, s, s.len() as int);
                    if s.len() == rl {
                        match *next {
                            SlotTree::Leaf => {
                                assert(r.skip(rl).len() == 0);
                                assert(r.len() == rl);
                                assert(false);
                            },
                            SlotTree::Branch { .. } => {
                                assert(!tree_mem(*next, s.skip(rl)));
                            },
                            SlotTree::Run { .. } => {
                                assert(false);
                            },
                        }
                    }
                } else {
                    lemma_common_len_is(run, s, rl);
                    match *next {
                        SlotTree::Leaf => {
                            assert(r.skip(rl).len() == 0);
                            assert(r.len() == rl);
                            assert(false);
                        },
                        SlotTree::Branch { kids } => {
                            assert(r.take(s.len() as int)[rl] == s[rl]);
                            assert(r.skip(rl)[0] == r[rl]);
                            assert(tree_mem(kids[s[rl]], r.skip(rl).skip(1)));
                            assert(r.skip(rl).skip(1) =~= r.skip(rl + 1));
                            assert(strict_prefix_of(s.skip(rl + 1), r.skip(rl + 1))) by {
                                assert forall|i: int|
                                    0 <= i < s.skip(rl + 1).len() implies r.skip(rl + 1).take(
                                    s.skip(rl + 1).len() as int,
                                )[i] == #[trigger] s.skip(rl + 1)[i] by {
                                    assert(r.skip(rl + 1)[i] == r[i + rl + 1]);
                                    assert(r.take(s.len() as int)[i + rl + 1] == s[i + rl + 1]);
                                    assert(s.skip(rl + 1)[i] == s[i + rl + 1]);
                                }
                                assert(r.skip(rl + 1).take(s.skip(rl + 1).len() as int) =~= s.skip(
                                    rl + 1,
                                ));
                            }
                            assert(has_strict_extension(kids[s[rl]], s.skip(rl + 1)));
                            assert(valid_slots(s.skip(rl + 1), asize)) by {
                                assert forall|ii: int|
                                    0 <= ii < s.skip(rl + 1).len() implies 0 <= #[trigger] s.skip(
                                    rl + 1,
                                )[ii] < asize by {
                                    assert(s.skip(rl + 1)[ii] == s[ii + rl + 1]);
                                }
                            }
                            assert(tree_wf(*next, asize));
                            assert(decreases_to!(t => t->Run_next));
                            assert(decreases_to!(*next => (*next)->Branch_kids));
                            assert(decreases_to!(
                                (*next)->Branch_kids => (*next)->Branch_kids[s[rl]]));
                            assert(kids[s[rl]] == (*next)->Branch_kids[s[rl]]);
                            lemma_insert_under_extension(kids[s[rl]], s.skip(rl + 1), asize);
                            assert(kids.update(s[rl], tree_ins(kids[s[rl]], s.skip(rl + 1), asize))
                                =~= kids);
                            let rebuilt = SlotTree::Branch {
                                kids: kids.update(
                                    s[rl],
                                    tree_ins(kids[s[rl]], s.skip(rl + 1), asize),
                                ),
                            };
                            assert(rebuilt == *next);
                            assert(tree_ins(t, s, asize) == t);
                            // s itself dead-ends below the branch
                            assert(s.skip(rl).skip(1) =~= s.skip(rl + 1));
                            assert(!tree_mem(kids[s[rl]], s.skip(rl).skip(1)));
                            assert(!tree_mem(*next, s.skip(rl)));
                        },
                        SlotTree::Run { .. } => {
                            assert(false);
                        },
                    }
                }
            }
        },
    }
}

/// Two diverging sequences — neither a strict prefix of the other — are
/// both reported present once both are inserted into a fresh tree: the
/// shared leading run is stored once and serves both.
pub proof fn lemma_prefix_sharing(s1: Seq<int>, s2: Seq<int>, asize: int)
    requires
        valid_slots(s1, asize),
        valid_slots(s2, asize),
        s1.len() > 0,
        s2.len() > 0,
        !strict_prefix_of(s1, s2),
        !strict_prefix_of(s2, s1),
    ensures
        tree_mem(tree_ins(tree_ins(SlotTree::Leaf, s1, asize), s2, asize), s1),
        tree_mem(tree_ins(tree_ins(SlotTree::Leaf, s1, asize), s2, asize), s2),
{
    let t1 = tree_ins(SlotTree::Leaf, s1, asize);
    lemma_ins_wf(SlotTree::Leaf, s1, asize);
    lemma_insert_into_empty(s1, s1, asize);
    lemma_insert_preserves(t1, s2, s1, asize);
    assert(!has_strict_extension(t1, s2)) by {
        if has_strict_extension(t1, s2) {
            let r = choose|r: Seq<int>| tree_mem(t1, r) && strict_prefix_of(s2, r);
            lemma_insert_into_empty(s1, r, asize);
        }
    }
    assert(asize >= 1) by {
        assert(0 <= s1[0] < asize);
    }
    lemma_insert_then_contains(t1, s2, asize);
}

} // verus!
