//! The continuation cache: for one position, the tree of every move sequence
//! explored so far. Entries live in a stable slot store (a vector of optional
//! entries with slot reuse), are looked up by linear scan over move values,
//! can be taken out individually, and two trees over the same position can be
//! merged without losing any cached subtree.

use crate::board_rep::PossibleMove;
use crate::rawboard::RawBoard;
use std::sync::Arc;
use vstd::prelude::*;
use vstd::string::StringExecFns;

verus! {

broadcast use vstd::std_specs::vec::group_vec_axioms, vstd::seq::group_seq_axioms;

/// Whether a slot holds an entry for the given move.
pub open spec fn slot_has_move(s: Option<(PossibleMove, BoardContinuation)>, m: PossibleMove) -> bool {
    s matches Some(e) && e.0 == m
}

/// A node of the continuation tree: a shared snapshot of the position it
/// stands for, the best score found by search below it (unset for a fresh
/// node), and the slot store of explored (move, subtree) entries.
pub struct BoardContinuation {
    pub board: Arc<RawBoard>,
    /// The overall expected score of this board after considering the
    /// continuations; `None` while no search result has been recorded.
    pub adjusted_score: Option<i32>,
    pub continuation: Vec<Option<(PossibleMove, BoardContinuation)>>,
}

impl Default for BoardContinuation {
    /// A continuation of the standard starting position with nothing
    /// explored yet.
    fn default() -> (r: Self)
        ensures
            r.adjusted_score is None,
            r.slots().len() == 0,
            forall|row: int, col: int|
                0 <= row < 8 && 0 <= col < 8 ==> r.board.piece_at(row, col)
                    == RawBoard::starting_piece(row, col),
    {
        BoardContinuation::new(RawBoard::starting_position())
    }
}

impl BoardContinuation {
    /// The slot store of this node.
    pub open spec fn slots(self) -> Seq<Option<(PossibleMove, BoardContinuation)>> {
        self.continuation@
    }

    /// Whether slot `i` holds exactly the entry `(m, c)`.
    pub open spec fn is_entry(self, i: int, m: PossibleMove, c: BoardContinuation) -> bool {
        0 <= i < self.slots().len() && self.slots()[i] == Some((m, c))
    }

    /// Whether some direct entry carries the given move.
    pub open spec fn has_move(self, m: PossibleMove) -> bool {
        exists|i: int|
            0 <= i < self.slots().len() && #[trigger] slot_has_move(self.slots()[i], m)
    }

    /// Whether no two distinct slots carry the given move.
    pub open spec fn unique_move(self, m: PossibleMove) -> bool {
        forall|i: int, j: int|
            0 <= i < self.slots().len() && 0 <= j < self.slots().len() && #[trigger] slot_has_move(
                self.slots()[i],
                m,
            ) && #[trigger] slot_has_move(self.slots()[j], m) ==> i == j
    }

    /// A freshly created node: the given position, no score, no entries.
    pub open spec fn is_fresh(self, board: RawBoard) -> bool {
        &&& self.board == board
        &&& self.adjusted_score is None
        &&& self.slots().len() == 0
    }

    /// How `post` extends `pre` when the entry `(m, c)` has been put into
    /// slot `i`: either a previously free slot was reused or the store grew
    /// by one, and every other slot is unchanged.
    pub open spec fn inserted_at(
        pre: BoardContinuation,
        post: BoardContinuation,
        i: int,
        m: PossibleMove,
        c: BoardContinuation,
    ) -> bool {
        &&& post.board == pre.board
        &&& post.adjusted_score == pre.adjusted_score
        &&& 0 <= i < post.slots().len()
        &&& post.slots()[i] == Some((m, c))
        &&& forall|j: int|
            0 <= j < pre.slots().len() && j != i ==> post.slots()[j] == pre.slots()[j]
        &&& (i < pre.slots().len() ==> pre.slots()[i] is None && post.slots().len()
            == pre.slots().len())
        &&& (i >= pre.slots().len() ==> i == pre.slots().len() && post.slots().len()
            == pre.slots().len() + 1)
    }

    /// Number of tree nodes hanging below the first `n` slots.
    pub open spec fn count_upto(self, n: int) -> nat
        decreases self, n,
        via Self::count_upto_decreases
    {
        if n <= 0 || n > self.slots().len() {
            0
        } else {
            self.count_upto(n - 1) + (match self.slots()[n - 1] {
                Some(e) => 1 + e.1.count_nodes(),
                None => 0,
            })
        }
    }

    #[via_fn]
    proof fn count_upto_decreases(self, n: int) {
        if 0 < n <= self.slots().len() {
            match self.slots()[n - 1] {
                Some(e) => {
                    assert(decreases_to!(self => self.continuation));
                    assert(decreases_to!(self.continuation => self.continuation@));
                    assert(decreases_to!(self.continuation@ => self.continuation@[n - 1]));
                    assert(decreases_to!(self.continuation@[n - 1] => e.1));
                },
                None => {},
            }
        }
    }

    /// Number of tree nodes reachable below this node: every direct entry
    /// plus, recursively, everything below it.
    pub open spec fn count_nodes(self) -> nat
        decreases self, self.slots().len() + 1,
    {
        self.count_upto(self.slots().len() as int)
    }

    /// Whether the move sequence `path` can be walked downward from this
    /// node; the empty sequence is always present.
    pub open spec fn has_path(self, path: Seq<PossibleMove>) -> bool
        decreases self,
        via Self::has_path_decreases
    {
        path.len() == 0 || suffix_has_path(self.slots(), 0, path)
    }

    #[via_fn]
    proof fn has_path_decreases(self, path: Seq<PossibleMove>) {
        assert(decreases_to!(self => self.continuation));
        assert(decreases_to!(self.continuation => self.continuation@));
    }

    /// Whether every node of this tree holds at most one entry per move.
    pub open spec fn all_moves_distinct(self) -> bool
        decreases self,
        via Self::all_moves_distinct_decreases
    {
        slots_moves_distinct(self.slots()) && slots_children_distinct(self.slots())
    }

    #[via_fn]
    proof fn all_moves_distinct_decreases(self) {
        assert(decreases_to!(self => self.continuation));
        assert(decreases_to!(self.continuation => self.continuation@));
    }

    /// Create an empty continuation for a freshly shared position.
    pub fn new(board: RawBoard) -> (r: BoardContinuation)
        ensures
            r.is_fresh(board),
    {
        BoardContinuation {
            board: Arc::new(board),
            adjusted_score: None,
            continuation: Vec::new(),
        }
    }

    /// Whether a continuation for this exact move has been explored from
    /// this node, by linear scan over the entries.
    pub fn continuation_exists(&self, the_move: &PossibleMove) -> (r: bool)
        ensures
            r == self.has_move(*the_move),
    {
        let n = self.continuation.len();
        let mut i: usize = 0;
        while i < n
            invariant
                n == self.slots().len(),
                i <= n,
                forall|j: int| 0 <= j < i ==> !(#[trigger] slot_has_move(self.slots()[j], *the_move)),
            decreases n - i,
        {
            match &self.continuation[i] {
                Some(e) => {
                    if e.0 == *the_move {
                        proof {
                            assert(slot_has_move(self.slots()[i as int], *the_move));
                        }
                        return true;
                    }
                },
                None => {},
            }
            i += 1;
        }
        proof {
            if self.has_move(*the_move) {
                let i0 = choose|i0: int|
                    0 <= i0 < self.slots().len() && #[trigger] slot_has_move(
                        self.slots()[i0],
                        *the_move,
                    );
                assert(false);
            }
        }
        false
    }

    /// Index of some slot carrying the given move, if one exists.
    fn index_of(&self, the_move: &PossibleMove) -> (r: Option<usize>)
        ensures
            r matches Some(ix) ==> ix < self.slots().len() && slot_has_move(
                self.slots()[ix as int],
                *the_move,
            ),
            r is None ==> !self.has_move(*the_move),
            r is Some ==> self.has_move(*the_move),
    {
        let n = self.continuation.len();
        let mut i: usize = 0;
        while i < n
            invariant
                n == self.slots().len(),
                i <= n,
                forall|j: int| 0 <= j < i ==> !(#[trigger] slot_has_move(self.slots()[j], *the_move)),
            decreases n - i,
        {
            match &self.continuation[i] {
                Some(e) => {
                    if e.0 == *the_move {
                        proof {
                            assert(slot_has_move(self.slots()[i as int], *the_move));
                        }
                        return Some(i);
                    }
                },
                None => {},
            }
            i += 1;
        }
        proof {
            if self.has_move(*the_move) {
                let i0 = choose|i0: int|
                    0 <= i0 < self.slots().len() && #[trigger] slot_has_move(
                        self.slots()[i0],
                        *the_move,
                    );
                assert(false);
            }
        }
        None
    }

    /// Non-removing lookup of the subtree cached for a move.
    pub fn find_continuation(&self, the_move: &PossibleMove) -> (r: Option<&BoardContinuation>)
        ensures
            r is Some <==> self.has_move(*the_move),
            r matches Some(c) ==> exists|i: int| #[trigger] self.is_entry(i, *the_move, *c),
    {
        let n = self.continuation.len();
        let mut i: usize = 0;
        while i < n
            invariant
                n == self.slots().len(),
                i <= n,
                forall|j: int| 0 <= j < i ==> !(#[trigger] slot_has_move(self.slots()[j], *the_move)),
            decreases n - i,
        {
            match &self.continuation[i] {
                Some(e) => {
                    if e.0 == *the_move {
                        proof {
                            assert(slot_has_move(self.slots()[i as int], *the_move));
                            assert(self.is_entry(i as int, *the_move, e.1));
                        }
                        return Some(&e.1);
                    }
                },
                None => {},
            }
            i += 1;
        }
        proof {
            if self.has_move(*the_move) {
                let i0 = choose|i0: int|
                    0 <= i0 < self.slots().len() && #[trigger] slot_has_move(
                        self.slots()[i0],
                        *the_move,
                    );
                assert(false);
            }
        }
        None
    }

    /// Mutable borrow of the child stored in slot `j`, which must be live;
    /// the entry keeps its slot and its move.
    fn entry_child_mut(&mut self, j: usize) -> (c: &mut BoardContinuation)
        requires
            j < old(self).slots().len(),
            old(self).slots()[j as int] is Some,
        ensures
            *c == old(self).slots()[j as int].unwrap().1,
            final(self).board == old(self).board,
            final(self).adjusted_score == old(self).adjusted_score,
            final(self).slots() =~= old(self).slots().update(
                j as int,
                Some((old(self).slots()[j as int].unwrap().0, *final(c))),
            ),
    {
        let slot = &mut self.continuation[j];
        match slot {
            Some(e) => &mut e.1,
            None => unreached(),
        }
    }

    /// Non-removing lookup of the subtree cached for a move, for mutation
    /// in place: the entry keeps its slot and its move, and holds whatever
    /// the caller leaves behind through the returned borrow.
    #[verifier::spinoff_prover]
    #[verifier::rlimit(60)]
    pub fn find_continuation_mut(&mut self, the_move: &PossibleMove) -> (r: Option<
        &mut BoardContinuation,
    >)
        ensures
            r is None ==> *final(self) == *old(self) && !old(self).has_move(*the_move),
            r matches Some(c) ==> ({
                &&& final(self).board == old(self).board
                &&& final(self).adjusted_score == old(self).adjusted_score
                &&& exists|i: int| #[trigger] old(self).is_entry(i, *the_move, *c)
                &&& exists|i: int|
                    0 <= i < old(self).slots().len() && final(self).slots() =~= old(
                        self,
                    ).slots().update(
                        i,
                        Some(((#[trigger] old(self).slots()[i]).unwrap().0, *final(c))),
                    )
            }),
    {
        match self.index_of(the_move) {
            None => None,
            Some(j) => {
                proof {
                    assert(slot_has_move(self.slots()[j as int], *the_move));
                }
                let c = self.entry_child_mut(j);
                proof {
                    assert(old(self).is_entry(j as int, *the_move, *c));
                }
                Some(c)
            },
        }
    }

    /// Scan for the entry with the given move; if found, remove it from the
    /// store and hand its subtree over by ownership transfer. Taking is
    /// destructive: when the move had a single entry, the node no longer
    /// holds a continuation for it afterwards.
    pub fn find_continuation_remove(&mut self, the_move: &PossibleMove) -> (r: Option<
        BoardContinuation,
    >)
        ensures
            final(self).board == old(self).board,
            final(self).adjusted_score == old(self).adjusted_score,
            r is Some <==> old(self).has_move(*the_move),
            r is None ==> *final(self) == *old(self),
            r matches Some(c) ==> exists|i: int| #![auto]
                old(self).is_entry(i, *the_move, c) && final(self).slots() =~= old(
                    self,
                ).slots().update(i, None),
            old(self).unique_move(*the_move) && r is Some ==> !final(self).has_move(*the_move),
    {
        match self.index_of(the_move) {
            None => None,
            Some(ix) => {
                let entry = self.continuation.remove(ix);
                self.continuation.insert(ix, None);
                let (m0, c0) = entry.unwrap();
                proof {
                    let pre = old(self).slots();
                    let post = self.slots();
                    assert(post =~= pre.update(ix as int, None));
                    assert(old(self).is_entry(ix as int, *the_move, c0));
                    if old(self).unique_move(*the_move) && self.has_move(*the_move) {
                        let j = choose|j: int|
                            0 <= j < post.len() && #[trigger] slot_has_move(post[j], *the_move);
                        assert(slot_has_move(pre[j], *the_move));
                        assert(false);
                    }
                }
                Some(c0)
            },
        }
    }

    /// Put an owned entry into a free slot, or grow the store by one.
    fn insert_entry(&mut self, the_move: PossibleMove, child: BoardContinuation)
        ensures
            exists|i: int|
                #[trigger] Self::inserted_at(*old(self), *final(self), i, the_move, child),
    {
        let n = self.continuation.len();
        let mut i: usize = 0;
        while i < n
            invariant
                n == self.slots().len(),
                i <= n,
                *self == *old(self),
            decreases n - i,
        {
            let free = match &self.continuation[i] {
                Some(_) => false,
                None => true,
            };
            if free {
                self.continuation.remove(i);
                self.continuation.insert(i, Some((the_move, child)));
                proof {
                    let ii = i as int;
                    assert(self.slots() =~= old(self).slots().update(
                        ii,
                        Some((the_move, child)),
                    ));
                    assert(Self::inserted_at(*old(self), *self, ii, the_move, child));
                }
                return ;
            }
            i += 1;
        }
        self.continuation.push(Some((the_move, child)));
        proof {
            let ii = old(self).slots().len() as int;
            assert(self.slots() =~= old(self).slots().push(Some((the_move, child))));
            assert(Self::inserted_at(*old(self), *self, ii, the_move, child));
        }
    }

    /// Record a freshly explored move: wrap the resulting position in a new
    /// empty node and add it as an entry. Duplicate moves are not checked;
    /// that is the caller's responsibility.
    pub fn insert_psboard(&mut self, the_move: &PossibleMove, board: RawBoard)
        ensures
            exists|i: int, c: BoardContinuation|
                c.is_fresh(board) && #[trigger] Self::inserted_at(
                    *old(self),
                    *final(self),
                    i,
                    *the_move,
                    c,
                ),
    {
        let node = Self::new(board);
        self.insert_entry(*the_move, node);
    }

    /// Step the game forward while keeping prior search work: if a
    /// continuation for the move was cached, detach and return it (the move
    /// is consumed from this node's cache); otherwise wrap the fallback
    /// position, computed by the caller, in a brand-new empty subtree.
    pub fn make_cached_move(self, the_move: &PossibleMove, fallback: RawBoard) -> (r:
        BoardContinuation)
        ensures
            self.has_move(*the_move) ==> exists|i: int| #[trigger] self.is_entry(i, *the_move, r),
            !self.has_move(*the_move) ==> r.is_fresh(fallback),
    {
        let mut this = self;
        if let Some(cont) = this.find_continuation_remove(the_move) {
            cont
        } else {
            BoardContinuation::new(fallback)
        }
    }

    /// Combine another tree grown for the same position into this one: every
    /// entry of `to_merge` is drained; a move this tree has not explored is
    /// adopted wholesale, and one it has is merged recursively, so no cached
    /// work is lost and no duplicate entry is created for a move this tree
    /// already knew. Afterwards exactly the move sequences of the two inputs
    /// can be walked from this node.
    #[verifier::loop_isolation(false)]
    pub fn merge(&mut self, to_merge: BoardContinuation)
        ensures
            final(self).board == old(self).board,
            final(self).adjusted_score == old(self).adjusted_score,
            forall|p: Seq<PossibleMove>| #[trigger]
                final(self).has_path(p) == (old(self).has_path(p) || to_merge.has_path(p)),
            final(self).count_nodes() >= old(self).count_nodes(),
            to_merge.all_moves_distinct() ==> final(self).count_nodes()
                >= to_merge.count_nodes(),
        decreases to_merge,
    {
        let ghost orig = to_merge;
        let ghost mut js: Seq<int> = Seq::empty();
        let BoardContinuation { board: _, adjusted_score: _, continuation: mut tm } = to_merge;
        proof {
            assert(tm@ =~= orig.continuation@.take(tm@.len() as int));
        }
        while tm.len() > 0
            invariant
                tm@.len() <= orig.continuation@.len(),
                tm@ == orig.continuation@.take(tm@.len() as int),
                self.board == old(self).board,
                self.adjusted_score == old(self).adjusted_score,
                self.count_nodes() >= old(self).count_nodes(),
                js.len() == orig.continuation@.len() - tm@.len(),
                orig.all_moves_distinct() ==> forall|a: int|
                    0 <= a < js.len() ==> #[trigger] js_entry_ok(
                        *self,
                        orig,
                        tm@.len() as int + a,
                        js[a],
                    ),
                forall|p: Seq<PossibleMove>|
                    p.len() > 0 ==> (#[trigger] suffix_has_path(self.slots(), 0, p) == (
                    suffix_has_path(old(self).slots(), 0, p) || suffix_has_path(
                        orig.continuation@,
                        tm@.len() as int,
                        p,
                    ))),
            decreases tm.len(),
        {
            let ghost pre_loop_self = *self;
            let ghost js_prev = js;
            let ghost ll = tm@.len() as int - 1;
            let slot = tm.pop().unwrap();
            proof {
                assert(tm@ =~= orig.continuation@.take(ll));
                assert(slot == orig.continuation@[ll]);
            }
            match slot {
                Some(entry_pair) => {
                    let (m, sub) = entry_pair;
                    let ghost sub0 = sub;
                    proof {
                        assert(decreases_to!(orig => orig.continuation));
                        assert(decreases_to!(orig.continuation => orig.continuation@));
                        assert(decreases_to!(orig.continuation@ => orig.continuation@[ll]));
                        assert(decreases_to!(orig.continuation@[ll] => sub0));
                        assert(decreases_to!(orig => sub0));
                    }
                    match self.index_of(&m) {
                        Some(j) => {
                            let ghost pre = *self;
                            let entry = self.continuation.remove(j);
                            let (m0, mut c) = entry.unwrap();
                            let ghost c_pre = c;
                            c.merge(sub);
                            self.continuation.insert(j, Some((m0, c)));
                            proof {
                                assert(self.slots() =~= pre.slots().update(
                                    j as int,
                                    Some((m0, c)),
                                ));
                                assert(m0 == m);
                                assert(pre.slots()[j as int] == Some((m, c_pre)));
                                lemma_count_upto_update(
                                    pre,
                                    *self,
                                    j as int,
                                    pre.slots().len() as int,
                                );
                                assert(self.count_nodes() + slot_weight(pre.slots()[j as int])
                                    == pre.count_nodes() + slot_weight(self.slots()[j as int]));
                                assert(self.count_nodes() >= pre.count_nodes());
                                js = seq![j as int].add(js);
                                if orig.all_moves_distinct() {
                                    assert(orig.continuation@[ll] matches Some(e) && e.1 == sub0);
                                    assert(sub0.all_moves_distinct());
                                    assert(c.count_nodes() >= sub0.count_nodes());
                                    assert(js_entry_ok(*self, orig, ll, j as int));
                                    assert forall|a: int| 0 <= a < js.len() implies #[trigger]
                                    js_entry_ok(*self, orig, ll + a, js[a]) by {
                                        if a > 0 {
                                            let t = ll + a;
                                            assert(js[a] == js_prev[a - 1]);
                                            assert(js_entry_ok(
                                                pre,
                                                orig,
                                                ll + 1 + (a - 1),
                                                js_prev[a - 1],
                                            ));
                                            match orig.continuation@[t] {
                                                Some(se) => {
                                                    assert(se.0 != m);
                                                    assert(js_prev[a - 1] != j as int);
                                                    assert(self.slots()[js_prev[a - 1]]
                                                        == pre.slots()[js_prev[a - 1]]);
                                                },
                                                None => {},
                                            }
                                        }
                                    }
                                }
                                assert forall|p: Seq<PossibleMove>| p.len() > 0 implies #[trigger]
                                suffix_has_path(self.slots(), 0, p) == (suffix_has_path(
                                    pre_loop_self.slots(),
                                    0,
                                    p,
                                ) || (p[0] == m && sub0.has_path(p.drop_first()))) by {
                                    lemma_paths_after_child_update(
                                        pre.slots(),
                                        j as int,
                                        m,
                                        c_pre,
                                        c,
                                        sub0,
                                        p,
                                    );
                                }
                            }
                        },
                        None => {
                            self.insert_entry(m, sub);
                            proof {
                                let i0 = choose|i0: int|
                                    #[trigger] Self::inserted_at(
                                        pre_loop_self,
                                        *self,
                                        i0,
                                        m,
                                        sub0,
                                    );
                                if i0 < pre_loop_self.slots().len() {
                                    lemma_count_upto_update(
                                        pre_loop_self,
                                        *self,
                                        i0,
                                        pre_loop_self.slots().len() as int,
                                    );
                                } else {
                                    lemma_count_push(pre_loop_self, *self);
                                }
                                assert(self.count_nodes() >= pre_loop_self.count_nodes());
                                js = seq![i0].add(js);
                                if orig.all_moves_distinct() {
                                    assert(js_entry_ok(*self, orig, ll, i0));
                                    assert forall|a: int| 0 <= a < js.len() implies #[trigger]
                                    js_entry_ok(*self, orig, ll + a, js[a]) by {
                                        if a > 0 {
                                            let t = ll + a;
                                            assert(js[a] == js_prev[a - 1]);
                                            assert(js_entry_ok(
                                                pre_loop_self,
                                                orig,
                                                ll + 1 + (a - 1),
                                                js_prev[a - 1],
                                            ));
                                            match orig.continuation@[t] {
                                                Some(se) => {
                                                    assert(js_prev[a - 1] != i0);
                                                    assert(self.slots()[js_prev[a - 1]]
                                                        == pre_loop_self.slots()[js_prev[a - 1]]);
                                                },
                                                None => {},
                                            }
                                        }
                                    }
                                }
                                assert forall|p: Seq<PossibleMove>| p.len() > 0 implies #[trigger]
                                suffix_has_path(self.slots(), 0, p) == (suffix_has_path(
                                    pre_loop_self.slots(),
                                    0,
                                    p,
                                ) || (p[0] == m && sub0.has_path(p.drop_first()))) by {
                                    lemma_paths_after_insert(
                                        pre_loop_self,
                                        *self,
                                        i0,
                                        m,
                                        sub0,
                                        p,
                                    );
                                }
                            }
                        },
                    }
                    proof {
                        assert forall|p: Seq<PossibleMove>| p.len() > 0 implies #[trigger]
                        suffix_has_path(self.slots(), 0, p) == (suffix_has_path(
                            old(self).slots(),
                            0,
                            p,
                        ) || suffix_has_path(orig.continuation@, ll, p)) by {
                            lemma_suffix_path_step(orig.continuation@, ll, p);
                        }
                    }
                },
                None => {
                    proof {
                        js = seq![(-1) as int].add(js);
                        if orig.all_moves_distinct() {
                            assert forall|a: int| 0 <= a < js.len() implies #[trigger] js_entry_ok(
                                *self,
                                orig,
                                ll + a,
                                js[a],
                            ) by {
                                if a > 0 {
                                    assert(js[a] == js_prev[a - 1]);
                                    assert(js_entry_ok(*self, orig, ll + 1 + (a - 1), js_prev[a - 1]));
                                }
                            }
                        }
                        assert forall|p: Seq<PossibleMove>| p.len() > 0 implies #[trigger]
                        suffix_has_path(self.slots(), 0, p) == (suffix_has_path(
                            old(self).slots(),
                            0,
                            p,
                        ) || suffix_has_path(orig.continuation@, ll, p)) by {
                            lemma_suffix_path_step(orig.continuation@, ll, p);
                        }
                    }
                },
            }
        }
        proof {
            assert(tm@.len() == 0);
            assert forall|p: Seq<PossibleMove>| #[trigger]
            self.has_path(p) == (old(self).has_path(p) || orig.has_path(p)) by {
                if p.len() > 0 {
                    assert(suffix_has_path(self.slots(), 0, p) == (suffix_has_path(
                        old(self).slots(),
                        0,
                        p,
                    ) || suffix_has_path(orig.continuation@, 0, p)));
                }
            }
            if orig.all_moves_distinct() {
                let n = orig.continuation@.len() as int;
                assert(js.len() == n);
                assert forall|a: int| 0 <= a < js.len() implies #[trigger] js_entry_ok(
                    *self,
                    orig,
                    a,
                    js[a],
                ) by {
                    assert(js_entry_ok(*self, orig, 0 + a, js[a]));
                }
                lemma_js_sum_covers(*self, orig, js, n);
                assert(js.take(n) =~= js);
                assert forall|a: int, b: int|
                    0 <= a < js.len() && 0 <= b < js.len() && a != b && js[a] >= 0 implies js[a]
                    != js[b] by {
                    assert(js_entry_ok(*self, orig, a, js[a]));
                    assert(js_entry_ok(*self, orig, b, js[b]));
                    if js[b] >= 0 && js[a] == js[b] {
                        assert(false);
                    }
                }
                assert forall|a: int| 0 <= a < js.len() implies js[a]
                    < self.slots().len() as int by {
                    assert(js_entry_ok(*self, orig, a, js[a]));
                }
                lemma_js_sum_le_count(*self, js, self.slots().len() as int);
                assert(orig.count_nodes() == orig.count_upto(n));
                assert(self.count_nodes() >= orig.count_nodes());
            }
        }
    }

    /// The live entries of this node, in slot order.
    pub open spec fn entries(self) -> Seq<(PossibleMove, BoardContinuation)> {
        live_entries(self.slots())
    }

    /// The moves of the live entries, in slot order.
    pub fn keys(&self) -> (r: Vec<PossibleMove>)
        ensures
            r@.len() == self.entries().len(),
            forall|k: int| 0 <= k < r@.len() ==> r@[k] == self.entries()[k].0,
    {
        let n = self.continuation.len();
        let mut r: Vec<PossibleMove> = Vec::new();
        let mut i: usize = 0;
        while i < n
            invariant
                n == self.slots().len(),
                i <= n,
                r@.len() == live_entries(self.slots().take(i as int)).len(),
                forall|k: int|
                    0 <= k < r@.len() ==> r@[k] == live_entries(self.slots().take(i as int))[k].0,
            decreases n - i,
        {
            proof {
                lemma_live_entries_take_step(self.slots(), i as int);
            }
            match &self.continuation[i] {
                Some(e) => {
                    r.push(e.0);
                },
                None => {},
            }
            i += 1;
        }
        proof {
            assert(self.slots().take(n as int) =~= self.slots());
        }
        r
    }

    /// The cached subtrees of the live entries, in slot order.
    pub fn values(&self) -> (r: Vec<&BoardContinuation>)
        ensures
            r@.len() == self.entries().len(),
            forall|k: int| 0 <= k < r@.len() ==> *r@[k] == self.entries()[k].1,
    {
        let n = self.continuation.len();
        let mut r: Vec<&BoardContinuation> = Vec::new();
        let mut i: usize = 0;
        while i < n
            invariant
                n == self.slots().len(),
                i <= n,
                r@.len() == live_entries(self.slots().take(i as int)).len(),
                forall|k: int|
                    0 <= k < r@.len() ==> *r@[k] == live_entries(self.slots().take(i as int))[k].1,
            decreases n - i,
        {
            proof {
                lemma_live_entries_take_step(self.slots(), i as int);
            }
            match &self.continuation[i] {
                Some(e) => {
                    r.push(&e.1);
                },
                None => {},
            }
            i += 1;
        }
        proof {
            assert(self.slots().take(n as int) =~= self.slots());
        }
        r
    }

    /// The live (move, subtree) entries of this node, in slot order.
    pub fn iter(&self) -> (r: Vec<&(PossibleMove, BoardContinuation)>)
        ensures
            r@.len() == self.entries().len(),
            forall|k: int| 0 <= k < r@.len() ==> *r@[k] == self.entries()[k],
    {
        let n = self.continuation.len();
        let mut r: Vec<&(PossibleMove, BoardContinuation)> = Vec::new();
        let mut i: usize = 0;
        while i < n
            invariant
                n == self.slots().len(),
                i <= n,
                r@.len() == live_entries(self.slots().take(i as int)).len(),
                forall|k: int|
                    0 <= k < r@.len() ==> *r@[k] == live_entries(self.slots().take(i as int))[k],
            decreases n - i,
        {
            proof {
                lemma_live_entries_take_step(self.slots(), i as int);
            }
            match &self.continuation[i] {
                Some(e) => {
                    r.push(e);
                },
                None => {},
            }
            i += 1;
        }
        proof {
            assert(self.slots().take(n as int) =~= self.slots());
        }
        r
    }

    /// Whether `c` is the subtree of some direct entry of this node.
    pub open spec fn is_child(self, c: BoardContinuation) -> bool {
        exists|i: int, m: PossibleMove| #![auto] self.is_entry(i, m, c)
    }

    /// Among the direct children, those whose score differs from the
    /// reference node's score by less than half a tenth of a pawn: several
    /// moves counting as effectively tied. When the score function is
    /// single-valued and the reference node is itself a child, the tied set
    /// is never empty.
    #[verifier::loop_isolation(false)]
    pub fn similar_quality_moves<'a, F: Fn(&BoardContinuation) -> i32>(
        &'a self,
        best_board: &'a BoardContinuation,
        score_query: F,
    ) -> (r: Vec<&'a BoardContinuation>)
        requires
            forall|c: &BoardContinuation| #[trigger] score_query.requires((c,)),
        ensures
            forall|k: int| #![trigger r@[k]]
                0 <= k < r@.len() ==> self.is_child(*r@[k]) && tied_with(
                    score_query,
                    best_board,
                    r@[k],
                ),
            single_valued(score_query) && self.is_child(*best_board) ==> r@.len() > 0,
    {
        let bb_score = score_query(best_board);
        let n = self.continuation.len();
        let mut r: Vec<&'a BoardContinuation> = Vec::new();
        let mut i: usize = 0;
        while i < n
            invariant
                i <= n,
                forall|k: int| #![trigger r@[k]]
                    0 <= k < r@.len() ==> self.is_child(*r@[k]) && tied_with(
                        score_query,
                        best_board,
                        r@[k],
                    ),
                single_valued(score_query) ==> forall|ii: int|
                    (0 <= ii < i && ((#[trigger] self.slots()[ii]) matches Some(e) && e.1
                        == *best_board)) ==> r@.len() > 0,
            decreases n - i,
        {
            match &self.continuation[i] {
                Some(e) => {
                    let other_score = score_query(&e.1);
                    let d: i64 = other_score as i64 - bb_score as i64;
                    if -5 < d && d < 5 {
                        proof {
                            assert(self.is_entry(i as int, e.0, e.1));
                            assert(self.is_child(e.1));
                            assert(score_query.ensures((best_board,), bb_score)
                                && score_query.ensures((&e.1,), other_score) && -5 < other_score
                                - bb_score < 5);
                            assert(tied_with(score_query, best_board, &e.1));
                        }
                        r.push(&e.1);
                    } else {
                        proof {
                            if single_valued(score_query) && e.1 == *best_board {
                                assert(score_query.ensures((&e.1,), other_score));
                                assert(score_query.ensures((best_board,), bb_score));
                                assert(other_score == bb_score);
                                assert(false);
                            }
                        }
                    }
                },
                None => {},
            }
            i += 1;
        }
        proof {
            if single_valued(score_query) && self.is_child(*best_board) {
                let (ii, m) = choose|ii: int, m: PossibleMove| #![auto]
                    self.is_entry(ii, m, *best_board);
                assert(self.slots()[ii] matches Some(e) && e.1 == *best_board);
            }
        }
        r
    }

    /// Uniformly pick one node among the children whose score is effectively
    /// tied with the reference node's, to avoid a deterministic, exploitable
    /// move choice. The reference node must itself be one of the children,
    /// so that the tied set cannot be empty.
    pub fn select_similar_board<'a, F: Fn(&BoardContinuation) -> i32>(
        &'a self,
        best_board: &'a BoardContinuation,
        score_query: F,
    ) -> (r: &'a BoardContinuation)
        requires
            forall|c: &BoardContinuation| #[trigger] score_query.requires((c,)),
            single_valued(score_query),
            self.is_child(*best_board),
        ensures
            self.is_child(*r),
            tied_with(score_query, best_board, r),
    {
        let choices = self.similar_quality_moves(best_board, score_query);
        let idx = random_below(choices.len());
        let chosen = choices[idx];
        proof {
            assert(chosen == choices@[idx as int]);
        }
        chosen
    }

    /// Human-readable, indentation-depth-encoded dump of every explored
    /// line below this node; diagnostics only, with no stable format.
    pub fn visualise_explored_moves(&self) -> String {
        self.prefixed_visualise_explored_moves("")
    }

    /// Like `visualise_explored_moves`, with each line starting with the
    /// given prefix.
    pub fn prefixed_visualise_explored_moves(&self, prefix: &str) -> String {
        self.internal_visualise(prefix, 0)
    }

    #[verifier::loop_isolation(false)]
    fn internal_visualise(&self, prefix: &str, depth: usize) -> String
        decreases *self,
    {
        let next_depth = depth.saturating_add(1);
        let mut out = String::new();
        let n = self.continuation.len();
        let mut i: usize = 0;
        while i < n
            invariant
                i <= n,
            decreases n - i,
        {
            match &self.continuation[i] {
                Some(e) => {
                    out.append(prefix);
                    let mut k: usize = 0;
                    while k < depth
                        invariant
                            k <= depth,
                        decreases depth - k,
                    {
                        out.append(" ");
                        k += 1;
                    }
                    let move_text = e.0.uci();
                    out.append(move_text.as_str());
                    out.append("\n");
                    proof {
                        assert(decreases_to!(*self => self.continuation));
                        assert(decreases_to!(self.continuation => self.continuation@));
                        assert(decreases_to!(self.continuation@ => self.continuation@[i as int]));
                        assert(decreases_to!(self.continuation@[i as int] => e.1));
                    }
                    let below = e.1.internal_visualise(prefix, next_depth);
                    out.append(below.as_str());
                },
                None => {},
            }
            i += 1;
        }
        out
    }

    /// `n` capped at the largest `u32` value.
    pub open spec fn capped(n: nat) -> nat {
        if n > u32::MAX {
            u32::MAX as nat
        } else {
            n
        }
    }

    /// How many nodes this tree caches below its root: every direct entry
    /// plus, recursively, everything below it, saturating at `u32::MAX`.
    pub fn total_continuation_boards(&self) -> (r: u32)
        ensures
            r as nat == Self::capped(self.count_nodes()),
        decreases *self,
    {
        let n = self.continuation.len();
        let mut total: u32 = 0;
        let mut i: usize = 0;
        while i < n
            invariant
                n == self.slots().len(),
                i <= n,
                total as nat == Self::capped(self.count_upto(i as int)),
            decreases n - i,
        {
            match &self.continuation[i] {
                Some(e) => {
                    proof {
                        assert(decreases_to!(*self => self.continuation));
                        assert(decreases_to!(self.continuation => self.continuation@));
                        assert(decreases_to!(self.continuation@ => self.continuation@[i as int]));
                        assert(decreases_to!(self.continuation@[i as int] => e.1));
                    }
                    let below = e.1.total_continuation_boards();
                    total = total.saturating_add(1).saturating_add(below);
                },
                None => {},
            }
            i += 1;
        }
        total
    }
}

/// Whether the path can be walked starting from an entry stored at index
/// `lo` or later in the given slot store.
pub open spec fn suffix_has_path(
    s: Seq<Option<(PossibleMove, BoardContinuation)>>,
    lo: int,
    path: Seq<PossibleMove>,
) -> bool
    decreases s,
    via suffix_has_path_decreases
{
    path.len() > 0 && exists|i: int|
        0 <= i < s.len() && lo <= i && ((#[trigger] s[i]) matches Some(e) && e.0 == path[0]
            && e.1.has_path(path.drop_first()))
}

#[via_fn]
proof fn suffix_has_path_decreases(
    s: Seq<Option<(PossibleMove, BoardContinuation)>>,
    lo: int,
    path: Seq<PossibleMove>,
) {
    assert forall|i: int| 0 <= i < s.len() implies (match #[trigger] s[i] {
        Some(e) => decreases_to!(s => e.1),
        None => true,
    }) by {
        assert(decreases_to!(s => s[i]));
        match s[i] {
            Some(e) => {
                assert(decreases_to!(s[i] => e.1));
            },
            None => {},
        }
    }
}

/// The live entries of the first `i + 1` slots are those of the first `i`
/// slots, followed by slot `i`'s entry if it is live.
proof fn lemma_live_entries_take_step(s: Seq<Option<(PossibleMove, BoardContinuation)>>, i: int)
    requires
        0 <= i < s.len(),
    ensures
        live_entries(s.take(i + 1)) =~= live_entries(s.take(i)) + (match s[i] {
            Some(e) => seq![e],
            None => Seq::empty(),
        }),
{
    assert(s.take(i + 1).drop_last() =~= s.take(i));
    assert(s.take(i + 1).last() == s[i]);
}

/// The live entries of a slot store, in slot order.
pub open spec fn live_entries(s: Seq<Option<(PossibleMove, BoardContinuation)>>) -> Seq<
    (PossibleMove, BoardContinuation),
>
    decreases s.len(),
{
    if s.len() == 0 {
        Seq::empty()
    } else {
        live_entries(s.drop_last()) + (match s.last() {
            Some(e) => seq![e],
            None => Seq::empty(),
        })
    }
}

/// Walking a path from an entry at index `lo` or later either starts at
/// slot `lo` itself or at a later slot.
proof fn lemma_suffix_path_step(
    s: Seq<Option<(PossibleMove, BoardContinuation)>>,
    lo: int,
    p: Seq<PossibleMove>,
)
    requires
        0 <= lo < s.len(),
    ensures
        suffix_has_path(s, lo, p) == (suffix_has_path(s, lo + 1, p) || (p.len() > 0 && (match s[lo] {
            Some(e) => e.0 == p[0] && e.1.has_path(p.drop_first()),
            None => false,
        }))),
{
    if suffix_has_path(s, lo, p) {
        let i = choose|i: int|
            0 <= i < s.len() && lo <= i && ((#[trigger] s[i]) matches Some(e) && e.0 == p[0]
                && e.1.has_path(p.drop_first()));
        if i >= lo + 1 {
            assert(suffix_has_path(s, lo + 1, p));
        }
    }
    if suffix_has_path(s, lo + 1, p) {
        let i = choose|i: int|
            0 <= i < s.len() && lo + 1 <= i && ((#[trigger] s[i]) matches Some(e) && e.0 == p[0]
                && e.1.has_path(p.drop_first()));
        assert(suffix_has_path(s, lo, p));
    }
}

/// After a fresh entry `(m, c)` is put into a free or new slot, the paths
/// that can be walked are the old ones plus those that start with `m` and
/// continue inside `c`.
proof fn lemma_paths_after_insert(
    pre: BoardContinuation,
    post: BoardContinuation,
    i: int,
    m: PossibleMove,
    c: BoardContinuation,
    p: Seq<PossibleMove>,
)
    requires
        BoardContinuation::inserted_at(pre, post, i, m, c),
        p.len() > 0,
    ensures
        suffix_has_path(post.slots(), 0, p) == (suffix_has_path(pre.slots(), 0, p) || (p[0] == m
            && c.has_path(p.drop_first()))),
{
    let s1 = pre.slots();
    let s2 = post.slots();
    if suffix_has_path(s2, 0, p) {
        let k = choose|k: int|
            0 <= k < s2.len() && 0 <= k && ((#[trigger] s2[k]) matches Some(e) && e.0 == p[0]
                && e.1.has_path(p.drop_first()));
        if k != i {
            assert(k < s1.len());
            assert(s2[k] == s1[k]);
            assert(suffix_has_path(s1, 0, p));
        }
    }
    if suffix_has_path(s1, 0, p) {
        let k = choose|k: int|
            0 <= k < s1.len() && 0 <= k && ((#[trigger] s1[k]) matches Some(e) && e.0 == p[0]
                && e.1.has_path(p.drop_first()));
        assert(k != i);
        assert(s2[k] == s1[k]);
        assert(suffix_has_path(s2, 0, p));
    }
    if p[0] == m && c.has_path(p.drop_first()) {
        assert(s2[i] matches Some(e) && e.0 == p[0] && e.1.has_path(p.drop_first()));
        assert(suffix_has_path(s2, 0, p));
    }
}

/// After the subtree under an existing entry for `m` is replaced by one
/// whose paths are the union of the old subtree's and `sub`'s, the paths of
/// the store are the old ones plus those that start with `m` and continue
/// inside `sub`.
proof fn lemma_paths_after_child_update(
    s: Seq<Option<(PossibleMove, BoardContinuation)>>,
    j: int,
    m: PossibleMove,
    c: BoardContinuation,
    c2: BoardContinuation,
    sub: BoardContinuation,
    p: Seq<PossibleMove>,
)
    requires
        0 <= j < s.len(),
        s[j] == Some((m, c)),
        forall|q: Seq<PossibleMove>| #[trigger] c2.has_path(q) == (c.has_path(q) || sub.has_path(q)),
        p.len() > 0,
    ensures
        suffix_has_path(s.update(j, Some((m, c2))), 0, p) == (suffix_has_path(s, 0, p) || (p[0] == m
            && sub.has_path(p.drop_first()))),
{
    let s2 = s.update(j, Some((m, c2)));
    let dp = p.drop_first();
    if suffix_has_path(s2, 0, p) {
        let k = choose|k: int|
            0 <= k < s2.len() && 0 <= k && ((#[trigger] s2[k]) matches Some(e) && e.0 == p[0]
                && e.1.has_path(dp));
        if k == j {
            assert(c2.has_path(dp));
            if c.has_path(dp) {
                assert(suffix_has_path(s, 0, p));
            }
        } else {
            assert(s2[k] == s[k]);
            assert(suffix_has_path(s, 0, p));
        }
    }
    if suffix_has_path(s, 0, p) {
        let k = choose|k: int|
            0 <= k < s.len() && 0 <= k && ((#[trigger] s[k]) matches Some(e) && e.0 == p[0]
                && e.1.has_path(dp));
        if k == j {
            assert(c.has_path(dp));
            assert(c2.has_path(dp));
            assert(s2[j] matches Some(e) && e.0 == p[0] && e.1.has_path(dp));
            assert(suffix_has_path(s2, 0, p));
        } else {
            assert(s2[k] == s[k]);
            assert(suffix_has_path(s2, 0, p));
        }
    }
    if p[0] == m && sub.has_path(dp) {
        assert(c2.has_path(dp));
        assert(s2[j] matches Some(e) && e.0 == p[0] && e.1.has_path(dp));
        assert(suffix_has_path(s2, 0, p));
    }
}

/// Whether the score function can rate `c` within less than half a tenth
/// of a pawn of `best`'s rating.
pub open spec fn tied_with<F: Fn(&BoardContinuation) -> i32>(
    f: F,
    best: &BoardContinuation,
    c: &BoardContinuation,
) -> bool {
    exists|rb: i32, rc: i32| #![auto]
        f.ensures((best,), rb) && f.ensures((c,), rc) && -5 < rc - rb < 5
}

/// Whether a score function relates each node to at most one score: the
/// same node can never be given two different values.
pub open spec fn single_valued<F: Fn(&BoardContinuation) -> i32>(f: F) -> bool {
    forall|x: &BoardContinuation, r1: i32, r2: i32|
        #[trigger] f.ensures((x,), r1) && #[trigger] f.ensures((x,), r2) ==> r1 == r2
}

/// Relies on rand::random_range: a uniform sample from a non-empty
/// zero-based range lies below its upper bound.
#[verifier::external_body]
fn random_below(n: usize) -> (r: usize)
    requires
        n > 0,
    ensures
        r < n,
{
    rand::random_range(0..n)
}

/// Number of tree nodes a single slot contributes: nothing for a free
/// slot, the child node itself plus everything below it otherwise.
pub open spec fn slot_weight(s: Option<(PossibleMove, BoardContinuation)>) -> nat {
    match s {
        Some(e) => 1 + e.1.count_nodes(),
        None => 0,
    }
}

/// Two nodes whose slot stores agree on the first `n` slots cache the same
/// number of nodes below those slots.
proof fn lemma_count_upto_same(x: BoardContinuation, y: BoardContinuation, n: int)
    requires
        forall|j: int| 0 <= j < n ==> x.slots()[j] == y.slots()[j],
        n <= x.slots().len(),
        n <= y.slots().len(),
    ensures
        x.count_upto(n) == y.count_upto(n),
    decreases n,
{
    if n > 0 {
        lemma_count_upto_same(x, y, n - 1);
    }
}

/// Replacing slot `j` changes the count below the first `n` slots by the
/// difference of the old and new slot weights.
proof fn lemma_count_upto_update(x: BoardContinuation, y: BoardContinuation, j: int, n: int)
    requires
        0 <= j < x.slots().len(),
        y.slots().len() == x.slots().len(),
        forall|k: int| 0 <= k < x.slots().len() && k != j ==> y.slots()[k] == x.slots()[k],
        n <= x.slots().len(),
    ensures
        n <= j ==> y.count_upto(n) == x.count_upto(n),
        j < n ==> y.count_upto(n) + slot_weight(x.slots()[j]) == x.count_upto(n) + slot_weight(
            y.slots()[j],
        ),
    decreases n,
{
    if n > 0 {
        lemma_count_upto_update(x, y, j, n - 1);
    }
}

/// Growing the store by one slot adds exactly that slot's weight.
proof fn lemma_count_push(x: BoardContinuation, y: BoardContinuation)
    requires
        y.slots().len() == x.slots().len() + 1,
        forall|k: int| 0 <= k < x.slots().len() ==> y.slots()[k] == x.slots()[k],
    ensures
        y.count_nodes() == x.count_nodes() + slot_weight(y.slots()[x.slots().len() as int]),
{
    lemma_count_upto_same(x, y, x.slots().len() as int);
}

/// Merging preserves work in either direction: when one tree absorbs a
/// second and, separately, the second absorbs the first, the two results
/// cache exactly the same move sequences, whichever instance remains live.
pub proof fn lemma_merge_direction_irrelevant(
    a: BoardContinuation,
    b: BoardContinuation,
    a_into_b: BoardContinuation,
    b_into_a: BoardContinuation,
)
    requires
        forall|p: Seq<PossibleMove>| #[trigger]
            b_into_a.has_path(p) == (a.has_path(p) || b.has_path(p)),
        forall|p: Seq<PossibleMove>| #[trigger]
            a_into_b.has_path(p) == (b.has_path(p) || a.has_path(p)),
    ensures
        forall|p: Seq<PossibleMove>| #[trigger] b_into_a.has_path(p) == a_into_b.has_path(p),
{
}

/// A one-move sequence can be walked from a node exactly when the node has
/// a direct entry for that move; with the union that `merge` guarantees over
/// walkable sequences, a merged tree therefore has an entry for every move
/// either input had.
pub proof fn lemma_single_move_path(c: BoardContinuation, m: PossibleMove)
    ensures
        c.has_path(seq![m]) == c.has_move(m),
{
    let p = seq![m];
    assert(p.len() == 1 && p[0] == m);
    if suffix_has_path(c.slots(), 0, p) {
        let i = choose|i: int|
            0 <= i < c.slots().len() && 0 <= i && ((#[trigger] c.slots()[i]) matches Some(e) && e.0
                == p[0] && e.1.has_path(p.drop_first()));
        assert(slot_has_move(c.slots()[i], m));
        assert(c.has_move(m));
    }
    if c.has_move(m) {
        let i = choose|i: int|
            0 <= i < c.slots().len() && #[trigger] slot_has_move(c.slots()[i], m);
        assert(c.slots()[i] matches Some(e) && e.0 == p[0] && e.1.has_path(p.drop_first()));
        assert(suffix_has_path(c.slots(), 0, p));
    }
}

/// Whether no two live slots of a store carry the same move.
pub open spec fn slots_moves_distinct(s: Seq<Option<(PossibleMove, BoardContinuation)>>) -> bool {
    forall|i: int, j: int| #![trigger s[i], s[j]]
        0 <= i < s.len() && 0 <= j < s.len() && i != j ==> (s[i] matches Some(e1) ==> (s[j]
            matches Some(e2) ==> e1.0 != e2.0))
}

/// Whether every subtree hanging off a store keeps its moves distinct at
/// every node.
pub open spec fn slots_children_distinct(s: Seq<Option<(PossibleMove, BoardContinuation)>>) -> bool
    decreases s,
    via slots_children_distinct_decreases
{
    forall|i: int|
        0 <= i < s.len() ==> (match #[trigger] s[i] {
            Some(e) => e.1.all_moves_distinct(),
            None => true,
        })
}

#[via_fn]
proof fn slots_children_distinct_decreases(s: Seq<Option<(PossibleMove, BoardContinuation)>>) {
    assert forall|i: int| 0 <= i < s.len() implies (match #[trigger] s[i] {
        Some(e) => decreases_to!(s => e.1),
        None => true,
    }) by {
        assert(decreases_to!(s => s[i]));
        match s[i] {
            Some(e) => {
                assert(decreases_to!(s[i] => e.1));
            },
            None => {},
        }
    }
}

/// Sum of the slot weights that the indices of `js` pick out of `s`; an
/// index outside the store contributes nothing.
pub open spec fn js_weight_sum(
    s: Seq<Option<(PossibleMove, BoardContinuation)>>,
    js: Seq<int>,
) -> nat
    decreases js.len(),
{
    if js.len() == 0 {
        0
    } else {
        js_weight_sum(s, js.drop_last()) + (if 0 <= js.last() < s.len() {
            slot_weight(s[js.last()])
        } else {
            0
        })
    }
}

/// Dropping one index from the picked set drops exactly its contribution.
proof fn lemma_js_sum_remove(
    s: Seq<Option<(PossibleMove, BoardContinuation)>>,
    js: Seq<int>,
    a: int,
)
    requires
        0 <= a < js.len(),
    ensures
        js_weight_sum(s, js) == js_weight_sum(s, js.remove(a)) + (if 0 <= js[a] < s.len() {
            slot_weight(s[js[a]])
        } else {
            0
        }),
    decreases js.len(),
{
    if a == js.len() - 1 {
        assert(js.remove(a) =~= js.drop_last());
    } else {
        lemma_js_sum_remove(s, js.drop_last(), a);
        assert(js.remove(a).drop_last() =~= js.drop_last().remove(a));
        assert(js.remove(a).last() == js.last());
    }
}

/// The weights picked out by pairwise distinct indices never add up to more
/// than the store's whole count.
proof fn lemma_js_sum_le_count(x: BoardContinuation, js: Seq<int>, n: int)
    requires
        forall|a: int, b: int|
            0 <= a < js.len() && 0 <= b < js.len() && a != b && js[a] >= 0 ==> js[a] != js[b],
        forall|a: int| 0 <= a < js.len() ==> js[a] < n,
        0 <= n <= x.slots().len(),
    ensures
        js_weight_sum(x.slots(), js) <= x.count_upto(n),
    decreases n, js.len(),
{
    if js.len() == 0 {
    } else if n == 0 {
        lemma_js_sum_le_count(x, js.drop_last(), 0);
    } else {
        assert(x.count_upto(n) == x.count_upto(n - 1) + slot_weight(x.slots()[n - 1]));
        if exists|a: int| 0 <= a < js.len() && js[a] == n - 1 {
            let a = choose|a: int| 0 <= a < js.len() && js[a] == n - 1;
            let js2 = js.remove(a);
            lemma_js_sum_remove(x.slots(), js, a);
            assert forall|b: int| 0 <= b < js2.len() implies js2[b] < n - 1 by {
                if b < a {
                    assert(js2[b] == js[b]);
                    assert(js[b] != n - 1 || js[b] < 0 ==> js[b] < n - 1);
                    if js[b] == n - 1 {
                        assert(js[a] != js[b]);
                        assert(false);
                    }
                } else {
                    assert(js2[b] == js[b + 1]);
                    if js[b + 1] == n - 1 {
                        assert(js[a] != js[b + 1]);
                        assert(false);
                    }
                }
            }
            assert forall|c: int, d: int|
                0 <= c < js2.len() && 0 <= d < js2.len() && c != d && js2[c] >= 0 implies js2[c]
                != js2[d] by {
                let c0: int = if c < a {
                    c
                } else {
                    c + 1
                };
                let d0: int = if d < a {
                    d
                } else {
                    d + 1
                };
                assert(js2[c] == js[c0] && js2[d] == js[d0]);
            }
            lemma_js_sum_le_count(x, js2, n - 1);
        } else {
            assert forall|a: int| 0 <= a < js.len() implies js[a] < n - 1 by {
                if js[a] == n - 1 {
                    assert(false);
                }
            }
            lemma_js_sum_le_count(x, js, n - 1);
        }
    }
}

/// How slot `j` of a merged tree accounts for entry `t` of a drained input:
/// a live source entry is matched by a live slot with the same move and at
/// least as large a subtree, and an empty source slot needs no witness.
pub open spec fn js_entry_ok(
    post: BoardContinuation,
    orig: BoardContinuation,
    t: int,
    j: int,
) -> bool {
    match orig.slots()[t] {
        Some(se) => 0 <= j < post.slots().len() && (post.slots()[j] matches Some(e) && e.0 == se.0
            && e.1.count_nodes() >= se.1.count_nodes()),
        None => j == -1,
    }
}

/// When every source entry has a witness slot, the witnessed weights add up
/// to at least the source's own count.
proof fn lemma_js_sum_covers(
    post: BoardContinuation,
    orig: BoardContinuation,
    js: Seq<int>,
    k: int,
)
    requires
        js.len() == orig.slots().len(),
        0 <= k <= js.len(),
        forall|a: int| 0 <= a < js.len() ==> #[trigger] js_entry_ok(post, orig, a, js[a]),
    ensures
        js_weight_sum(post.slots(), js.take(k)) >= orig.count_upto(k),
    decreases k,
{
    if k > 0 {
        lemma_js_sum_covers(post, orig, js, k - 1);
        assert(js.take(k).drop_last() =~= js.take(k - 1));
        assert(js.take(k).last() == js[k - 1]);
        assert(js_entry_ok(post, orig, k - 1, js[k - 1]));
        assert(orig.count_upto(k) == orig.count_upto(k - 1) + slot_weight(orig.slots()[k - 1]));
    }
}

} // verus!
