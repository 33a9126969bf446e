//! Control-flow graph vocabulary: basic blocks, program points and the
//! predecessor table of a procedure.

use vstd::prelude::*;

verus! {

/// Identifier of a basic block. Blocks are ordered by their index.
#[derive(Copy, Clone, PartialEq, Eq, Structural, Debug, Hash, PartialOrd, Ord)]
pub struct BasicBlock(pub u32);

impl BasicBlock {
    pub fn new(index: u32) -> (block: Self)
        ensures
            block == BasicBlock(index),
    {
        BasicBlock(index)
    }

    pub fn index(&self) -> (i: usize)
        ensures
            i == self.0,
    {
        self.0 as usize
    }
}

/// A program point: a statement position inside a basic block.
#[derive(Copy, Clone, PartialEq, Eq, Structural, Debug, Hash)]
pub struct Location {
    pub block: BasicBlock,
    pub statement_index: usize,
}

impl Location {
    pub fn new(block: BasicBlock, statement_index: usize) -> (location: Self)
        ensures
            location == (Location { block, statement_index }),
    {
        Location { block, statement_index }
    }
}

/// The blocks of one procedure, stored as a table of direct predecessors.
pub struct BasicBlocks {
    preds: Vec<Vec<BasicBlock>>,
}

/// Number of entries of `seen` that are still `false`.
spec fn unseen(seen: Seq<bool>) -> nat
    decreases seen.len(),
{
    if seen.len() == 0 {
        0
    } else {
        unseen(seen.drop_last()) + if seen.last() {
            0nat
        } else {
            1nat
        }
    }
}

proof fn lemma_unseen_update(seen: Seq<bool>, i: int)
    requires
        0 <= i < seen.len(),
        !seen[i],
    ensures
        unseen(seen.update(i, true)) + 1 == unseen(seen),
    decreases seen.len(),
{
    let marked = seen.update(i, true);
    if i == seen.len() - 1 {
        assert(marked.drop_last() =~= seen.drop_last());
    } else {
        assert(marked.drop_last() =~= seen.drop_last().update(i, true));
        lemma_unseen_update(seen.drop_last(), i);
    }
}

impl BasicBlocks {
    #[verifier::type_invariant]
    spec fn inv(self) -> bool {
        forall|b: int, i: int|
            0 <= b < self.preds@.len() && 0 <= i < self.preds@[b]@.len() ==> (
            #[trigger] self.preds@[b]@[i]).0 < self.preds@.len()
    }

    /// Number of blocks of the procedure.
    pub closed spec fn num_blocks(&self) -> nat {
        self.preds@.len()
    }

    /// `from` is a direct predecessor of `to`.
    pub closed spec fn is_edge(&self, from: BasicBlock, to: BasicBlock) -> bool {
        to.0 < self.preds@.len() && self.preds@[to.0 as int]@.contains(from)
    }

    /// `path` is a non-empty walk along control-flow edges.
    pub open spec fn is_cfg_path(&self, path: Seq<BasicBlock>) -> bool {
        &&& path.len() > 0
        &&& forall|i: int| 0 <= i < path.len() - 1 ==> self.is_edge(#[trigger] path[i], path[i + 1])
    }

    /// Execution can get from `from` to `to` in zero or more steps.
    pub open spec fn reaches(&self, from: BasicBlock, to: BasicBlock) -> bool {
        exists|path: Seq<BasicBlock>| #[trigger]
            self.is_cfg_path(path) && path[0] == from && path.last() == to
    }

    /// A graph of `num_blocks` blocks without any edge.
    pub fn new(num_blocks: u32) -> (blocks: Self)
        ensures
            blocks.num_blocks() == num_blocks,
            forall|from: BasicBlock, to: BasicBlock| !blocks.is_edge(from, to),
    {
        let mut preds: Vec<Vec<BasicBlock>> = Vec::new();
        let mut i: u32 = 0;
        while i < num_blocks
            invariant
                i <= num_blocks,
                preds@.len() == i,
                forall|b: int| 0 <= b < i ==> (#[trigger] preds@[b])@.len() == 0,
            decreases num_blocks - i,
        {
            preds.push(Vec::new());
            i = i + 1;
        }
        BasicBlocks { preds }
    }

    /// Number of blocks of the procedure.
    pub fn len(&self) -> (n: usize)
        ensures
            n == self.num_blocks(),
    {
        self.preds.len()
    }

    /// Records the control-flow edge `from -> to`. Returns `false`, leaving the
    /// graph as it is, when one of the two blocks is not part of the procedure.
    pub fn add_edge(&mut self, from: BasicBlock, to: BasicBlock) -> (added: bool)
        ensures
            added == (from.0 < old(self).num_blocks() && to.0 < old(self).num_blocks()),
            final(self).num_blocks() == old(self).num_blocks(),
            forall|a: BasicBlock, b: BasicBlock|
                final(self).is_edge(a, b) == (old(self).is_edge(a, b) || (added && a == from && b
                    == to)),
    {
        proof {
            use_type_invariant(&*self);
        }
        let n = self.preds.len();
        if from.index() >= n || to.index() >= n {
            return false;
        }
        let mut preds: Vec<Vec<BasicBlock>> = Vec::new();
        std::mem::swap(&mut preds, &mut self.preds);
        let ghost before = preds@;
        let mut row: Vec<BasicBlock> = Vec::new();
        std::mem::swap(&mut row, &mut preds[to.index()]);
        row.push(from);
        preds.set(to.index(), row);
        proof {
            assert forall|a: BasicBlock, b: BasicBlock|
                (b.0 < preds@.len() && preds@[b.0 as int]@.contains(a)) == ((b.0 < before.len()
                    && before[b.0 as int]@.contains(a)) || (a == from && b == to)) by {
                if b.0 < preds@.len() {
                    if b == to {
                        let old_row = before[to.0 as int]@;
                        assert(preds@[b.0 as int]@ == old_row.push(from));
                        if old_row.contains(a) {
                            let k = choose|k: int| 0 <= k < old_row.len() && old_row[k] == a;
                            assert(old_row.push(from)[k] == a);
                        }
                        if a == from {
                            assert(old_row.push(from)[old_row.len() as int] == a);
                        }
                    } else {
                        assert(preds@[b.0 as int] == before[b.0 as int]);
                    }
                }
            }
            assert forall|b: int, i: int|
                0 <= b < preds@.len() && 0 <= i < preds@[b]@.len() implies (
            #[trigger] preds@[b]@[i]).0 < preds@.len() by {
                if b == to.0 {
                    if i < before[b]@.len() {
                        assert(preds@[b]@[i] == before[b]@[i]);
                    }
                } else {
                    assert(preds@[b] == before[b]);
                }
            }
        }
        self.preds = preds;
        true
    }

    /// Every marked block that is no longer waiting has all its predecessors marked.
    spec fn closed_under_predecessors(
        self,
        seen: Seq<bool>,
        waiting: Seq<BasicBlock>,
        except: Option<BasicBlock>,
    ) -> bool {
        forall|b: BasicBlock, i: int|
            #![trigger self.preds@[b.0 as int]@[i]]
            b.0 < self.preds@.len() && seen[b.0 as int] && !waiting.contains(b) && Some(b)
                != except && 0 <= i < self.preds@[b.0 as int]@.len() ==> seen[self.preds@[b.0 as int]@[i].0 as int]
    }

    proof fn lemma_step_then_reach(self, from: BasicBlock, via: BasicBlock, to: BasicBlock)
        requires
            self.is_edge(from, via),
            self.reaches(via, to),
        ensures
            self.reaches(from, to),
    {
        let tail = choose|path: Seq<BasicBlock>| #[trigger]
            self.is_cfg_path(path) && path[0] == via && path.last() == to;
        let path = seq![from] + tail;
        assert forall|i: int| 0 <= i < path.len() - 1 implies self.is_edge(
            #[trigger] path[i],
            path[i + 1],
        ) by {
            if i > 0 {
                assert(path[i] == tail[i - 1]);
                assert(path[i + 1] == tail[i]);
            }
        }
        assert(self.is_cfg_path(path) && path[0] == from && path.last() == to);
    }

    /// A block reaches itself.
    pub proof fn lemma_reaches_reflexive(self, block: BasicBlock)
        ensures
            self.reaches(block, block),
    {
        let path = seq![block];
        assert(self.is_cfg_path(path) && path[0] == block && path.last() == block);
    }

    proof fn lemma_closed_set_holds_path(
        self,
        seen: Seq<bool>,
        to: BasicBlock,
        path: Seq<BasicBlock>,
        k: int,
    )
        requires
            self.inv(),
            seen.len() == self.preds@.len(),
            to.0 < self.preds@.len(),
            seen[to.0 as int],
            self.closed_under_predecessors(seen, Seq::empty(), None),
            self.is_cfg_path(path),
            path.last() == to,
            0 <= k < path.len(),
        ensures
            path[k].0 < self.preds@.len(),
            seen[path[k].0 as int],
        decreases path.len() - k,
    {
        if k < path.len() - 1 {
            self.lemma_closed_set_holds_path(seen, to, path, k + 1);
            let next = path[k + 1];
            assert(self.is_edge(path[k], next));
            let row = self.preds@[next.0 as int]@;
            let i = choose|i: int| 0 <= i < row.len() && row[i] == path[k];
            assert(self.preds@[next.0 as int]@[i] == path[k]);
        }
    }

    /// Whether execution can get from `from` to `to` in zero or more steps.
    pub fn can_reach(&self, from: BasicBlock, to: BasicBlock) -> (found: bool)
        ensures
            found == self.reaches(from, to),
    {
        proof {
            use_type_invariant(self);
            self.lemma_reaches_reflexive(to);
        }
        let n = self.preds.len();
        if to.index() >= n {
            proof {
                if self.reaches(from, to) {
                    let path = choose|path: Seq<BasicBlock>| #[trigger]
                        self.is_cfg_path(path) && path[0] == from && path.last() == to;
                    if path.len() > 1 {
                        assert(self.is_edge(path[path.len() - 2], path[path.len() - 2 + 1]));
                    }
                }
            }
            return from == to;
        }
        let mut seen: Vec<bool> = Vec::new();
        while seen.len() < n
            invariant
                seen@.len() <= n,
                forall|k: int| 0 <= k < seen@.len() ==> !seen@[k],
            decreases n - seen@.len(),
        {
            seen.push(false);
        }
        let mut waiting: Vec<BasicBlock> = Vec::new();
        seen.set(to.index(), true);
        waiting.push(to);
        assert(waiting@.contains(to)) by {
            assert(waiting@[0] == to);
        }
        while waiting.len() > 0
            invariant
                self.inv(),
                n == self.preds@.len(),
                seen@.len() == n,
                to.0 < n,
                seen@[to.0 as int],
                forall|k: int|
                    0 <= k < waiting@.len() ==> (#[trigger] waiting@[k]).0 < n && seen@[waiting@[k].0 as int],
                forall|b: BasicBlock| b.0 < n && #[trigger] seen@[b.0 as int] ==> self.reaches(b, to),
                self.closed_under_predecessors(seen@, waiting@, None),
            decreases unseen(seen@) + waiting@.len(),
        {
            let ghost before = waiting@;
            let current = waiting.pop().unwrap();
            assert(before == waiting@.push(current));
            assert(self.closed_under_predecessors(seen@, waiting@, Some(current))) by {
                assert forall|b: BasicBlock|
                    !waiting@.contains(b) && Some(b) != Some(current) implies !before.contains(
                    b,
                ) by {
                    if before.contains(b) {
                        let k = choose|k: int| 0 <= k < before.len() && before[k] == b;
                        if k < waiting@.len() {
                            assert(waiting@[k] == b);
                        }
                    }
                }
            }
            let row = &self.preds[current.index()];
            let ghost measure = unseen(seen@) + waiting@.len();
            let mut i: usize = 0;
            while i < row.len()
                invariant
                    self.inv(),
                    n == self.preds@.len(),
                    seen@.len() == n,
                    to.0 < n,
                    seen@[to.0 as int],
                    current.0 < n,
                    seen@[current.0 as int],
                    row@ == self.preds@[current.0 as int]@,
                    i <= row@.len(),
                    forall|k: int|
                        0 <= k < waiting@.len() ==> (#[trigger] waiting@[k]).0 < n
                            && seen@[waiting@[k].0 as int],
                    forall|b: BasicBlock|
                        b.0 < n && #[trigger] seen@[b.0 as int] ==> self.reaches(b, to),
                    self.closed_under_predecessors(seen@, waiting@, Some(current)),
                    forall|k: int| 0 <= k < i ==> seen@[(#[trigger] row@[k]).0 as int],
                    unseen(seen@) + waiting@.len() == measure,
                decreases row@.len() - i,
            {
                let pred = row[i];
                assert(self.preds@[current.0 as int]@[i as int] == pred);
                if !seen[pred.index()] {
                    let ghost seen_before = seen@;
                    let ghost waiting_before = waiting@;
                    proof {
                        assert(self.is_edge(pred, current)) by {
                            assert(row@[i as int] == pred);
                        }
                        self.lemma_step_then_reach(pred, current, to);
                        lemma_unseen_update(seen@, pred.0 as int);
                    }
                    seen.set(pred.index(), true);
                    waiting.push(pred);
                    proof {
                        assert(waiting@[waiting@.len() - 1] == pred);
                        assert forall|b: BasicBlock|
                            !waiting@.contains(b) implies !waiting_before.contains(b) && b
                            != pred by {
                            if waiting_before.contains(b) {
                                let k = choose|k: int|
                                    0 <= k < waiting_before.len() && waiting_before[k] == b;
                                assert(waiting@[k] == b);
                            }
                        }
                    }
                }
                i = i + 1;
            }
            proof {
                assert forall|b: BasicBlock, j: int|
                    #![trigger self.preds@[b.0 as int]@[j]]
                    b.0 < self.preds@.len() && seen@[b.0 as int] && !waiting@.contains(b) && 0
                        <= j < self.preds@[b.0 as int]@.len() implies seen@[self.preds@[b.0 as int]@[j].0 as int] by {
                    if b == current {
                        assert(row@[j] == self.preds@[b.0 as int]@[j]);
                    }
                }
            }
        }
        proof {
            assert(waiting@ =~= Seq::empty());
            if self.reaches(from, to) {
                let path = choose|path: Seq<BasicBlock>| #[trigger]
                    self.is_cfg_path(path) && path[0] == from && path.last() == to;
                self.lemma_closed_set_holds_path(seen@, to, path, 0);
            }
        }
        if from.index() < n {
            seen[from.index()]
        } else {
            false
        }
    }

    /// The direct predecessors of `block`; none for a block outside the graph.
    pub fn predecessors(&self, block: BasicBlock) -> (found: Vec<BasicBlock>)
        ensures
            forall|from: BasicBlock| found@.contains(from) == self.is_edge(from, block),
    {
        if block.index() >= self.preds.len() {
            let none: Vec<BasicBlock> = Vec::new();
            assert(forall|from: BasicBlock| !none@.contains(from));
            return none;
        }
        let found = self.preds[block.index()].clone();
        assert(found@ =~= self.preds@[block.0 as int]@);
        found
    }

    /// Whether `from` is a direct predecessor of `to`.
    pub fn is_predecessor(&self, from: BasicBlock, to: BasicBlock) -> (found: bool)
        ensures
            found == self.is_edge(from, to),
    {
        if to.index() >= self.preds.len() {
            return false;
        }
        let row = &self.preds[to.index()];
        let mut i: usize = 0;
        while i < row.len()
            invariant
                i <= row@.len(),
                to.0 < self.preds@.len(),
                row@ == self.preds@[to.0 as int]@,
                forall|k: int| 0 <= k < i ==> row@[k] != from,
            decreases row@.len() - i,
        {
            if row[i] == from {
                assert(row@[i as int] == from);
                return true;
            }
            i = i + 1;
        }
        false
    }
}

} // verus!
