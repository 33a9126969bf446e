//! Path conditions: the control-flow paths on which a borrow relation holds,
//! recorded as the set of control-flow edges those paths run along.

use vstd::prelude::*;
use vstd::std_specs::cmp::PartialEqSpecImpl;

use crate::cfg::{BasicBlock, BasicBlocks};

verus! {

/// One traversed control-flow edge.
#[derive(Copy, PartialEq, Eq, Structural, Clone, Hash, PartialOrd, Ord, Debug)]
pub struct PathCondition {
    pub from: BasicBlock,
    pub to: BasicBlock,
}

impl PathCondition {
    pub fn new(from: BasicBlock, to: BasicBlock) -> (pc: Self)
        ensures
            pc == (PathCondition { from, to }),
    {
        Self { from, to }
    }
}

/// A non-empty walk through the control-flow graph.
#[derive(PartialEq, Eq, Debug, Hash, PartialOrd, Ord)]
pub struct Path(Vec<BasicBlock>);

impl Clone for Path {
    fn clone(&self) -> (copy: Self)
        ensures
            copy@ == self@,
    {
        proof {
            use_type_invariant(self);
        }
        let blocks = self.0.clone();
        assert(blocks@ =~= self.0@);
        Path(blocks)
    }
}

impl View for Path {
    type V = Seq<BasicBlock>;

    closed spec fn view(&self) -> Seq<BasicBlock> {
        self.0@
    }
}

impl Path {
    #[verifier::type_invariant]
    spec fn inv(self) -> bool {
        self.0@.len() > 0
    }

    /// The walk that stays at `block`.
    pub fn new(block: BasicBlock) -> (path: Self)
        ensures
            path@ == seq![block],
    {
        let mut blocks: Vec<BasicBlock> = Vec::new();
        blocks.push(block);
        assert(blocks@ =~= seq![block]);
        Self(blocks)
    }

    /// Goes on to `block`.
    pub fn append(&mut self, block: BasicBlock)
        ensures
            final(self)@ == old(self)@.push(block),
    {
        let mut blocks: Vec<BasicBlock> = Vec::new();
        blocks.push(block);
        std::mem::swap(&mut blocks, &mut self.0);
        blocks.push(block);
        self.0 = blocks;
    }

    /// The first block of the walk.
    pub fn start(&self) -> (block: BasicBlock)
        ensures
            self@.len() > 0,
            block == self@[0],
    {
        proof {
            use_type_invariant(self);
        }
        self.0[0]
    }

    /// The last block of the walk.
    pub fn end(&self) -> (block: BasicBlock)
        ensures
            self@.len() > 0,
            block == self@.last(),
    {
        proof {
            use_type_invariant(self);
        }
        self.0[self.0.len() - 1]
    }

    /// The blocks of the walk, first to last.
    pub fn blocks(&self) -> (blocks: &Vec<BasicBlock>)
        ensures
            blocks@ == self@,
            blocks@.len() > 0,
    {
        proof {
            use_type_invariant(self);
        }
        &self.0
    }
}

/// Strict order on edges: by source block, then by target block.
pub open spec fn precedes(a: PathCondition, b: PathCondition) -> bool {
    a.from.0 < b.from.0 || (a.from.0 == b.from.0 && a.to.0 < b.to.0)
}

pub open spec fn strictly_ascending(edges: Seq<PathCondition>) -> bool {
    forall|i: int, j: int| 0 <= i < j < edges.len() ==> precedes(#[trigger] edges[i], #[trigger] edges[j])
}

/// Some edge of `edges` leaves `block`.
pub open spec fn has_edge_from(edges: Set<PathCondition>, block: BasicBlock) -> bool {
    exists|pc: PathCondition| #[trigger] edges.contains(pc) && pc.from == block
}

/// Some edge of `edges` enters `block`.
pub open spec fn has_edge_to(edges: Set<PathCondition>, block: BasicBlock) -> bool {
    exists|pc: PathCondition| #[trigger] edges.contains(pc) && pc.to == block
}

/// `block` starts an edge and ends none.
pub open spec fn is_source(edges: Set<PathCondition>, block: BasicBlock) -> bool {
    has_edge_from(edges, block) && !has_edge_to(edges, block)
}

/// `block` ends an edge and starts none.
pub open spec fn is_sink(edges: Set<PathCondition>, block: BasicBlock) -> bool {
    has_edge_to(edges, block) && !has_edge_from(edges, block)
}

/// The root of an edge set: its one and only source, if it has exactly one.
pub open spec fn root_of(edges: Set<PathCondition>) -> Option<BasicBlock> {
    if exists|b: BasicBlock| is_only_source(edges, b) {
        Some(choose|b: BasicBlock| is_only_source(edges, b))
    } else {
        None
    }
}

pub open spec fn is_only_source(edges: Set<PathCondition>, block: BasicBlock) -> bool {
    is_source(edges, block) && forall|other: BasicBlock| is_source(edges, other) ==> other == block
}

/// The end of an edge set: its one and only sink, if it has exactly one.
pub open spec fn end_of(edges: Set<PathCondition>) -> Option<BasicBlock> {
    if exists|b: BasicBlock| is_only_sink(edges, b) {
        Some(choose|b: BasicBlock| is_only_sink(edges, b))
    } else {
        None
    }
}

pub open spec fn is_only_sink(edges: Set<PathCondition>, block: BasicBlock) -> bool {
    is_sink(edges, block) && forall|other: BasicBlock| is_sink(edges, other) ==> other == block
}

/// Where the comparison of a walk against an edge set begins: at the first
/// occurrence of the set's root, or at the front when there is none.
pub open spec fn suffix_start(edges: Set<PathCondition>, path: Seq<BasicBlock>) -> int {
    match root_of(edges) {
        Some(root) => match path.index_of_first(root) {
            Some(k) => k,
            None => 0,
        },
        None => 0,
    }
}

/// The step that `path` takes from position `i` to the next.
pub open spec fn step_at(path: Seq<BasicBlock>, i: int) -> PathCondition {
    PathCondition { from: path[i], to: path[i + 1] }
}

/// Every step of `path` from position `start` on is an edge of `edges`.
pub open spec fn steps_within(edges: Set<PathCondition>, path: Seq<BasicBlock>, start: int) -> bool {
    forall|i: int| start <= i && i + 1 < path.len() ==> edges.contains(#[trigger] step_at(path, i))
}

/// The part of `path` that begins at the root of `edges` stays inside `edges`.
pub open spec fn suffix_within(edges: Set<PathCondition>, path: Seq<BasicBlock>) -> bool {
    steps_within(edges, path, suffix_start(edges, path))
}

/// The edges of a graph after the edges `other` were joined into it.
pub open spec fn joined(edges: Set<PathCondition>, other: Set<PathCondition>) -> Set<PathCondition> {
    edges.union(other)
}

/// Whether joining `other` adds an edge.
pub open spec fn join_grows(edges: Set<PathCondition>, other: Set<PathCondition>) -> bool {
    !other.subset_of(edges)
}

/// Joining never loses an edge of the receiver, and joining the same edges a
/// second time changes nothing and reports no change.
pub proof fn lemma_join_monotone_and_idempotent(a: Set<PathCondition>, b: Set<PathCondition>)
    ensures
        a.subset_of(joined(a, b)),
        joined(joined(a, b), b) == joined(a, b),
        !join_grows(joined(a, b), b),
{
    assert(joined(joined(a, b), b) =~= joined(a, b));
}

proof fn lemma_ascending_same_set(a: Seq<PathCondition>, b: Seq<PathCondition>)
    requires
        strictly_ascending(a),
        strictly_ascending(b),
        a.to_set() == b.to_set(),
    ensures
        a == b,
    decreases a.len(),
{
    if a.len() == 0 {
        if b.len() > 0 {
            assert(b.contains(b[0]));
            assert(b.to_set().contains(b[0]));
            assert(a.contains(b[0]));
        }
        assert(a =~= b);
    } else {
        assert(a.contains(a[0]));
        assert(a.to_set().contains(a[0]));
        assert(b.contains(a[0]));
        let j = choose|j: int| 0 <= j < b.len() && b[j] == a[0];
        assert(b.contains(b[0]));
        assert(b.to_set().contains(b[0]));
        assert(a.contains(b[0]));
        let i = choose|i: int| 0 <= i < a.len() && a[i] == b[0];
        if j > 0 {
            assert(precedes(b[0], b[j]));
            if i > 0 {
                assert(precedes(a[0], a[i]));
            }
        }
        assert(a[0] == b[0]);
        let ta = a.skip(1);
        let tb = b.skip(1);
        assert(strictly_ascending(ta)) by {
            assert forall|x: int, y: int| 0 <= x < y < ta.len() implies precedes(
                #[trigger] ta[x],
                #[trigger] ta[y],
            ) by {
                assert(precedes(a[x + 1], a[y + 1]));
            }
        }
        assert(strictly_ascending(tb)) by {
            assert forall|x: int, y: int| 0 <= x < y < tb.len() implies precedes(
                #[trigger] tb[x],
                #[trigger] tb[y],
            ) by {
                assert(precedes(b[x + 1], b[y + 1]));
            }
        }
        assert(ta.to_set() =~= tb.to_set()) by {
            assert forall|pc: PathCondition| ta.to_set().contains(pc) == tb.to_set().contains(
                pc,
            ) by {
                if ta.contains(pc) {
                    let x = choose|x: int| 0 <= x < ta.len() && ta[x] == pc;
                    assert(a[x + 1] == pc);
                    assert(precedes(a[0], a[x + 1]));
                    assert(a.contains(pc));
                    assert(a.to_set().contains(pc));
                    assert(b.contains(pc));
                    let y = choose|y: int| 0 <= y < b.len() && b[y] == pc;
                    assert(tb[y - 1] == pc);
                }
                if tb.contains(pc) {
                    let x = choose|x: int| 0 <= x < tb.len() && tb[x] == pc;
                    assert(b[x + 1] == pc);
                    assert(precedes(b[0], b[x + 1]));
                    assert(b.contains(pc));
                    assert(b.to_set().contains(pc));
                    assert(a.contains(pc));
                    let y = choose|y: int| 0 <= y < a.len() && a[y] == pc;
                    assert(ta[y - 1] == pc);
                }
            }
        }
        lemma_ascending_same_set(ta, tb);
        assert(a =~= b) by {
            assert(a.len() == b.len());
            assert forall|k: int| 0 <= k < a.len() implies a[k] == b[k] by {
                if k > 0 {
                    assert(ta[k - 1] == tb[k - 1]);
                }
            }
        }
    }
}

/// A set of traversed control-flow edges, standing for one or more paths.
/// The edges are kept in ascending order without repetition.
#[derive(Debug, Hash, PartialOrd, Ord)]
pub struct PCGraph {
    edges: Vec<PathCondition>,
}

impl View for PCGraph {
    type V = Set<PathCondition>;

    closed spec fn view(&self) -> Set<PathCondition> {
        self.edges@.to_set()
    }
}

impl Clone for PCGraph {
    fn clone(&self) -> (copy: Self)
        ensures
            copy@ == self@,
    {
        proof {
            use_type_invariant(self);
        }
        let edges = self.edges.clone();
        assert(edges@ =~= self.edges@);
        PCGraph { edges }
    }
}

impl PartialEq for PCGraph {
    fn eq(&self, other: &Self) -> (same: bool) {
        proof {
            use_type_invariant(self);
            use_type_invariant(other);
        }
        if self.edges.len() != other.edges.len() {
            proof {
                if self@ == other@ {
                    lemma_ascending_same_set(self.edges@, other.edges@);
                }
            }
            return false;
        }
        let mut i: usize = 0;
        while i < self.edges.len()
            invariant
                i <= self.edges@.len(),
                self.edges@.len() == other.edges@.len(),
                strictly_ascending(self.edges@),
                strictly_ascending(other.edges@),
                forall|k: int| 0 <= k < i ==> self.edges@[k] == other.edges@[k],
            decreases self.edges@.len() - i,
        {
            if self.edges[i] != other.edges[i] {
                proof {
                    if self@ == other@ {
                        lemma_ascending_same_set(self.edges@, other.edges@);
                    }
                }
                return false;
            }
            i = i + 1;
        }
        assert(self.edges@ =~= other.edges@);
        true
    }
}

impl Eq for PCGraph {

}

impl PartialEqSpecImpl for PCGraph {
    open spec fn obeys_eq_spec() -> bool {
        true
    }

    open spec fn eq_spec(&self, other: &Self) -> bool {
        self@ == other@
    }
}

impl PCGraph {
    #[verifier::type_invariant]
    spec fn inv(self) -> bool {
        strictly_ascending(self.edges@)
    }

    /// The unique block that starts an edge and ends none, if there is exactly one.
    pub fn root(&self) -> (root: Option<BasicBlock>)
        ensures
            root == root_of(self@),
    {
        let mut found: Option<BasicBlock> = None;
        let mut i: usize = 0;
        while i < self.edges.len()
            invariant
                i <= self.edges@.len(),
                found matches Some(b) ==> is_source(self@, b),
                forall|k: int|
                    0 <= k < i && is_source(self@, (#[trigger] self.edges@[k]).from) ==> found
                        == Some(self.edges@[k].from),
            decreases self.edges@.len() - i,
        {
            let block = self.edges[i].from;
            if !self.has_path_to_block(block) {
                assert(self.edges@.contains(self.edges@[i as int]));
                assert(self@.contains(self.edges@[i as int]));
                match found {
                    None => {
                        found = Some(block);
                    },
                    Some(first) => {
                        if first != block {
                            assert(is_source(self@, first) && is_source(self@, block));
                            assert(forall|b: BasicBlock| !is_only_source(self@, b));
                            return None;
                        }
                    },
                }
            }
            i = i + 1;
        }
        proof {
            assert forall|b: BasicBlock| is_source(self@, b) implies found == Some(b) by {
                let pc = choose|pc: PathCondition| #[trigger] self@.contains(pc) && pc.from == b;
                assert(self.edges@.contains(pc));
                let k = choose|k: int| 0 <= k < self.edges@.len() && self.edges@[k] == pc;
                assert(self.edges@[k].from == b);
            }
            if let Some(b) = found {
                assert(is_only_source(self@, b));
            }
        }
        found
    }

    /// The unique block that ends an edge and starts none, if there is exactly one.
    pub fn end(&self) -> (end: Option<BasicBlock>)
        ensures
            end == end_of(self@),
    {
        let mut found: Option<BasicBlock> = None;
        let mut i: usize = 0;
        while i < self.edges.len()
            invariant
                i <= self.edges@.len(),
                found matches Some(b) ==> is_sink(self@, b),
                forall|k: int|
                    0 <= k < i && is_sink(self@, (#[trigger] self.edges@[k]).to) ==> found == Some(
                        self.edges@[k].to,
                    ),
            decreases self.edges@.len() - i,
        {
            let block = self.edges[i].to;
            if !self.has_path_from_block(block) {
                assert(self.edges@.contains(self.edges@[i as int]));
                assert(self@.contains(self.edges@[i as int]));
                match found {
                    None => {
                        found = Some(block);
                    },
                    Some(first) => {
                        if first != block {
                            assert(is_sink(self@, first) && is_sink(self@, block));
                            assert(forall|b: BasicBlock| !is_only_sink(self@, b));
                            return None;
                        }
                    },
                }
            }
            i = i + 1;
        }
        proof {
            assert forall|b: BasicBlock| is_sink(self@, b) implies found == Some(b) by {
                let pc = choose|pc: PathCondition| #[trigger] self@.contains(pc) && pc.to == b;
                assert(self.edges@.contains(pc));
                let k = choose|k: int| 0 <= k < self.edges@.len() && self.edges@[k] == pc;
                assert(self.edges@[k].to == b);
            }
            if let Some(b) = found {
                assert(is_only_sink(self@, b));
            }
        }
        found
    }

    /// The graph of the one edge `pc`.
    pub fn singleton(pc: PathCondition) -> (graph: Self)
        ensures
            graph@ == set![pc],
    {
        let mut edges: Vec<PathCondition> = Vec::new();
        edges.push(pc);
        proof {
            assert(edges@.to_set() =~= set![pc]) by {
                assert(edges@[0] == pc);
                assert forall|x: PathCondition| edges@.to_set().contains(x) == (x == pc) by {
                    if edges@.contains(x) {
                        let k = choose|k: int| 0 <= k < edges@.len() && edges@[k] == x;
                    }
                }
            }
        }
        PCGraph { edges }
    }

    /// Adds every edge of `other`; tells whether the receiver grew.
    pub fn join(&mut self, other: &Self) -> (changed: bool)
        ensures
            final(self)@ == joined(old(self)@, other@),
            changed == join_grows(old(self)@, other@),
    {
        let mut changed = false;
        let mut i: usize = 0;
        while i < other.edges.len()
            invariant
                i <= other.edges@.len(),
                self@ == old(self)@.union(other.edges@.take(i as int).to_set()),
                changed == exists|k: int|
                    0 <= k < i && !old(self)@.contains(#[trigger] other.edges@[k]),
            decreases other.edges@.len() - i,
        {
            let pc = other.edges[i];
            let ghost before = self@;
            let ghost changed_before = changed;
            if self.insert(pc) {
                changed = true;
            }
            proof {
                let head = other.edges@.take(i as int);
                let next = other.edges@.take(i + 1);
                assert(next =~= head.push(pc));
                assert(next.to_set() =~= head.to_set().insert(pc)) by {
                    assert forall|x: PathCondition| next.to_set().contains(x) == (
                    head.to_set().contains(x) || x == pc) by {
                        if next.contains(x) {
                            let k = choose|k: int| 0 <= k < next.len() && next[k] == x;
                            if k < head.len() {
                                assert(head[k] == x);
                            }
                        }
                        if head.contains(x) {
                            let k = choose|k: int| 0 <= k < head.len() && head[k] == x;
                            assert(next[k] == x);
                        }
                        if x == pc {
                            assert(next[i as int] == x);
                        }
                    }
                }
                assert(self@ =~= old(self)@.union(next.to_set()));
                if !before.contains(pc) {
                    assert(!old(self)@.contains(other.edges@[i as int]));
                } else if !old(self)@.contains(pc) {
                    assert(head.contains(pc));
                    let k = choose|k: int| 0 <= k < head.len() && head[k] == pc;
                    assert(!old(self)@.contains(other.edges@[k]));
                }
            }
            i = i + 1;
        }
        proof {
            assert(other.edges@.take(i as int) =~= other.edges@);
            if changed {
                let k = choose|k: int|
                    0 <= k < i && !old(self)@.contains(#[trigger] other.edges@[k]);
                assert(other.edges@.contains(other.edges@[k]));
            } else {
                assert forall|x: PathCondition| other@.contains(x) implies old(self)@.contains(
                    x,
                ) by {
                    let k = choose|k: int| 0 <= k < other.edges@.len() && other.edges@[k] == x;
                    assert(old(self)@.contains(other.edges@[k]));
                }
            }
        }
        changed
    }

    /// Whether some edge enters `block`.
    pub fn has_path_to_block(&self, block: BasicBlock) -> (found: bool)
        ensures
            found == has_edge_to(self@, block),
    {
        let mut i: usize = 0;
        while i < self.edges.len()
            invariant
                i <= self.edges@.len(),
                forall|k: int| 0 <= k < i ==> self.edges@[k].to != block,
            decreases self.edges@.len() - i,
        {
            if self.edges[i].to == block {
                assert(self.edges@.contains(self.edges@[i as int]));
                assert(self@.contains(self.edges@[i as int]));
                return true;
            }
            i = i + 1;
        }
        proof {
            if has_edge_to(self@, block) {
                let pc = choose|pc: PathCondition| #[trigger] self@.contains(pc) && pc.to == block;
                assert(self.edges@.contains(pc));
            }
        }
        false
    }

    /// Whether some edge leaves `block`.
    pub fn has_path_from_block(&self, block: BasicBlock) -> (found: bool)
        ensures
            found == has_edge_from(self@, block),
    {
        let mut i: usize = 0;
        while i < self.edges.len()
            invariant
                i <= self.edges@.len(),
                forall|k: int| 0 <= k < i ==> self.edges@[k].from != block,
            decreases self.edges@.len() - i,
        {
            if self.edges[i].from == block {
                assert(self.edges@.contains(self.edges@[i as int]));
                assert(self@.contains(self.edges@[i as int]));
                return true;
            }
            i = i + 1;
        }
        proof {
            if has_edge_from(self@, block) {
                let pc = choose|pc: PathCondition| #[trigger]
                    self@.contains(pc) && pc.from == block;
                assert(self.edges@.contains(pc));
            }
        }
        false
    }

    /// Whether `pc` is an edge of the graph.
    pub fn contains(&self, pc: PathCondition) -> (found: bool)
        ensures
            found == self@.contains(pc),
    {
        let mut i: usize = 0;
        while i < self.edges.len()
            invariant
                i <= self.edges@.len(),
                forall|k: int| 0 <= k < i ==> self.edges@[k] != pc,
            decreases self.edges@.len() - i,
        {
            if self.edges[i] == pc {
                assert(self.edges@.contains(self.edges@[i as int]));
                return true;
            }
            i = i + 1;
        }
        assert(!self.edges@.contains(pc));
        false
    }

    /// Whether the part of `path` that starts at the first occurrence of the
    /// graph's root (at the front of `path`, if the root does not occur or the
    /// graph has none) walks along edges of the graph only.
    pub fn has_suffix_of(&self, path: &[BasicBlock]) -> (within: bool)
        ensures
            within == suffix_within(self@, path@),
    {
        let mut start: usize = 0;
        if let Some(root) = self.root() {
            let mut k: usize = 0;
            while k < path.len() && path[k] != root
                invariant
                    k <= path@.len(),
                    forall|j: int| 0 <= j < k ==> path@[j] != root,
                decreases path@.len() - k,
            {
                k = k + 1;
            }
            proof {
                path@.index_of_first_ensures(root);
            }
            if k < path.len() {
                start = k;
                proof {
                    assert(path@.contains(root)) by {
                        assert(path@[k as int] == root);
                    }
                    let first = path@.index_of_first(root).unwrap();
                    if first < k {
                        assert(path@[first] != root);
                    }
                }
            } else {
                assert(!path@.contains(root));
            }
        }
        assert(start == suffix_start(self@, path@));
        let mut i: usize = start;
        while i < path.len() && i + 1 < path.len()
            invariant
                start <= i,
                start == suffix_start(self@, path@),
                forall|j: int| start <= j < i ==> self@.contains(#[trigger] step_at(path@, j)),
            decreases path@.len() - i,
        {
            let step = PathCondition::new(path[i], path[i + 1]);
            if !self.contains(step) {
                assert(!steps_within(self@, path@, start as int)) by {
                    assert(!self@.contains(step_at(path@, i as int)));
                }
                return false;
            }
            i = i + 1;
        }
        true
    }

    /// Adds `pc`; tells whether it was new.
    pub fn insert(&mut self, pc: PathCondition) -> (inserted: bool)
        ensures
            final(self)@ == old(self)@.insert(pc),
            inserted == !old(self)@.contains(pc),
    {
        proof {
            use_type_invariant(&*self);
        }
        let mut edges: Vec<PathCondition> = Vec::new();
        std::mem::swap(&mut edges, &mut self.edges);
        let ghost before = edges@;
        let mut i: usize = 0;
        while i < edges.len() && lies_before(&edges[i], &pc)
            invariant
                i <= edges@.len(),
                edges@ == before,
                forall|k: int| 0 <= k < i ==> precedes(#[trigger] edges@[k], pc),
            decreases edges@.len() - i,
        {
            i = i + 1;
        }
        if i < edges.len() && edges[i] == pc {
            proof {
                assert(before.contains(pc)) by {
                    assert(before[i as int] == pc);
                }
                assert(before.to_set().insert(pc) =~= before.to_set());
            }
            self.edges = edges;
            return false;
        }
        proof {
            assert forall|k: int| i <= k < before.len() implies precedes(
                pc,
                #[trigger] before[k],
            ) by {
                if k > i {
                    assert(precedes(before[i as int], before[k]));
                }
            }
            assert(!before.contains(pc)) by {
                if before.contains(pc) {
                    let k = choose|k: int| 0 <= k < before.len() && before[k] == pc;
                    if k < i {
                        assert(precedes(before[k], pc));
                    } else {
                        assert(precedes(pc, before[k]));
                    }
                }
            }
        }
        edges.insert(i, pc);
        proof {
            let after = edges@;
            before.insert_ensures(i as int, pc);
            assert(strictly_ascending(after)) by {
                assert forall|x: int, y: int| 0 <= x < y < after.len() implies precedes(
                    #[trigger] after[x],
                    #[trigger] after[y],
                ) by {
                    if y < i {
                        assert(after[x] == before[x] && after[y] == before[y]);
                    } else if y == i {
                        assert(after[x] == before[x]);
                    } else if x < i {
                        assert(after[x] == before[x] && after[y] == before[y - 1]);
                        if y - 1 > x {
                            assert(precedes(before[x], before[y - 1]));
                        }
                    } else if x == i {
                        assert(after[y] == before[y - 1]);
                    } else {
                        assert(after[x] == before[x - 1] && after[y] == before[y - 1]);
                        assert(precedes(before[x - 1], before[y - 1]));
                    }
                }
            }
            assert(after.to_set() =~= before.to_set().insert(pc)) by {
                assert forall|x: PathCondition| after.to_set().contains(x) == (
                before.to_set().contains(x) || x == pc) by {
                    if after.contains(x) {
                        let k = choose|k: int| 0 <= k < after.len() && after[k] == x;
                        if k < i {
                            assert(before[k] == x);
                        } else if k > i {
                            assert(before[k - 1] == x);
                        }
                    }
                    if before.contains(x) {
                        let k = choose|k: int| 0 <= k < before.len() && before[k] == x;
                        if k < i {
                            assert(after[k] == x);
                        } else {
                            assert(after[k + 1] == x);
                        }
                    }
                    if x == pc {
                        assert(after[i as int] == x);
                    }
                }
            }
        }
        self.edges = edges;
        true
    }

    /// The edges in ascending order.
    pub fn to_vec(&self) -> (edges: Vec<PathCondition>)
        ensures
            edges@.to_set() == self@,
            strictly_ascending(edges@),
    {
        proof {
            use_type_invariant(self);
        }
        let edges = self.edges.clone();
        assert(edges@ =~= self.edges@);
        edges
    }
}

/// What a [`PathConditions`] value stands for.
pub enum PathConditionsView {
    /// The relation holds at this block; no edge has been recorded yet.
    AtBlock(BasicBlock),
    /// The relation holds on the paths that run along these edges.
    Paths(Set<PathCondition>),
}

impl PathConditionsView {
    pub open spec fn root(self) -> Option<BasicBlock> {
        match self {
            PathConditionsView::AtBlock(b) => Some(b),
            PathConditionsView::Paths(edges) => root_of(edges),
        }
    }

    pub open spec fn end(self) -> Option<BasicBlock> {
        match self {
            PathConditionsView::AtBlock(b) => Some(b),
            PathConditionsView::Paths(edges) => end_of(edges),
        }
    }

    /// A seed only takes an edge that leaves its own block.
    pub open spec fn accepts(self, pc: PathCondition) -> bool {
        self matches PathConditionsView::AtBlock(b) ==> b == pc.from
    }

    /// The condition after `pc` was recorded: always a set of paths.
    pub open spec fn inserted(self, pc: PathCondition) -> PathConditionsView {
        match self {
            PathConditionsView::AtBlock(_) => PathConditionsView::Paths(set![pc]),
            PathConditionsView::Paths(edges) => PathConditionsView::Paths(edges.insert(pc)),
        }
    }

    /// Whether recording `pc` adds anything.
    pub open spec fn insert_changes(self, pc: PathCondition) -> bool {
        match self {
            PathConditionsView::AtBlock(_) => true,
            PathConditionsView::Paths(edges) => !edges.contains(pc),
        }
    }

    /// Two seeds can only be joined when they name the same block.
    pub open spec fn joinable(self, other: PathConditionsView) -> bool {
        match (self, other) {
            (PathConditionsView::AtBlock(a), PathConditionsView::AtBlock(b)) => a == b,
            _ => true,
        }
    }

    /// The condition after joining `other`: two path sets are united, any
    /// other pairing leaves the receiver as it is.
    pub open spec fn joined(self, other: PathConditionsView) -> PathConditionsView {
        match (self, other) {
            (PathConditionsView::Paths(a), PathConditionsView::Paths(b)) => PathConditionsView::Paths(
                joined(a, b),
            ),
            _ => self,
        }
    }

    /// Whether joining `other` adds anything.
    pub open spec fn join_changes(self, other: PathConditionsView) -> bool {
        match (self, other) {
            (PathConditionsView::Paths(a), PathConditionsView::Paths(b)) => join_grows(a, b),
            _ => false,
        }
    }

    /// The condition is relevant on the concrete walk `path`: a seed when the
    /// walk ends at its block, a path set when the walk, from the set's root
    /// on, stays inside the set.
    pub open spec fn valid_for_path(self, path: Seq<BasicBlock>) -> bool {
        match self {
            PathConditionsView::AtBlock(b) => path.len() > 0 && path.last() == b,
            PathConditionsView::Paths(edges) => suffix_within(edges, path),
        }
    }

    /// No execution can satisfy both conditions: they differ, both have a
    /// root and an end, and neither's end can reach the other's root.
    pub open spec fn mutually_exclusive(self, other: PathConditionsView, blocks: BasicBlocks) -> bool {
        &&& self != other
        &&& match (self.root(), other.root(), self.end(), other.end()) {
            (Some(r1), Some(r2), Some(e1), Some(e2)) => !blocks.reaches(e2, r1) && !blocks.reaches(
                e1,
                r2,
            ),
            _ => false,
        }
    }
}

/// A seed takes exactly the edges that leave its own block, and taking one
/// turns it into the path set of that edge.
pub proof fn lemma_seed_accepts_only_edges_from_its_block(block: BasicBlock, pc: PathCondition)
    ensures
        PathConditionsView::AtBlock(block).accepts(pc) <==> pc.from == block,
        PathConditionsView::AtBlock(block).inserted(pc) == PathConditionsView::Paths(set![pc]),
        PathConditionsView::AtBlock(block).insert_changes(pc),
{
}

/// Recording an edge always yields a path set, and a path set stays one
/// under every further insert and join: a condition never falls back to a seed,
/// and a path set takes any edge.
pub proof fn lemma_promotion_is_one_way(
    conditions: PathConditionsView,
    pc: PathCondition,
    other: PathConditionsView,
)
    ensures
        conditions.inserted(pc) is Paths,
        conditions is Paths ==> conditions.joined(other) is Paths,
        conditions is Paths ==> conditions.accepts(pc),
        conditions.accepts(pc) <==> (conditions matches PathConditionsView::AtBlock(b) ==> b
            == pc.from),
{
}

/// Joining conditions never loses an edge, and joining the same condition a
/// second time changes nothing and reports no change.
pub proof fn lemma_conditions_join_monotone_and_idempotent(
    a: PathConditionsView,
    b: PathConditionsView,
)
    ensures
        a matches PathConditionsView::Paths(before) ==> a.joined(b) matches PathConditionsView::Paths(
            after,
        ) && before.subset_of(after),
        a.joined(b).joined(b) == a.joined(b),
        !a.joined(b).join_changes(b),
{
    match (a, b) {
        (PathConditionsView::Paths(x), PathConditionsView::Paths(y)) => {
            lemma_join_monotone_and_idempotent(x, y);
        },
        _ => {},
    }
}

/// Mutual exclusion does not depend on the order of the two conditions, and
/// no condition excludes itself.
pub proof fn lemma_mutually_exclusive_symmetric(
    a: PathConditionsView,
    b: PathConditionsView,
    blocks: BasicBlocks,
)
    ensures
        a.mutually_exclusive(b, blocks) == b.mutually_exclusive(a, blocks),
        !a.mutually_exclusive(a, blocks),
{
}

/// Two seeds that exclude each other are never both valid for one walk.
pub proof fn lemma_exclusive_seeds_share_no_path(
    a: BasicBlock,
    b: BasicBlock,
    blocks: BasicBlocks,
    path: Seq<BasicBlock>,
)
    requires
        PathConditionsView::AtBlock(a).mutually_exclusive(PathConditionsView::AtBlock(b), blocks),
    ensures
        !(PathConditionsView::AtBlock(a).valid_for_path(path) && PathConditionsView::AtBlock(
            b,
        ).valid_for_path(path)),
{
}

/// The paths on which a relation holds: a single block to start with, a set
/// of traversed edges from the first recorded edge on.
#[derive(Debug, Hash, PartialOrd, Ord)]
pub enum PathConditions {
    AtBlock(BasicBlock),
    Paths(PCGraph),
}

impl View for PathConditions {
    type V = PathConditionsView;

    open spec fn view(&self) -> PathConditionsView {
        match self {
            PathConditions::AtBlock(b) => PathConditionsView::AtBlock(*b),
            PathConditions::Paths(graph) => PathConditionsView::Paths(graph@),
        }
    }
}

impl Clone for PathConditions {
    fn clone(&self) -> (copy: Self)
        ensures
            copy@ == self@,
    {
        match self {
            PathConditions::AtBlock(b) => PathConditions::AtBlock(*b),
            PathConditions::Paths(graph) => PathConditions::Paths(graph.clone()),
        }
    }
}

impl PartialEq for PathConditions {
    fn eq(&self, other: &Self) -> (same: bool) {
        match (self, other) {
            (PathConditions::AtBlock(a), PathConditions::AtBlock(b)) => *a == *b,
            (PathConditions::Paths(a), PathConditions::Paths(b)) => a == b,
            _ => false,
        }
    }
}

impl Eq for PathConditions {

}

impl PartialEqSpecImpl for PathConditions {
    open spec fn obeys_eq_spec() -> bool {
        true
    }

    open spec fn eq_spec(&self, other: &Self) -> bool {
        self@ == other@
    }
}

impl PathConditions {
    /// The seed condition of `block`.
    pub fn new(block: BasicBlock) -> (conditions: Self)
        ensures
            conditions@ == PathConditionsView::AtBlock(block),
    {
        Self::AtBlock(block)
    }

    /// The block of a seed; the root of a path set.
    pub fn root(&self) -> (root: Option<BasicBlock>)
        ensures
            root == self@.root(),
    {
        match self {
            PathConditions::AtBlock(b) => Some(*b),
            PathConditions::Paths(p) => p.root(),
        }
    }

    /// The block of a seed; the end of a path set.
    pub fn end(&self) -> (end: Option<BasicBlock>)
        ensures
            end == self@.end(),
    {
        match self {
            PathConditions::AtBlock(b) => Some(*b),
            PathConditions::Paths(p) => p.end(),
        }
    }

    /// Returns true if no path through the program would satisfy both conditions.
    pub fn mutually_exclusive(&self, other: &Self, blocks: &BasicBlocks) -> (exclusive: bool)
        ensures
            exclusive == self@.mutually_exclusive(other@, *blocks),
    {
        if self == other {
            return false;
        }
        match (self.root(), other.root(), self.end(), other.end()) {
            (Some(r1), Some(r2), Some(e1), Some(e2)) => {
                !blocks.can_reach(e2, r1) && !blocks.can_reach(e1, r2)
            },
            _ => false,
        }
    }

    /// Merges `other` into the receiver; tells whether the receiver grew.
    pub fn join(&mut self, other: &Self) -> (changed: bool)
        requires
            old(self)@.joinable(other@),
        ensures
            final(self)@ == old(self)@.joined(other@),
            changed == old(self)@.join_changes(other@),
    {
        match (self, other) {
            (PathConditions::Paths(mine), PathConditions::Paths(theirs)) => mine.join(theirs),
            _ => false,
        }
    }

    /// Records the traversal of `pc`. A seed becomes the path set of that one
    /// edge; a path set grows by it. Tells whether anything was added. A seed
    /// only takes an edge that leaves its own block: any other edge is a fault
    /// of the caller, and the call is not to be made.
    pub fn insert(&mut self, pc: PathCondition) -> (inserted: bool)
        requires
            old(self)@.accepts(pc),
        ensures
            final(self)@ == old(self)@.inserted(pc),
            inserted == old(self)@.insert_changes(pc),
    {
        match self {
            PathConditions::AtBlock(_) => {
                *self = PathConditions::Paths(PCGraph::singleton(pc));
                true
            },
            PathConditions::Paths(p) => p.insert(pc),
        }
    }

    /// Whether the condition is relevant on the concrete walk `path`.
    pub fn valid_for_path(&self, path: &[BasicBlock]) -> (valid: bool)
        ensures
            valid == self@.valid_for_path(path@),
    {
        match self {
            PathConditions::AtBlock(b) => path.len() > 0 && path[path.len() - 1] == *b,
            PathConditions::Paths(p) => p.has_suffix_of(path),
        }
    }
}

fn lies_before(a: &PathCondition, b: &PathCondition) -> (before: bool)
    ensures
        before == precedes(*a, *b),
{
    a.from.0 < b.from.0 || (a.from.0 == b.from.0 && a.to.0 < b.to.0)
}

} // verus!
