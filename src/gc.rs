use vstd::prelude::*;
use std::rc::Rc;
use crate::packed::{unpack, Unpacked, Value, MAX_INDEX, MAX_INT, MIN_INT};
use crate::string::KString;
use crate::value::{self, Datum, List};

verus! {

/// What a heap cell holds.
pub enum Payload {
    /// Nothing: the cell is on the free list.
    Free,
    Str(Vec<u8>),
    List(Vec<Value>),
}

/// A heap cell: a string or list, and whether it lives for the whole run.
pub struct Cell {
    pub payload: Payload,
    /// Static cells, such as the constants of a program, are never reclaimed.
    pub is_static: bool,
}

/// The cell index a word points to, where it points into a heap of `n` cells.
pub open spec fn target(v: Value, n: int) -> Option<int> {
    match v.unpacked() {
        Unpacked::Cell(c) => if c < n { Some(c as int) } else { None },
        _ => None,
    }
}

/// The words a cell holds.
pub open spec fn children(c: Cell) -> Seq<Value> {
    match c.payload {
        Payload::List(items) => items@,
        _ => Seq::empty(),
    }
}

/// Whether cell `c` can be reached from `roots` through at most `k` list cells.
pub open spec fn reach(cells: Seq<Cell>, roots: Seq<Value>, k: nat, c: int) -> bool
    decreases k,
{
    if k == 0 {
        exists|i: int| 0 <= i < roots.len() && target(#[trigger] roots[i], cells.len() as int) == Some(c)
    } else {
        reach(cells, roots, (k - 1) as nat, c) || exists|p: int, j: int|
            0 <= p < cells.len() && reach(cells, roots, (k - 1) as nat, p) && 0 <= j < children(
                cells[p],
            ).len() && target(#[trigger] children(cells[p])[j], cells.len() as int) == Some(c)
    }
}

/// Whether cell `c` can be reached from `roots` at all.
pub open spec fn reachable(cells: Seq<Cell>, roots: Seq<Value>, c: int) -> bool {
    exists|k: nat| reach(cells, roots, k, c)
}

/// The number of cells marked.
pub open spec fn count_marked(m: Seq<bool>) -> nat
    decreases m.len(),
{
    if m.len() == 0 {
        0
    } else {
        count_marked(m.drop_last()) + if m.last() { 1nat } else { 0nat }
    }
}

proof fn lemma_count_bound(m: Seq<bool>)
    ensures
        count_marked(m) <= m.len(),
    decreases m.len(),
{
    if m.len() > 0 {
        lemma_count_bound(m.drop_last());
    }
}

proof fn lemma_count_mark(m: Seq<bool>, i: int)
    requires
        0 <= i < m.len(),
        !m[i],
    ensures
        count_marked(m.update(i, true)) == count_marked(m) + 1,
    decreases m.len(),
{
    let u = m.update(i, true);
    if i == m.len() - 1 {
        assert(u.drop_last() =~= m.drop_last());
    } else {
        lemma_count_mark(m.drop_last(), i);
        assert(u.drop_last() =~= m.drop_last().update(i, true));
    }
}

/// Whether the cell `t` names, if any, is marked.
pub open spec fn covered(marks: Seq<bool>, t: Option<int>) -> bool {
    match t {
        Some(c) => 0 <= c < marks.len() && marks[c],
        None => true,
    }
}

/// Whether every cell a root points to is marked.
pub open spec fn roots_covered(cells: Seq<Cell>, roots: Seq<Value>, marks: Seq<bool>) -> bool {
    forall|i: int| 0 <= i < roots.len() ==> covered(marks, #[trigger] target(roots[i], cells.len() as int))
}

/// Whether every child of a marked cell is marked, but for the cells still in the worklist and
/// the cell `except`.
pub open spec fn children_covered(cells: Seq<Cell>, marks: Seq<bool>, work: Seq<usize>, except: int) -> bool {
    forall|p: int, j: int|
        0 <= p < cells.len() && p != except && marks[p] && !work.contains(p as usize) && 0 <= j
            < children(cells[p]).len() ==> covered(marks, #[trigger] target(children(cells[p])[j], cells.len() as int))
}

/// Whether the marks contain every root and every child of a marked cell outside the worklist.
pub open spec fn marks_closed(cells: Seq<Cell>, roots: Seq<Value>, marks: Seq<bool>, work: Seq<usize>) -> bool {
    roots_covered(cells, roots, marks) && children_covered(cells, marks, work, -1)
}

/// Marking more cells, each newly marked one queued, keeps what was covered covered.
proof fn lemma_grow(
    cells: Seq<Cell>,
    roots: Seq<Value>,
    m0: Seq<bool>,
    m1: Seq<bool>,
    w0: Seq<usize>,
    w1: Seq<usize>,
    except: int,
)
    requires
        m0.len() == cells.len(),
        m1.len() == cells.len(),
        forall|i: int| 0 <= i < cells.len() && m0[i] ==> m1[i],
        forall|q: int| 0 <= q < cells.len() && m1[q] && !m0[q] ==> w1.contains(q as usize),
        forall|q: usize| w0.contains(q) ==> w1.contains(q),
        children_covered(cells, m0, w0, except),
    ensures
        children_covered(cells, m1, w1, except),
        roots_covered(cells, roots, m0) ==> roots_covered(cells, roots, m1),
{
    assert forall|p: int, j: int|
        0 <= p < cells.len() && p != except && m1[p] && !w1.contains(p as usize) && 0 <= j
            < children(cells[p]).len() implies covered(m1, #[trigger] target(children(cells[p])[j], cells.len() as int)) by {
        assert(m0[p]);
        assert(!w0.contains(p as usize));
        assert(covered(m0, target(children(cells[p])[j], cells.len() as int)));
    }
    if roots_covered(cells, roots, m0) {
        assert forall|i: int| 0 <= i < roots.len() implies covered(m1, #[trigger] target(roots[i], cells.len() as int)) by {
            assert(covered(m0, target(roots[i], cells.len() as int)));
        }
    }
}

proof fn lemma_reach_marked(cells: Seq<Cell>, roots: Seq<Value>, marks: Seq<bool>, k: nat, c: int)
    requires
        marks.len() == cells.len(),
        marks_closed(cells, roots, marks, Seq::empty()),
        reach(cells, roots, k, c),
    ensures
        0 <= c < cells.len() && marks[c],
    decreases k,
{
    if k == 0 {
        let i = choose|i: int| 0 <= i < roots.len() && target(#[trigger] roots[i], cells.len() as int) == Some(c);
        assert(target(roots[i], cells.len() as int) == Some(c));
    } else if reach(cells, roots, (k - 1) as nat, c) {
        lemma_reach_marked(cells, roots, marks, (k - 1) as nat, c);
    } else {
        let (p, j) = choose|p: int, j: int|
            0 <= p < cells.len() && reach(cells, roots, (k - 1) as nat, p) && 0 <= j < children(
                cells[p],
            ).len() && target(#[trigger] children(cells[p])[j], cells.len() as int) == Some(c);
        lemma_reach_marked(cells, roots, marks, (k - 1) as nat, p);
        assert(!Seq::<usize>::empty().contains(p as usize));
        assert(target(children(cells[p])[j], cells.len() as int) == Some(c));
    }
}

/// A heap of fixed-size cells with a free list, collected by marking and sweeping.
pub struct Heap {
    cells: Vec<Cell>,
    free: Vec<usize>,
}

impl Heap {
    pub closed spec fn wf(&self) -> bool {
        &&& self.cells@.len() <= MAX_INDEX
        &&& forall|i: int| 0 <= i < self.free@.len() ==> #[trigger] self.free@[i] < self.cells@.len()
            && self.cells@[self.free@[i] as int].payload is Free
        &&& forall|i: int, j: int| 0 <= i < self.free@.len() && 0 <= j < self.free@.len() && i != j
            ==> #[trigger] self.free@[i] != #[trigger] self.free@[j]
    }

    pub closed spec fn cells_of(&self) -> Seq<Cell> {
        self.cells@
    }

    pub fn new() -> (r: Heap)
        ensures
            r.wf(),
            r.cells_of().len() == 0,
    {
        Heap { cells: Vec::new(), free: Vec::new() }
    }

    /// Puts `payload` in a free cell, or in a new one, and gives the word that points to it.
    pub fn allocate(&mut self, payload: Payload, is_static: bool) -> (r: Option<Value>)
        requires
            old(self).wf(),
        ensures
            final(self).wf(),
            r is Some ==> {
                let c = r.unwrap().unpacked()->Cell_0 as int;
                &&& r.unwrap().unpacked() is Cell
                &&& 0 <= c < final(self).cells_of().len()
                &&& final(self).cells_of()[c] == (Cell { payload, is_static })
                &&& old(self).cells_of().len() <= final(self).cells_of().len()
                &&& forall|i: int| 0 <= i < old(self).cells_of().len() && i != c ==> final(self).cells_of()[i]
                    == old(self).cells_of()[i]
                &&& (c < old(self).cells_of().len() ==> old(self).cells_of()[c].payload is Free)
            },
            r is None ==> final(self).cells_of() == old(self).cells_of(),
            old(self).cells_of().len() < MAX_INDEX ==> r is Some,
            final(self).cells_of().len() <= old(self).cells_of().len() + 1,
    {
        match self.free.pop() {
            Some(i) => {
                proof {
                    assert(self.free@.len() < old(self).free@.len());
                    assert(old(self).free@[old(self).free@.len() - 1] == i);
                }
                self.cells.set(i, Cell { payload, is_static });
                proof {
                    assert forall|k: int| 0 <= k < self.free@.len() implies #[trigger] self.free@[k] < self.cells@.len()
                        && self.cells@[self.free@[k] as int].payload is Free by {
                        assert(self.free@[k] == old(self).free@[k]);
                        assert(old(self).free@[k] != old(self).free@[old(self).free@.len() - 1]);
                    }
                }
                Some(Value::from_cell(i as u64))
            },
            None => {
                let n = self.cells.len();
                if n as u64 >= MAX_INDEX {
                    return None;
                }
                self.cells.push(Cell { payload, is_static });
                proof {
                    assert forall|k: int| 0 <= k < self.free@.len() implies #[trigger] self.free@[k] < self.cells@.len()
                        && self.cells@[self.free@[k] as int].payload is Free by {
                        assert(self.cells@[self.free@[k] as int] == old(self).cells@[self.free@[k] as int]);
                    }
                }
                Some(Value::from_cell(n as u64))
            },
        }
    }

    /// The bytes of the string cell `v` points to.
    pub fn string_at(&self, v: Value) -> (r: Option<&Vec<u8>>)
        ensures
            r is Some <==> (target(v, self.cells_of().len() as int) is Some && self.cells_of()[target(v, self.cells_of().len() as int).unwrap()].payload is Str),
            r is Some ==> r.unwrap() == self.cells_of()[target(v, self.cells_of().len() as int).unwrap()].payload->Str_0,
    {
        match v.as_cell() {
            Some(c) => {
                if c < self.cells.len() as u64 {
                    match &self.cells[c as usize].payload {
                        Payload::Str(b) => Some(b),
                        _ => None,
                    }
                } else {
                    None
                }
            },
            None => None,
        }
    }

    /// The marks of every cell reachable from `roots`.
    fn mark(&self, roots: &Vec<Value>) -> (r: Vec<bool>)
        ensures
            r@.len() == self.cells@.len(),
            marks_closed(self.cells@, roots@, r@, Seq::empty()),
            forall|c: int| 0 <= c < self.cells@.len() && r@[c] ==> reachable(self.cells@, roots@, c),
    {
        let n = self.cells.len();
        let mut marks: Vec<bool> = Vec::new();
        let mut i: usize = 0;
        while i < n
            invariant
                0 <= i <= n,
                n == self.cells@.len(),
                marks@.len() == i,
                forall|j: int| 0 <= j < i ==> !#[trigger] marks@[j],
            decreases n - i,
        {
            marks.push(false);
            i = i + 1;
        }
        proof {
            lemma_count_all_false(marks@);
        }
        let mut count: usize = 0;
        let mut work: Vec<usize> = Vec::new();
        let mut r: usize = 0;
        while r < roots.len()
            invariant
                0 <= r <= roots@.len(),
                n == self.cells@.len(),
                marks@.len() == n,
                count == count_marked(marks@),
                count <= n,
                forall|k: int| 0 <= k < work@.len() ==> #[trigger] work@[k] < n && marks@[work@[k] as int],
                forall|i: int| 0 <= i < r ==> covered(marks@, #[trigger] target(roots@[i], n as int)),
                children_covered(self.cells@, marks@, work@, -1),
                forall|c: int| 0 <= c < n && marks@[c] ==> reachable(self.cells@, roots@, c),
            decreases roots@.len() - r,
        {
            let ghost m0 = marks@;
            let ghost w0 = work@;
            self.mark_one(&mut marks, &mut count, &mut work, roots[r]);
            proof {
                assert forall|c: int| 0 <= c < n && marks@[c] implies reachable(self.cells@, roots@, c) by {
                    if !m0[c] {
                        assert(target(roots@[r as int], n as int) == Some(c));
                        assert(reach(self.cells@, roots@, 0, c));
                    }
                }
                lemma_grow(self.cells@, roots@, m0, marks@, w0, work@, -1);
                assert forall|i: int| 0 <= i < r + 1 implies covered(marks@, #[trigger] target(roots@[i], n as int)) by {
                    if i < r {
                        assert(covered(m0, target(roots@[i], n as int)));
                    }
                }
            }
            r = r + 1;
        }
        while work.len() > 0
            invariant
                n == self.cells@.len(),
                marks@.len() == n,
                count == count_marked(marks@),
                count <= n,
                forall|k: int| 0 <= k < work@.len() ==> #[trigger] work@[k] < n && marks@[work@[k] as int],
                roots_covered(self.cells@, roots@, marks@),
                children_covered(self.cells@, marks@, work@, -1),
                forall|c: int| 0 <= c < n && marks@[c] ==> reachable(self.cells@, roots@, c),
            decreases n - count, work@.len(),
        {
            let ghost before = work@;
            let p = work.pop().unwrap();
            proof {
                assert(before == work@.push(p));
                assert forall|q: int, j: int|
                    0 <= q < n && q != p && marks@[q] && !work@.contains(q as usize) && 0 <= j
                        < children(self.cells@[q]).len() implies covered(marks@, #[trigger] target(children(self.cells@[q])[j], n as int)) by {
                    assert(!before.contains(q as usize));
                }
                assert(marks@[p as int]) by {
                    assert(before[before.len() - 1] == p);
                }
            }
            let ghost count0 = count;
            let ghost work0 = work@;
            match &self.cells[p].payload {
                Payload::List(items) => {
                    let mut j: usize = 0;
                    while j < items.len()
                        invariant
                            0 <= j <= items@.len(),
                            p < n,
                            marks@[p as int],
                            children(self.cells@[p as int]) == items@,
                            n == self.cells@.len(),
                            marks@.len() == n,
                            count == count_marked(marks@),
                            count <= n,
                            count >= count0,
                            count == count0 ==> work@.len() == work0.len(),
                            forall|k: int| 0 <= k < work@.len() ==> #[trigger] work@[k] < n && marks@[work@[k] as int],
                            roots_covered(self.cells@, roots@, marks@),
                            children_covered(self.cells@, marks@, work@, p as int),
                            forall|m: int| 0 <= m < j ==> covered(marks@, #[trigger] target(items@[m], n as int)),
                            forall|c: int| 0 <= c < n && marks@[c] ==> reachable(self.cells@, roots@, c),
                        decreases items@.len() - j,
                    {
                        let ghost m0 = marks@;
                        let ghost w0 = work@;
                        self.mark_one(&mut marks, &mut count, &mut work, items[j]);
                        proof {
                            assert forall|c: int| 0 <= c < n && marks@[c] implies reachable(self.cells@, roots@, c) by {
                                if !m0[c] {
                                    assert(target(items@[j as int], n as int) == Some(c));
                                    assert(reachable(self.cells@, roots@, p as int));
                                    let k = choose|k: nat| reach(self.cells@, roots@, k, p as int);
                                    assert(target(children(self.cells@[p as int])[j as int], n as int) == Some(c));
                                    assert(reach(self.cells@, roots@, k + 1, c));
                                }
                            }
                            lemma_grow(self.cells@, roots@, m0, marks@, w0, work@, p as int);
                            assert forall|m: int| 0 <= m < j + 1 implies covered(marks@, #[trigger] target(items@[m], n as int)) by {
                                if m < j {
                                    assert(covered(m0, target(items@[m], n as int)));
                                }
                            }
                        }
                        j = j + 1;
                    }
                },
                _ => {},
            }
            proof {
                assert forall|q: int, j: int|
                    0 <= q < n && marks@[q] && !work@.contains(q as usize) && 0 <= j
                        < children(self.cells@[q]).len() implies covered(marks@, #[trigger] target(children(self.cells@[q])[j], n as int)) by {
                    if q == p {
                        assert(self.cells@[q].payload is List);
                    }
                }
            }
        }
        proof {
            assert(work@ =~= Seq::<usize>::empty());
        }
        marks
    }

    /// Reclaims every cell that is neither static nor reachable from `roots`: each cell either
    /// stays as it was or, where it was not static, becomes free. Every cell reachable from the
    /// roots stays as it was.
    pub fn collect(&mut self, roots: &Vec<Value>)
        requires
            old(self).wf(),
        ensures
            final(self).wf(),
            final(self).cells_of().len() == old(self).cells_of().len(),
            forall|c: int|
                0 <= c < old(self).cells_of().len() ==> final(self).cells_of()[c] == old(self).cells_of()[c]
                    || (!old(self).cells_of()[c].is_static && final(self).cells_of()[c].payload is Free),
            forall|c: int|
                0 <= c < old(self).cells_of().len() && #[trigger] reachable(old(self).cells_of(), roots@, c)
                    ==> final(self).cells_of()[c] == old(self).cells_of()[c],
            forall|c: int|
                0 <= c < old(self).cells_of().len() && !reachable(old(self).cells_of(), roots@, c)
                    && !old(self).cells_of()[c].is_static ==> (#[trigger] final(self).cells_of()[c]).payload is Free,
    {
        let marks = self.mark(roots);
        let n = self.cells.len();
        let mut i: usize = 0;
        while i < n
            invariant
                0 <= i <= n,
                n == self.cells@.len(),
                n == old(self).cells@.len(),
                marks@.len() == n,
                self.wf(),
                forall|c: int| i <= c < n ==> self.cells@[c] == old(self).cells@[c],
                forall|c: int|
                    0 <= c < i ==> (marks@[c] && self.cells@[c] == old(self).cells@[c]) || (!marks@[c] && (
                    self.cells@[c] == old(self).cells@[c] || (!old(self).cells@[c].is_static
                        && self.cells@[c].payload is Free))),
                forall|c: int| 0 <= c < i && !marks@[c] && !old(self).cells@[c].is_static ==> (#[trigger] self.cells@[c]).payload is Free,
            decreases n - i,
        {
            let reclaim = !marks[i] && !self.cells[i].is_static && match self.cells[i].payload {
                Payload::Free => false,
                _ => true,
            };
            if reclaim {
                let ghost before = *self;
                self.cells.set(i, Cell { payload: Payload::Free, is_static: false });
                proof {
                    assert forall|k: int| 0 <= k < self.free@.len() implies self.free@[k] != i by {
                        assert(before.cells@[before.free@[k] as int].payload is Free);
                    }
                }
                self.free.push(i);
                proof {
                    assert forall|k: int| 0 <= k < self.free@.len() implies #[trigger] self.free@[k] < self.cells@.len()
                        && self.cells@[self.free@[k] as int].payload is Free by {
                        if k < before.free@.len() {
                            assert(self.free@[k] == before.free@[k]);
                            assert(before.cells@[before.free@[k] as int].payload is Free);
                        }
                    }
                    assert forall|a: int, b: int| 0 <= a < self.free@.len() && 0 <= b < self.free@.len() && a != b
                        implies #[trigger] self.free@[a] != #[trigger] self.free@[b] by {
                        if a < before.free@.len() && b < before.free@.len() {
                            assert(before.free@[a] != before.free@[b]);
                        }
                    }
                }
            }
            i = i + 1;
        }
        proof {
            assert forall|c: int|
                0 <= c < old(self).cells_of().len() implies self.cells_of()[c] == old(self).cells_of()[c]
                    || (!old(self).cells_of()[c].is_static && self.cells_of()[c].payload is Free) by {
                assert(c < i);
                assert(self.cells_of() == self.cells@);
                assert(old(self).cells_of() == old(self).cells@);
                assert((marks@[c] && self.cells@[c] == old(self).cells@[c]) || (!marks@[c] && (
                    self.cells@[c] == old(self).cells@[c] || (!old(self).cells@[c].is_static
                        && self.cells@[c].payload is Free))));
            }
            assert forall|c: int|
                0 <= c < old(self).cells_of().len() && !reachable(old(self).cells_of(), roots@, c)
                    && !old(self).cells_of()[c].is_static implies (#[trigger] self.cells_of()[c]).payload is Free by {
                assert(c < i);
                assert(self.cells_of() == self.cells@);
                assert(!marks@[c]);
            }
            assert forall|c: int|
                0 <= c < old(self).cells_of().len() && #[trigger] reachable(old(self).cells_of(), roots@, c)
                    implies self.cells_of()[c] == old(self).cells_of()[c] by {
                let k = choose|k: nat| reach(old(self).cells@, roots@, k, c);
                lemma_reach_marked(old(self).cells@, roots@, marks@, k, c);
            }
        }
    }

    /// Marks the cell `v` points to, and queues it, unless it is marked already.
    fn mark_one(&self, marks: &mut Vec<bool>, count: &mut usize, work: &mut Vec<usize>, v: Value)
        requires
            old(marks)@.len() == self.cells@.len(),
            *old(count) == count_marked(old(marks)@),
            *old(count) <= self.cells@.len(),
            forall|k: int| 0 <= k < old(work)@.len() ==> #[trigger] old(work)@[k] < self.cells@.len() && old(marks)@[old(work)@[k] as int],
        ensures
            final(marks)@.len() == self.cells@.len(),
            *final(count) == count_marked(final(marks)@),
            *final(count) <= self.cells@.len(),
            *final(count) >= *old(count),
            *final(count) == *old(count) ==> final(marks)@ == old(marks)@ && final(work)@ == old(work)@,
            *final(count) > *old(count) ==> final(work)@.len() == old(work)@.len() + 1,
            forall|k: int| 0 <= k < final(work)@.len() ==> #[trigger] final(work)@[k] < self.cells@.len() && final(marks)@[final(work)@[k] as int],
            forall|i: int| 0 <= i < self.cells@.len() && old(marks)@[i] ==> final(marks)@[i],
            forall|q: int| 0 <= q < self.cells@.len() && final(marks)@[q] && !old(marks)@[q] ==> final(work)@.contains(q as usize),
            covered(final(marks)@, target(v, self.cells@.len() as int)),
            forall|q: usize| old(work)@.contains(q) ==> final(work)@.contains(q),
            forall|q: int| 0 <= q < self.cells@.len() && final(marks)@[q] && !old(marks)@[q] ==> target(v, self.cells@.len() as int) == Some(q),
    {
        match v.as_cell() {
            Some(c) => {
                if c < self.cells.len() as u64 && !marks[c as usize] {
                    let c = c as usize;
                    proof {
                        lemma_count_mark(marks@, c as int);
                        lemma_count_bound(marks@.update(c as int, true));
                    }
                    marks.set(c, true);
                    *count = *count + 1;
                    let ghost w0 = work@;
                    work.push(c);
                    proof {
                        assert(work@[work@.len() - 1] == c);
                        assert forall|q: usize| w0.contains(q) implies work@.contains(q) by {
                            let k = choose|k: int| 0 <= k < w0.len() && w0[k] == q;
                            assert(work@[k] == w0[k]);
                        }
                    }
                }
            },
            None => {},
        }
    }
}

proof fn lemma_count_all_false(m: Seq<bool>)
    requires
        forall|i: int| 0 <= i < m.len() ==> !#[trigger] m[i],
    ensures
        count_marked(m) == 0,
    decreases m.len(),
{
    if m.len() > 0 {
        lemma_count_all_false(m.drop_last());
    }
}

/// Whether word `w`, read against `cells`, stands for `d`: scalars in the word itself, strings
/// and lists in the cell it points to, list elements word by word.
pub open spec fn represents(cells: Seq<Cell>, w: Value, d: Datum) -> bool
    decreases d,
{
    match d {
        Datum::Null => w.unpacked() == Unpacked::Null,
        Datum::Boolean(b) => w.unpacked() == Unpacked::Boolean(b),
        Datum::Integer(i) => w.unpacked() == Unpacked::Integer(i),
        Datum::Block(b) => w.unpacked() == Unpacked::Block(b),
        Datum::Str(s) => match w.unpacked() {
            Unpacked::Cell(c) => c < cells.len() && cells[c as int].payload is Str
                && cells[c as int].payload->Str_0@ == s,
            _ => false,
        },
        Datum::List(items) => match w.unpacked() {
            Unpacked::Cell(c) => c < cells.len() && cells[c as int].payload is List && {
                let ws = cells[c as int].payload->List_0@;
                &&& ws.len() == items.len()
                &&& forall|j: int| 0 <= j < items.len() ==> represents(cells, #[trigger] ws[j], items[j])
            },
            _ => false,
        },
    }
}

/// Whether `load` with `depth` levels can rebuild `d`: its lists nest at most `depth` deep and
/// its block indices fit a `usize`.
pub open spec fn loadable(d: Datum, depth: nat) -> bool
    decreases d,
{
    match d {
        Datum::Block(b) => b <= usize::MAX,
        Datum::List(items) => depth > 0 && forall|j: int| 0 <= j < items.len() ==> loadable(#[trigger] items[j], (depth - 1) as nat),
        _ => true,
    }
}

/// A word read against the same cells stands for one value only.
proof fn lemma_represents_unique(cells: Seq<Cell>, w: Value, d1: Datum, d2: Datum)
    requires
        represents(cells, w, d1),
        represents(cells, w, d2),
    ensures
        d1 == d2,
    decreases d1,
{
    match d1 {
        Datum::List(items) => {
            let items2 = d2->List_0;
            let c = w.unpacked()->Cell_0 as int;
            let ws = cells[c].payload->List_0@;
            assert forall|j: int| 0 <= j < items.len() implies items[j] == items2[j] by {
                assert(represents(cells, ws[j], items[j]));
                assert(represents(cells, ws[j], items2[j]));
                lemma_represents_unique(cells, ws[j], items[j], items2[j]);
            }
            assert(items =~= items2);
        },
        _ => {},
    }
}

/// Whether `d` can be packed: its integers fit 63 bits and its block indices a word.
pub open spec fn storable(d: Datum) -> bool
    decreases d,
{
    match d {
        Datum::Integer(i) => MIN_INT <= i <= MAX_INT,
        Datum::Block(b) => b <= MAX_INDEX,
        Datum::List(items) => forall|j: int| 0 <= j < items.len() ==> storable(#[trigger] items[j]),
        _ => true,
    }
}

/// The number of cells that storing `d` takes: one per string and per list.
pub open spec fn cells_needed(d: Datum) -> nat
    decreases d,
{
    match d {
        Datum::Str(_) => 1,
        Datum::List(items) => 1 + cells_needed_seq(items),
        _ => 0,
    }
}

pub open spec fn cells_needed_seq(items: Seq<Datum>) -> nat
    decreases items,
{
    if items.len() == 0 {
        0
    } else {
        cells_needed_seq(items.drop_last()) + cells_needed(items.last())
    }
}

proof fn lemma_needed_prefix(items: Seq<Datum>, k: int)
    requires
        0 <= k <= items.len(),
    ensures
        cells_needed_seq(items.take(k)) <= cells_needed_seq(items),
    decreases items.len(),
{
    if k < items.len() {
        lemma_needed_prefix(items.drop_last(), k);
        assert(items.drop_last().take(k) =~= items.take(k));
    } else {
        assert(items.take(k) =~= items);
    }
}

/// Whether `c1` holds every cell of `c0` that is in use, unchanged.
pub open spec fn keeps_used(c0: Seq<Cell>, c1: Seq<Cell>) -> bool {
    &&& c0.len() <= c1.len()
    &&& forall|c: int| 0 <= c < c0.len() && !(c0[c].payload is Free) ==> #[trigger] c1[c] == c0[c]
}

pub proof fn lemma_represents_kept(c0: Seq<Cell>, c1: Seq<Cell>, w: Value, d: Datum)
    requires
        represents(c0, w, d),
        keeps_used(c0, c1),
    ensures
        represents(c1, w, d),
    decreases d,
{
    match d {
        Datum::Str(_) => {
            let c = w.unpacked()->Cell_0 as int;
            assert(c1[c] == c0[c]);
        },
        Datum::List(items) => {
            let c = w.unpacked()->Cell_0 as int;
            assert(c1[c] == c0[c]);
            let ws = c0[c].payload->List_0@;
            assert forall|j: int| 0 <= j < items.len() implies represents(c1, #[trigger] ws[j], items[j]) by {
                lemma_represents_kept(c0, c1, ws[j], items[j]);
            }
        },
        _ => {},
    }
}

pub proof fn lemma_keeps_used_trans(c0: Seq<Cell>, c1: Seq<Cell>, c2: Seq<Cell>)
    requires
        keeps_used(c0, c1),
        keeps_used(c1, c2),
    ensures
        keeps_used(c0, c2),
{
    assert forall|c: int| 0 <= c < c0.len() && !(c0[c].payload is Free) implies #[trigger] c2[c] == c0[c] by {
        assert(c1[c] == c0[c]);
    }
}

fn copy_bytes(v: &Vec<u8>) -> (r: Vec<u8>)
    ensures
        r@ == v@,
{
    let mut out: Vec<u8> = Vec::new();
    let mut i: usize = 0;
    while i < v.len()
        invariant
            0 <= i <= v@.len(),
            out@ == v@.subrange(0, i as int),
        decreases v@.len() - i,
    {
        out.push(v[i]);
        i = i + 1;
        assert(out@ =~= v@.subrange(0, i as int));
    }
    assert(v@.subrange(0, v@.len() as int) =~= v@);
    out
}

impl Heap {
    /// Stores `v` in the heap and gives the word that stands for it, where it can be packed:
    /// its integers must fit in 63 bits and its block indices in a word. Cells in use stay as
    /// they were.
    pub fn store(&mut self, v: &value::Value, is_static: bool) -> (r: Option<Value>)
        requires
            old(self).wf(),
        ensures
            final(self).wf(),
            keeps_used(old(self).cells_of(), final(self).cells_of()),
            r is Some ==> represents(final(self).cells_of(), r.unwrap(), v.datum()),
            final(self).cells_of().len() <= old(self).cells_of().len() + cells_needed(v.datum()),
            storable(v.datum()) && old(self).cells_of().len() + cells_needed(v.datum()) <= MAX_INDEX ==> r is Some,
        decreases v,
    {
        match v {
            value::Value::Null => Some(Value::null()),
            value::Value::Boolean(b) => Some(Value::from_boolean(*b)),
            value::Value::Integer(i) => {
                if *i < MIN_INT || *i > MAX_INT {
                    None
                } else {
                    Some(Value::from_integer(*i))
                }
            },
            value::Value::Block(b) => {
                if *b as u64 > MAX_INDEX {
                    None
                } else {
                    Some(Value::from_block(*b as u64))
                }
            },
            value::Value::Str(s) => {
                let bytes = copy_bytes(s.as_bytes());
                let ghost before = self.cells@;
                let r = self.allocate(Payload::Str(bytes), is_static);
                proof {
                    assert forall|c: int| 0 <= c < before.len() && !(before[c].payload is Free) implies #[trigger] self.cells@[c] == before[c] by {
                    }
                }
                r
            },
            value::Value::List(l) => {
                let ghost items = l.data();
                let mut words: Vec<Value> = Vec::new();
                let mut i: usize = 0;
                let ghost start = self.cells@;
                proof {
                    value::lemma_data(*l);
                    assert(items.take(0) =~= Seq::<Datum>::empty());
                    lemma_needed_prefix(items, 0);
                    assert(v.datum() == Datum::List(items));
                }
                while i < l.len()
                    invariant
                        0 <= i <= l@.len(),
                        self.wf(),
                        *v == value::Value::List(*l),
                        items == l.data(),
                        items == value::data_of(l@),
                        keeps_used(old(self).cells@, self.cells@),
                        self.cells@.len() <= old(self).cells@.len() + cells_needed_seq(items.take(i as int)),
                        cells_needed_seq(items.take(i as int)) <= cells_needed_seq(items),
                        cells_needed(v.datum()) == 1 + cells_needed_seq(items),
                        storable(v.datum()) ==> forall|k: int| 0 <= k < items.len() ==> storable(#[trigger] items[k]),
                        words@.len() == i,
                        forall|k: int| 0 <= k < i ==> represents(self.cells@, #[trigger] words@[k], items[k]),
                    decreases l@.len() - i,
                {
                    let ghost before = self.cells@;
                    proof {
                        let t = items.take(i + 1);
                        assert(t.drop_last() =~= items.take(i as int));
                        assert(t.last() == items[i as int]);
                        lemma_needed_prefix(items, i + 1);
                        assert(items[i as int] == l@[i as int].datum());
                    }
                    let w = match self.store(&l.elems[i], is_static) {
                        Some(w) => w,
                        None => {
                            return None;
                        },
                    };
                    proof {
                        lemma_keeps_used_trans(old(self).cells@, before, self.cells@);
                        assert forall|k: int| 0 <= k < i implies represents(self.cells@, #[trigger] words@[k], items[k]) by {
                            lemma_represents_kept(before, self.cells@, words@[k], items[k]);
                        }
                    }
                    words.push(w);
                    i = i + 1;
                }
                assert(items.take(l@.len() as int) =~= items);
                let ghost before = self.cells@;
                let ghost ws = words@;
                let r = self.allocate(Payload::List(words), is_static);
                proof {
                    if r is Some {
                        assert(keeps_used(before, self.cells@));
                        lemma_keeps_used_trans(old(self).cells@, before, self.cells@);
                        assert forall|k: int| 0 <= k < items.len() implies represents(self.cells@, #[trigger] ws[k], items[k]) by {
                            lemma_represents_kept(before, self.cells@, ws[k], items[k]);
                        }
                    }
                }
                r
            },
        }
    }

    /// The value word `w` stands for, reading lists at most `depth` levels deep.
    pub fn load(&self, w: Value, depth: usize) -> (r: Option<value::Value>)
        ensures
            r is Some ==> represents(self.cells_of(), w, r.unwrap().datum()),
            forall|d: Datum| represents(self.cells_of(), w, d) && loadable(d, depth as nat) ==> r is Some
                && r.unwrap().datum() == d,
        decreases depth,
    {
        if w.is_null() {
            return Some(value::Value::Null);
        }
        if let Some(b) = w.as_boolean() {
            return Some(value::Value::Boolean(b));
        }
        if let Some(i) = w.as_integer() {
            return Some(value::Value::Integer(i));
        }
        if let Some(b) = w.as_block() {
            if b > usize::MAX as u64 {
                return None;
            }
            return Some(value::Value::Block(b as usize));
        }
        let c = match w.as_cell() {
            Some(c) => c,
            None => {
                return None;
            },
        };
        if c >= self.cells.len() as u64 {
            return None;
        }
        match &self.cells[c as usize].payload {
            Payload::Str(bytes) => {
                let res = value::Value::Str(KString::new_unvalidated(copy_bytes(bytes)));
                proof {
                    assert(represents(self.cells@, w, res.datum()));
                    assert forall|d: Datum| represents(self.cells@, w, d) implies res.datum() == d by {
                        lemma_represents_unique(self.cells@, w, res.datum(), d);
                    }
                }
                Some(res)
            },
            Payload::List(ws) => {
                if depth == 0 {
                    proof {
                        assert forall|d: Datum| !(represents(self.cells@, w, d) && loadable(d, depth as nat)) by {
                            if represents(self.cells@, w, d) {
                                assert(d is List);
                            }
                        }
                    }
                    return None;
                }
                let mut out: Vec<value::Value> = Vec::new();
                let mut j: usize = 0;
                while j < ws.len()
                    invariant
                        0 <= j <= ws@.len(),
                        depth > 0,
                        c < self.cells@.len(),
                        w.unpacked() == Unpacked::Cell(c as nat),
                        self.cells@[c as int].payload == Payload::List(*ws),
                        out@.len() == j,
                        forall|k: int| 0 <= k < j ==> represents(self.cells@, ws@[k], #[trigger] out@[k].datum()),
                    decreases ws@.len() - j,
                {
                    let e = match self.load(ws[j], depth - 1) {
                        Some(e) => e,
                        None => {
                            proof {
                                assert forall|d: Datum| !(represents(self.cells@, w, d) && loadable(d, depth as nat)) by {
                                    if represents(self.cells@, w, d) && loadable(d, depth as nat) {
                                        let items = d->List_0;
                                        assert(represents(self.cells@, ws@[j as int], items[j as int]));
                                        assert(loadable(items[j as int], (depth - 1) as nat));
                                    }
                                }
                            }
                            return None;
                        },
                    };
                    out.push(e);
                    j = j + 1;
                }
                let l = List { elems: Rc::new(out) };
                proof {
                    value::lemma_data(l);
                    assert(w.unpacked() == Unpacked::Cell(c as nat));
                    assert forall|k: int| 0 <= k < l.data().len() implies represents(self.cells@, #[trigger] ws@[k], l.data()[k]) by {
                        assert(l.data()[k] == out@[k].datum());
                    }
                }
                let res = value::Value::List(l);
                proof {
                    assert(res.datum() == Datum::List(l.data()));
                    assert(represents(self.cells@, w, res.datum()));
                    assert forall|d: Datum| represents(self.cells@, w, d) implies res.datum() == d by {
                        lemma_represents_unique(self.cells@, w, res.datum(), d);
                    }
                }
                Some(res)
            },
            Payload::Free => {
                proof {
                    assert forall|d: Datum| !represents(self.cells@, w, d) by {
                        assert(w.unpacked() == Unpacked::Cell(c as nat));
                    }
                }
                None
            },
        }
    }
}

proof fn lemma_represents_reached(
    c0: Seq<Cell>,
    c1: Seq<Cell>,
    roots: Seq<Value>,
    k: nat,
    w: Value,
    d: Datum,
)
    requires
        represents(c0, w, d),
        c1.len() == c0.len(),
        forall|c: int| 0 <= c < c0.len() && #[trigger] reachable(c0, roots, c) ==> c1[c] == c0[c],
        target(w, c0.len() as int) matches Some(c) ==> reach(c0, roots, k, c),
    ensures
        represents(c1, w, d),
    decreases d,
{
    match d {
        Datum::Str(_) => {
            let c = w.unpacked()->Cell_0 as int;
            assert(target(w, c0.len() as int) == Some(c));
            assert(reachable(c0, roots, c));
            assert(c1[c] == c0[c]);
        },
        Datum::List(items) => {
            let c = w.unpacked()->Cell_0 as int;
            assert(target(w, c0.len() as int) == Some(c));
            assert(reachable(c0, roots, c));
            assert(c1[c] == c0[c]);
            let ws = c0[c].payload->List_0@;
            assert(children(c0[c]) == ws);
            assert forall|j: int| 0 <= j < items.len() implies represents(c1, #[trigger] ws[j], items[j]) by {
                if let Some(t) = target(ws[j], c0.len() as int) {
                    assert(target(children(c0[c])[j], c0.len() as int) == Some(t));
                    assert(reach(c0, roots, k + 1, t));
                }
                lemma_represents_reached(c0, c1, roots, k + 1, ws[j], items[j]);
            }
        },
        _ => {},
    }
}

/// A collection leaves every value that a root stands for as it was: any heap that keeps each
/// cell reachable from the roots, as `Heap::collect` does, still reads each root as the same
/// value.
pub proof fn law_collection_keeps_values(c0: Seq<Cell>, c1: Seq<Cell>, roots: Seq<Value>, i: int, d: Datum)
    requires
        0 <= i < roots.len(),
        represents(c0, roots[i], d),
        c1.len() == c0.len(),
        forall|c: int| 0 <= c < c0.len() && #[trigger] reachable(c0, roots, c) ==> c1[c] == c0[c],
    ensures
        represents(c1, roots[i], d),
{
    if let Some(c) = target(roots[i], c0.len() as int) {
        assert(reach(c0, roots, 0, c));
    }
    lemma_represents_reached(c0, c1, roots, 0, roots[i], d);
}

impl Heap {
    /// Stores each of `values` and appends the words that stand for them to `out`; the words
    /// already in `out` keep standing for what they stood for.
    pub(crate) fn store_all(&mut self, values: &Vec<value::Value>, is_static: bool, out: &mut Vec<Value>, meant: Ghost<Seq<Datum>>) -> (r: bool)
        requires
            old(self).wf(),
            meant@.len() == old(out)@.len(),
            forall|k: int| 0 <= k < old(out)@.len() ==> represents(old(self).cells_of(), #[trigger] old(out)@[k], meant@[k]),
        ensures
            final(self).wf(),
            keeps_used(old(self).cells_of(), final(self).cells_of()),
            r ==> final(out)@.len() == old(out)@.len() + values@.len(),
            r ==> forall|k: int| 0 <= k < old(out)@.len() ==> represents(final(self).cells_of(), #[trigger] final(out)@[k], meant@[k]),
            r ==> forall|k: int| 0 <= k < values@.len() ==> represents(
                final(self).cells_of(),
                #[trigger] final(out)@[old(out)@.len() + k],
                values@[k].datum(),
            ),
    {
        let ghost base = old(out)@.len();
        let mut i: usize = 0;
        while i < values.len()
            invariant
                0 <= i <= values@.len(),
                self.wf(),
                keeps_used(old(self).cells_of(), self.cells_of()),
                out@.len() == base + i,
                base == old(out)@.len(),
                forall|k: int| 0 <= k < base ==> represents(self.cells_of(), #[trigger] out@[k], meant@[k]),
                forall|k: int| 0 <= k < i ==> represents(self.cells_of(), #[trigger] out@[base + k], values@[k].datum()),
                forall|k: int| 0 <= k < base ==> out@[k] == old(out)@[k],
            decreases values@.len() - i,
        {
            let ghost before = self.cells_of();
            let ghost prev = out@;
            let w = match self.store(&values[i], is_static) {
                Some(w) => w,
                None => {
                    return false;
                },
            };
            out.push(w);
            proof {
                lemma_keeps_used_trans(old(self).cells_of(), before, self.cells_of());
                assert forall|k: int| 0 <= k < base implies represents(self.cells_of(), #[trigger] out@[k], meant@[k]) by {
                    assert(out@[k] == prev[k]);
                    lemma_represents_kept(before, self.cells_of(), prev[k], meant@[k]);
                }
                assert forall|k: int| 0 <= k < i + 1 implies represents(self.cells_of(), #[trigger] out@[base + k], values@[k].datum()) by {
                    if k < i {
                        assert(out@[base + k] == prev[base + k]);
                        lemma_represents_kept(before, self.cells_of(), prev[base + k], values@[k].datum());
                    }
                }
            }
            i = i + 1;
        }
        true
    }
}

} // verus!
