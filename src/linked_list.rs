//! A doubly linked list kept in a flat arena of slots addressed by index.
//!
//! Slots 0 and 1 are the head and tail sentinels; data slots start at 2.
//! Removed slots go on a free list and are handed out again by later
//! insertions, so an index stays valid from its insertion until its removal.

use vstd::prelude::*;

verus! {

pub type Index = usize;

/// The link value of a slot that is in no chain.
pub const NULL: Index = usize::MAX;

/// The head sentinel.
pub const HEAD: Index = 0;

/// The tail sentinel.
pub const TAIL: Index = 1;

/// The index of the first data slot.
pub const OFFSET: Index = 2;

#[derive(Debug)]
struct Node {
    prev: Index,
    next: Index,
    data: u64,
}

#[derive(Debug)]
struct Nodes {
    head: Node,
    tail: Node,
    data_nodes: Vec<Node>,
}

impl Nodes {
    spec fn node(&self, i: int) -> Node {
        if i == HEAD {
            self.head
        } else if i == TAIL {
            self.tail
        } else {
            self.data_nodes@[i - OFFSET]
        }
    }

    spec fn slot_count(&self) -> nat {
        self.data_nodes@.len()
    }

    spec fn in_range(&self, i: int) -> bool {
        0 <= i < self.slot_count() + OFFSET
    }

    fn with_capacity(capacity: usize) -> (r: Nodes)
        ensures
            r.slot_count() == 0,
            r.head.prev == NULL,
            r.head.next == TAIL,
            r.tail.prev == HEAD,
            r.tail.next == NULL,
    {
        Nodes {
            head: Node { prev: NULL, next: TAIL, data: 0 },
            tail: Node { prev: HEAD, next: NULL, data: 0 },
            data_nodes: Vec::with_capacity(capacity),
        }
    }

    fn new_node(&mut self, data: u64) -> (r: Index)
        requires
            old(self).slot_count() + OFFSET < NULL,
        ensures
            final(self).data_nodes@ == old(self).data_nodes@.push(Node { prev: NULL, next: NULL, data }),
            final(self).head == old(self).head,
            final(self).tail == old(self).tail,
            r == old(self).slot_count() + OFFSET,
    {
        let node = Node { prev: NULL, next: NULL, data };
        self.data_nodes.push(node);
        self.data_nodes.len() - 1 + OFFSET
    }

    fn len(&self) -> (r: usize)
        ensures
            r == self.slot_count(),
    {
        self.data_nodes.len()
    }

    fn head(&self) -> (r: &Node)
        ensures
            *r == self.head,
    {
        &self.head
    }

    fn tail(&self) -> (r: &Node)
        ensures
            *r == self.tail,
    {
        &self.tail
    }

    fn index(&self, index: Index) -> (r: &Node)
        requires
            self.in_range(index as int),
        ensures
            *r == self.node(index as int),
    {
        if index == HEAD {
            &self.head
        } else if index == TAIL {
            &self.tail
        } else {
            &self.data_nodes[index - OFFSET]
        }
    }

    fn set_links(&mut self, index: Index, prev: Index, next: Index)
        requires
            old(self).in_range(index as int),
        ensures
            final(self).slot_count() == old(self).slot_count(),
            forall|i: int|
                old(self).in_range(i) && i != index ==> #[trigger] final(self).node(i) == old(self).node(i),
            final(self).node(index as int) == (Node { prev, next, data: old(self).node(index as int).data }),
            forall|k: int|
                0 <= k < old(self).data_nodes@.len() ==> #[trigger] final(self).data_nodes@[k].data
                    == old(self).data_nodes@[k].data,
    {
        if index == HEAD {
            self.head.prev = prev;
            self.head.next = next;
        } else if index == TAIL {
            self.tail.prev = prev;
            self.tail.next = next;
        } else {
            let data = self.data_nodes[index - OFFSET].data;
            self.data_nodes.set(index - OFFSET, Node { prev, next, data });
        }
    }

    fn set_data(&mut self, index: Index, data: u64)
        requires
            OFFSET <= index,
            old(self).in_range(index as int),
        ensures
            final(self).slot_count() == old(self).slot_count(),
            forall|i: int|
                old(self).in_range(i) && i != index ==> #[trigger] final(self).node(i) == old(self).node(i),
            final(self).node(index as int) == (Node { data, ..old(self).node(index as int) }),
            final(self).head == old(self).head,
            final(self).tail == old(self).tail,
            forall|k: int|
                0 <= k < old(self).data_nodes@.len() && k != index - OFFSET ==> #[trigger] final(self).data_nodes@[k].data
                    == old(self).data_nodes@[k].data,
    {
        let prev = self.data_nodes[index - OFFSET].prev;
        let next = self.data_nodes[index - OFFSET].next;
        self.data_nodes.set(index - OFFSET, Node { prev, next, data });
    }
}

/// A recency list of `u64` values whose elements are addressed by stable
/// slot indices.
pub struct LinkedList {
    nodes: Nodes,
    free: Vec<Index>,
    chain: Ghost<Seq<Index>>,
}

/// The links that the chain `c` asks of the slots of `n`.
spec fn links_follow(n: Nodes, c: Seq<Index>) -> bool {
    &&& n.head.next == (if c.len() == 0 { TAIL } else { c[0] })
    &&& n.tail.prev == (if c.len() == 0 { HEAD } else { c.last() })
    &&& forall|j: int|
        0 <= j < c.len() ==> (#[trigger] n.node(c[j] as int)).prev == (if j == 0 {
            HEAD
        } else {
            c[j - 1]
        })
    &&& forall|j: int|
        0 <= j < c.len() ==> (#[trigger] n.node(c[j] as int)).next == (if j == c.len() - 1 {
            TAIL
        } else {
            c[j + 1]
        })
}

/// Every index of `s` names a data slot of `n`.
spec fn data_indices(n: Nodes, s: Seq<Index>) -> bool {
    forall|j: int| 0 <= j < s.len() ==> OFFSET <= #[trigger] s[j] < n.slot_count() + OFFSET
}

/// The chain and the free list split the data slots between them.
spec fn slots_split(n: Nodes, c: Seq<Index>, f: Seq<Index>) -> bool {
    &&& n.slot_count() + OFFSET < NULL
    &&& c.no_duplicates()
    &&& f.no_duplicates()
    &&& c.disjoint(f)
    &&& data_indices(n, c)
    &&& data_indices(n, f)
    &&& c.len() + f.len() == n.slot_count()
}

impl LinkedList {
    /// The indices of the live elements, from the head to the tail.
    pub closed spec fn order(&self) -> Seq<Index> {
        self.chain@
    }

    /// The value held by each data slot, live or free; slot `i` is at `i - OFFSET`.
    pub closed spec fn slot_values(&self) -> Seq<u64> {
        self.nodes.data_nodes@.map_values(|n: Node| n.data)
    }

    /// The reclaimed slots, in the order in which they were freed.
    pub closed spec fn free_list(&self) -> Seq<Index> {
        self.free@
    }

    pub open spec fn slot_count(&self) -> nat {
        self.slot_values().len()
    }

    pub open spec fn value_at(&self, index: Index) -> u64 {
        self.slot_values()[index - OFFSET]
    }

    pub open spec fn is_live(&self, index: Index) -> bool {
        self.order().contains(index)
    }

    /// The list's invariant: the chain and the free list split the data
    /// slots, and the `prev`/`next` links follow the chain both ways.
    pub closed spec fn wf(&self) -> bool {
        &&& slots_split(self.nodes, self.chain@, self.free@)
        &&& links_follow(self.nodes, self.chain@)
    }

    /// The list's values, from the head to the tail.
    pub open spec fn view(&self) -> Seq<u64> {
        self.order().map_values(|i: Index| self.value_at(i))
    }

    pub fn with_capacity(capacity: usize) -> (r: LinkedList)
        ensures
            r.wf(),
            r.order() == Seq::<Index>::empty(),
            r.free_list() == Seq::<Index>::empty(),
            r.slot_count() == 0,
    {
        LinkedList { nodes: Nodes::with_capacity(capacity), free: vec![], chain: Ghost(Seq::empty()) }
    }

    /// The number of live elements: slots ever created minus free slots.
    pub fn len(&self) -> (r: usize)
        requires
            self.wf(),
        ensures
            r == self.order().len(),
    {
        self.nodes.len() - self.free.len()
    }

    fn valid_index(&self, index: Index) -> (r: bool)
        requires
            self.wf(),
        ensures
            r == (OFFSET <= index < self.slot_count() + OFFSET),
    {
        index != HEAD && index != TAIL && index - OFFSET < self.nodes.len()
    }

    fn node(&self, index: Index) -> (r: Option<&Node>)
        requires
            self.wf(),
        ensures
            r == (if OFFSET <= index < self.slot_count() + OFFSET {
                Some(&self.nodes.node(index as int))
            } else {
                None
            }),
    {
        if self.valid_index(index) {
            Some(self.nodes.index(index))
        } else {
            None
        }
    }

    /// The value in a data slot; `None` for a sentinel or an index past the
    /// arena. A freed slot still reads as the value it last held.
    pub fn peek(&self, index: Index) -> (r: Option<u64>)
        requires
            self.wf(),
        ensures
            r == (if OFFSET <= index < self.slot_count() + OFFSET {
                Some(self.value_at(index))
            } else {
                None
            }),
    {
        match self.node(index) {
            Some(n) => Some(n.data),
            None => None,
        }
    }

    fn peek_unchecked(&self, index: Index) -> (r: &u64)
        requires
            self.wf(),
            OFFSET <= index < self.slot_count() + OFFSET,
        ensures
            *r == self.value_at(index),
    {
        &self.nodes.index(index).data
    }
}


/// The slot `r` is in neither the chain nor the free list; the two split
/// every other data slot between them.
spec fn slots_split_but(n: Nodes, c: Seq<Index>, f: Seq<Index>, r: Index) -> bool {
    &&& n.slot_count() + OFFSET < NULL
    &&& c.no_duplicates()
    &&& f.no_duplicates()
    &&& c.disjoint(f)
    &&& data_indices(n, c)
    &&& data_indices(n, f)
    &&& OFFSET <= r < n.slot_count() + OFFSET
    &&& !c.contains(r)
    &&& !f.contains(r)
    &&& c.len() + f.len() + 1 == n.slot_count()
}

proof fn lemma_insert_fills_split(n: Nodes, c: Seq<Index>, f: Seq<Index>, r: Index, pos: int)
    requires
        slots_split_but(n, c, f, r),
        0 <= pos <= c.len(),
    ensures
        slots_split(n, c.insert(pos, r), f),
{
    let c2 = c.insert(pos, r);
    assert forall|j: int, k: int| 0 <= j < c2.len() && 0 <= k < c2.len() && j != k implies c2[j] != c2[k] by {
        if j != pos && k != pos {
            let jj = if j < pos { j } else { j - 1 };
            let kk = if k < pos { k } else { k - 1 };
            assert(c2[j] == c[jj] && c2[k] == c[kk]);
        } else if j == pos {
            let kk = if k < pos { k } else { k - 1 };
            assert(c2[k] == c[kk]);
        } else {
            let jj = if j < pos { j } else { j - 1 };
            assert(c2[j] == c[jj]);
        }
    }
    assert forall|j: int| 0 <= j < c2.len() implies !f.contains(#[trigger] c2[j]) by {
        if j != pos {
            let jj = if j < pos { j } else { j - 1 };
            assert(c2[j] == c[jj]);
        }
    }
    assert forall|j: int| 0 <= j < c2.len() implies OFFSET <= #[trigger] c2[j] < n.slot_count() + OFFSET by {
        if j != pos {
            let jj = if j < pos { j } else { j - 1 };
            assert(c2[j] == c[jj]);
        }
    }
}

proof fn lemma_free_fills_split(n: Nodes, c: Seq<Index>, f: Seq<Index>, r: Index)
    requires
        slots_split_but(n, c, f, r),
    ensures
        slots_split(n, c, f.push(r)),
{
    let f2 = f.push(r);
    assert forall|j: int, k: int| 0 <= j < f2.len() && 0 <= k < f2.len() && j != k implies f2[j] != f2[k] by {
        if j < f.len() && k < f.len() {
        } else if j == f.len() {
            assert(f.contains(f2[k]));
        } else {
            assert(f.contains(f2[j]));
        }
    }
    assert forall|j: int, k: int| 0 <= j < c.len() && 0 <= k < f2.len() implies c[j] != f2[k] by {
        if k == f.len() {
            assert(c.contains(c[j]));
        }
    }
}

impl LinkedList {
    fn new_node(&mut self, data: u64) -> (r: Index)
        requires
            old(self).wf(),
            old(self).free_list().len() > 0 || old(self).order().len() + 3 < usize::MAX,
        ensures
            final(self).chain == old(self).chain,
            slots_split_but(final(self).nodes, final(self).chain@, final(self).free@, r),
            links_follow(final(self).nodes, final(self).chain@),
            old(self).free@.len() > 0 ==> {
                &&& r == old(self).free@.last()
                &&& final(self).free@ == old(self).free@.drop_last()
                &&& final(self).slot_values() == old(self).slot_values().update(r - OFFSET, data)
            },
            old(self).free@.len() == 0 ==> {
                &&& r == old(self).slot_count() + OFFSET
                &&& final(self).free@ == old(self).free@
                &&& final(self).slot_values() == old(self).slot_values().push(data)
            },
    {
        let ghost c = self.chain@;
        let ghost f = self.free@;
        if let Some(index) = self.free.pop() {
            proof {
                assert(f.contains(index));
                assert(data_indices(self.nodes, f));
                assert(f[f.len() - 1] == index);
            }
            self.nodes.set_data(index, data);
            proof {
                let f2 = f.drop_last();
                assert(self.free@ =~= f2);
                assert forall|j: int| 0 <= j < f2.len() implies f2[j] != index by {
                    assert(f[j] == f2[j]);
                }
                assert forall|j: int| 0 <= j < c.len() implies c[j] != index by {
                    assert(c.contains(c[j]));
                }
                assert forall|j: int| 0 <= j < c.len() implies (#[trigger] self.nodes.node(c[j] as int)) == old(self).nodes.node(c[j] as int) by {
                    assert(c[j] != index);
                }
                assert(self.slot_values() =~= old(self).slot_values().update(index - OFFSET, data));
            }
            index
        } else {
            let index = self.nodes.new_node(data);
            proof {
                assert(c.len() + f.len() == old(self).nodes.slot_count());
                assert forall|j: int| 0 <= j < c.len() implies (#[trigger] self.nodes.node(c[j] as int)) == old(self).nodes.node(c[j] as int) by {
                }
                assert forall|j: int| 0 <= j < c.len() implies c[j] != index by {
                }
                assert(self.slot_values() =~= old(self).slot_values().push(data));
            }
            index
        }
    }

    fn insert_after(&mut self, node_index: Index, at: Index, Ghost(pos): Ghost<int>)
        requires
            slots_split_but(old(self).nodes, old(self).chain@, old(self).free@, node_index),
            links_follow(old(self).nodes, old(self).chain@),
            0 <= pos <= old(self).chain@.len(),
            at == (if pos == 0 { HEAD } else { old(self).chain@[pos - 1] }),
        ensures
            final(self).wf(),
            final(self).chain@ == old(self).chain@.insert(pos, node_index),
            final(self).free@ == old(self).free@,
            final(self).slot_values() == old(self).slot_values(),
    {
        let ghost c = self.chain@;
        let ghost c2 = c.insert(pos, node_index);
        proof {
            if pos > 0 {
                assert(c.contains(c[pos - 1]));
            }
            if pos < c.len() {
                assert(c.contains(c[pos]));
            }
        }
        let at_prev = self.nodes.index(at).prev;
        let next = self.nodes.index(at).next;
        self.nodes.set_links(at, at_prev, node_index);
        self.nodes.set_links(node_index, at, next);
        let next_next = self.nodes.index(next).next;
        self.nodes.set_links(next, node_index, next_next);
        self.chain = Ghost(c2);
        proof {
            lemma_insert_fills_split(old(self).nodes, c, old(self).free@, node_index, pos);
            let n0 = old(self).nodes;
            let n = self.nodes;
            assert(n.head == n.node(HEAD as int) && n0.head == n0.node(HEAD as int));
            assert(n.tail == n.node(TAIL as int) && n0.tail == n0.node(TAIL as int));
            if pos > 0 {
                assert(c2[0] == c[0]);
            }
            if pos < c.len() {
                assert(c2.last() == c.last());
            }
            assert forall|j: int| 0 <= j < c.len() && j != pos - 1 && j != pos implies #[trigger] n.node(c[j] as int) == n0.node(c[j] as int) by {
                assert(c.contains(c[j]));
                if pos > 0 {
                    assert(c[j] != c[pos - 1]);
                }
                if pos < c.len() {
                    assert(c[j] != c[pos]);
                }
            }
            assert forall|j: int| 0 <= j < c2.len() implies (#[trigger] n.node(c2[j] as int)).prev == (if j == 0 { HEAD } else { c2[j - 1] }) by {
                if j < pos {
                    assert(c2[j] == c[j]);
                    if j > 0 {
                        assert(c2[j - 1] == c[j - 1]);
                    }
                } else if j > pos {
                    assert(c2[j] == c[j - 1]);
                    if j > pos + 1 {
                        assert(c2[j - 1] == c[j - 2]);
                    }
                }
            }
            assert forall|j: int| 0 <= j < c2.len() implies (#[trigger] n.node(c2[j] as int)).next == (if j == c2.len() - 1 { TAIL } else { c2[j + 1] }) by {
                if j < pos {
                    assert(c2[j] == c[j]);
                    if j < pos - 1 {
                        assert(c2[j + 1] == c[j + 1]);
                    }
                } else if j > pos {
                    assert(c2[j] == c[j - 1]);
                    if j < c2.len() - 1 {
                        assert(c2[j + 1] == c[j]);
                    }
                } else if j < c2.len() - 1 {
                    assert(c2[j + 1] == c[j]);
                }
            }
            assert(self.slot_values() =~= old(self).slot_values());
        }
    }
}


proof fn lemma_remove_leaves_split(n: Nodes, c: Seq<Index>, f: Seq<Index>, pos: int)
    requires
        slots_split(n, c, f),
        0 <= pos < c.len(),
    ensures
        slots_split_but(n, c.remove(pos), f, c[pos]),
{
    let c2 = c.remove(pos);
    assert forall|j: int, k: int| 0 <= j < c2.len() && 0 <= k < c2.len() && j != k implies c2[j] != c2[k] by {
        let jj = if j < pos { j } else { j + 1 };
        let kk = if k < pos { k } else { k + 1 };
        assert(c2[j] == c[jj] && c2[k] == c[kk]);
    }
    assert forall|j: int| 0 <= j < c2.len() implies !f.contains(#[trigger] c2[j]) by {
        let jj = if j < pos { j } else { j + 1 };
        assert(c2[j] == c[jj]);
    }
    assert forall|j: int| 0 <= j < c2.len() implies OFFSET <= #[trigger] c2[j] < n.slot_count() + OFFSET by {
        let jj = if j < pos { j } else { j + 1 };
        assert(c2[j] == c[jj]);
    }
    assert(!c2.contains(c[pos])) by {
        if c2.contains(c[pos]) {
            let j = choose|j: int| 0 <= j < c2.len() && c2[j] == c[pos];
            let jj = if j < pos { j } else { j + 1 };
            assert(c2[j] == c[jj]);
        }
    }
    assert(!f.contains(c[pos])) by {
        assert(c.contains(c[pos]));
    }
}

/// There is a value among the first `limit` entries of `vals` equal to `value`.
pub open spec fn near_head(vals: Seq<u64>, value: u64, limit: int) -> bool {
    exists|j: int| 0 <= j < limit && j < vals.len() && vals[j] == value
}

impl LinkedList {
    /// The slot of `order()[pos]`, unlinked: the chain closes over it.
    fn lift(&mut self, index: Index, Ghost(pos): Ghost<int>) -> (r: u64)
        requires
            old(self).wf(),
            0 <= pos < old(self).chain@.len(),
            old(self).chain@[pos] == index,
        ensures
            r == old(self).value_at(index),
            final(self).chain@ == old(self).chain@.remove(pos),
            final(self).free@ == old(self).free@,
            final(self).slot_values() == old(self).slot_values(),
            slots_split_but(final(self).nodes, final(self).chain@, final(self).free@, index),
            links_follow(final(self).nodes, final(self).chain@),
    {
        let ghost c = self.chain@;
        let ghost c2 = c.remove(pos);
        proof {
            assert(c.contains(c[pos]));
            if pos > 0 {
                assert(c.contains(c[pos - 1]));
            }
            if pos < c.len() - 1 {
                assert(c.contains(c[pos + 1]));
            }
        }
        let prev = self.nodes.index(index).prev;
        let next = self.nodes.index(index).next;
        let data = self.nodes.index(index).data;
        self.nodes.set_links(index, NULL, NULL);
        let prev_prev = self.nodes.index(prev).prev;
        self.nodes.set_links(prev, prev_prev, next);
        let next_next = self.nodes.index(next).next;
        self.nodes.set_links(next, prev, next_next);
        self.chain = Ghost(c2);
        proof {
            lemma_remove_leaves_split(old(self).nodes, c, old(self).free@, pos);
            let n0 = old(self).nodes;
            let n = self.nodes;
            assert(n.head == n.node(HEAD as int) && n0.head == n0.node(HEAD as int));
            assert(n.tail == n.node(TAIL as int) && n0.tail == n0.node(TAIL as int));
            if pos > 0 {
                assert(c2.len() > 0 && c2[0] == c[0]);
            }
            if pos < c.len() - 1 {
                assert(c2.last() == c.last());
            }
            assert forall|j: int| 0 <= j < c.len() && j != pos - 1 && j != pos && j != pos + 1 implies #[trigger] n.node(c[j] as int) == n0.node(c[j] as int) by {
                assert(c.contains(c[j]));
            }
            assert forall|j: int| 0 <= j < c2.len() implies (#[trigger] n.node(c2[j] as int)).prev == (if j == 0 { HEAD } else { c2[j - 1] }) by {
                if j < pos {
                    assert(c2[j] == c[j]);
                    if j > 0 {
                        assert(c2[j - 1] == c[j - 1]);
                    }
                } else {
                    assert(c2[j] == c[j + 1]);
                    if j > pos {
                        assert(c2[j - 1] == c[j]);
                    } else if j > 0 {
                        assert(c2[j - 1] == c[j - 1]);
                    }
                }
            }
            assert forall|j: int| 0 <= j < c2.len() implies (#[trigger] n.node(c2[j] as int)).next == (if j == c2.len() - 1 { TAIL } else { c2[j + 1] }) by {
                if j < pos {
                    assert(c2[j] == c[j]);
                    if j < pos - 1 {
                        assert(c2[j + 1] == c[j + 1]);
                    } else if j < c2.len() - 1 {
                        assert(c2[j + 1] == c[j + 2]);
                    }
                } else {
                    assert(c2[j] == c[j + 1]);
                    if j < c2.len() - 1 {
                        assert(c2[j + 1] == c[j + 2]);
                    }
                }
            }
            assert(self.slot_values() =~= old(self).slot_values());
        }
        data
    }

    /// Puts `data` at the front of the list and returns its slot: the last
    /// freed slot if there is one, else a new slot at the end of the arena.
    pub fn push_head(&mut self, data: u64) -> (r: Index)
        requires
            old(self).wf(),
            old(self).order().len() + 3 < usize::MAX,
        ensures
            final(self).wf(),
            final(self).order() == seq![r].add(old(self).order()),
            final(self)@ == seq![data].add(old(self)@),
            !old(self).is_live(r),
            final(self).is_live(r),
            Self::allocated(*old(self), *final(self), r, data),
    {
        let new_node_index = self.new_node(data);
        self.insert_after(new_node_index, HEAD, Ghost(0));
        proof {
            self.lemma_view_after_insert(*old(self), new_node_index, data);
            assert(self.chain@ =~= seq![new_node_index].add(old(self).chain@));
            assert(self@ =~= seq![data].add(old(self)@));
            assert(self.chain@[0] == new_node_index);
        }
        new_node_index
    }

    /// Puts `data` at the back of the list and returns its slot, chosen as
    /// `push_head` chooses it.
    pub fn push_tail(&mut self, data: u64) -> (r: Index)
        requires
            old(self).wf(),
            old(self).order().len() + 3 < usize::MAX,
        ensures
            final(self).wf(),
            final(self).order() == old(self).order().push(r),
            final(self)@ == old(self)@.push(data),
            !old(self).is_live(r),
            final(self).is_live(r),
            Self::allocated(*old(self), *final(self), r, data),
    {
        let ghost len = self.chain@.len();
        let new_node_index = self.new_node(data);
        let at = self.nodes.tail().prev;
        self.insert_after(new_node_index, at, Ghost(len as int));
        proof {
            assert(self.chain@ =~= old(self).chain@.push(new_node_index));
            self.lemma_view_after_insert(*old(self), new_node_index, data);
            assert(self@ =~= old(self)@.push(data));
            assert(self.chain@[self.chain@.len() - 1] == new_node_index);
        }
        new_node_index
    }

    /// How an insertion picks the slot `r` for `data`: the last entry of the
    /// free list if it is not empty, else a new slot past the last one.
    pub open spec fn allocated(pre: LinkedList, post: LinkedList, r: Index, data: u64) -> bool {
        if pre.free_list().len() > 0 {
            &&& r == pre.free_list().last()
            &&& post.free_list() == pre.free_list().drop_last()
            &&& post.slot_values() == pre.slot_values().update(r - OFFSET, data)
        } else {
            &&& r == pre.slot_count() + OFFSET
            &&& post.free_list() == pre.free_list()
            &&& post.slot_values() == pre.slot_values().push(data)
        }
    }

    proof fn lemma_view_after_insert(&self, pre: LinkedList, r: Index, data: u64)
        requires
            pre.wf(),
            !pre.order().contains(r),
            OFFSET <= r,
            Self::allocated(pre, *self, r, data),
        ensures
            forall|i: Index| pre.is_live(i) ==> self.value_at(i) == pre.value_at(i),
            self.value_at(r) == data,
    {
        assert forall|i: Index| pre.is_live(i) implies self.value_at(i) == pre.value_at(i) by {
            let j = choose|j: int| 0 <= j < pre.order().len() && pre.order()[j] == i;
            assert(data_indices(pre.nodes, pre.chain@));
            assert(OFFSET <= pre.order()[j] < pre.slot_count() + OFFSET);
        }
    }
}


impl LinkedList {
    /// Unlinks a live slot, puts it on the free list and returns its value.
    pub fn remove(&mut self, index: Index) -> (r: u64)
        requires
            old(self).wf(),
            old(self).is_live(index),
        ensures
            final(self).wf(),
            r == old(self).value_at(index),
            final(self).order() == old(self).order().remove(old(self).order().index_of(index)),
            final(self).free_list() == old(self).free_list().push(index),
            final(self).slot_values() == old(self).slot_values(),
    {
        let ghost pos = self.chain@.index_of(index);
        let data = self.lift(index, Ghost(pos));
        self.free.push(index);
        proof {
            lemma_free_fills_split(self.nodes, self.chain@, old(self).free@, index);
        }
        data
    }

    /// Removes the element at the back, the least recently promoted one.
    pub fn pop_tail(&mut self) -> (r: Option<u64>)
        requires
            old(self).wf(),
        ensures
            final(self).wf(),
            old(self).order().len() == 0 ==> r is None && *final(self) == *old(self),
            old(self).order().len() > 0 ==> {
                &&& r == Some(old(self).value_at(old(self).order().last()))
                &&& final(self).order() == old(self).order().drop_last()
                &&& final(self).free_list() == old(self).free_list().push(old(self).order().last())
                &&& final(self).slot_values() == old(self).slot_values()
            },
            final(self)@ == old(self)@.take(final(self)@.len() as int),
            r is Some ==> final(self)@.len() + 1 == old(self)@.len() && r == Some(old(self)@.last()),
    {
        let data_tail = self.nodes.tail().prev;
        if data_tail == HEAD {
            None
        } else {
            proof {
                let c = self.chain@;
                assert(c.len() > 0);
                assert(c.contains(c.last()));
                assert(c.index_of(c.last()) == c.len() - 1) by {
                    assert(c[c.len() - 1] == c.last());
                }
            }
            let r = self.remove(data_tail);
            proof {
                assert(self.chain@ =~= old(self).chain@.drop_last());
                assert(self@ =~= old(self)@.take(self@.len() as int));
            }
            Some(r)
        }
    }

    /// Moves a live element to the front; nothing changes if it is there already.
    pub fn promote(&mut self, index: Index)
        requires
            old(self).wf(),
            old(self).is_live(index),
        ensures
            final(self).wf(),
            final(self).order() == seq![index].add(
                old(self).order().remove(old(self).order().index_of(index)),
            ),
            final(self).free_list() == old(self).free_list(),
            final(self).slot_values() == old(self).slot_values(),
    {
        let ghost c = self.chain@;
        let ghost pos = c.index_of(index);
        if self.nodes.head().next == index {
            proof {
                assert(c[0] == index);
                assert(pos == 0) by {
                    if pos != 0 {
                        assert(c[pos] == c[0]);
                    }
                }
                assert(c =~= seq![index].add(c.remove(pos)));
            }
            return;
        }
        self.lift(index, Ghost(pos));
        self.insert_after(index, HEAD, Ghost(0));
        proof {
            assert(self.chain@ =~= seq![index].add(c.remove(pos)));
        }
    }

    fn next(&self, index: Index) -> (r: Index)
        requires
            self.wf(),
            self.nodes.in_range(index as int),
        ensures
            r == self.nodes.node(index as int).next,
    {
        self.nodes.index(index).next
    }

    fn prev(&self, index: Index) -> (r: Index)
        requires
            self.wf(),
            self.nodes.in_range(index as int),
        ensures
            r == self.nodes.node(index as int).prev,
    {
        self.nodes.index(index).prev
    }

    /// The slot at the front, if the list is not empty.
    pub fn head(&self) -> (r: Option<Index>)
        requires
            self.wf(),
        ensures
            r == (if self.order().len() == 0 { None } else { Some(self.order()[0]) }),
    {
        let data_head = self.nodes.head().next;
        if data_head == TAIL {
            None
        } else {
            Some(data_head)
        }
    }

    /// The slot at the back, if the list is not empty.
    pub fn tail(&self) -> (r: Option<Index>)
        requires
            self.wf(),
        ensures
            r == (if self.order().len() == 0 { None } else { Some(self.order().last()) }),
    {
        let data_tail = self.nodes.tail().prev;
        if data_tail == HEAD {
            None
        } else {
            Some(data_tail)
        }
    }

    /// Looks for `value` among the first `search_limit` elements from the
    /// front. This is a bounded, approximate probe, not a membership test: a
    /// value further back than `search_limit` is not seen, and a limit of 0
    /// finds nothing.
    pub fn exist_near_head(&self, value: u64, search_limit: usize) -> (r: bool)
        requires
            self.wf(),
        ensures
            r == near_head(self@, value, search_limit as int),
    {
        let mut current_node = HEAD;
        let mut i: usize = 0;
        while i < search_limit
            invariant
                self.wf(),
                i <= search_limit,
                i <= self.order().len(),
                current_node == (if i == 0 { HEAD } else { self.order()[i - 1] }),
                forall|j: int| 0 <= j < i ==> self@[j] != value,
            decreases search_limit - i,
        {
            proof {
                if i > 0 {
                    assert(self.order().contains(self.order()[i - 1]));
                    assert(data_indices(self.nodes, self.chain@));
                }
            }
            current_node = self.next(current_node);
            if current_node == TAIL {
                proof {
                    if i < self.order().len() {
                        assert(data_indices(self.nodes, self.chain@));
                        assert(self.order()[i as int] != TAIL);
                    }
                }
                return false;
            }
            proof {
                assert(i < self.order().len()) by {
                    if i == self.order().len() {
                        if i == 0 {
                        } else {
                            assert(self.nodes.node(self.order()[i - 1] as int).next == TAIL);
                        }
                    }
                }
                assert(data_indices(self.nodes, self.chain@));
                assert(self.order()[i as int] == current_node);
            }
            if self.nodes.index(current_node).data == value {
                proof {
                    assert(self@[i as int] == value);
                }
                return true;
            }
            i += 1;
        }
        false
    }
}


impl LinkedList {
    /// A cursor pair over the live values, front to back and back to front.
    pub fn iter(&self) -> (r: LinkedListIter<'_>)
        requires
            self.wf(),
        ensures
            r.wf(),
            r.list() == *self,
            r.remaining() == self@,
    {
        LinkedListIter { list: self, head: HEAD, tail: TAIL, len: self.len(), front: Ghost(0) }
    }
}

/// Walks the live values of a list from both ends. The two ends meet: each
/// value is handed out once, by whichever end reaches it first.
pub struct LinkedListIter<'a> {
    list: &'a LinkedList,
    head: Index,
    tail: Index,
    len: usize,
    front: Ghost<int>,
}

impl<'a> LinkedListIter<'a> {
    pub closed spec fn list(&self) -> LinkedList {
        *self.list
    }

    /// The values that are left, in list order.
    pub closed spec fn remaining(&self) -> Seq<u64> {
        self.list@.subrange(self.front@, self.front@ + self.len)
    }

    pub closed spec fn wf(&self) -> bool {
        let c = self.list.order();
        &&& self.list.wf()
        &&& 0 <= self.front@
        &&& self.front@ + self.len <= c.len()
        &&& self.head == (if self.front@ == 0 { HEAD } else { c[self.front@ - 1] })
        &&& self.tail == (if self.front@ + self.len == c.len() {
            TAIL
        } else {
            c[self.front@ + self.len]
        })
    }

    /// The next value from the front.
    pub fn next(&mut self) -> (r: Option<&'a u64>)
        requires
            old(self).wf(),
        ensures
            final(self).wf(),
            final(self).list() == old(self).list(),
            old(self).remaining().len() == 0 ==> r is None && final(self).remaining() == old(self).remaining(),
            old(self).remaining().len() > 0 ==> {
                &&& r is Some
                &&& *r->0 == old(self).remaining()[0]
                &&& final(self).remaining() == old(self).remaining().drop_first()
            },
    {
        if self.len == 0 {
            return None;
        }
        proof {
            let c = self.list.order();
            assert(data_indices(self.list.nodes, self.list.chain@));
            if self.front@ > 0 {
                assert(OFFSET <= c[self.front@ - 1]);
            }
            assert(OFFSET <= c[self.front@]);
        }
        let next_index = self.list.next(self.head);
        self.head = next_index;
        self.len = self.len - 1;
        self.front = Ghost(self.front@ + 1);
        proof {
            assert(self.remaining() =~= old(self).remaining().drop_first());
        }
        Some(self.list.peek_unchecked(next_index))
    }

    /// The next value from the back.
    pub fn next_back(&mut self) -> (r: Option<&'a u64>)
        requires
            old(self).wf(),
        ensures
            final(self).wf(),
            final(self).list() == old(self).list(),
            old(self).remaining().len() == 0 ==> r is None && final(self).remaining() == old(self).remaining(),
            old(self).remaining().len() > 0 ==> {
                &&& r is Some
                &&& *r->0 == old(self).remaining().last()
                &&& final(self).remaining() == old(self).remaining().drop_last()
            },
    {
        if self.len == 0 {
            return None;
        }
        proof {
            let c = self.list.order();
            let back = self.front@ + self.len;
            assert(data_indices(self.list.nodes, self.list.chain@));
            if back < c.len() {
                assert(OFFSET <= c[back]);
            }
            assert(OFFSET <= c[back - 1]);
        }
        let prev_index = self.list.prev(self.tail);
        self.tail = prev_index;
        self.len = self.len - 1;
        proof {
            assert(self.remaining() =~= old(self).remaining().drop_last());
        }
        Some(self.list.peek_unchecked(prev_index))
    }

    /// The exact number of values left, as both bounds.
    pub fn size_hint(&self) -> (r: (usize, Option<usize>))
        requires
            self.wf(),
        ensures
            r.0 == self.remaining().len(),
            r.1 == Some(self.remaining().len() as usize),
    {
        (self.len, Some(self.len))
    }
}


impl LinkedList {
    /// The slot reached from the head sentinel by following `next` links
    /// `steps` times.
    pub closed spec fn walk_forward(&self, steps: nat) -> Index
        decreases steps,
    {
        if steps == 0 {
            HEAD
        } else {
            let i = self.walk_forward((steps - 1) as nat);
            if self.nodes.in_range(i as int) {
                self.nodes.node(i as int).next
            } else {
                NULL
            }
        }
    }

    /// Following the `next` links from the head visits the live slots in
    /// order and reaches the tail after `len()` of them, where `len()` is the
    /// number of slots ever made less the number of free slots.
    pub proof fn lemma_forward_walk(&self)
        requires
            self.wf(),
        ensures
            forall|k: int| 0 <= k < self.order().len() ==> #[trigger] self.walk_forward((k + 1) as nat) == self.order()[k],
            self.walk_forward((self.order().len() + 1) as nat) == TAIL,
            self.order().len() == self.slot_count() - self.free_list().len(),
            self@.len() == self.order().len(),
    {
        let c = self.order();
        assert forall|k: int| 0 <= k <= c.len() implies #[trigger] self.walk_forward((k + 1) as nat) == (if k < c.len() { c[k] } else { TAIL }) by {
            self.lemma_walk_prefix(k);
        }
        assert(self.walk_forward((c.len() + 1) as nat) == TAIL);
    }

    proof fn lemma_walk_prefix(&self, k: int)
        requires
            self.wf(),
            0 <= k <= self.order().len(),
        ensures
            self.walk_forward((k + 1) as nat) == (if k < self.order().len() { self.order()[k] } else { TAIL }),
        decreases k,
    {
        let c = self.order();
        assert(self.nodes.head == self.nodes.node(HEAD as int));
        assert(self.walk_forward(0) == HEAD);
        if k > 0 {
            self.lemma_walk_prefix(k - 1);
            assert(data_indices(self.nodes, self.chain@));
            assert(OFFSET <= c[k - 1] < self.nodes.slot_count() + OFFSET);
            assert(self.walk_forward(k as nat) == c[k - 1]);
            assert(self.nodes.node(c[k - 1] as int).next == (if k < c.len() { c[k] } else { TAIL }));
        }
        assert(self.walk_forward((k + 1) as nat) == {
            let i = self.walk_forward(k as nat);
            if self.nodes.in_range(i as int) {
                self.nodes.node(i as int).next
            } else {
                NULL
            }
        });
    }
}

/// The values that `k` successive calls of `pop_tail` return from a list
/// whose values are `vals`.
pub open spec fn tail_pops(vals: Seq<u64>, k: nat) -> Seq<u64>
    decreases k,
{
    if k == 0 || vals.len() == 0 {
        Seq::empty()
    } else {
        seq![vals.last()].add(tail_pops(vals.drop_last(), (k - 1) as nat))
    }
}

/// Draining with `pop_tail` a list filled only by `push_tail` gives the
/// values back in the reverse of their insertion order.
pub proof fn lemma_tail_drain_reverses(vals: Seq<u64>)
    ensures
        tail_pops(vals, vals.len()) == vals.reverse(),
    decreases vals.len(),
{
    if vals.len() > 0 {
        lemma_tail_drain_reverses(vals.drop_last());
        assert(tail_pops(vals, vals.len()) =~= vals.reverse());
    } else {
        assert(tail_pops(vals, vals.len()) =~= vals.reverse());
    }
}

/// After `promote(x)` a walk from the front starts at `x`; the other
/// elements keep their relative order.
pub proof fn lemma_promoted_first(pre: LinkedList, post: LinkedList, x: Index)
    requires
        pre.wf(),
        pre.is_live(x),
        post.order() == seq![x].add(pre.order().remove(pre.order().index_of(x))),
        post.slot_values() == pre.slot_values(),
    ensures
        post.order()[0] == x,
        post@[0] == pre.value_at(x),
        post@.len() == pre@.len(),
        post@.drop_first() == pre@.remove(pre.order().index_of(x)),
{
    let p = pre.order().index_of(x);
    assert(post@.drop_first() =~= pre@.remove(p));
}

/// Right after `push_head(v)` the probe finds `v` with any limit of at
/// least one.
pub proof fn lemma_near_head_after_push(vals: Seq<u64>, v: u64, limit: int)
    requires
        limit >= 1,
    ensures
        near_head(seq![v].add(vals), v, limit),
{
    assert((seq![v].add(vals))[0] == v);
}

/// Once at least `limit` other values have been pushed or promoted in
/// front of every copy of `v`, the probe no longer finds it.
pub proof fn lemma_near_head_misses_buried(front: Seq<u64>, rest: Seq<u64>, v: u64, limit: int)
    requires
        front.len() >= limit,
        !front.contains(v),
    ensures
        !near_head(front.add(rest), v, limit),
{
    assert forall|j: int| 0 <= j < limit && j < (front.add(rest)).len() implies (front.add(rest))[j] != v by {
        assert(front[j] == (front.add(rest))[j]);
    }
}

} // verus!
