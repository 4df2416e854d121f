//! An intrusive singly linked list of free blocks. A node is the address of a
//! block inside an [`Arena`]; the word at that address holds the address of
//! the next node, or null at the end of the list.

use vstd::prelude::*;
use crate::arena::{Arena, ArenaModel};

verus! {

/// The link that should lead to position `i` of `nodes`: the node there, or
/// null past the end.
pub open spec fn link_at(nodes: Seq<usize>, i: int) -> usize {
    if 0 <= i < nodes.len() {
        nodes[i]
    } else {
        0
    }
}

/// The words of `m` at the addresses `nodes` link each node to the one after
/// it, and the last one to null.
pub open spec fn linked(m: ArenaModel, nodes: Seq<usize>) -> bool {
    forall|i: int|
        0 <= i < nodes.len() ==> #[trigger] m.holds(nodes[i]) && m.word(nodes[i]) == link_at(
            nodes,
            i + 1,
        )
}

/// A store to an address that is no node of the list leaves its links intact.
pub proof fn lemma_linked_frame(m: ArenaModel, nodes: Seq<usize>, addr: usize, val: usize)
    requires
        linked(m, nodes),
        m.holds(addr),
        !nodes.contains(addr),
    ensures
        linked(m.store(addr, val), nodes),
{
    m.lemma_store(addr, val);
    assert forall|i: int| 0 <= i < nodes.len() implies #[trigger] m.store(addr, val).holds(
        nodes[i],
    ) && m.store(addr, val).word(nodes[i]) == link_at(nodes, i + 1) by {
        assert(m.holds(nodes[i]));
        assert(nodes.contains(nodes[i]));
    }
}

/// An arena that holds the same words at the nodes of a list holds the list.
pub proof fn lemma_linked_agree(m1: ArenaModel, m2: ArenaModel, nodes: Seq<usize>)
    requires
        linked(m1, nodes),
        m2.base == m1.base,
        m2.words.len() == m1.words.len(),
        forall|i: int| 0 <= i < nodes.len() ==> m2.word(#[trigger] nodes[i]) == m1.word(nodes[i]),
    ensures
        linked(m2, nodes),
{
    assert forall|i: int| 0 <= i < nodes.len() implies #[trigger] m2.holds(nodes[i]) && m2.word(
        nodes[i],
    ) == link_at(nodes, i + 1) by {
        assert(m1.holds(nodes[i]));
    }
}

/// An arena that extends the one that holds a list holds the list.
pub proof fn lemma_linked_extends(m1: ArenaModel, m2: ArenaModel, nodes: Seq<usize>)
    requires
        linked(m1, nodes),
        m2.extends(m1),
    ensures
        linked(m2, nodes),
{
    assert forall|i: int| 0 <= i < nodes.len() implies #[trigger] m2.holds(nodes[i]) && m2.word(
        nodes[i],
    ) == link_at(nodes, i + 1) by {
        assert(m1.holds(nodes[i]));
    }
}

/// Removing one element of a duplicate-free sequence leaves a duplicate-free
/// sequence that holds every other element and not the one removed.
pub proof fn lemma_remove_distinct(s: Seq<usize>, i: int)
    requires
        s.no_duplicates(),
        0 <= i < s.len(),
    ensures
        s.remove(i).no_duplicates(),
        !s.remove(i).contains(s[i]),
        forall|a: usize| a != s[i] ==> s.remove(i).contains(a) == s.contains(a),
{
    let r = s.remove(i);
    assert forall|j: int, k: int| 0 <= j < r.len() && 0 <= k < r.len() && j != k implies r[j]
        != r[k] by {
        let jj = if j < i { j } else { j + 1 };
        let kk = if k < i { k } else { k + 1 };
        assert(r[j] == s[jj] && r[k] == s[kk]);
    }
    if r.contains(s[i]) {
        let j = choose|j: int| 0 <= j < r.len() && r[j] == s[i];
        let jj = if j < i { j } else { j + 1 };
        assert(r[j] == s[jj]);
    }
    assert forall|a: usize| a != s[i] implies r.contains(a) == s.contains(a) by {
        if s.contains(a) {
            let j = choose|j: int| 0 <= j < s.len() && s[j] == a;
            let jj = if j < i { j } else { j - 1 };
            assert(r[jj] == a);
        }
        if r.contains(a) {
            let j = choose|j: int| 0 <= j < r.len() && r[j] == a;
            let jj = if j < i { j } else { j + 1 };
            assert(s[jj] == a);
        }
    }
}

/// The head of a free list. Its view is the sequence of node addresses, first
/// node first.
pub struct LinkedList {
    head: usize,
    nodes: Ghost<Seq<usize>>,
}

impl View for LinkedList {
    type V = Seq<usize>;

    closed spec fn view(&self) -> Seq<usize> {
        self.nodes@
    }
}

impl LinkedList {
    /// The address that the list starts at, null for an empty list.
    pub closed spec fn head(&self) -> usize {
        self.head
    }

    /// What holds of a list whatever the arena: the head leads to the first
    /// node, and no node is null or occurs twice.
    pub open spec fn inv(&self) -> bool {
        &&& self.head() == link_at(self@, 0)
        &&& self@.no_duplicates()
        &&& forall|i: int| 0 <= i < self@.len() ==> self@[i] != 0
    }

    /// The list is threaded through `m`.
    pub open spec fn wf(&self, m: ArenaModel) -> bool {
        &&& self.inv()
        &&& linked(m, self@)
    }

    /// Create a new, empty list.
    pub fn new() -> (list: LinkedList)
        ensures
            list@ == Seq::<usize>::empty(),
            list.inv(),
            forall|m: ArenaModel| list.wf(m),
    {
        LinkedList { head: 0, nodes: Ghost(Seq::empty()) }
    }

    /// Return `true` if the list is empty.
    pub fn is_empty(&self) -> (b: bool)
        requires
            self.inv(),
        ensures
            b == (self@.len() == 0),
    {
        self.head == 0
    }

    /// Push `node` to the front of the list.
    pub fn push(&mut self, mem: &mut Arena, node: usize)
        requires
            old(mem)@.wf(),
            old(self).wf(old(mem)@),
            old(mem)@.holds(node),
            !old(self)@.contains(node),
        ensures
            final(mem)@ == old(mem)@.store(node, link_at(old(self)@, 0)),
            final(mem)@.wf(),
            final(self)@ == seq![node] + old(self)@,
            final(self).wf(final(mem)@),
    {
        let ghost before = self.nodes@;
        let ghost m0 = mem@;
        mem.write(node, self.head);
        self.head = node;
        self.nodes = Ghost(seq![node] + before);
        proof {
            m0.lemma_store(node, link_at(before, 0));
            lemma_linked_frame(m0, before, node, link_at(before, 0));
            let after = seq![node] + before;
            assert forall|i: int| 0 <= i < after.len() implies #[trigger] mem@.holds(after[i])
                && mem@.word(after[i]) == link_at(after, i + 1) by {
                if i > 0 {
                    assert(after[i] == before[i - 1]);
                    assert(m0.store(node, link_at(before, 0)).holds(before[i - 1]));
                }
            }
            assert forall|i: int, j: int|
                0 <= i < after.len() && 0 <= j < after.len() && i != j implies after[i]
                != after[j] by {
                if i > 0 {
                    assert(before.contains(before[i - 1]));
                }
                if j > 0 {
                    assert(before.contains(before[j - 1]));
                }
            }
            assert forall|i: int| 0 <= i < after.len() implies after[i] != 0 by {
                if i > 0 {
                    assert(after[i] == before[i - 1]);
                }
            }
        }
    }

    /// Pop the first node in the list.
    pub fn pop(&mut self, mem: &Arena) -> (node: Option<usize>)
        requires
            mem@.wf(),
            old(self).wf(mem@),
        ensures
            final(self).wf(mem@),
            match node {
                None => old(self)@.len() == 0 && final(self)@ == old(self)@,
                Some(n) => old(self)@.len() > 0 && n == old(self)@[0] && final(self)@ == old(self)@.drop_first(),
            },
    {
        if self.head == 0 {
            None
        } else {
            let node = self.head;
            let ghost before = self.nodes@;
            assert(mem@.holds(before[0]));
            self.head = mem.read(node);
            self.nodes = Ghost(before.drop_first());
            proof {
                let after = before.drop_first();
                assert forall|i: int| 0 <= i < after.len() implies #[trigger] mem@.holds(
                    after[i],
                ) && mem@.word(after[i]) == link_at(after, i + 1) by {
                    assert(mem@.holds(before[i + 1]));
                }
            }
            Some(node)
        }
    }

    /// A cursor at the front of the list that visits the nodes in order.
    pub fn iter(&self) -> (it: LinkedListIter)
        ensures
            it@ == self@,
            it.curr() == self.head(),
            forall|m: ArenaModel| self.wf(m) ==> it.wf(m),
    {
        LinkedListIter { curr: self.head, rest: Ghost(self.nodes@) }
    }

    /// The addresses of the nodes, first node first.
    pub fn to_vec(&self, mem: &Arena) -> (nodes: Vec<usize>)
        requires
            mem@.wf(),
            self.wf(mem@),
        ensures
            nodes@ == self@,
    {
        let mut it = self.iter();
        let mut nodes: Vec<usize> = Vec::new();
        loop
            invariant
                mem@.wf(),
                it.wf(mem@),
                nodes@ + it@ == self@,
            ensures
                nodes@ == self@,
            decreases it@.len(),
        {
            let ghost rest = it@;
            match it.next(mem) {
                None => {
                    assert(nodes@ + rest =~= nodes@);
                    break ;
                },
                Some(node) => {
                    nodes.push(node);
                    assert(nodes@ + it@ =~= self@);
                },
            }
        }
        nodes
    }

    /// The node at `addr`, if the list has it.
    pub fn find(&mut self, mem: &Arena, addr: usize) -> (node: Option<ListNode>)
        requires
            mem@.wf(),
            old(self).wf(mem@),
        ensures
            *final(self) == *old(self),
            match node {
                None => !old(self)@.contains(addr),
                Some(n) => n.within(old(self)@) && n.addr() == addr,
            },
    {
        let mut it = self.iter_mut();
        let mut found: Option<ListNode> = None;
        let ghost nodes = self@;
        loop
            invariant_except_break
                found.is_none(),
                forall|k: int| 0 <= k < it.position() ==> nodes[k] != addr,
            invariant
                mem@.wf(),
                it.wf(mem@),
                it.nodes() == nodes,
            ensures
                match found {
                    None => !nodes.contains(addr),
                    Some(n) => n.within(nodes) && n.addr() == addr,
                },
            decreases nodes.len() - it.position(),
        {
            match it.next(mem) {
                None => {
                    break ;
                },
                Some(node) => {
                    if node.ptr() == addr {
                        found = Some(node);
                        break ;
                    }
                },
            }
        }
        found
    }

    /// A cursor at the front of the list whose nodes can be unlinked.
    pub fn iter_mut(&mut self) -> (it: LinkedListMutIter)
        ensures
            *final(self) == *old(self),
            it.nodes() == old(self)@,
            it.position() == 0,
            forall|m: ArenaModel| old(self).wf(m) ==> it.wf(m),
    {
        LinkedListMutIter { prev: 0, curr: self.head, nodes: Ghost(self.nodes@), pos: Ghost(0) }
    }
}

/// A node met while walking a list with [`LinkedList::iter_mut`]: its own
/// address and that of the node before it (null where the head leads to it).
pub struct ListNode {
    prev: usize,
    curr: usize,
    index: Ghost<int>,
}

impl ListNode {
    /// Position of the node in the list that it was taken from.
    pub closed spec fn index(&self) -> int {
        self.index@
    }

    /// Address of the node.
    pub closed spec fn addr(&self) -> usize {
        self.curr
    }

    /// Address of the node before it, null for the first node.
    pub closed spec fn before(&self) -> usize {
        self.prev
    }

    /// The node stands at position `index()` of `nodes`.
    pub open spec fn within(&self, nodes: Seq<usize>) -> bool {
        &&& 0 <= self.index() < nodes.len()
        &&& self.addr() == nodes[self.index()]
        &&& self.before() == link_at(nodes, self.index() - 1)
    }

    /// Remove the node from the list.
    pub fn pop(self, list: &mut LinkedList, mem: &mut Arena) -> (addr: usize)
        requires
            old(mem)@.wf(),
            old(list).wf(old(mem)@),
            self.within(old(list)@),
        ensures
            addr == self.addr(),
            final(list)@ == old(list)@.remove(self.index()),
            final(list).wf(final(mem)@),
            final(mem)@.wf(),
            final(mem)@ == (if self.index() == 0 {
                old(mem)@
            } else {
                old(mem)@.store(self.before(), link_at(old(list)@, self.index() + 1))
            }),
    {
        let ghost before = list.nodes@;
        let ghost m0 = mem@;
        let ghost i = self.index@;
        assert(m0.holds(before[i]));
        let next = mem.read(self.curr);
        if self.prev == 0 {
            list.head = next;
        } else {
            assert(m0.holds(before[i - 1]));
            mem.write(self.prev, next);
        }
        list.nodes = Ghost(before.remove(i));
        proof {
            let after = before.remove(i);
            lemma_remove_distinct(before, i);
            if i > 0 {
                m0.lemma_store(self.prev, next);
            }
            assert forall|j: int| 0 <= j < after.len() implies #[trigger] mem@.holds(after[j])
                && mem@.word(after[j]) == link_at(after, j + 1) by {
                let jj = if j < i { j } else { j + 1 };
                assert(after[j] == before[jj]);
                assert(m0.holds(before[jj]));
                if j + 1 < after.len() {
                    let kk = if j + 1 < i { j + 1 } else { j + 2 };
                    assert(after[j + 1] == before[kk]);
                }
            }
            assert forall|j: int| 0 <= j < after.len() implies after[j] != 0 by {
                let jj = if j < i { j } else { j + 1 };
                assert(after[j] == before[jj]);
            }
        }
        self.curr
    }

    /// Returns the pointed address.
    pub fn ptr(&self) -> (addr: usize)
        ensures
            addr == self.addr(),
    {
        self.curr
    }

    /// The link stored in the node: the address of the node after it.
    pub fn value(&self, mem: &Arena) -> (next: usize)
        requires
            mem@.wf(),
            mem@.holds(self.addr()),
        ensures
            next == mem@.word(self.addr()),
    {
        mem.read(self.curr)
    }
}

/// A cursor over the nodes of a list. Its view is the run of nodes not yet
/// visited.
pub struct LinkedListIter {
    curr: usize,
    rest: Ghost<Seq<usize>>,
}

impl View for LinkedListIter {
    type V = Seq<usize>;

    closed spec fn view(&self) -> Seq<usize> {
        self.rest@
    }
}

impl LinkedListIter {
    /// Address of the node that comes next, null at the end.
    pub closed spec fn curr(&self) -> usize {
        self.curr
    }

    /// The nodes still to visit are threaded through `m`.
    pub open spec fn wf(&self, m: ArenaModel) -> bool {
        &&& self.curr() == link_at(self@, 0)
        &&& forall|i: int| 0 <= i < self@.len() ==> self@[i] != 0
        &&& linked(m, self@)
    }

    /// The next node, or `None` past the last one.
    pub fn next(&mut self, mem: &Arena) -> (node: Option<usize>)
        requires
            mem@.wf(),
            old(self).wf(mem@),
        ensures
            final(self).wf(mem@),
            match node {
                None => old(self)@.len() == 0 && final(self)@ == old(self)@,
                Some(n) => old(self)@.len() > 0 && n == old(self)@[0] && final(self)@ == old(self)@.drop_first(),
            },
    {
        if self.curr != 0 {
            let result = self.curr;
            let ghost before = self.rest@;
            assert(mem@.holds(before[0]));
            self.curr = mem.read(self.curr);
            self.rest = Ghost(before.drop_first());
            proof {
                let after = before.drop_first();
                assert forall|i: int| 0 <= i < after.len() implies #[trigger] mem@.holds(
                    after[i],
                ) && mem@.word(after[i]) == link_at(after, i + 1) by {
                    assert(mem@.holds(before[i + 1]));
                }
                assert forall|i: int| 0 <= i < after.len() implies after[i] != 0 by {
                    assert(after[i] == before[i + 1]);
                }
                assert(result == before[0]);
                assert(mem@.word(before[0]) == link_at(before, 1));
                if after.len() > 0 {
                    assert(after[0] == before[1]);
                }
                assert(link_at(before, 1) == link_at(after, 0));
                assert(self@ == after);
                assert(linked(mem@, after));
            }
            Some(result)
        } else {
            None
        }
    }
}

/// A cursor over the nodes of a list that hands out each node together with
/// its predecessor, so that the node can be unlinked.
pub struct LinkedListMutIter {
    prev: usize,
    curr: usize,
    nodes: Ghost<Seq<usize>>,
    pos: Ghost<int>,
}

impl LinkedListMutIter {
    /// The nodes of the list that is walked.
    pub closed spec fn nodes(&self) -> Seq<usize> {
        self.nodes@
    }

    /// Number of nodes already handed out.
    pub closed spec fn position(&self) -> int {
        self.pos@
    }

    /// Address of the node that comes next, null at the end.
    pub closed spec fn curr(&self) -> usize {
        self.curr
    }

    /// Address of the node handed out last, null before the first.
    pub closed spec fn prev(&self) -> usize {
        self.prev
    }

    /// The cursor stands inside a list that is threaded through `m`.
    pub open spec fn wf(&self, m: ArenaModel) -> bool {
        &&& 0 <= self.position() <= self.nodes().len()
        &&& self.curr() == link_at(self.nodes(), self.position())
        &&& self.prev() == link_at(self.nodes(), self.position() - 1)
        &&& forall|i: int| 0 <= i < self.nodes().len() ==> self.nodes()[i] != 0
        &&& linked(m, self.nodes())
    }

    /// The next node, or `None` past the last one.
    pub fn next(&mut self, mem: &Arena) -> (node: Option<ListNode>)
        requires
            mem@.wf(),
            old(self).wf(mem@),
        ensures
            final(self).wf(mem@),
            final(self).nodes() == old(self).nodes(),
            match node {
                None => old(self).position() == old(self).nodes().len() && final(self).position()
                    == old(self).position(),
                Some(n) => old(self).position() < old(self).nodes().len() && n.index() == old(self).position() && n.within(old(self).nodes()) && final(self).position() == old(self).position() + 1,
            },
    {
        if self.curr != 0 {
            let result = ListNode { prev: self.prev, curr: self.curr, index: Ghost(self.pos@) };
            assert(mem@.holds(self.nodes@[self.pos@]));
            self.prev = self.curr;
            self.curr = mem.read(self.curr);
            self.pos = Ghost(self.pos@ + 1);
            Some(result)
        } else {
            None
        }
    }
}

} // verus!
