//! Singly linked list whose nodes live in an arena and link to each other by arena
//! position, kept sorted by split-order key.
use vstd::prelude::*;

verus! {

/// A node of the list: its split-order key, its value (none for a bucket sentinel) and the
/// place of the next node in the node arena.
pub(crate) struct Node<V> {
    pub(crate) key: u64,
    pub(crate) value: Option<V>,
    pub(crate) next: Option<usize>,
}

/// A position in the list: the node before it (`None` for the head) and the node at it.
pub(crate) struct Cursor {
    pub(crate) prev: Option<usize>,
    pub(crate) curr: Option<usize>,
}

/// Singly linked list of nodes kept in an arena, linked by arena position.
pub(crate) struct List<V> {
    /// Arena of the list's nodes; the place of a removed node is reused.
    pub(crate) nodes: Vec<Node<V>>,
    /// Arena positions of removed nodes, free for reuse.
    pub(crate) free: Vec<usize>,
    /// Arena position of the first node of the list.
    pub(crate) head: Option<usize>,
    /// Arena positions of the list's nodes, in list order.
    pub(crate) order: Ghost<Seq<usize>>,
}

impl<V> List<V> {
    /// Split-order key of the node at list position `i`.
    pub(crate) open spec fn key_at(&self, i: int) -> u64 {
        self.nodes@[self.order@[i] as int].key
    }

    /// Arena position of the node after list position `i` (`-1` stands for the head).
    pub(crate) open spec fn next_of(&self, i: int) -> Option<usize> {
        if i + 1 < self.order@.len() {
            Some(self.order@[i + 1])
        } else {
            None
        }
    }

    /// The links follow `order`, keys strictly increase along it, a node holds a value
    /// exactly when its key is odd, and the free places are places of the arena off the list.
    pub(crate) open spec fn list_inv(&self) -> bool {
        &&& forall|i: int| 0 <= i < self.order@.len() ==> #[trigger] self.order@[i] < self.nodes@.len()
        &&& self.order@.no_duplicates()
        &&& forall|k: int|
            0 <= k < self.free@.len() ==> #[trigger] self.free@[k] < self.nodes@.len()
                && !self.order@.contains(self.free@[k])
        &&& self.free@.no_duplicates()
        &&& self.head == self.next_of(-1)
        &&& forall|i: int|
            0 <= i < self.order@.len() ==> #[trigger] self.nodes@[self.order@[i] as int].next
                == self.next_of(i)
        &&& forall|i: int, j: int|
            0 <= i < j < self.order@.len() ==> #[trigger] self.key_at(i) < #[trigger] self.key_at(j)
        &&& forall|i: int|
            0 <= i < self.order@.len() ==> ((#[trigger] self.key_at(i) & 1 == 0) <==> self.nodes@[self.order@[i] as int].value is None)
    }

    /// Moves from `start` (the head when `None`) along the list past the nodes whose
    /// split-order keys are below `so_key`; says whether it then stands on `so_key`.
    pub(crate) fn find_from(&self, start: Option<usize>, so_key: u64) -> (res: (Cursor, bool, Ghost<int>))
        requires
            self.list_inv(),
            start matches Some(p) ==> exists|i: int|
                0 <= i < self.order@.len() && self.order@[i] == p && self.key_at(i) < so_key,
        ensures
            ({
                let (cursor, found, pos) = res;
                &&& -1 <= pos@ < self.order@.len()
                &&& cursor.prev == (if pos@ == -1 {
                    None
                } else {
                    Some(self.order@[pos@])
                })
                &&& cursor.curr == self.next_of(pos@)
                &&& forall|i: int| 0 <= i <= pos@ ==> #[trigger] self.key_at(i) < so_key
                &&& pos@ + 1 < self.order@.len() ==> so_key <= self.key_at(pos@ + 1)
                &&& found == (pos@ + 1 < self.order@.len() && self.key_at(pos@ + 1) == so_key)
            }),
    {
        let ghost len = self.order@.len();
        let ghost mut pos: int = -1;
        let prev = start;
        let mut prev = prev;
        let mut curr: Option<usize> = self.head;
        if let Some(p) = start {
            proof {
                pos = choose|i: int| 0 <= i < len && self.order@[i] == p && self.key_at(i) < so_key;
            }
            curr = self.nodes[p].next;
        }
        loop
            invariant
                self.list_inv(),
                len == self.order@.len(),
                -1 <= pos < len,
                prev == (if pos == -1 {
                    None
                } else {
                    Some(self.order@[pos])
                }),
                curr == self.next_of(pos),
                forall|i: int| 0 <= i <= pos ==> #[trigger] self.key_at(i) < so_key,
            decreases len - pos,
        {
            match curr {
                None => {
                    return (Cursor { prev, curr: None }, false, Ghost(pos));
                },
                Some(c) => {
                    let k = self.nodes[c].key;
                    if k < so_key {
                        prev = Some(c);
                        curr = self.nodes[c].next;
                        proof {
                            pos = pos + 1;
                        }
                    } else {
                        return (Cursor { prev, curr }, k == so_key, Ghost(pos));
                    }
                },
            }
        }
    }

    /// Links a new node with split-order key `key` and value `value` at the cursor's position,
    /// between list positions `pos` and `pos + 1`; returns its arena position.
    pub(crate) fn link(&mut self, cursor: &Cursor, pos: Ghost<int>, key: u64, value: Option<V>) -> (n: usize)
        requires
            old(self).list_inv(),
            -1 <= pos@ < old(self).order@.len(),
            cursor.prev == (if pos@ == -1 {
                None
            } else {
                Some(old(self).order@[pos@])
            }),
            cursor.curr == old(self).next_of(pos@),
            pos@ >= 0 ==> old(self).key_at(pos@) < key,
            pos@ + 1 < old(self).order@.len() ==> key < old(self).key_at(pos@ + 1),
            (key & 1 == 0) <==> value is None,
        ensures
            final(self).list_inv(),
            !old(self).order@.contains(n),
            n < final(self).nodes@.len(),
            final(self).order@ == old(self).order@.insert(pos@ + 1, n),
            final(self).nodes@.len() >= old(self).nodes@.len(),
            forall|j: int|
                0 <= j < old(self).nodes@.len() && j != n ==> #[trigger] final(self).nodes@[j].key
                    == old(self).nodes@[j].key && final(self).nodes@[j].value
                    == old(self).nodes@[j].value,
            final(self).nodes@[n as int].key == key,
            final(self).nodes@[n as int].value == value,
    {
        let n = match self.free.pop() {
            Some(f) => {
                proof {
                    assert(old(self).free@[old(self).free@.len() - 1] == f);
                }
                self.nodes.set(f, Node { key, value, next: cursor.curr });
                f
            },
            None => {
                let n = self.nodes.len();
                self.nodes.push(Node { key, value, next: cursor.curr });
                n
            },
        };
        proof {
            assert forall|i: int| 0 <= i < old(self).order@.len() implies old(self).order@[i] != n by {
                if self.nodes@.len() == old(self).nodes@.len() {
                    assert(old(self).free@.contains(n));
                }
            }
        }
        match cursor.prev {
            None => {
                self.head = Some(n);
            },
            Some(p) => {
                self.nodes[p].next = Some(n);
            },
        }
        let ghost old_order = self.order@;
        proof {
            self.order@ = old_order.insert(pos@ + 1, n);
            let o = self.order@;
            assert forall|i: int| 0 <= i < o.len() implies #[trigger] o[i] < self.nodes@.len() by {
                if i < pos@ + 1 {
                    assert(o[i] == old_order[i]);
                } else if i > pos@ + 1 {
                    assert(o[i] == old_order[i - 1]);
                }
            }
            assert forall|i: int, j: int| 0 <= i < o.len() && 0 <= j < o.len() && i != j implies o[i] != o[j] by {
                if i != pos@ + 1 && j != pos@ + 1 {
                    let oi = if i < pos@ + 1 { i } else { i - 1 };
                    let oj = if j < pos@ + 1 { j } else { j - 1 };
                    assert(o[i] == old_order[oi] && o[j] == old_order[oj]);
                } else if i == pos@ + 1 {
                    let oj = if j < pos@ + 1 { j } else { j - 1 };
                    assert(o[j] == old_order[oj]);
                } else {
                    let oi = if i < pos@ + 1 { i } else { i - 1 };
                    assert(o[i] == old_order[oi]);
                }
            }
            assert forall|i: int| 0 <= i < o.len() implies #[trigger] self.nodes@[o[i] as int].next
                == self.next_of(i) by {
                if i < pos@ {
                    assert(o[i] == old_order[i] && o[i + 1] == old_order[i + 1]);
                    assert(old(self).nodes@[old_order[i] as int].next == old(self).next_of(i));
                } else if i == pos@ {
                } else if i == pos@ + 1 {
                    if pos@ + 2 < o.len() {
                        assert(o[i + 1] == old_order[pos@ + 1]);
                    }
                } else {
                    assert(o[i] == old_order[i - 1]);
                    assert(old(self).nodes@[old_order[i - 1] as int].next == old(self).next_of(i - 1));
                    if i + 1 < o.len() {
                        assert(o[i + 1] == old_order[i]);
                    }
                }
            }
            assert forall|i: int, j: int| 0 <= i < j < o.len() implies #[trigger] self.key_at(i)
                < #[trigger] self.key_at(j) by {
                let oi = if i < pos@ + 1 { i } else { i - 1 };
                let oj = if j < pos@ + 1 { j } else { j - 1 };
                if i != pos@ + 1 {
                    assert(self.key_at(i) == old(self).key_at(oi));
                }
                if j != pos@ + 1 {
                    assert(self.key_at(j) == old(self).key_at(oj));
                }
                if i == pos@ + 1 && j > pos@ + 1 {
                    assert(old(self).key_at(pos@ + 1) <= old(self).key_at(oj));
                }
                if j == pos@ + 1 && i < pos@ + 1 {
                    assert(old(self).key_at(i) <= old(self).key_at(pos@));
                }
            }
            assert forall|i: int| 0 <= i < o.len() implies ((#[trigger] self.key_at(i) & 1 == 0)
                <==> self.nodes@[o[i] as int].value is None) by {
                if i < pos@ + 1 {
                    assert(o[i] == old_order[i]);
                    assert(old(self).key_at(i) & 1 == 0 <==> old(self).nodes@[old_order[i] as int].value is None);
                } else if i > pos@ + 1 {
                    assert(o[i] == old_order[i - 1]);
                    assert(old(self).key_at(i - 1) & 1 == 0 <==> old(self).nodes@[old_order[i - 1] as int].value is None);
                }
            }
        }
        n
    }

    /// Unlinks the node at the cursor, at list position `pos + 1`; returns the value it held.
    pub(crate) fn unlink(&mut self, cursor: &Cursor, pos: Ghost<int>) -> (value: Option<V>)
        requires
            old(self).list_inv(),
            -1 <= pos@ && pos@ + 1 < old(self).order@.len(),
            cursor.prev == (if pos@ == -1 {
                None
            } else {
                Some(old(self).order@[pos@])
            }),
            cursor.curr == old(self).next_of(pos@),
        ensures
            final(self).list_inv(),
            final(self).order@ == old(self).order@.remove(pos@ + 1),
            final(self).nodes@.len() == old(self).nodes@.len(),
            forall|j: int|
                0 <= j < old(self).nodes@.len() ==> #[trigger] final(self).nodes@[j].key
                    == old(self).nodes@[j].key,
            forall|j: int|
                0 <= j < old(self).nodes@.len() && j != old(self).order@[pos@ + 1] ==> #[trigger] final(self).nodes@[j].value
                    == old(self).nodes@[j].value,
            value == old(self).nodes@[old(self).order@[pos@ + 1] as int].value,
    {
        let c = cursor.curr.unwrap();
        let next = self.nodes[c].next;
        match cursor.prev {
            None => {
                self.head = next;
            },
            Some(p) => {
                self.nodes[p].next = next;
            },
        }
        let value = self.nodes[c].value.take();
        proof {
            assert(old(self).order@[pos@ + 1] == c);
            assert forall|k: int| 0 <= k < old(self).free@.len() implies old(self).free@[k] != c by {
                assert(old(self).order@.contains(c));
            }
        }
        self.free.push(c);
        let ghost old_order = self.order@;
        proof {
            let k = pos@ + 1;
            self.order@ = old_order.remove(k);
            let o = self.order@;
            assert forall|i: int| 0 <= i < o.len() implies #[trigger] o[i] < self.nodes@.len() by {
                if i < k {
                    assert(o[i] == old_order[i]);
                } else {
                    assert(o[i] == old_order[i + 1]);
                }
            }
            assert forall|i: int, j: int| 0 <= i < o.len() && 0 <= j < o.len() && i != j implies o[i] != o[j] by {
                let oi = if i < k { i } else { i + 1 };
                let oj = if j < k { j } else { j + 1 };
                assert(o[i] == old_order[oi] && o[j] == old_order[oj]);
            }
            assert forall|i: int| 0 <= i < o.len() implies o[i] != c by {
                let oi = if i < k { i } else { i + 1 };
                assert(o[i] == old_order[oi]);
            }
            assert forall|i: int| 0 <= i < o.len() implies #[trigger] self.nodes@[o[i] as int].next
                == self.next_of(i) by {
                if i < k - 1 {
                    assert(o[i] == old_order[i] && o[i + 1] == old_order[i + 1]);
                    assert(old(self).nodes@[old_order[i] as int].next == old(self).next_of(i));
                } else if i == k - 1 {
                    assert(old(self).nodes@[c as int].next == old(self).next_of(k));
                    if i + 1 < o.len() {
                        assert(o[i + 1] == old_order[k + 1]);
                    }
                } else {
                    assert(o[i] == old_order[i + 1]);
                    assert(old(self).nodes@[old_order[i + 1] as int].next == old(self).next_of(i + 1));
                    if i + 1 < o.len() {
                        assert(o[i + 1] == old_order[i + 2]);
                    }
                }
            }
            if k == 0 {
                assert(old(self).nodes@[c as int].next == old(self).next_of(0));
                if o.len() > 0 {
                    assert(o[0] == old_order[1]);
                }
            }
            assert forall|i: int, j: int| 0 <= i < j < o.len() implies #[trigger] self.key_at(i)
                < #[trigger] self.key_at(j) by {
                let oi = if i < k { i } else { i + 1 };
                let oj = if j < k { j } else { j + 1 };
                assert(self.key_at(i) == old(self).key_at(oi));
                assert(self.key_at(j) == old(self).key_at(oj));
            }
            assert forall|i: int| 0 <= i < o.len() implies ((#[trigger] self.key_at(i) & 1 == 0)
                <==> self.nodes@[o[i] as int].value is None) by {
                let oi = if i < k { i } else { i + 1 };
                assert(o[i] == old_order[oi]);
                assert(old(self).key_at(oi) & 1 == 0 <==> old(self).nodes@[old_order[oi] as int].value is None);
            }
        }
        value
    }

    /// Some node of the list has split-order key `so_key`.
    pub(crate) open spec fn has_so_key(&self, so_key: u64) -> bool {
        exists|i: int| 0 <= i < self.order@.len() && self.key_at(i) == so_key
    }

    /// The value of the node with split-order key `so_key`.
    pub(crate) open spec fn so_value(&self, so_key: u64) -> Option<V> {
        let i = choose|i: int| 0 <= i < self.order@.len() && self.key_at(i) == so_key;
        self.nodes@[self.order@[i] as int].value
    }

    /// The node at list position `i` is the one `so_value` reads for its key.
    pub(crate) proof fn lemma_so_value(&self, i: int)
        requires
            self.list_inv(),
            0 <= i < self.order@.len(),
        ensures
            self.has_so_key(self.key_at(i)),
            self.so_value(self.key_at(i)) == self.nodes@[self.order@[i] as int].value,
    {
        let sk = self.key_at(i);
        assert(self.has_so_key(sk));
        let j = choose|j: int| 0 <= j < self.order@.len() && self.key_at(j) == sk;
        if j < i {
            assert(self.key_at(j) < self.key_at(i));
        } else if j > i {
            assert(self.key_at(i) < self.key_at(j));
        }
    }

    /// Linking a node with a new key adds that key and leaves every other key's value.
    pub(crate) proof fn lemma_link_so(&self, new: &Self, pos: int, n: usize, key: u64, value: Option<V>)
        requires
            self.list_inv(),
            new.list_inv(),
            -1 <= pos < self.order@.len(),
            !self.order@.contains(n),
            n < new.nodes@.len(),
            new.order@ == self.order@.insert(pos + 1, n),
            forall|j: int|
                0 <= j < self.nodes@.len() && j != n ==> #[trigger] new.nodes@[j].key
                    == self.nodes@[j].key && new.nodes@[j].value == self.nodes@[j].value,
            new.nodes@[n as int].key == key,
            new.nodes@[n as int].value == value,
        ensures
            new.has_so_key(key),
            new.so_value(key) == value,
            forall|x: u64|
                x != key ==> #[trigger] new.has_so_key(x) == self.has_so_key(x) && (self.has_so_key(x)
                    ==> new.so_value(x) == self.so_value(x)),
    {
        assert(new.key_at(pos + 1) == key);
        new.lemma_so_value(pos + 1);
        assert forall|x: u64| x != key implies #[trigger] new.has_so_key(x) == self.has_so_key(x) && (
        self.has_so_key(x) ==> new.so_value(x) == self.so_value(x)) by {
            if self.has_so_key(x) {
                let i = choose|i: int| 0 <= i < self.order@.len() && self.key_at(i) == x;
                let ni = if i <= pos { i } else { i + 1 };
                assert(new.order@[ni] == self.order@[i]);
                assert(new.key_at(ni) == x);
                self.lemma_so_value(i);
                new.lemma_so_value(ni);
            }
            if new.has_so_key(x) {
                let ni = choose|i: int| 0 <= i < new.order@.len() && new.key_at(i) == x;
                let i = if ni <= pos { ni } else { ni - 1 };
                assert(ni != pos + 1);
                assert(new.order@[ni] == self.order@[i]);
                assert(self.key_at(i) == x);
            }
        }
    }

    /// Unlinking the node at list position `pos` removes its key and leaves every other
    /// key's value.
    pub(crate) proof fn lemma_unlink_so(&self, new: &Self, pos: int)
        requires
            self.list_inv(),
            new.list_inv(),
            0 <= pos < self.order@.len(),
            new.order@ == self.order@.remove(pos),
            new.nodes@.len() == self.nodes@.len(),
            forall|j: int|
                0 <= j < self.nodes@.len() ==> #[trigger] new.nodes@[j].key == self.nodes@[j].key,
            forall|j: int|
                0 <= j < self.nodes@.len() && j != self.order@[pos] ==> #[trigger] new.nodes@[j].value
                    == self.nodes@[j].value,
        ensures
            !new.has_so_key(self.key_at(pos)),
            forall|x: u64|
                x != self.key_at(pos) ==> #[trigger] new.has_so_key(x) == self.has_so_key(x) && (
                self.has_so_key(x) ==> new.so_value(x) == self.so_value(x)),
    {
        let key = self.key_at(pos);
        if new.has_so_key(key) {
            let ni = choose|i: int| 0 <= i < new.order@.len() && new.key_at(i) == key;
            let i = if ni < pos { ni } else { ni + 1 };
            assert(new.order@[ni] == self.order@[i]);
            assert(self.key_at(i) == key);
            if i < pos {
                assert(self.key_at(i) < self.key_at(pos));
            } else {
                assert(self.key_at(pos) < self.key_at(i));
            }
        }
        assert forall|x: u64| x != key implies #[trigger] new.has_so_key(x) == self.has_so_key(x) && (
        self.has_so_key(x) ==> new.so_value(x) == self.so_value(x)) by {
            if self.has_so_key(x) {
                let i = choose|i: int| 0 <= i < self.order@.len() && self.key_at(i) == x;
                assert(i != pos);
                let ni = if i < pos { i } else { i - 1 };
                assert(new.order@[ni] == self.order@[i]);
                assert(new.key_at(ni) == x);
                self.lemma_so_value(i);
                new.lemma_so_value(ni);
                assert(self.order@[i] != self.order@[pos]);
            }
            if new.has_so_key(x) {
                let ni = choose|i: int| 0 <= i < new.order@.len() && new.key_at(i) == x;
                let i = if ni < pos { ni } else { ni + 1 };
                assert(new.order@[ni] == self.order@[i]);
                assert(self.key_at(i) == x);
            }
        }
    }

}

} // verus!
