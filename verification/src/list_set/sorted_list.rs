//! The strictly increasing singly linked list that both list sets are made of.
use crate::order::{contains_equiv, equiv, is_total_order, lemma_total_order, lt};
use vstd::prelude::*;

verus! {

/// A node of the list: an element and the rest of the list.
#[derive(Debug)]
pub struct Node<T> {
    pub data: T,
    pub next: Option<Box<Node<T>>>,
}

impl<T> Node<T> {
    /// A node holding `data` in front of `next`.
    pub fn new(data: T, next: Option<Box<Node<T>>>) -> (node: Box<Node<T>>)
        ensures
            node.data == data,
            node.next == next,
    {
        Box::new(Node { data, next })
    }
}

/// The elements of the list starting at `link`, in list order.
pub open spec fn seq_of<T>(link: Option<Box<Node<T>>>) -> Seq<T>
    decreases link,
{
    match link {
        None => Seq::empty(),
        Some(node) => seq![node.data] + seq_of(node.next),
    }
}

/// Every element comes strictly before every later one.
pub open spec fn strictly_sorted<T: Ord>(s: Seq<T>) -> bool {
    forall|i: int, j: int| 0 <= i < j < s.len() ==> lt(s[i], s[j])
}

/// Some element of `s` compares equal to `key`.
pub open spec fn seq_contains_equiv<T: Ord>(s: Seq<T>, key: T) -> bool {
    exists|i: int| 0 <= i < s.len() && #[trigger] equiv(s[i], key)
}

/// Some element of `s` compares equal to `key` exactly when some value of its set does.
pub proof fn lemma_contains_equiv<T: Ord>(s: Seq<T>, key: T)
    ensures
        seq_contains_equiv(s, key) == contains_equiv(s.to_set(), key),
{
    if seq_contains_equiv(s, key) {
        let i = choose|i: int| 0 <= i < s.len() && #[trigger] equiv(s[i], key);
        assert(s.to_set().contains(s[i]));
    }
    if contains_equiv(s.to_set(), key) {
        let x = choose|x: T| #[trigger] s.to_set().contains(x) && equiv(x, key);
        let i = choose|i: int| 0 <= i < s.len() && s[i] == x;
        assert(equiv(s[i], key));
    }
}

/// A strictly sorted sequence holds each value once, and as many values as its set has.
pub proof fn lemma_sorted_distinct<T: Ord>(s: Seq<T>)
    requires
        is_total_order::<T>(),
        strictly_sorted(s),
    ensures
        s.no_duplicates(),
        s.len() == s.to_set().len(),
{
    lemma_total_order::<T>();
    assert forall|i: int, j: int| 0 <= i < s.len() && 0 <= j < s.len() && i != j implies s[i]
        != s[j] by {
        if i < j {
            assert(lt(s[i], s[j]));
        } else {
            assert(lt(s[j], s[i]));
        }
    }
    s.unique_seq_to_set();
}

} // verus!

verus! {

/// Unfolds one node of `seq_of`, and bounds what a strictly sorted tail can hold.
proof fn lemma_unfold<T: Ord>(node: Node<T>)
    requires
        is_total_order::<T>(),
        strictly_sorted(seq_of(Some(Box::new(node)))),
    ensures
        seq_of(Some(Box::new(node))) == seq![node.data] + seq_of(node.next),
        strictly_sorted(seq_of(node.next)),
        forall|x: T| #[trigger] seq_of(node.next).contains(x) ==> lt(node.data, x),
{
    let s = seq_of(Some(Box::new(node)));
    let t = seq_of(node.next);
    assert forall|i: int, j: int| 0 <= i < j < t.len() implies lt(t[i], t[j]) by {
        assert(t[i] == s[i + 1] && t[j] == s[j + 1]);
    }
    assert forall|x: T| #[trigger] t.contains(x) implies lt(node.data, x) by {
        let k = choose|k: int| 0 <= k < t.len() && t[k] == x;
        assert(s[0] == node.data && s[k + 1] == x);
    }
}

/// Moves along the list from `head` past the elements smaller than `key`; returns whether it
/// then stands on an element equal to `key`, with the link it stands at (the link to the
/// first element not smaller than `key`) and that element's position.
pub fn find<'a, T: Ord>(head: &'a Option<Box<Node<T>>>, key: &T) -> (res: (
    bool,
    &'a Option<Box<Node<T>>>,
    Ghost<int>,
))
    requires
        is_total_order::<T>(),
        strictly_sorted(seq_of(*head)),
    ensures
        ({
            let (found, cursor, pos) = res;
            let s = seq_of(*head);
            &&& 0 <= pos@ <= s.len()
            &&& seq_of(*cursor) == s.skip(pos@)
            &&& forall|i: int| 0 <= i < pos@ ==> #[trigger] lt(s[i], *key)
            &&& pos@ < s.len() ==> !lt(s[pos@], *key)
            &&& found == (pos@ < s.len() && equiv(s[pos@], *key))
            &&& found == seq_contains_equiv(s, *key)
        }),
{
    proof {
        lemma_total_order::<T>();
    }
    let ghost s = seq_of(*head);
    let mut cur = head;
    let ghost mut i: int = 0;
    assert(s.skip(0) =~= s);
    loop
        invariant
            is_total_order::<T>(),
            s == seq_of(*head),
            strictly_sorted(s),
            0 <= i <= s.len(),
            seq_of(*cur) == s.skip(i),
            forall|j: int| 0 <= j < i ==> #[trigger] lt(s[j], *key),
        decreases s.len() - i,
    {
        proof {
            lemma_total_order::<T>();
        }
        match cur {
            None => {
                assert forall|j: int| 0 <= j < s.len() implies !equiv(s[j], *key) by {
                    assert(lt(s[j], *key));
                }
                return (false, cur, Ghost(i));
            },
            Some(node) => {
                assert(seq_of(*cur) == seq![node.data] + seq_of(node.next));
                assert(i < s.len() && s[i] == node.data) by {
                    assert(s.skip(i)[0] == node.data);
                }
                assert(seq_of(node.next) =~= s.skip(i + 1)) by {
                    assert forall|j: int| 0 <= j < seq_of(node.next).len() implies seq_of(node.next)[j] == s.skip(i + 1)[j] by {
                        assert(s.skip(i)[j + 1] == seq_of(node.next)[j]);
                    }
                }
                match node.data.cmp(key) {
                    core::cmp::Ordering::Greater => {
                        assert forall|j: int| 0 <= j < s.len() implies !equiv(s[j], *key) by {
                            if j < i {
                                assert(lt(s[j], *key));
                            } else if j > i {
                                assert(lt(s[i], s[j]));
                                assert(lt(*key, s[i]));
                                assert(lt(*key, s[j]));
                                if equiv(s[j], *key) {
                                    assert(equiv(*key, s[j]));
                                }
                            } else {
                                assert(lt(*key, s[i]));
                                if equiv(s[j], *key) {
                                    assert(equiv(*key, s[j]));
                                }
                            }
                        }
                        return (false, cur, Ghost(i));
                    },
                    core::cmp::Ordering::Equal => {
                        return (true, cur, Ghost(i));
                    },
                    core::cmp::Ordering::Less => {
                        cur = &node.next;
                        proof {
                            i = i + 1;
                        }
                    },
                }
            },
        }
    }
}

} // verus!

verus! {

/// What a list with `a` in front holds, and when it is strictly sorted.
proof fn lemma_cons<T: Ord>(a: T, t: Seq<T>)
    ensures
        forall|x: T| #[trigger] (seq![a] + t).contains(x) <==> (x == a || t.contains(x)),
        forall|key: T|
            #[trigger] seq_contains_equiv(seq![a] + t, key) <==> (equiv(a, key)
                || seq_contains_equiv(t, key)),
        strictly_sorted(t) && (forall|x: T| #[trigger] t.contains(x) ==> lt(a, x))
            ==> strictly_sorted(seq![a] + t),
{
    let s = seq![a] + t;
    assert forall|key: T|
        #[trigger] seq_contains_equiv(s, key) <==> (equiv(a, key) || seq_contains_equiv(t, key)) by {
        if seq_contains_equiv(s, key) {
            let k = choose|k: int| 0 <= k < s.len() && #[trigger] equiv(s[k], key);
            if k > 0 {
                assert(equiv(t[k - 1], key));
            }
        }
        if equiv(a, key) {
            assert(equiv(s[0], key));
        }
        if seq_contains_equiv(t, key) {
            let k = choose|k: int| 0 <= k < t.len() && #[trigger] equiv(t[k], key);
            assert(equiv(s[k + 1], key));
        }
    }
    assert forall|x: T| #[trigger] s.contains(x) <==> (x == a || t.contains(x)) by {
        if s.contains(x) {
            let k = choose|k: int| 0 <= k < s.len() && s[k] == x;
            if k > 0 {
                assert(t[k - 1] == x);
            }
        }
        if x == a {
            assert(s[0] == x);
        }
        if t.contains(x) {
            let k = choose|k: int| 0 <= k < t.len() && t[k] == x;
            assert(s[k + 1] == x);
        }
    }
    if strictly_sorted(t) && (forall|x: T| #[trigger] t.contains(x) ==> lt(a, x)) {
        assert forall|i: int, j: int| 0 <= i < j < s.len() implies lt(s[i], s[j]) by {
            if i == 0 {
                assert(t.contains(s[j])) by {
                    assert(t[j - 1] == s[j]);
                }
            } else {
                assert(s[i] == t[i - 1] && s[j] == t[j - 1]);
            }
        }
    }
}

/// Puts `key` into the list at its place in the order, unless a value equal to it is there; says
/// whether it did.
pub fn insert<T: Ord>(link: &mut Option<Box<Node<T>>>, key: T) -> (inserted: bool)
    requires
        is_total_order::<T>(),
        strictly_sorted(seq_of(*old(link))),
    ensures
        strictly_sorted(seq_of(*final(link))),
        inserted == !seq_contains_equiv(seq_of(*old(link)), key),
        forall|x: T|
            #[trigger] seq_of(*final(link)).contains(x) <==> (seq_of(*old(link)).contains(x) || (
            inserted && x == key)),
    decreases *old(link),
{
    proof {
        lemma_total_order::<T>();
    }
    let cur = link.take();
    match cur {
        None => {
            let node = Node::new(key, None);
            proof {
                lemma_cons(key, seq_of(node.next));
                assert(seq_of(*old(link)).len() == 0);
                assert(!seq_contains_equiv(seq_of(*old(link)), key));
            }
            *link = Some(node);
            true
        },
        Some(mut node) => {
            proof {
                lemma_unfold(*node);
                lemma_cons(node.data, seq_of(node.next));
            }
            match key.cmp(&node.data) {
                core::cmp::Ordering::Greater => {
                    let ghost old_tail = seq_of(node.next);
                    let inserted = insert(&mut node.next, key);
                    proof {
                        assert(lt(node.data, key));
                        lemma_cons(node.data, seq_of(node.next));
                    }
                    *link = Some(node);
                    inserted
                },
                core::cmp::Ordering::Less => {
                    let ghost old_seq = seq_of(Some(node));
                    proof {
                        assert(lt(key, node.data));
                        assert forall|x: T| #[trigger] old_seq.contains(x) implies lt(key, x) by {
                            if x != node.data {
                                assert(seq_of(node.next).contains(x));
                                assert(lt(node.data, x));
                            }
                        }
                        lemma_cons(key, old_seq);
                        assert forall|i: int| 0 <= i < old_seq.len() implies !equiv(
                            #[trigger] old_seq[i],
                            key,
                        ) by {
                            assert(old_seq.contains(old_seq[i]));
                            assert(lt(key, old_seq[i]));
                            if equiv(old_seq[i], key) {
                                assert(equiv(key, old_seq[i]));
                            }
                        }
                    }
                    *link = Some(Node::new(key, Some(node)));
                    true
                },
                core::cmp::Ordering::Equal => {
                    proof {
                        assert(equiv(key, node.data));
                        assert(equiv(node.data, key));
                        assert(equiv(seq_of(*old(link))[0], key));
                    }
                    *link = Some(node);
                    false
                },
            }
        },
    }
}

/// Takes the value equal to `key` out of the list if there is one; says whether there was.
pub fn remove<T: Ord>(link: &mut Option<Box<Node<T>>>, key: &T) -> (removed: bool)
    requires
        is_total_order::<T>(),
        strictly_sorted(seq_of(*old(link))),
    ensures
        strictly_sorted(seq_of(*final(link))),
        removed == seq_contains_equiv(seq_of(*old(link)), *key),
        forall|x: T|
            #[trigger] seq_of(*final(link)).contains(x) <==> (seq_of(*old(link)).contains(x)
                && !equiv(x, *key)),
    decreases *old(link),
{
    proof {
        lemma_total_order::<T>();
    }
    let cur = link.take();
    match cur {
        None => {
            assert(seq_of(*old(link)).len() == 0);
            assert(!seq_contains_equiv(seq_of(*old(link)), *key));
            false
        },
        Some(mut node) => {
            proof {
                lemma_unfold(*node);
                lemma_cons(node.data, seq_of(node.next));
            }
            match key.cmp(&node.data) {
                core::cmp::Ordering::Greater => {
                    proof {
                        assert(lt(node.data, *key));
                        assert(!equiv(node.data, *key));
                    }
                    let removed = remove(&mut node.next, key);
                    proof {
                        lemma_cons(node.data, seq_of(node.next));
                    }
                    *link = Some(node);
                    removed
                },
                core::cmp::Ordering::Less => {
                    let ghost old_seq = seq_of(Some(node));
                    proof {
                        assert(lt(*key, node.data));
                        assert forall|x: T| #[trigger] old_seq.contains(x) implies !equiv(x, *key) by {
                            if x != node.data {
                                assert(seq_of(node.next).contains(x));
                                assert(lt(node.data, x));
                            }
                            assert(lt(*key, x));
                            if equiv(x, *key) {
                                assert(equiv(*key, x));
                            }
                        }
                        assert forall|i: int| 0 <= i < old_seq.len() implies !equiv(
                            #[trigger] old_seq[i],
                            *key,
                        ) by {
                            assert(old_seq.contains(old_seq[i]));
                        }
                    }
                    *link = Some(node);
                    false
                },
                core::cmp::Ordering::Equal => {
                    proof {
                        assert(equiv(*key, node.data));
                        assert(equiv(node.data, *key));
                        assert(equiv(seq_of(*old(link))[0], *key));
                        assert forall|x: T| #[trigger] seq_of(node.next).contains(x) implies !equiv(
                            x,
                            *key,
                        ) by {
                            assert(lt(node.data, x));
                            if equiv(x, *key) {
                                assert(equiv(*key, x));
                                assert(lt(node.data, *key));
                            }
                        }
                    }
                    *link = node.next;
                    true
                },
            }
        },
    }
}

} // verus!
