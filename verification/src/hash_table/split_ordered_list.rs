//! Split-ordered linked list: a map from `usize` keys kept in one list sorted by split-order
//! key, entered through per-bucket sentinel nodes that a growable array points to.
use super::arena_list::{Cursor, List};
use super::growable_array::GrowableArray;
use super::split_order::{
    dummy_key_spec, lemma_bucket_before_key, lemma_dummy_before_dummy,
    lemma_key_parity, lemma_regular_key_injective, lemma_rev_rev, regular_key_spec, reverse_bits,
    rev, HIGH_BIT,
};
use vstd::arithmetic::power2::{lemma2_to64, lemma2_to64_rest, lemma_pow2_pos, lemma_pow2_strictly_increases, lemma_pow2_unfold, pow2};
use vstd::bits::lemma_usize_shl_is_mul;
use vstd::prelude::*;

verus! {

/// `mask` is a power of two.
spec fn single_bit(mask: usize) -> bool {
    mask > 0 && mask & ((mask - 1) as usize) == 0
}

/// The highest power of two not above `num`, and 0 for 0.
spec fn top_bit(num: nat) -> nat
    decreases num,
{
    if num <= 1 {
        num
    } else {
        2 * top_bit(num / 2)
    }
}

/// The bucket that bucket `num` is split from: `num` without its highest set bit, and 0 for 0.
spec fn parent_of(num: nat) -> nat {
    (num - top_bit(num)) as nat
}

/// The bucket reached from bucket `b` by going to the parent `k` times.
spec fn ancestor(b: nat, k: nat) -> nat
    decreases k,
{
    if k == 0 {
        b
    } else {
        ancestor(parent_of(b), (k - 1) as nat)
    }
}

/// A number between two consecutive powers of two has the lower one as its highest bit.
proof fn lemma_top_bit(num: nat, j: nat)
    requires
        pow2(j) <= num < pow2(j + 1),
    ensures
        top_bit(num) == pow2(j),
    decreases j,
{
    lemma_pow2_unfold(j + 1);
    if j == 0 {
        lemma2_to64();
    } else {
        lemma_pow2_unfold(j);
        lemma_top_bit(num / 2, (j - 1) as nat);
    }
}

/// Half the range of a `usize` lies below the highest bit of a key.
proof fn lemma_word_fits()
    ensures
        usize::MAX / 2 < HIGH_BIT,
        usize::MAX / 2 >= 2,
{
    vstd::layout::unsigned_int_max_values();
    lemma2_to64();
    lemma2_to64_rest();
    assert(usize::BITS == 32 || usize::BITS == 64);
}

/// A `usize` whose bits lie among another's keeps them there as a `u64`.
proof fn lemma_usize_and_u64(a: usize, b: usize)
    requires
        a & b == a,
    ensures
        (a as u64) & (b as u64) == a as u64,
{
    assert(a & b == a ==> (a as u64) & (b as u64) == a as u64) by (bit_vector);
}

/// The count of stored items past which the number of buckets doubles, per bucket.
pub const LOAD_FACTOR: usize = 2;

/// A key that the map accepts: its highest bit is clear.
pub open spec fn valid_key(key: usize) -> bool {
    key <= usize::MAX / 2
}

/// Map from `usize` keys whose highest bit is clear to `V`.
///
/// All items and all bucket sentinels sit in one list sorted by split-order key. The list's
/// nodes live in an arena and link to each other by arena position; the buckets array holds,
/// for every bucket made so far, the arena position of its sentinel. A search for a key
/// starts at the sentinel of the key's bucket.
pub struct SplitOrderedList<V> {
    /// List sorted by split-order key.
    list: List<V>,
    /// Arena positions of the bucket sentinels.
    buckets: GrowableArray<usize>,
    /// Number of buckets.
    size: usize,
    /// Base-two logarithm of the number of buckets.
    log_size: Ghost<nat>,
    /// Number of items.
    count: usize,
}

impl<V> SplitOrderedList<V> {
    /// Every bucket made so far names a listed node holding its sentinel key, and every
    /// listed sentinel is named by the bucket its key comes from.
    spec fn bucket_inv(&self) -> bool {
        &&& self.buckets.wf()
        &&& forall|b: nat|
            #[trigger] self.buckets.slot(b) matches Some(p) ==> b < HIGH_BIT && self.list.order@.contains(p)
                && self.list.nodes@[p as int].key == dummy_key_spec(b as u64)
        &&& forall|i: int|
            0 <= i < self.list.order@.len() && #[trigger] self.list.key_at(i) & 1 == 0 ==> self.buckets.slot(
                rev(self.list.key_at(i)) as nat,
            ) == Some(self.list.order@[i])
        &&& forall|b: nat|
            #![trigger self.buckets.slot(parent_of(b))]
            self.buckets.slot(b) is Some ==> self.buckets.slot(parent_of(b)) is Some
    }

    /// Every bucket that a made bucket splits up from is made too.
    proof fn lemma_ancestor_made(&self, b: nat, k: nat)
        requires
            self.bucket_inv(),
            self.buckets.slot(b) is Some,
        ensures
            self.buckets.slot(ancestor(b, k)) is Some,
        decreases k,
    {
        if k > 0 {
            self.lemma_ancestor_made(parent_of(b), (k - 1) as nat);
        }
    }

    /// The number of buckets is a power of two, at least 2 and at most half a `usize`.
    spec fn size_inv(&self) -> bool {
        &&& self.size as nat == pow2(self.log_size@)
        &&& 1 <= self.log_size@
        &&& self.size <= usize::MAX / 2
    }

    /// The count is the number of items held.
    spec fn count_inv(&self) -> bool {
        &&& self@.dom().finite()
        &&& self.count as nat == self@.len()
    }

    /// The list, bucket, size and count invariants.
    pub closed spec fn wf(&self) -> bool {
        self.list.list_inv() && self.bucket_inv() && self.size_inv() && self.count_inv()
    }

    /// Number of buckets.
    pub closed spec fn bucket_count(&self) -> nat {
        self.size as nat
    }

    /// The split-order key of a stored key.
    fn regular_key(&self, key: usize) -> (so_key: u64)
        requires
            valid_key(key),
        ensures
            so_key == regular_key_spec(key as u64),
    {
        let mut result = key as u64;
        result = result | HIGH_BIT;
        reverse_bits(result)
    }

    /// The split-order key of the sentinel of bucket `key`.
    fn dummy_key(&self, key: usize) -> (so_key: u64)
        ensures
            so_key == dummy_key_spec(key as u64),
    {
        if key == 0 {
            0
        } else {
            reverse_bits(key as u64)
        }
    }

    /// Returns the arena position of the sentinel of bucket `index`. If the bucket doesn't
    /// exist, recursively initializes the buckets it is split from and then it.
    fn lookup_bucket(&mut self, index: usize) -> (node: usize)
        requires
            old(self).wf(),
            index < old(self).size,
        ensures
            final(self).wf(),
            final(self)@ == old(self)@,
            final(self).size == old(self).size,
            final(self).log_size == old(self).log_size,
            final(self).count == old(self).count,
            forall|b: nat|
                #![trigger final(self).buckets.slot(b)]
                old(self).buckets.slot(b) is Some || b > index ==> final(self).buckets.slot(b)
                    == old(self).buckets.slot(b),
            final(self).buckets.slot(index as nat) == Some(node),
            final(self).list.order@.contains(node),
            final(self).list.nodes@[node as int].key == dummy_key_spec(index as u64),
            forall|k: nat| #[trigger] final(self).buckets.slot(ancestor(index as nat, k)) is Some,
        decreases index, 1nat,
    {
        proof {
            lemma_word_fits();
        }
        let ghost before = *self;
        let bucket = *self.buckets.get(index);
        proof {
            assert forall|b: nat| #[trigger] self.buckets.slot(b) == before.buckets.slot(b) by {}
        }
        if bucket.is_none() {
            self.init_buckets(index);
        }
        let ghost middle = *self;
        let bucket = *self.buckets.get(index);
        proof {
            assert forall|b: nat| #[trigger] self.buckets.slot(b) == middle.buckets.slot(b) by {}
            assert forall|k: nat| #[trigger] self.buckets.slot(ancestor(index as nat, k)) is Some by {
                self.lemma_ancestor_made(index as nat, k);
            }
        }
        bucket.unwrap()
    }

    /// Makes the sentinel of bucket `bucket_index`, after the sentinels of the buckets it is
    /// split from, and points the bucket at it.
    fn init_buckets(&mut self, bucket_index: usize)
        requires
            old(self).wf(),
            bucket_index < old(self).size,
            old(self).buckets.slot(bucket_index as nat) is None,
        ensures
            final(self).wf(),
            final(self)@ == old(self)@,
            final(self).size == old(self).size,
            final(self).log_size == old(self).log_size,
            final(self).count == old(self).count,
            forall|b: nat|
                #![trigger final(self).buckets.slot(b)]
                old(self).buckets.slot(b) is Some || b > bucket_index ==> final(self).buckets.slot(b)
                    == old(self).buckets.slot(b),
            final(self).buckets.slot(bucket_index as nat) is Some,
            forall|k: nat|
                #[trigger] final(self).buckets.slot(ancestor(bucket_index as nat, k)) is Some,
        decreases bucket_index, 0nat,
    {
        proof {
            lemma_word_fits();
        }
        let key = self.dummy_key(bucket_index);
        let start: Option<usize> = if bucket_index == 0 {
            None
        } else {
            let parent = self.get_parent(bucket_index);
            let p = self.lookup_bucket(parent);
            proof {
                assert(self.buckets.slot(parent as nat) == Some(p));
                assert(parent as nat == parent_of(bucket_index as nat));
                assert(self.list.nodes@[p as int].key == dummy_key_spec(parent as u64));
                lemma_usize_and_u64(parent, bucket_index);
                lemma_dummy_before_dummy(parent as u64, bucket_index as u64);
                let i = choose|i: int| 0 <= i < self.list.order@.len() && self.list.order@[i] == p;
                assert(self.list.key_at(i) < key);
            }
            Some(p)
        };
        let (cursor, found, pos) = self.list.find_from(start, key);
        proof {
            lemma_key_parity(0, bucket_index as u64);
            lemma_rev_rev(bucket_index as u64);
            assert(rev(0) == 0) by (bit_vector);
            assert(rev(key) == bucket_index as u64);
            if found {
                assert(self.list.key_at(pos@ + 1) == key);
                assert(self.buckets.slot(bucket_index as nat) is Some);
            }
        }
        let ghost mid = *self;
        let n = self.list.link(&cursor, pos, key, None);
        let ghost linked = self.list;
        let slot = self.buckets.get(bucket_index);
        *slot = Some(n);
        proof {
            mid.list.lemma_link_so(&self.list, pos@, n, key, None);
            assert forall|k: usize| valid_key(k) implies regular_key_spec(k as u64) != key by {
                lemma_key_parity(k as u64, bucket_index as u64);
            }
            assert(self@ =~= mid@);
            let o0 = mid.list.order@;
            let o1 = self.list.order@;
            assert forall|p: usize| o0.contains(p) implies o1.contains(p) by {
                let i = choose|i: int| 0 <= i < o0.len() && o0[i] == p;
                let ni = if i <= pos@ { i } else { i + 1 };
                assert(o1[ni] == p);
            }
            assert(o1[pos@ + 1] == n);
            assert forall|b: nat| #[trigger] self.buckets.slot(b) is Some implies b < HIGH_BIT
                && o1.contains(self.buckets.slot(b)->0) && self.list.nodes@[self.buckets.slot(b)->0 as int].key
                == dummy_key_spec(b as u64) by {
                if b != bucket_index {
                    assert(self.buckets.slot(b) == mid.buckets.slot(b));
                    let p = self.buckets.slot(b)->0;
                    let i = choose|i: int| 0 <= i < o0.len() && o0[i] == p;
                }
            }
            assert forall|i: int|
                0 <= i < o1.len() && #[trigger] self.list.key_at(i) & 1 == 0 implies self.buckets.slot(
                    rev(self.list.key_at(i)) as nat,
                ) == Some(o1[i]) by {
                if i != pos@ + 1 {
                    let oi = if i < pos@ + 1 { i } else { i - 1 };
                    assert(o1[i] == o0[oi]);
                    assert(self.list.key_at(i) == mid.list.key_at(oi));
                    assert(mid.list.key_at(oi) != key);
                    lemma_rev_rev(mid.list.key_at(oi));
                    assert(rev(mid.list.key_at(oi)) != bucket_index as u64);
                }
            }
            if bucket_index > 0 {
                assert(mid.buckets.slot(parent_of(bucket_index as nat)) is Some);
            } else {
                assert(top_bit(0) == 0);
                assert(parent_of(0) == 0);
            }
            assert forall|b: nat| self.buckets.slot(b) is Some implies #[trigger] self.buckets.slot(
                parent_of(b),
            ) is Some by {
                if b != bucket_index {
                    assert(mid.buckets.slot(b) is Some);
                    assert(mid.buckets.slot(parent_of(b)) is Some);
                }
            }
            assert forall|k: nat|
                #[trigger] self.buckets.slot(ancestor(bucket_index as nat, k)) is Some by {
                self.lemma_ancestor_made(bucket_index as nat, k);
            }
        }
    }

    /// The bucket that bucket `num` is split from: `num` without its highest set bit, and 0 for 0.
    fn get_parent(&self, num: usize) -> (parent: usize)
        requires
            num <= usize::MAX / 2,
        ensures
            parent == parent_of(num as nat),
            num > 0 ==> parent < num && parent & num == parent,
    {
        if num == 0 {
            return 0;
        }
        let mut mask: usize = 1;
        let ghost mut j: nat = 0;
        assert(single_bit(1usize)) by (bit_vector);
        proof {
            lemma2_to64();
        }
        while mask <= num
            invariant
                0 < num <= usize::MAX / 2,
                single_bit(mask),
                mask == pow2(j),
                j == 0 || pow2((j - 1) as nat) <= num,
            decreases usize::MAX - mask,
        {
            proof {
                lemma2_to64();
                lemma_usize_shl_is_mul(mask, 1);
                lemma_pow2_unfold(j + 1);
                assert(single_bit(mask) && (mask << 1usize) != 0 ==> single_bit(mask << 1usize))
                    by (bit_vector);
            }
            mask = mask << 1;
            proof {
                j = j + 1;
            }
        }
        let ghost top = mask;
        proof {
            assert(single_bit(top) && top > 1 ==> single_bit(top >> 1usize) && (top >> 1usize) * 2
                == top) by (bit_vector);
            lemma_pow2_unfold(j);
        }
        mask = mask >> 1;
        assert(mask <= num < 2 * mask);
        proof {
            assert(mask == pow2((j - 1) as nat));
            lemma_top_bit(num as nat, (j - 1) as nat);
            assert(single_bit(mask) && mask <= num && num < 2 * mask ==> ((num - mask) as usize) & num
                == (num - mask) as usize) by (bit_vector);
        }
        num - mask
    }

    /// A node with an odd key linked into a list with the bucket invariant keeps it.
    proof fn lemma_link_bucket_inv(&self, new: &Self, pos: int, n: usize)
        requires
            self.list.list_inv(),
            self.bucket_inv(),
            new.list.list_inv(),
            new.buckets == self.buckets,
            -1 <= pos < self.list.order@.len(),
            new.list.order@ == self.list.order@.insert(pos + 1, n),
            !self.list.order@.contains(n),
            forall|j: int|
                0 <= j < self.list.nodes@.len() && j != n ==> #[trigger] new.list.nodes@[j].key
                    == self.list.nodes@[j].key,
            new.list.nodes@[n as int].key & 1 == 1,
        ensures
            new.bucket_inv(),
    {
        let o0 = self.list.order@;
        let o1 = new.list.order@;
        assert forall|b: nat| #[trigger] new.buckets.slot(b) is Some implies b < HIGH_BIT && o1.contains(
            new.buckets.slot(b)->0,
        ) && new.list.nodes@[new.buckets.slot(b)->0 as int].key == dummy_key_spec(b as u64) by {
            let p = new.buckets.slot(b)->0;
            let i = choose|i: int| 0 <= i < o0.len() && o0[i] == p;
            let ni = if i <= pos { i } else { i + 1 };
            assert(o1[ni] == p);
        }
        assert forall|i: int|
            0 <= i < o1.len() && #[trigger] new.list.key_at(i) & 1 == 0 implies new.buckets.slot(
                rev(new.list.key_at(i)) as nat,
            ) == Some(o1[i]) by {
            if i != pos + 1 {
                let oi = if i < pos + 1 { i } else { i - 1 };
                assert(o1[i] == o0[oi]);
                assert(new.list.key_at(i) == self.list.key_at(oi));
            }
        }
    }

    /// A node with an odd key unlinked from a list with the bucket invariant keeps it.
    proof fn lemma_unlink_bucket_inv(&self, new: &Self, pos: int)
        requires
            self.list.list_inv(),
            self.bucket_inv(),
            new.list.list_inv(),
            new.buckets == self.buckets,
            0 <= pos < self.list.order@.len(),
            new.list.order@ == self.list.order@.remove(pos),
            forall|j: int|
                0 <= j < self.list.nodes@.len() ==> #[trigger] new.list.nodes@[j].key
                    == self.list.nodes@[j].key,
            self.list.key_at(pos) & 1 == 1,
        ensures
            new.bucket_inv(),
    {
        let o0 = self.list.order@;
        let o1 = new.list.order@;
        assert forall|b: nat| #[trigger] new.buckets.slot(b) is Some implies b < HIGH_BIT && o1.contains(
            new.buckets.slot(b)->0,
        ) && new.list.nodes@[new.buckets.slot(b)->0 as int].key == dummy_key_spec(b as u64) by {
            let p = new.buckets.slot(b)->0;
            let i = choose|i: int| 0 <= i < o0.len() && o0[i] == p;
            lemma_key_parity(0, b as u64);
            assert(i != pos);
            let ni = if i < pos { i } else { i - 1 };
            assert(o1[ni] == p);
        }
        assert forall|i: int|
            0 <= i < o1.len() && #[trigger] new.list.key_at(i) & 1 == 0 implies new.buckets.slot(
                rev(new.list.key_at(i)) as nat,
            ) == Some(o1[i]) by {
            let oi = if i < pos { i } else { i + 1 };
            assert(o1[i] == o0[oi]);
            assert(new.list.key_at(i) == self.list.key_at(oi));
        }
    }

    /// Creates a cursor at the position of `key` in the list, starting from the sentinel of
    /// its bucket. Returns `(size, found, cursor)`, with the cursor's list position.
    fn find(&mut self, key: &usize) -> (res: (usize, bool, Cursor, Ghost<int>))
        requires
            old(self).wf(),
            valid_key(*key),
        ensures
            final(self).wf(),
            final(self)@ == old(self)@,
            final(self).size == old(self).size,
            final(self).log_size == old(self).log_size,
            final(self).count == old(self).count,
            ({
                let (bucket_size, found, cursor, pos) = res;
                let so_key = regular_key_spec(*key as u64);
                let list = final(self).list;
                &&& bucket_size == old(self).size
                &&& -1 <= pos@ < list.order@.len()
                &&& cursor.prev == (if pos@ == -1 {
                    None
                } else {
                    Some(list.order@[pos@])
                })
                &&& cursor.curr == list.next_of(pos@)
                &&& forall|i: int| 0 <= i <= pos@ ==> #[trigger] list.key_at(i) < so_key
                &&& pos@ + 1 < list.order@.len() ==> so_key <= list.key_at(pos@ + 1)
                &&& found == (pos@ + 1 < list.order@.len() && list.key_at(pos@ + 1) == so_key)
                &&& found == old(self)@.contains_key(*key)
            }),
    {
        let bucket_size = self.size;
        proof {
            lemma_pow2_pos(self.log_size@);
        }
        let bucket_index = *key % bucket_size;
        let start = self.lookup_bucket(bucket_index);
        let so_key = self.regular_key(*key);
        proof {
            lemma_word_fits();
            lemma_pow2_pos(self.log_size@);
            assert(self.log_size@ < 64) by {
                if self.log_size@ >= 64 {
                    lemma_pow2_strictly_increases(63, self.log_size@);
                    lemma2_to64_rest();
                }
            }
            lemma_bucket_before_key(*key as u64, self.log_size@);
            assert(bucket_index as u64 == (*key as u64) % (pow2(self.log_size@) as u64));
            let i = choose|i: int| 0 <= i < self.list.order@.len() && self.list.order@[i] == start;
            assert(self.list.key_at(i) < so_key);
        }
        let (cursor, found, pos) = self.list.find_from(Some(start), so_key);
        proof {
            let list = self.list;
            if !found {
                assert forall|i: int| 0 <= i < list.order@.len() implies list.key_at(i) != so_key by {
                    if i > pos@ + 1 {
                        assert(list.key_at(pos@ + 1) < list.key_at(i));
                    }
                }
            }
        }
        (bucket_size, found, cursor, pos)
    }

    /// Creates a new split ordered list.
    pub fn new() -> (list: Self)
        ensures
            list.wf(),
            list@ == Map::<usize, V>::empty(),
            list@.dom().finite(),
            list.bucket_count() == 2,
    {
        let list = Self {
            list: List { nodes: Vec::new(), free: Vec::new(), head: None, order: Ghost(Seq::empty()) },
            buckets: GrowableArray::new(),
            size: 2,
            log_size: Ghost(1),
            count: 0,
        };
        proof {
            lemma_word_fits();
            lemma2_to64();
            assert(list@ =~= Map::<usize, V>::empty());
            assert(list@.dom() =~= Set::<usize>::empty());
        }
        list
    }

    /// A well-formed map holds finitely many items.
    pub proof fn lemma_finite(&self)
        requires
            self.wf(),
        ensures
            self@.dom().finite(),
    {
    }

    /// Deleting a key undoes inserting it where it was not: the map is back as it was, and
    /// the value deleted is the value inserted.
    pub proof fn lemma_delete_undoes_insert(map: Map<usize, V>, key: usize, value: V)
        requires
            !map.contains_key(key),
        ensures
            map.insert(key, value).contains_key(key),
            map.insert(key, value)[key] == value,
            map.insert(key, value).remove(key) == map,
    {
        assert(map.insert(key, value).remove(key) =~= map);
    }

    /// The value stored under `key`, if any.
    pub fn lookup(&mut self, key: &usize) -> (value: Option<&V>)
        requires
            old(self).wf(),
            valid_key(*key),
        ensures
            final(self).wf(),
            final(self)@.dom().finite(),
            final(self)@ == old(self)@,
            final(self).bucket_count() == old(self).bucket_count(),
            match value {
                Some(v) => old(self)@.contains_key(*key) && *v == old(self)@[*key],
                None => !old(self)@.contains_key(*key),
            },
    {
        let (_bucket_size, found, cursor, pos) = self.find(key);
        if !found {
            return None;
        }
        let c = cursor.curr.unwrap();
        proof {
            self.list.lemma_so_value(pos@ + 1);
            assert(self.list.key_at(pos@ + 1) & 1 == 1) by {
                lemma_key_parity(*key as u64, 0);
            }
        }
        self.list.nodes[c].value.as_ref()
    }

    /// Stores `value` under `key`; returns it back as `Err` when `key` is taken. Doubles the
    /// number of buckets once the number of items passes `LOAD_FACTOR` per bucket.
    ///
    /// The map holds fewer than `usize::MAX / 2` items before: the count of items and the
    /// number of buckets stay within half a `usize`.
    pub fn insert(&mut self, key: usize, value: V) -> (result: Result<(), V>)
        requires
            old(self).wf(),
            valid_key(key),
            old(self)@.len() < usize::MAX / 2,
        ensures
            final(self).wf(),
            final(self)@.dom().finite(),
            match result {
                Ok(()) => {
                    &&& !old(self)@.contains_key(key)
                    &&& final(self)@ == old(self)@.insert(key, value)
                    &&& final(self).bucket_count() == if final(self)@.len() > old(self).bucket_count()
                        * LOAD_FACTOR {
                        2 * old(self).bucket_count()
                    } else {
                        old(self).bucket_count()
                    }
                },
                Err(v) => {
                    &&& old(self)@.contains_key(key)
                    &&& v == value
                    &&& final(self)@ == old(self)@
                    &&& final(self).bucket_count() == old(self).bucket_count()
                },
            },
    {
        let (bucket_size, found, cursor, pos) = self.find(&key);
        if found {
            return Err(value);
        }
        let so_key = self.regular_key(key);
        proof {
            lemma_key_parity(key as u64, 0);
        }
        let ghost before = *self;
        let n = self.list.link(&cursor, pos, so_key, Some(value));
        proof {
            before.list.lemma_link_so(&self.list, pos@, n, so_key, Some(value));
            before.lemma_link_bucket_inv(self, pos@, n);
            assert forall|k: usize| valid_key(k) && k != key implies regular_key_spec(k as u64)
                != so_key by {
                if regular_key_spec(k as u64) == so_key {
                    lemma_regular_key_injective(k as u64, key as u64);
                }
            }
            assert(self@ =~= before@.insert(key, value));
            assert(self@.dom() =~= before@.dom().insert(key));
        }
        proof {
            lemma_word_fits();
        }
        let count = self.count + 1;
        self.count = count;
        if count > bucket_size * LOAD_FACTOR {
            if self.size == bucket_size {
                self.size = bucket_size * 2;
                proof {
                    self.log_size@ = self.log_size@ + 1;
                    lemma_pow2_unfold(self.log_size@);
                }
            }
        }
        Ok(())
    }

    /// Removes the value stored under `key` and returns it; `Err` when there is none.
    pub fn delete(&mut self, key: &usize) -> (result: Result<V, ()>)
        requires
            old(self).wf(),
            valid_key(*key),
        ensures
            final(self).wf(),
            final(self)@.dom().finite(),
            final(self).bucket_count() == old(self).bucket_count(),
            match result {
                Ok(v) => {
                    &&& old(self)@.contains_key(*key)
                    &&& v == old(self)@[*key]
                    &&& final(self)@ == old(self)@.remove(*key)
                },
                Err(()) => {
                    &&& !old(self)@.contains_key(*key)
                    &&& final(self)@ == old(self)@
                },
            },
    {
        let (_bucket_size, found, cursor, pos) = self.find(key);
        if !found {
            return Err(());
        }
        let so_key = self.regular_key(*key);
        proof {
            lemma_key_parity(*key as u64, 0);
            self.list.lemma_so_value(pos@ + 1);
        }
        let ghost before = *self;
        let value = self.list.unlink(&cursor, pos);
        proof {
            before.list.lemma_unlink_so(&self.list, pos@ + 1);
            before.lemma_unlink_bucket_inv(self, pos@ + 1);
            assert forall|k: usize| valid_key(k) && k != *key implies regular_key_spec(k as u64)
                != so_key by {
                if regular_key_spec(k as u64) == so_key {
                    lemma_regular_key_injective(k as u64, *key as u64);
                }
            }
            assert(self@ =~= before@.remove(*key));
            assert(self@.dom() =~= before@.dom().remove(*key));
        }
        self.count = self.count - 1;
        match value {
            Some(v) => Ok(v),
            None => Err(()),
        }
    }
}

impl<V> Default for SplitOrderedList<V> {
    fn default() -> (list: Self)
        ensures
            list.wf(),
            list@ == Map::<usize, V>::empty(),
            list@.dom().finite(),
            list.bucket_count() == 2,
    {
        Self::new()
    }
}

impl<V> View for SplitOrderedList<V> {
    type V = Map<usize, V>;

    /// The stored items: the valid keys whose split-order key is listed, with their values.
    closed spec fn view(&self) -> Map<usize, V> {
        Map::new(
            |k: usize| valid_key(k) && self.list.has_so_key(regular_key_spec(k as u64)),
            |k: usize|
                match self.list.so_value(regular_key_spec(k as u64)) {
                    Some(v) => v,
                    None => arbitrary(),
                },
        )
    }
}

} // verus!
