//! Growable array: a tree of fixed-size segments, grown at the root as larger indices come.
//!
//! A segment of height 1 holds `1 << SEGMENT_LOGSIZE` element slots; a segment of a greater
//! height holds as many links to child segments one level lower. The root has the array's
//! height. Index `i` of a segment of height `h` lies under child `i >> (SEGMENT_LOGSIZE * (h - 1))`
//! at index `i & ((1 << (SEGMENT_LOGSIZE * (h - 1))) - 1)` of that child. Growing puts the old
//! root under child 0 of a new root, which keeps every index where it was.
use vstd::arithmetic::div_mod::{lemma_basic_div, lemma_fundamental_div_mod, lemma_small_mod};
use vstd::arithmetic::power2::{lemma2_to64, lemma2_to64_rest, lemma_pow2_adds, lemma_pow2_pos, lemma_pow2_strictly_increases, pow2};
use vstd::bits::{low_bits_mask, lemma_usize_low_bits_mask_is_mod, lemma_usize_pow2_no_overflow, lemma_usize_shl_is_mul, lemma_usize_shr_is_div};
use vstd::pervasive::unreached;
use vstd::prelude::*;

verus! {

/// Base-two logarithm of the number of slots in a segment.
pub const SEGMENT_LOGSIZE: usize = 10;

/// Number of slots in a segment, `1 << SEGMENT_LOGSIZE`.
pub const SEGMENT_SIZE: usize = 1024;

/// Number of indices that a segment of height `h` covers, `1 << (SEGMENT_LOGSIZE * h)`.
pub open spec fn capacity(h: nat) -> nat {
    pow2(10 * h)
}

/// The height that covers every `usize` index: the least `h` with `SEGMENT_LOGSIZE * h` at
/// least the bits of a `usize`.
pub open spec fn max_height() -> nat {
    ((usize::BITS + 9) / 10) as nat
}

/// A segment: element slots at height 1, links to child segments above.
#[derive(Debug)]
enum Segment<T> {
    Children(Vec<Option<Box<Segment<T>>>>),
    Elements(Vec<Option<T>>),
}

/// The segment is a complete tree of height `h`: every segment has its full number of
/// slots, those of height 1 hold elements and the others hold children one level lower.
spec fn seg_wf<T>(seg: Segment<T>, h: nat) -> bool
    decreases h,
{
    if h <= 1 {
        &&& h == 1
        &&& seg matches Segment::Elements(v)
        &&& v@.len() == SEGMENT_SIZE
    } else {
        &&& seg matches Segment::Children(c)
        &&& c@.len() == SEGMENT_SIZE
        &&& forall|i: int|
            0 <= i < SEGMENT_SIZE ==> match #[trigger] c@[i] {
                None => true,
                Some(child) => seg_wf(*child, (h - 1) as nat),
            }
    }
}

/// The height of the children of a segment of height `h`.
spec fn lower_nat(h: usize) -> nat {
    (h as nat - 1) as nat
}

/// The child that index `i` of a segment of height `h` lies under.
spec fn digit(i: nat, h: nat) -> nat {
    i / capacity((h - 1) as nat)
}

/// Where index `i` of a segment of height `h` lies in its child.
spec fn offset(i: nat, h: nat) -> nat {
    i % capacity((h - 1) as nat)
}

/// What the slot at index `i` of a segment of height `h` holds; `None` where no segment
/// has been made for it.
spec fn seg_lookup<T>(seg: Segment<T>, h: nat, i: nat) -> Option<T>
    decreases h, 0nat,
{
    if h <= 1 {
        match seg {
            Segment::Elements(v) => if i < v@.len() {
                v@[i as int]
            } else {
                None
            },
            Segment::Children(_) => None,
        }
    } else {
        match seg {
            Segment::Children(c) => if digit(i, h) < c@.len() {
                child_lookup(c@[digit(i, h) as int], (h - 1) as nat, offset(i, h))
            } else {
                None
            },
            Segment::Elements(_) => None,
        }
    }
}

/// What the slot at index `i` under a possibly missing child of height `h` holds.
spec fn child_lookup<T>(child: Option<Box<Segment<T>>>, h: nat, i: nat) -> Option<T>
    decreases h, 1nat,
{
    match child {
        None => None,
        Some(seg) => seg_lookup(*seg, h, i),
    }
}

/// One step of `seg_lookup` and of `child_lookup`, stated for every segment.
proof fn lemma_lookup_unfold<T>()
    ensures
        forall|c: Vec<Option<Box<Segment<T>>>>, h: nat, i: nat|
            h > 1 ==> #[trigger] seg_lookup(Segment::Children(c), h, i) == if digit(i, h) < c@.len() {
                child_lookup(c@[digit(i, h) as int], (h - 1) as nat, offset(i, h))
            } else {
                None
            },
        forall|b: Box<Segment<T>>, h: nat, i: nat|
            #[trigger] child_lookup(Some(b), h, i) == seg_lookup(*b, h, i),
        forall|h: nat, i: nat| #[trigger] child_lookup(None::<Box<Segment<T>>>, h, i) is None,
{
}

/// A segment of height `h` covers `SEGMENT_SIZE` times what one of height `h - 1` covers.
proof fn lemma_capacity_step(h: nat)
    requires
        h >= 1,
    ensures
        capacity(h) == SEGMENT_SIZE * capacity((h - 1) as nat),
        capacity((h - 1) as nat) > 0,
{
    lemma_pow2_adds(10 * (h - 1) as nat, 10);
    lemma2_to64();
    lemma_pow2_pos(10 * (h - 1) as nat);
}

/// Splits `i` into the child it lies under and its index in that child.
proof fn lemma_digits(i: nat, c: nat)
    requires
        c > 0,
        i < SEGMENT_SIZE * c,
    ensures
        i / c < SEGMENT_SIZE,
        i % c < c,
        i == c * (i / c) + i % c,
{
    lemma_fundamental_div_mod(i as int, c as int);
    assert(i / c < SEGMENT_SIZE) by (nonlinear_arith)
        requires
            c > 0,
            i < SEGMENT_SIZE * c,
            i == c * (i / c) + i % c,
            0 <= i % c,
    ;
}

/// Two indices under the same child at the same place in it are the same index.
proof fn lemma_digits_injective(index: nat, h: nat)
    requires
        h >= 1,
    ensures
        forall|i: nat|
            #![trigger digit(i, h), offset(i, h)]
            digit(i, h) == digit(index, h) && offset(i, h) == offset(index, h) ==> i == index,
{
    let c = capacity((h - 1) as nat);
    lemma_pow2_pos(10 * (h - 1) as nat);
    assert forall|i: nat|
        #![trigger digit(i, h), offset(i, h)]
        digit(i, h) == digit(index, h) && offset(i, h) == offset(index, h) implies i == index by {
        lemma_fundamental_div_mod(i as int, c as int);
        lemma_fundamental_div_mod(index as int, c as int);
    }
}

impl<T> Segment<T> {
    /// Creates a segment of height `h` whose slots are all empty.
    fn new(h: usize) -> (seg: Self)
        requires
            h >= 1,
        ensures
            seg_wf(seg, h as nat),
            forall|i: nat| #[trigger] seg_lookup(seg, h as nat, i) is None,
    {
        if h == 1 {
            let mut v: Vec<Option<T>> = Vec::new();
            while v.len() < SEGMENT_SIZE
                invariant
                    v@.len() <= SEGMENT_SIZE,
                    forall|k: int| 0 <= k < v@.len() ==> v@[k] is None,
                decreases SEGMENT_SIZE - v@.len(),
            {
                v.push(None);
            }
            let seg = Segment::Elements(v);
            assert forall|i: nat| #[trigger] seg_lookup(seg, h as nat, i) is None by {
                if i < v@.len() {
                    assert(v@[i as int] is None);
                }
            }
            seg
        } else {
            let mut v: Vec<Option<Box<Segment<T>>>> = Vec::new();
            while v.len() < SEGMENT_SIZE
                invariant
                    v@.len() <= SEGMENT_SIZE,
                    forall|k: int| 0 <= k < v@.len() ==> v@[k] is None,
                decreases SEGMENT_SIZE - v@.len(),
            {
                v.push(None);
            }
            let ghost vs = v@;
            let seg = Segment::Children(v);
            assert forall|i: nat| #[trigger] seg_lookup(seg, h as nat, i) is None by {
                lemma_pow2_pos(10 * (h - 1) as nat);
                let d = i / capacity((h - 1) as nat);
                if d < vs.len() {
                    assert(vs[d as int] is None);
                }
            }
            seg
        }
    }
}

/// The slot for `index` in a segment of height 1; no other index changes what it holds.
fn element_slot<T>(seg: &mut Segment<T>, index: usize) -> (slot: &mut Option<T>)
    requires
        seg_wf(*old(seg), 1),
        (index as nat) < capacity(1),
    ensures
        *slot == seg_lookup(*old(seg), 1, index as nat),
        seg_wf(*final(seg), 1),
        seg_lookup(*final(seg), 1, index as nat) == *final(slot),
        forall|i: nat|
            i != index ==> #[trigger] seg_lookup(*final(seg), 1, i) == seg_lookup(*old(seg), 1, i),
{
    proof {
        lemma2_to64();
    }
    match seg {
        Segment::Elements(elements) => &mut elements[index],
        Segment::Children(_) => unreached(),
    }
}

/// The slot for `index` in a segment of height `height`, with the segments on the way that
/// were missing made empty; no other index changes what it holds.
fn descend<T>(seg: &mut Segment<T>, height: usize, index: usize) -> (slot: &mut Option<T>)
    requires
        seg_wf(*old(seg), height as nat),
        1 <= height <= max_height(),
        (index as nat) < capacity(height as nat),
    ensures
        *slot == seg_lookup(*old(seg), height as nat, index as nat),
        seg_wf(*final(seg), height as nat),
        seg_lookup(*final(seg), height as nat, index as nat) == *final(slot),
        forall|i: nat|
            #![trigger seg_lookup(*final(seg), height as nat, i)]
            #![trigger seg_lookup(*old(seg), height as nat, i)]
            i != index ==> seg_lookup(*final(seg), height as nat, i) == seg_lookup(
                *old(seg),
                height as nat,
                i,
            ),
    decreases height, 0nat,
{
    if height == 1 {
        return element_slot(seg, index);
    }
    proof {
        lemma_max_height();
        lemma_lookup_unfold::<T>();
        lemma_digits_injective(index as nat, height as nat);
        lemma_pow2_pos(10 * (height - 1) as nat);
    }
    match seg {
        Segment::Elements(_) => unreached(),
        Segment::Children(children) => {
            let lower: usize = height - 1;
            assert(lower as nat == lower_nat(height));
            let shift: usize = SEGMENT_LOGSIZE * lower;
            let ghost c = capacity((height - 1) as nat);
            proof {
                lemma_capacity_step(height as nat);
                lemma_usize_shr_is_div(index, shift);
                lemma_usize_pow2_no_overflow(shift as nat);
                lemma_usize_shl_is_mul(1, shift);
                lemma_usize_low_bits_mask_is_mod(index, shift as nat);
                lemma_digits(index as nat, c);
            }
            let segment_index = index >> shift;
            let rest = index & ((1usize << shift) - 1);
            assert(segment_index == index as nat / c);
            assert(rest == index as nat % c);
            assert(c == capacity(lower_nat(height)));
            assert(rest == offset(index as nat, height as nat));
            assert(segment_index == digit(index as nat, height as nat));
            child_slot(children, segment_index, lower, rest)
        },
    }
}

/// The slot for index `rest` under child `d`, with that child made empty first if it was
/// missing; no other child and no other index of that child changes.
fn child_slot<T>(children: &mut Vec<Option<Box<Segment<T>>>>, d: usize, lower: usize, rest: usize) -> (slot: &mut Option<T>)
    requires
        d < old(children)@.len(),
        old(children)@[d as int] matches Some(child) ==> seg_wf(*child, lower as nat),
        1 <= lower < max_height(),
        (rest as nat) < capacity(lower as nat),
    ensures
        final(children)@.len() == old(children)@.len(),
        forall|k: int| 0 <= k < old(children)@.len() && k != d ==> #[trigger] final(children)@[k] == old(children)@[k],
        final(children)@[d as int] matches Some(child) && seg_wf(*child, lower as nat),
        *slot == child_lookup(old(children)@[d as int], lower as nat, rest as nat),
        child_lookup(final(children)@[d as int], lower as nat, rest as nat) == *final(slot),
        forall|j: nat|
            j != rest ==> #[trigger] child_lookup(final(children)@[d as int], lower as nat, j)
                == child_lookup(old(children)@[d as int], lower as nat, j),
    decreases lower, 1nat,
{
    proof {
        lemma_lookup_unfold::<T>();
    }
    if children[d].is_none() {
        children.set(d, Some(Box::new(Segment::new(lower))));
    }
    let child = children[d].as_mut().unwrap();
    descend(&mut **child, lower, rest)
}

/// The greatest height covers every `usize` index, and the index arithmetic of its children
/// still fits in a `usize` shift.
proof fn lemma_max_height()
    ensures
        4 <= max_height(),
        10 * (max_height() - 1) < usize::BITS,
        10 * max_height() >= usize::BITS,
        capacity(max_height()) > usize::MAX,
{
    vstd::layout::unsigned_int_max_values();
    lemma2_to64();
    lemma2_to64_rest();
    assert(usize::BITS == 32 || usize::BITS == 64);
    if usize::BITS == 32 {
        assert(max_height() == 4);
        lemma_pow2_strictly_increases(32, 40);
    } else {
        assert(max_height() == 7);
        lemma_pow2_strictly_increases(64, 70);
    }
}

/// A height whose index bits reach the width of a `usize` covers every `usize` index.
proof fn lemma_capacity_covers(h: nat)
    requires
        10 * h >= usize::BITS,
    ensures
        capacity(h) > usize::MAX,
{
    vstd::layout::unsigned_int_max_values();
    if 10 * h > usize::BITS {
        lemma_pow2_strictly_increases(usize::BITS as nat, 10 * h);
    }
}

/// A taller segment covers more indices.
proof fn lemma_capacity_grows(a: nat, b: nat)
    requires
        a <= b,
    ensures
        capacity(a) <= capacity(b),
{
    if a < b {
        lemma_pow2_strictly_increases(10 * a, 10 * b);
    }
}

/// A segment of height `h + 1` whose first child is `root` and whose other children are
/// missing: it holds at every index what `root` holds there.
fn grow<T>(root: Box<Segment<T>>, h: usize) -> (seg: Segment<T>)
    requires
        seg_wf(*root, h as nat),
        1 <= h < max_height(),
    ensures
        seg_wf(seg, h as nat + 1),
        forall|i: nat|
            #[trigger] seg_lookup(seg, h as nat + 1, i) == if i < capacity(h as nat) {
                seg_lookup(*root, h as nat, i)
            } else {
                None
            },
{
    let mut v: Vec<Option<Box<Segment<T>>>> = Vec::new();
    v.push(Some(root));
    while v.len() < SEGMENT_SIZE
        invariant
            1 <= v@.len() <= SEGMENT_SIZE,
            v@[0] == Some(root),
            forall|k: int| 1 <= k < v@.len() ==> v@[k] is None,
        decreases SEGMENT_SIZE - v@.len(),
    {
        v.push(None);
    }
    let ghost vs = v@;
    let seg = Segment::Children(v);
    proof {
        lemma_lookup_unfold::<T>();
        let hh = h as nat + 1;
        let c = capacity(h as nat);
        lemma_capacity_step(hh);
        assert(seg_wf(seg, hh)) by {
            assert forall|k: int| 0 <= k < SEGMENT_SIZE implies match #[trigger] vs[k] {
                None => true,
                Some(child) => seg_wf(*child, (hh - 1) as nat),
            } by {
                if k > 0 {
                    assert(vs[k] is None);
                }
            }
        }
        assert forall|i: nat|
            #[trigger] seg_lookup(seg, hh, i) == if i < c {
                seg_lookup(*root, h as nat, i)
            } else {
                None
            } by {
            if i < c {
                lemma_small_mod(i, c);
                lemma_basic_div(i as int, c as int);
                assert(digit(i, hh) == 0);
                assert(offset(i, hh) == i);
            } else {
                assert(digit(i, hh) >= 1) by {
                    lemma_fundamental_div_mod(i as int, c as int);
                    lemma_digits_zero_is_small(i, c);
                }
                if digit(i, hh) < SEGMENT_SIZE {
                    assert(vs[digit(i, hh) as int] is None);
                }
            }
        }
    }
    seg
}

/// An index whose child is the first one lies within that child.
proof fn lemma_digits_zero_is_small(i: nat, c: nat)
    requires
        c > 0,
        i >= c,
    ensures
        i / c >= 1,
{
    lemma_fundamental_div_mod(i as int, c as int);
    if i / c == 0 {
        assert(i == i % c);
        vstd::arithmetic::div_mod::lemma_mod_bound(i as int, c as int);
    }
}

/// Growable array of slots, indexed by `usize`.
///
/// The root segment has the array's height; there is no root until the first access.
///
/// A slot holds its value itself, and dropping the array drops the values in its slots. The
/// values are meant to be handles, such as the arena positions that `SplitOrderedList` keeps
/// here, whose drop leaves what they refer to alone: what a handle refers to belongs to the
/// container it was taken from, and that container frees it.
#[derive(Debug)]
pub struct GrowableArray<T> {
    root: Option<Box<Segment<T>>>,
    height: usize,
}

impl<T> GrowableArray<T> {
    /// The root, when there is one, is a complete tree of the array's height, and that
    /// height leaves room for the index arithmetic.
    pub closed spec fn wf(&self) -> bool {
        match self.root {
            None => self.height == 0,
            Some(root) => 1 <= self.height <= max_height() && seg_wf(*root, self.height as nat),
        }
    }

    /// What the slot at `index` holds; `None` for a slot never written.
    pub closed spec fn slot(&self, index: nat) -> Option<T> {
        match self.root {
            None => None,
            Some(root) => if index < capacity(self.height as nat) {
                seg_lookup(*root, self.height as nat, index)
            } else {
                None
            },
        }
    }

    /// Create a new growable array.
    pub fn new() -> (array: Self)
        ensures
            array.wf(),
            forall|i: nat| #[trigger] array.slot(i) is None,
    {
        Self { root: None, height: 0 }
    }

    /// Returns the slot at `index`. Allocates new segments if necessary; no slot changes
    /// what it holds by that.
    pub fn get(&mut self, index: usize) -> (slot: &mut Option<T>)
        requires
            old(self).wf(),
        ensures
            final(self).wf(),
            *slot == old(self).slot(index as nat),
            final(self).slot(index as nat) == *final(slot),
            forall|i: nat| i != index ==> #[trigger] final(self).slot(i) == old(self).slot(i),
    {
        proof {
            lemma_max_height();
            lemma_lookup_unfold::<T>();
        }
        if self.root.is_none() {
            self.root = Some(Box::new(Segment::new(1)));
            self.height = 1;
        }
        assert forall|i: nat| #[trigger] self.slot(i) == old(self).slot(i) by {}

        let mut required_height: usize = 1;
        proof {
            lemma2_to64();
            lemma_usize_shl_is_mul(1, SEGMENT_LOGSIZE);
        }
        let mut max_index_at_depth: usize = (1 << SEGMENT_LOGSIZE) - 1;
        while index > max_index_at_depth
            invariant
                1 <= required_height <= max_height(),
                10 * required_height < usize::BITS ==> max_index_at_depth + 1 == capacity(
                    required_height as nat,
                ),
                10 * required_height >= usize::BITS ==> max_index_at_depth == usize::MAX,
                4 <= max_height(),
                10 * (max_height() - 1) < usize::BITS,
                10 * max_height() >= usize::BITS,
            decreases max_height() - required_height,
        {
            required_height = required_height + 1;
            if SEGMENT_LOGSIZE * required_height < usize::BITS as usize {
                proof {
                    lemma_usize_pow2_no_overflow(10 * (required_height as nat));
                    lemma_usize_shl_is_mul(1, (SEGMENT_LOGSIZE * required_height) as usize);
                }
                max_index_at_depth = (1 << (SEGMENT_LOGSIZE * required_height)) - 1;
            } else {
                max_index_at_depth = usize::MAX;
            }
        }
        proof {
            if 10 * required_height >= usize::BITS {
                lemma_capacity_covers(required_height as nat);
            }
            assert((index as nat) < capacity(required_height as nat));
        }

        let ghost before = *self;
        while self.height < required_height
            invariant
                self.wf(),
                self.root is Some,
                required_height <= max_height(),
                before.wf(),
                before.root is Some,
                before.height <= self.height,
                forall|i: nat| #[trigger] self.slot(i) == before.slot(i),
                forall|i: nat| #[trigger] before.slot(i) == old(self).slot(i),
            decreases required_height - self.height,
        {
            let ghost prev = *self;
            let root = self.root.take().unwrap();
            let ghost old_root = *root;
            let h: usize = self.height;
            let new_root = grow(root, h);
            self.root = Some(Box::new(new_root));
            self.height = h + 1;
            proof {
                lemma_capacity_grows(h as nat, h as nat + 1);
                assert(self.height as nat == h as nat + 1);
                assert forall|i: nat| #[trigger] self.slot(i) == prev.slot(i) by {
                    assert(seg_lookup(new_root, h as nat + 1, i) == if i < capacity(h as nat) {
                        seg_lookup(old_root, h as nat, i)
                    } else {
                        None
                    });
                }
                assert forall|i: nat| #[trigger] self.slot(i) == before.slot(i) by {
                    assert(self.slot(i) == prev.slot(i));
                }
            }
        }
        proof {
            lemma_capacity_grows(required_height as nat, self.height as nat);
            assert(self.slot(index as nat) == old(self).slot(index as nat));
            assert forall|i: nat| #[trigger] old(self).slot(i) == self.slot(i) by {}
        }
        let height = self.height;
        let root = self.root.as_mut().unwrap();
        descend(&mut **root, height, index)
    }
}

impl<T> Default for GrowableArray<T> {
    fn default() -> (array: Self)
        ensures
            array.wf(),
            forall|i: nat| #[trigger] array.slot(i) is None,
    {
        Self::new()
    }
}

} // verus!
