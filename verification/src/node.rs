//! The fixed-shape tree node: sixteen ordered (segment, child) slots, each
//! segment a length-prefixed fragment of at most seven bytes, laid out so a
//! node fills one cache line. Also the descent resolver and the structural
//! mutations that insertion uses.

use crate::order::compare_trunc;
use crate::order::key_cmp;
use crate::order::key_rest;
use crate::order::lemma_key_cmp_eq;
use crate::order::lemma_key_cmp_self_trunc;
use crate::order::lex_cmp;
use crate::order::trunc;
use vstd::pervasive::arbitrary;
use vstd::pervasive::unreached;
use vstd::prelude::*;
use vstd::slice::slice_subrange;

verus! {

/// A node occupies one cache line of this many bytes.
pub const CACHE_LINE_SIZE: usize = 128;

/// Maximum number of children per node.
pub const TREE_RADIX: usize = 16;

/// Width of one encoded segment slot: length byte plus fragment bytes.
pub const KEY_SEGMENT_SIZE: usize = CACHE_LINE_SIZE / TREE_RADIX;

/// Longest key fragment one slot can store.
pub const MAX_STORED_KEY_SEGMENT_SIZE: usize = KEY_SEGMENT_SIZE - 1;

/// A fixed-shape node: `TREE_RADIX` parallel slots (an encoded segment and an
/// optional child each) of which the first `children_count` are occupied.
#[derive(Debug)]
pub struct TSIMTreeNode {
    pub key_segments: Vec<Vec<u8>>,
    pub children: Vec<Option<TSIMTreeNodeChild>>,
    pub children_count: u8,
}

/// A child slot points either to a subtree or to a terminal value.
#[derive(Debug)]
pub enum TSIMTreeNodeChild {
    Node(Box<TSIMTreeNode>),
    Value(Vec<u8>),
}

/// The faults of the core; all indicate corruption or an internal bug.
#[derive(Debug, PartialEq, Eq)]
pub enum TSIMTreeFault {
    InvalidSegment { len: u8 },
    ChildIsNone { child_idx: usize, children_count: u8 },
}

/// Where a query key falls relative to a node's slots.
#[derive(Debug, PartialEq, Eq)]
pub enum ResolvedChild<'k> {
    /// The key precedes every stored segment.
    Smallest,
    /// Segment `i`'s fragment is a prefix of the key; the rest of the key is
    /// carried along.
    ExactMatch(usize, &'k [u8]),
    /// The key lies in the open-ended domain of slot `i`; the key is not
    /// advanced.
    InDomainOf(usize),
}

/// An encoded slot is well formed: full width, length byte within bounds.
pub open spec fn slot_valid(slot: Seq<u8>) -> bool {
    slot.len() == KEY_SEGMENT_SIZE && slot[0] as int <= MAX_STORED_KEY_SEGMENT_SIZE as int
}

/// The fragment a slot encodes: the bytes after the length byte.
pub open spec fn decode_slot(slot: Seq<u8>) -> Seq<u8> {
    slot.subrange(1, 1 + slot[0] as int)
}

/// The node a child wraps, when it is a subtree.
pub open spec fn child_node(c: TSIMTreeNodeChild) -> TSIMTreeNode {
    match c {
        TSIMTreeNodeChild::Node(n) => *n,
        TSIMTreeNodeChild::Value(_) => arbitrary(),
    }
}

/// Well-formedness of an optional child slot.
pub open spec fn child_wf(oc: Option<TSIMTreeNodeChild>) -> bool
    decreases oc,
{
    match oc {
        Some(c) => c.well_formed(),
        None => true,
    }
}

/// What a child answers for a query key: a terminal answers only the empty
/// key; a subtree resolves the key further.
pub open spec fn child_lookup(oc: Option<TSIMTreeNodeChild>, key: Seq<u8>) -> Option<Seq<u8>>
    decreases oc,
{
    match oc {
        Some(TSIMTreeNodeChild::Value(v)) => if key.len() == 0 {
            Some(v@)
        } else {
            None
        },
        Some(TSIMTreeNodeChild::Node(n)) => n.lookup(key),
        None => None,
    }
}

/// Number of nodes and values in an optional child.
pub open spec fn opt_size(oc: Option<TSIMTreeNodeChild>) -> nat
    decreases oc,
{
    match oc {
        Some(TSIMTreeNodeChild::Node(n)) => 1 + n.size(),
        Some(TSIMTreeNodeChild::Value(_)) => 1,
        None => 0,
    }
}

/// Combined size of the first `n` slots.
pub open spec fn slots_size(s: Seq<Option<TSIMTreeNodeChild>>, n: int) -> nat
    decreases s, n,
{
    if n <= 0 || n > s.len() {
        0
    } else {
        slots_size(s, n - 1) + opt_size(s[n - 1])
    }
}

/// The binary search of the descent resolver, as a mathematical function over
/// the decoded fragments. The result is a tag (0 smallest, 1 exact match,
/// 2 in-domain) and a slot index.
pub open spec fn resolve_spec(frags: Seq<Seq<u8>>, key: Seq<u8>, l: int, r: int) -> (int, int)
    decreases r - l,
{
    if l >= r {
        (0int, 0int)
    } else {
        let mid = l + (r - l) / 2;
        let c = key_cmp(key, frags[mid]);
        if c == 0 {
            (1int, mid)
        } else if c > 0 && l + 1 == r {
            (2int, mid)
        } else if c > 0 {
            resolve_spec(frags, key, mid, r)
        } else {
            resolve_spec(frags, key, l, mid)
        }
    }
}

/// A resolver result that ended `Smallest` saw the leftmost probed fragment
/// above the key.
pub proof fn lemma_resolve_smallest(frags: Seq<Seq<u8>>, key: Seq<u8>, l: int, r: int)
    requires
        0 <= l < r,
        resolve_spec(frags, key, l, r) == (0int, 0int),
    ensures
        key_cmp(key, frags[l]) < 0,
    decreases r - l,
{
    let mid = l + (r - l) / 2;
    let c = key_cmp(key, frags[mid]);
    if c == 0 {
        assert(false);
    } else if c > 0 && l + 1 == r {
        assert(false);
    } else if c > 0 {
        lemma_resolve_smallest(frags, key, mid, r);
        assert(false);
    } else {
        if l < mid {
            lemma_resolve_smallest(frags, key, l, mid);
        }
    }
}

/// When slot 0 matches the key and every later slot is above it, the search
/// lands on slot 0.
pub proof fn lemma_resolve_match0(frags: Seq<Seq<u8>>, key: Seq<u8>, r: int)
    requires
        1 <= r,
        key_cmp(key, frags[0]) == 0,
        forall|j: int| 1 <= j < r ==> key_cmp(key, #[trigger] frags[j]) < 0,
    ensures
        resolve_spec(frags, key, 0, r) == (1int, 0int),
    decreases r,
{
    let mid = (r - 0) / 2;
    if mid >= 1 {
        assert(key_cmp(key, frags[mid]) < 0);
        lemma_resolve_match0(frags, key, mid);
    }
}

/// An in-domain verdict records a key strictly above that slot's fragment.
pub proof fn lemma_resolve_domain(frags: Seq<Seq<u8>>, key: Seq<u8>, l: int, r: int, i: int)
    requires
        0 <= l <= r,
        resolve_spec(frags, key, l, r) == (2int, i),
    ensures
        key_cmp(key, frags[i]) > 0,
    decreases r - l,
{
    if l < r {
        let mid = l + (r - l) / 2;
        let c = key_cmp(key, frags[mid]);
        if c == 0 {
        } else if c > 0 && l + 1 == r {
        } else if c > 0 {
            lemma_resolve_domain(frags, key, mid, r, i);
        } else {
            lemma_resolve_domain(frags, key, l, mid, i);
        }
    }
}

/// Every slot of the first `n` is at least as large as any one of them.
pub proof fn lemma_slots_size_ge_elem(s: Seq<Option<TSIMTreeNodeChild>>, i: int, n: int)
    requires
        0 <= i < n <= s.len(),
    ensures
        slots_size(s, n) >= opt_size(s[i]),
    decreases n,
{
    if i < n - 1 {
        lemma_slots_size_ge_elem(s, i, n - 1);
    }
}

/// With every one of the first `n` slots occupied, the sizes add up past the
/// first slot's share by at least one per further slot.
pub proof fn lemma_slots_size_all_some(s: Seq<Option<TSIMTreeNodeChild>>, n: int)
    requires
        1 <= n <= s.len(),
        forall|j: int| 0 <= j < n ==> (#[trigger] s[j]) is Some,
    ensures
        slots_size(s, n) >= opt_size(s[0]) + n - 1,
    decreases n,
{
    if n > 1 {
        lemma_slots_size_all_some(s, n - 1);
        assert(s[n - 1] is Some);
        assert(opt_size(s[n - 1]) >= 1);
    }
}

/// The sum over the first `n` slots reads none but those slots.
pub proof fn lemma_slots_size_agree(
    s1: Seq<Option<TSIMTreeNodeChild>>,
    s2: Seq<Option<TSIMTreeNodeChild>>,
    n: int,
)
    requires
        0 <= n <= s1.len(),
        n <= s2.len(),
        forall|j: int| 0 <= j < n ==> s1[j] == s2[j],
    ensures
        slots_size(s1, n) == slots_size(s2, n),
    decreases n,
{
    if n > 0 {
        lemma_slots_size_agree(s1, s2, n - 1);
        assert(s1[n - 1] == s2[n - 1]);
    }
}

/// Replacing one slot changes the sum by the difference of the two shares.
pub proof fn lemma_slots_size_update(
    s: Seq<Option<TSIMTreeNodeChild>>,
    i: int,
    x: Option<TSIMTreeNodeChild>,
    n: int,
)
    requires
        0 <= i < n <= s.len(),
    ensures
        slots_size(s.update(i, x), n) + opt_size(s[i]) == slots_size(s, n) + opt_size(x),
    decreases n,
{
    if i < n - 1 {
        lemma_slots_size_update(s, i, x, n - 1);
        assert(s.update(i, x)[n - 1] == s[n - 1]);
    } else {
        assert(s.update(i, x)[n - 1] == x);
        lemma_slots_size_agree(s.update(i, x), s, n - 1);
    }
}

/// Shifting the slots right behind a fresh head adds the head's share.
pub proof fn lemma_slots_size_shift(s: Seq<Option<TSIMTreeNodeChild>>, x: Option<TSIMTreeNodeChild>, n: int)
    requires
        0 <= n <= s.len(),
    ensures
        slots_size(s.insert(0, x), n + 1) == opt_size(x) + slots_size(s, n),
    decreases n,
{
    let t = s.insert(0, x);
    if n == 0 {
        assert(t[0] == x);
        assert(slots_size(t, 0) == 0);
    } else {
        lemma_slots_size_shift(s, x, n - 1);
        assert(t[n] == s[n - 1]);
    }
}

/// With every slot vacant, the sizes sum to nothing.
pub proof fn lemma_slots_size_none(s: Seq<Option<TSIMTreeNodeChild>>, n: int)
    requires
        0 <= n <= s.len(),
        forall|j: int| 0 <= j < n ==> (#[trigger] s[j]) is None,
    ensures
        slots_size(s, n) == 0,
    decreases n,
{
    if n > 0 {
        lemma_slots_size_none(s, n - 1);
        assert(s[n - 1] is None);
        assert(opt_size(s[n - 1]) == 0);
    } else {
        assert(slots_size(s, 0) == 0);
    }
}

/// With every slot after the first vacant, the first slot is the whole sum.
pub proof fn lemma_slots_size_single(s: Seq<Option<TSIMTreeNodeChild>>, n: int)
    requires
        1 <= n <= s.len(),
        forall|j: int| 1 <= j < n ==> (#[trigger] s[j]) is None,
    ensures
        slots_size(s, n) == opt_size(s[0]),
    decreases n,
{
    if n > 1 {
        lemma_slots_size_single(s, n - 1);
        assert(s[n - 1] is None);
        assert(opt_size(s[n - 1]) == 0);
    } else {
        assert(slots_size(s, 0) == 0);
    }
}

impl TSIMTreeNodeChild {
    /// A child is well formed when any subtree below it is.
    pub open spec fn well_formed(self) -> bool
        decreases self,
    {
        match self {
            TSIMTreeNodeChild::Node(n) => n.well_formed(),
            TSIMTreeNodeChild::Value(_) => true,
        }
    }
}

impl TSIMTreeNode {
    /// The number of occupied slots, as a mathematical integer.
    pub open spec fn count(self) -> int {
        self.children_count as int
    }

    /// The decoded fragment of slot `i`.
    pub open spec fn frag(self, i: int) -> Seq<u8> {
        decode_slot(self.key_segments@[i]@)
    }

    /// The decoded fragments of the occupied slots, in order.
    pub open spec fn frags(self) -> Seq<Seq<u8>> {
        Seq::new(self.count() as nat, |i: int| self.frag(i))
    }

    /// The local layout invariants: full-width slot arrays, a bounded count,
    /// valid encoded slots, children present exactly below the count, and
    /// strictly ascending fragments.
    pub open spec fn shape_ok(self) -> bool {
        &&& self.key_segments@.len() == TREE_RADIX
        &&& self.children@.len() == TREE_RADIX
        &&& 0 <= self.count() <= TREE_RADIX
        &&& forall|i: int|
            0 <= i < self.count() ==> #[trigger] self.key_segments@[i]@.len() == KEY_SEGMENT_SIZE
        &&& forall|i: int| 0 <= i < self.count() ==> slot_valid(#[trigger] self.key_segments@[i]@)
        &&& forall|i: int| 0 <= i < self.count() ==> (#[trigger] self.children@[i]) is Some
        &&& forall|i: int| self.count() <= i < TREE_RADIX ==> (#[trigger] self.children@[i]) is None
        &&& forall|i: int, j: int|
            0 <= i < j < self.count() ==> lex_cmp(#[trigger] self.frag(i), #[trigger] self.frag(j))
                < 0
    }

    /// Well-formedness of the whole subtree under this node.
    pub open spec fn well_formed(self) -> bool
        decreases self,
    {
        self.shape_ok() && (forall|i: int|
            0 <= i < self.count() ==> child_wf(#[trigger] self.children@[i]))
    }

    /// Number of nodes and values in this subtree.
    pub open spec fn size(self) -> nat
        decreases self,
    {
        1 + slots_size(self.children@, self.children@.len() as int)
    }

    /// Where the resolver sends this key at this node.
    pub open spec fn resolution(self, key: Seq<u8>) -> (int, int) {
        resolve_spec(self.frags(), key, 0, self.count())
    }

    /// What a descent from this node answers for this key.
    pub open spec fn lookup(self, key: Seq<u8>) -> Option<Seq<u8>>
        decreases self,
    {
        let tag = self.resolution(key).0;
        let i = self.resolution(key).1;
        if !(0 <= i < self.children@.len()) {
            None
        } else if tag == 1 {
            child_lookup(self.children@[i], key.skip(self.frag(i).len() as int))
        } else if tag == 2 {
            match self.children@[i] {
                Some(TSIMTreeNodeChild::Node(n)) => n.lookup(key),
                _ => None,
            }
        } else {
            None
        }
    }
}

/// How an exec resolver verdict corresponds to the mathematical one.
pub open spec fn resolved_matches<'k>(
    r: ResolvedChild<'k>,
    sr: (int, int),
    n: TSIMTreeNode,
    key: Seq<u8>,
) -> bool {
    match r {
        ResolvedChild::Smallest => sr == (0int, 0int),
        ResolvedChild::ExactMatch(i, rest) => {
            &&& sr == (1int, i as int)
            &&& i < n.count()
            &&& n.frag(i as int).len() <= key.len()
            &&& rest@ == key.skip(n.frag(i as int).len() as int)
        },
        ResolvedChild::InDomainOf(i) => sr == (2int, i as int) && i < n.count(),
    }
}

/// Builds one encoded slot: length byte, fragment bytes, zero padding.
fn encode_slot(key_fragment: &[u8]) -> (slot: Vec<u8>)
    requires
        key_fragment@.len() <= MAX_STORED_KEY_SEGMENT_SIZE,
    ensures
        slot_valid(slot@),
        decode_slot(slot@) == key_fragment@,
{
    let mut slot: Vec<u8> = Vec::new();
    slot.push(key_fragment.len() as u8);
    let mut i: usize = 0;
    while i < key_fragment.len()
        invariant
            0 <= i <= key_fragment@.len(),
            key_fragment@.len() <= MAX_STORED_KEY_SEGMENT_SIZE,
            slot@.len() == 1 + i,
            slot@[0] == key_fragment@.len() as u8,
            forall|j: int| 0 <= j < i ==> slot@[j + 1] == key_fragment@[j],
        decreases key_fragment@.len() - i,
    {
        slot.push(key_fragment[i]);
        i = i + 1;
    }
    while slot.len() < KEY_SEGMENT_SIZE
        invariant
            key_fragment@.len() <= MAX_STORED_KEY_SEGMENT_SIZE,
            1 + key_fragment@.len() <= slot@.len() <= KEY_SEGMENT_SIZE,
            slot@[0] == key_fragment@.len() as u8,
            forall|j: int| 0 <= j < key_fragment@.len() ==> slot@[j + 1] == key_fragment@[j],
        decreases KEY_SEGMENT_SIZE - slot@.len(),
    {
        slot.push(0);
    }
    proof {
        assert(decode_slot(slot@) =~= key_fragment@);
    }
    slot
}

impl TSIMTreeNode {
    /// A node with no occupied slots; every slot starts zeroed, so each
    /// decodes to the empty fragment.
    pub fn empty() -> (n: TSIMTreeNode)
        ensures
            n.well_formed(),
            n.count() == 0,
            n.size() == 1,
            forall|k: Seq<u8>| n.lookup(k) == None::<Seq<u8>>,
            forall|i: int|
                0 <= i < TREE_RADIX ==> decode_slot(#[trigger] n.key_segments@[i]@)
                    == Seq::<u8>::empty(),
    {
        let mut key_segments: Vec<Vec<u8>> = Vec::new();
        let mut children: Vec<Option<TSIMTreeNodeChild>> = Vec::new();
        let mut i: usize = 0;
        while i < TREE_RADIX
            invariant
                0 <= i <= TREE_RADIX,
                key_segments@.len() == i,
                children@.len() == i,
                forall|j: int| 0 <= j < i ==> (#[trigger] children@[j]) is None,
                forall|j: int|
                    0 <= j < i ==> #[trigger] key_segments@[j]@.len() == KEY_SEGMENT_SIZE,
                forall|j: int|
                    0 <= j < i ==> decode_slot(#[trigger] key_segments@[j]@)
                        == Seq::<u8>::empty(),
            decreases TREE_RADIX - i,
        {
            let pad: Vec<u8> = Vec::new();
            key_segments.push(encode_slot(pad.as_slice()));
            children.push(None);
            i = i + 1;
        }
        let n = TSIMTreeNode { key_segments, children, children_count: 0 };
        proof {
            lemma_slots_size_none(n.children@, TREE_RADIX as int);
            assert(n.size() == 1);
            assert forall|k: Seq<u8>| n.lookup(k) == None::<Seq<u8>> by {
                assert(n.resolution(k) == (0int, 0int));
            }
        }
        n
    }

    /// Encodes a key fragment into the slot at `segment_idx`.
    pub fn set_segment(&mut self, segment_idx: usize, key_fragment: &[u8])
        requires
            segment_idx < TREE_RADIX,
            old(self).key_segments@.len() == TREE_RADIX,
            key_fragment@.len() <= MAX_STORED_KEY_SEGMENT_SIZE,
        ensures
            final(self).key_segments@.len() == TREE_RADIX,
            slot_valid(final(self).key_segments@[segment_idx as int]@),
            final(self).frag(segment_idx as int) == key_fragment@,
            forall|j: int|
                0 <= j < TREE_RADIX && j != segment_idx ==> final(self).key_segments@[j] == old(
                    self,
                ).key_segments@[j],
            final(self).children == old(self).children,
            final(self).children_count == old(self).children_count,
    {
        let slot = encode_slot(key_fragment);
        self.key_segments.set(segment_idx, slot);
    }

    /// Decodes the slot at `segment_idx` and hands out the stored fragment.
    pub fn get_segment(&self, segment_idx: usize) -> (r: &[u8])
        requires
            segment_idx < TREE_RADIX,
            self.key_segments@.len() == TREE_RADIX,
            slot_valid(self.key_segments@[segment_idx as int]@),
        ensures
            r@ == self.frag(segment_idx as int),
    {
        match Self::stored_segment((&self.key_segments[segment_idx]).as_slice()) {
            Ok(s) => s,
            Err(_) => unreached(),
        }
    }

    /// Reads a slot's length byte and returns the fragment it delimits, or the
    /// fault when the length byte is out of bounds.
    pub fn stored_segment(segment: &[u8]) -> (r: Result<&[u8], TSIMTreeFault>)
        requires
            segment@.len() == KEY_SEGMENT_SIZE,
        ensures
            match r {
                Ok(s) => slot_valid(segment@) && s@ == decode_slot(segment@),
                Err(f) => !slot_valid(segment@) && f == (TSIMTreeFault::InvalidSegment {
                    len: segment@[0],
                }),
            },
    {
        let stored_len = segment[0];
        if (stored_len as usize) > MAX_STORED_KEY_SEGMENT_SIZE {
            Err(TSIMTreeFault::InvalidSegment { len: stored_len })
        } else {
            Ok(slice_subrange(segment, 1, 1 + stored_len as usize))
        }
    }

    /// Applies the comparison rule to a stored slot and a query key; returns
    /// the verdict and the unconsumed remainder of the key.
    pub fn compare_key_segment<'k>(segment: &[u8], key: &'k [u8]) -> (r: (i8, &'k [u8]))
        requires
            segment@.len() == KEY_SEGMENT_SIZE,
            slot_valid(segment@),
        ensures
            r.0 as int == key_cmp(key@, decode_slot(segment@)),
            r.1@ == key_rest(key@, decode_slot(segment@)),
    {
        let stored = match Self::stored_segment(segment) {
            Ok(s) => s,
            Err(_) => unreached(),
        };
        let c = compare_trunc(key, stored);
        let n: usize = if key.len() < stored.len() {
            key.len()
        } else {
            stored.len()
        };
        let rest = slice_subrange(key, n, key.len());
        proof {
            assert(rest@ =~= key_rest(key@, decode_slot(segment@)));
        }
        (c, rest)
    }

    /// The binary search of the resolver over an index window.
    fn resolve_between<'k>(&self, key: &'k [u8], left: usize, right: usize) -> (r: ResolvedChild<
        'k,
    >)
        requires
            self.shape_ok(),
            left <= right <= self.count(),
        ensures
            resolved_matches(r, resolve_spec(self.frags(), key@, left as int, right as int), *self, key@),
        decreases right - left,
    {
        if left >= right {
            return ResolvedChild::Smallest;
        }
        let mid = left + (right - left) / 2;
        let (c, rest) = Self::compare_key_segment((&self.key_segments[mid]).as_slice(), key);
        proof {
            assert(self.frags()[mid as int] == self.frag(mid as int));
            if c == 0 {
                lemma_key_cmp_eq(key@, self.frag(mid as int));
                assert(key_rest(key@, self.frag(mid as int)) == key@.skip(
                    self.frag(mid as int).len() as int,
                ));
            }
        }
        if c == 0 {
            ResolvedChild::ExactMatch(mid, rest)
        } else if c > 0 && left + 1 == right {
            ResolvedChild::InDomainOf(mid)
        } else if c > 0 {
            self.resolve_between(key, mid, right)
        } else {
            self.resolve_between(key, left, mid)
        }
    }

    /// Classifies a query key against this node's slots by binary search.
    pub fn resolve_child<'k>(&self, key: &'k [u8]) -> (r: ResolvedChild<'k>)
        requires
            self.shape_ok(),
        ensures
            resolved_matches(r, self.resolution(key@), *self, key@),
    {
        if self.children_count == 0 {
            return ResolvedChild::Smallest;
        }
        self.resolve_between(key, 0, self.children_count as usize)
    }

    /// Shifts the slots at and after `idx` right by one and writes the new
    /// (segment, child) pair at `idx`.
    pub fn insert_child(&mut self, idx: usize, key_fragment: &[u8], child: TSIMTreeNodeChild)
        requires
            old(self).shape_ok(),
            idx <= old(self).count(),
            old(self).count() < TREE_RADIX,
            key_fragment@.len() <= MAX_STORED_KEY_SEGMENT_SIZE,
        ensures
            final(self).children_count == old(self).children_count + 1,
            final(self).key_segments@.len() == TREE_RADIX,
            final(self).children@.len() == TREE_RADIX,
            final(self).frags() == old(self).frags().insert(idx as int, key_fragment@),
            forall|i: int|
                0 <= i < final(self).count() ==> #[trigger] final(self).key_segments@[i]@.len()
                    == KEY_SEGMENT_SIZE,
            forall|i: int|
                0 <= i < final(self).count() ==> slot_valid(
                    #[trigger] final(self).key_segments@[i]@,
                ),
            final(self).children@[idx as int] == Some(child),
            forall|j: int| 0 <= j < idx ==> final(self).children@[j] == old(self).children@[j],
            forall|j: int|
                idx < j <= old(self).count() ==> final(self).children@[j] == old(self).children@[j
                    - 1],
            forall|j: int|
                old(self).count() < j < TREE_RADIX ==> (#[trigger] final(self).children@[j])
                    is None,
    {
        let ghost oldn = *old(self);
        self.children.remove(TREE_RADIX - 1);
        self.children.insert(idx, Some(child));
        self.key_segments.remove(TREE_RADIX - 1);
        self.key_segments.insert(idx, encode_slot(key_fragment));
        self.children_count = self.children_count + 1;
        proof {
            assert forall|i: int| 0 <= i < self.count() implies slot_valid(
                #[trigger] self.key_segments@[i]@,
            ) && self.key_segments@[i]@.len() == KEY_SEGMENT_SIZE by {
                if i < idx {
                    assert(self.key_segments@[i] == oldn.key_segments@[i]);
                } else if i > idx {
                    assert(self.key_segments@[i] == oldn.key_segments@[i - 1]);
                }
            }
            assert forall|j: int| idx < j <= oldn.count() implies self.children@[j]
                == oldn.children@[j - 1] by {
                assert(self.children@[j] == oldn.children@[j - 1]);
            }
            assert(self.frags() =~= oldn.frags().insert(idx as int, key_fragment@)) by {
                assert forall|i: int| 0 <= i < self.count() implies self.frags()[i]
                    == oldn.frags().insert(idx as int, key_fragment@)[i] by {
                    if i < idx {
                        assert(self.key_segments@[i] == oldn.key_segments@[i]);
                    } else if i == idx {
                    } else {
                        assert(self.key_segments@[i] == oldn.key_segments@[i - 1]);
                    }
                }
            }
        }
    }
}

impl TSIMTreeNodeChild {
    /// Builds the subtree that maps `key` to `value` on its own: a chain of
    /// single-slot nodes, one fragment-sized chunk of the key per level, the
    /// innermost child being the terminal value.
    pub fn with_mapping(key: &[u8], value: Vec<u8>) -> (c: TSIMTreeNodeChild)
        ensures
            c is Node,
            child_node(c).well_formed(),
            child_node(c).count() == 1,
            child_node(c).frag(0) == trunc(key@, MAX_STORED_KEY_SEGMENT_SIZE as int),
            child_lookup(
                child_node(c).children@[0],
                key@.skip(child_node(c).frag(0).len() as int),
            ) == Some(value@),
            child_node(c).lookup(key@) == Some(value@),
            forall|q: Seq<u8>|
                key@.len() <= MAX_STORED_KEY_SEGMENT_SIZE && q != key@ ==> child_node(
                    c,
                ).lookup(q) == None::<Seq<u8>>,
        decreases key@.len(),
    {
        let cut: usize = if key.len() <= MAX_STORED_KEY_SEGMENT_SIZE {
            key.len()
        } else {
            MAX_STORED_KEY_SEGMENT_SIZE
        };
        let inner: TSIMTreeNodeChild = if cut == key.len() {
            TSIMTreeNodeChild::Value(value)
        } else {
            Self::with_mapping(slice_subrange(key, cut, key.len()), value)
        };
        let ghost innerg = inner;
        let mut node = TSIMTreeNode::empty();
        node.insert_child(0, slice_subrange(key, 0, cut), inner);
        proof {
            assert(node.frag(0) =~= trunc(key@, MAX_STORED_KEY_SEGMENT_SIZE as int));
            assert(node.shape_ok());
            assert(node.well_formed());
            lemma_key_cmp_self_trunc(key@, MAX_STORED_KEY_SEGMENT_SIZE as int);
            assert(node.frags()[0] == node.frag(0));
            assert(node.resolution(key@) == (1int, 0int));
            assert(key@.skip(node.frag(0).len() as int) =~= key@.skip(cut as int));
            assert(node.lookup(key@) == child_lookup(node.children@[0], key@.skip(cut as int)));
            if key@.len() <= MAX_STORED_KEY_SEGMENT_SIZE {
                // The single node maps exactly this one key: any other query
                // either stops short, overshoots into the bare terminal, or
                // reaches the terminal with bytes left over.
                assert(trunc(key@, MAX_STORED_KEY_SEGMENT_SIZE as int) == key@);
                assert(node.frag(0) == key@);
                assert(node.frags()[0] == key@);
                assert(node.children@[0] == Some(innerg));
                assert(innerg is Value);
                assert forall|q: Seq<u8>| q != key@ implies node.lookup(q)
                    == None::<Seq<u8>> by {
                    let c0 = key_cmp(q, key@);
                    if c0 == 0 {
                        lemma_key_cmp_eq(q, key@);
                        assert(node.resolution(q) == (1int, 0int));
                        if q.len() == key@.len() {
                            assert(q.take(q.len() as int) =~= q);
                            assert(false);
                        }
                        assert(q.skip(key@.len() as int).len() > 0);
                        assert(node.lookup(q) == child_lookup(
                            node.children@[0],
                            q.skip(key@.len() as int),
                        ));
                        assert(child_lookup(node.children@[0], q.skip(key@.len() as int))
                            == None::<Seq<u8>>);
                    } else if c0 > 0 {
                        assert(node.resolution(q) == (2int, 0int));
                        assert(node.lookup(q) == None::<Seq<u8>>);
                    } else {
                        assert(resolve_spec(node.frags(), q, 0, 0) == (0int, 0int));
                        assert(node.resolution(q) == (0int, 0int));
                        assert(node.lookup(q) == None::<Seq<u8>>);
                    }
                }
            }
        }
        TSIMTreeNodeChild::Node(Box::new(node))
    }

    /// Demotes this child one level: it becomes a single-slot node whose only
    /// slot holds the given fragment over the previous child.
    pub fn pushdown_children_under_key(&mut self, old_key_fragment: &[u8])
        requires
            old_key_fragment@.len() <= MAX_STORED_KEY_SEGMENT_SIZE,
            old(self).well_formed(),
        ensures
            *final(self) is Node,
            child_node(*final(self)).well_formed(),
            child_node(*final(self)).count() == 1,
            child_node(*final(self)).frag(0) == old_key_fragment@,
            child_node(*final(self)).children@[0] == Some(*old(self)),
            child_node(*final(self)).size() == 1 + opt_size(Some(*old(self))),
    {
        let mut taken = TSIMTreeNodeChild::Value(Vec::new());
        core::mem::swap(self, &mut taken);
        let mut m = TSIMTreeNode::empty();
        m.insert_child(0, old_key_fragment, taken);
        proof {
            assert(m.frags()[0] == m.frag(0));
            assert(m.frag(0) == old_key_fragment@);
            assert(m.shape_ok());
            assert(m.well_formed());
            assert forall|j: int| 1 <= j < TREE_RADIX implies (#[trigger] m.children@[j])
                is None by {}
            lemma_slots_size_single(m.children@, TREE_RADIX as int);
            assert(m.size() == 1 + opt_size(m.children@[0]));
        }
        let mut result = TSIMTreeNodeChild::Node(Box::new(m));
        core::mem::swap(self, &mut result);
    }
}

} // verus!
