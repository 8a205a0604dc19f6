//! Multi-message commitment block: a fixed-capacity slot array that
//! commits many independent (protocol, message) pairs into one root.
//!
//! The slot count is the smallest power of two at least the requested
//! minimum capacity.  Each item's candidate slot is derived from the
//! tagged hash of its protocol identifier, interpreted little-endian
//! and reduced modulo the slot count; collisions are resolved by
//! deterministic linear probing, inserting items in ascending canonical
//! order, so any verifier reproduces the identical placement.  Slots
//! holding no real item are filled with a digest derived from the
//! per-block entropy seed and the slot index, keeping blocks with
//! different numbers of real items identical in shape.
//!
//! Wire contract of the derivations (interoperating implementations
//! must match them bit for bit):
//! - candidate index: the first two bytes of the tagged hash (tag
//!   `mpc/protocol`) of the 32 protocol-identifier bytes, read as a
//!   little-endian integer, modulo the slot count (the slot count is a
//!   power of two dividing 2^16, so this equals the full little-endian
//!   digest value modulo the slot count);
//! - filler digest: the tagged hash (tag `mpc/entropy`) of the 8-byte
//!   little-endian entropy seed followed by the 8-byte little-endian
//!   slot index;
//! - block root: the Merkle root (tag `mpc/block`) over the ordered
//!   slot digests, a real slot contributing its message digest and a
//!   filler slot its filler digest.

use vstd::prelude::*;
use crate::merkle::ToMerkleSource;
use crate::tagged_hash::{tagged_hash, tagged_hash_of, digest_eq, digest_to_vec, push_bytes};

verus! {

/// The view of one committed item: protocol identifier bytes and
/// message digest bytes.
pub type ItemView = (Seq<u8>, Seq<u8>);

/// Identifier of the protocol a message belongs to: a 32-byte value,
/// typically itself a digest of a protocol description.
#[derive(Clone, Copy, Debug, PartialEq, Eq)]
pub struct ProtocolId(pub [u8; 32]);

impl View for ProtocolId {
    type V = Seq<u8>;

    open spec fn view(&self) -> Seq<u8> {
        self.0@
    }
}

impl ProtocolId {
    /// Wraps raw identifier bytes.
    pub fn from_bytes(bytes: [u8; 32]) -> (r: Self)
        ensures
            r@ == bytes@,
    {
        ProtocolId(bytes)
    }
}

/// A message digest being committed: the 32-byte digest of the
/// canonical encoding of the protocol's message.
#[derive(Clone, Copy, Debug, PartialEq, Eq)]
pub struct Message(pub [u8; 32]);

impl View for Message {
    type V = Seq<u8>;

    open spec fn view(&self) -> Seq<u8> {
        self.0@
    }
}

impl Message {
    /// Wraps raw digest bytes.
    pub fn from_bytes(bytes: [u8; 32]) -> (r: Self)
        ensures
            r@ == bytes@,
    {
        Message(bytes)
    }
}

/// The unit placed into a slot: a protocol identifier paired with the
/// digest of that protocol's message.
#[derive(Clone, Copy, Debug)]
pub struct MultiCommitItem {
    /// The protocol this commitment belongs to.
    pub protocol: ProtocolId,
    /// The committed message digest.
    pub message: Message,
}

impl View for MultiCommitItem {
    type V = ItemView;

    open spec fn view(&self) -> ItemView {
        (self.protocol@, self.message@)
    }
}

impl MultiCommitItem {
    /// Pairs a protocol identifier with its message digest.
    pub fn new(protocol: ProtocolId, message: Message) -> (r: Self)
        ensures
            r@ == (protocol@, message@),
    {
        MultiCommitItem { protocol, message }
    }
}

/// The views of a sequence of items.
pub open spec fn item_views(s: Seq<MultiCommitItem>) -> Seq<ItemView> {
    s.map_values(|it: MultiCommitItem| it@)
}

/// The domain tag under which protocol identifiers are hashed to
/// candidate slot indices.
pub open spec fn protocol_tag_spec() -> Seq<u8> {
    seq![109u8, 112u8, 99u8, 47u8, 112u8, 114u8, 111u8, 116u8, 111u8, 99u8, 111u8, 108u8]
}

fn protocol_tag() -> (r: Vec<u8>)
    ensures
        r@ == protocol_tag_spec(),
{
    let mut t: Vec<u8> = Vec::new();
    t.push(109u8);
    t.push(112u8);
    t.push(99u8);
    t.push(47u8);
    t.push(112u8);
    t.push(114u8);
    t.push(111u8);
    t.push(116u8);
    t.push(111u8);
    t.push(99u8);
    t.push(111u8);
    t.push(108u8);
    proof {
        assert(t@ =~= protocol_tag_spec());
    }
    t
}

/// The domain tag under which filler digests are derived from the
/// entropy seed and the slot index.
pub open spec fn entropy_tag_spec() -> Seq<u8> {
    seq![109u8, 112u8, 99u8, 47u8, 101u8, 110u8, 116u8, 114u8, 111u8, 112u8, 121u8]
}

fn entropy_tag() -> (r: Vec<u8>)
    ensures
        r@ == entropy_tag_spec(),
{
    let mut t: Vec<u8> = Vec::new();
    t.push(109u8);
    t.push(112u8);
    t.push(99u8);
    t.push(47u8);
    t.push(101u8);
    t.push(110u8);
    t.push(116u8);
    t.push(114u8);
    t.push(111u8);
    t.push(112u8);
    t.push(121u8);
    proof {
        assert(t@ =~= entropy_tag_spec());
    }
    t
}

/// The domain tag under which the slot array is Merkle-committed.
pub open spec fn block_tag_spec() -> Seq<u8> {
    seq![109u8, 112u8, 99u8, 47u8, 98u8, 108u8, 111u8, 99u8, 107u8]
}

fn block_tag() -> (r: Vec<u8>)
    ensures
        r@ == block_tag_spec(),
{
    let mut t: Vec<u8> = Vec::new();
    t.push(109u8);
    t.push(112u8);
    t.push(99u8);
    t.push(47u8);
    t.push(98u8);
    t.push(108u8);
    t.push(111u8);
    t.push(99u8);
    t.push(107u8);
    proof {
        assert(t@ =~= block_tag_spec());
    }
    t
}

/// The candidate slot index of a protocol identifier: the first two
/// bytes of its tagged hash, read little-endian, modulo the slot count.
pub open spec fn candidate_of(protocol: Seq<u8>, slot_count: nat) -> nat
    recommends
        slot_count >= 1,
{
    (tagged_hash_of(protocol_tag_spec(), protocol)[0] as nat + 256 * (tagged_hash_of(
        protocol_tag_spec(),
        protocol,
    )[1] as nat)) % slot_count
}

/// Computes the candidate slot index of `protocol` for a block of
/// `slot_count` slots.
pub fn protocol_id_slot(protocol: &ProtocolId, slot_count: usize) -> (r: usize)
    requires
        slot_count >= 1,
    ensures
        r as nat == candidate_of(protocol@, slot_count as nat),
        r < slot_count,
{
    let tag = protocol_tag();
    let id_bytes = digest_to_vec(&protocol.0);
    let d = tagged_hash(&tag, &id_bytes);
    let lo: usize = d[0] as usize + 256 * (d[1] as usize);
    lo % slot_count
}

/// The 8 little-endian bytes of a 64-bit value.
pub open spec fn u64_le_bytes(x: u64) -> Seq<u8> {
    Seq::new(8, |i: int| ((x >> ((8 * i) as u64)) & 0xff) as u8)
}

fn u64_le_vec(x: u64) -> (r: Vec<u8>)
    ensures
        r@ == u64_le_bytes(x),
{
    let mut v: Vec<u8> = Vec::new();
    let mut i: usize = 0;
    while i < 8
        invariant
            i <= 8,
            v@.len() == i,
            forall|j: int| 0 <= j < i ==> v@[j] == u64_le_bytes(x)[j],
        decreases 8 - i,
    {
        let sh: u64 = (8 * i) as u64;
        proof {
            assert((x >> sh) & 0xff < 256) by (bit_vector);
        }
        v.push(((x >> sh) & 0xff) as u8);
        i = i + 1;
    }
    proof {
        assert(v@ =~= u64_le_bytes(x));
    }
    v
}

/// The filler digest of slot `idx` for entropy seed `entropy`: the
/// tagged hash of the little-endian seed followed by the little-endian
/// slot index.
pub open spec fn filler_of(entropy: u64, idx: nat) -> Seq<u8>
    recommends
        idx < 0x10000000000000000,
{
    tagged_hash_of(entropy_tag_spec(), u64_le_bytes(entropy) + u64_le_bytes(idx as u64))
}

/// Computes the filler digest of slot `idx` for seed `entropy`.
fn filler_digest(entropy: u64, idx: u64) -> (r: [u8; 32])
    ensures
        r@ == filler_of(entropy, idx as nat),
{
    let tag = entropy_tag();
    let mut buf = u64_le_vec(entropy);
    let idx_bytes = u64_le_vec(idx);
    push_bytes(&mut buf, &idx_bytes);
    tagged_hash(&tag, &buf)
}

/// Byte-wise lexicographic order on byte sequences.
pub open spec fn bytes_leq(a: Seq<u8>, b: Seq<u8>) -> bool
    decreases a.len(),
{
    if a.len() == 0 {
        true
    } else if b.len() == 0 {
        false
    } else if a[0] < b[0] {
        true
    } else if a[0] > b[0] {
        false
    } else {
        bytes_leq(a.drop_first(), b.drop_first())
    }
}

/// Compares two 32-byte values lexicographically.
fn digest_leq(a: &[u8; 32], b: &[u8; 32]) -> (r: bool)
    ensures
        r == bytes_leq(a@, b@),
{
    let mut i: usize = 0;
    proof {
        assert(a@.skip(0) =~= a@);
        assert(b@.skip(0) =~= b@);
    }
    while i < 32
        invariant
            i <= 32,
            bytes_leq(a@, b@) == bytes_leq(a@.skip(i as int), b@.skip(i as int)),
        decreases 32 - i,
    {
        proof {
            assert(a@.skip(i as int)[0] == a@[i as int]);
            assert(b@.skip(i as int)[0] == b@[i as int]);
        }
        if a[i] < b[i] {
            return true;
        }
        if a[i] > b[i] {
            return false;
        }
        proof {
            assert(a@.skip(i as int).drop_first() =~= a@.skip(i + 1));
            assert(b@.skip(i as int).drop_first() =~= b@.skip(i + 1));
        }
        i = i + 1;
    }
    true
}

/// The canonical insertion order on items: ascending protocol
/// identifier, ties broken by the message digest.
pub open spec fn item_leq(x: ItemView, y: ItemView) -> bool {
    if x.0 != y.0 {
        bytes_leq(x.0, y.0)
    } else {
        bytes_leq(x.1, y.1)
    }
}

/// Compares two items in the canonical insertion order.
fn item_le(x: &MultiCommitItem, y: &MultiCommitItem) -> (r: bool)
    ensures
        r == item_leq(x@, y@),
{
    if digest_eq(&x.protocol.0, &y.protocol.0) {
        digest_leq(&x.message.0, &y.message.0)
    } else {
        digest_leq(&x.protocol.0, &y.protocol.0)
    }
}

/// Inserts `x` into a sorted sequence, before the first element that
/// `x` precedes.
pub open spec fn sorted_insert(s: Seq<ItemView>, x: ItemView) -> Seq<ItemView>
    decreases s.len(),
{
    if s.len() == 0 {
        seq![x]
    } else if item_leq(x, s[0]) {
        seq![x] + s
    } else {
        seq![s[0]] + sorted_insert(s.drop_first(), x)
    }
}

/// The canonical order of an item sequence: items inserted one by one
/// into their sorted position.  Insertion into the block proceeds in
/// this order, making the placement reproducible.
pub open spec fn canonical_order(items: Seq<ItemView>) -> Seq<ItemView>
    decreases items.len(),
{
    if items.len() == 0 {
        Seq::empty()
    } else {
        sorted_insert(canonical_order(items.drop_last()), items.last())
    }
}

proof fn lemma_sorted_insert_at(s: Seq<ItemView>, x: ItemView, j: int)
    requires
        0 <= j <= s.len(),
        forall|k: int| 0 <= k < j ==> !item_leq(x, #[trigger] s[k]),
        j < s.len() ==> item_leq(x, s[j]),
    ensures
        sorted_insert(s, x) == s.insert(j, x),
    decreases s.len(),
{
    if s.len() == 0 {
        assert(sorted_insert(s, x) =~= s.insert(0, x));
    } else if j == 0 {
        assert(sorted_insert(s, x) =~= s.insert(0, x));
    } else {
        assert(!item_leq(x, s[0]));
        assert(forall|k: int| 0 <= k < j - 1 ==> !item_leq(x, #[trigger] s.drop_first()[k]));
        lemma_sorted_insert_at(s.drop_first(), x, j - 1);
        assert(seq![s[0]] + s.drop_first().insert(j - 1, x) =~= s.insert(j, x));
    }
}

fn insert_position(sorted: &Vec<MultiCommitItem>, x: &MultiCommitItem) -> (j: usize)
    ensures
        j <= sorted@.len(),
        forall|k: int| 0 <= k < j ==> !item_leq(x@, #[trigger] item_views(sorted@)[k]),
        j < sorted@.len() ==> item_leq(x@, item_views(sorted@)[j as int]),
{
    let mut j: usize = 0;
    while j < sorted.len()
        invariant
            j <= sorted@.len(),
            forall|k: int| 0 <= k < j ==> !item_leq(x@, #[trigger] item_views(sorted@)[k]),
        decreases sorted@.len() - j,
    {
        if item_le(x, &sorted[j]) {
            return j;
        }
        j = j + 1;
    }
    j
}

/// Sorts items into the canonical insertion order.
fn sort_items(items: &Vec<MultiCommitItem>) -> (r: Vec<MultiCommitItem>)
    ensures
        item_views(r@) == canonical_order(item_views(items@)),
        r@.len() == items@.len(),
{
    let mut sorted: Vec<MultiCommitItem> = Vec::new();
    let mut i: usize = 0;
    while i < items.len()
        invariant
            i <= items@.len(),
            sorted@.len() == i,
            item_views(sorted@) == canonical_order(item_views(items@).take(i as int)),
        decreases items@.len() - i,
    {
        let x = items[i];
        let j = insert_position(&sorted, &x);
        let ghost prev = item_views(sorted@);
        sorted.insert(j, x);
        proof {
            lemma_sorted_insert_at(prev, x@, j as int);
            assert(item_views(sorted@) =~= prev.insert(j as int, x@));
            let t = item_views(items@).take(i + 1);
            assert(t.drop_last() =~= item_views(items@).take(i as int));
            assert(t.last() == x@);
        }
        i = i + 1;
    }
    proof {
        assert(item_views(items@).take(items@.len() as int) =~= item_views(items@));
    }
    sorted
}

/// Whether every item carries a distinct protocol identifier.
pub open spec fn distinct_protocols(items: Seq<ItemView>) -> bool {
    forall|i: int, j: int| 0 <= i < j < items.len() ==> (#[trigger] items[i]).0 != (
    #[trigger] items[j]).0
}

/// Checks that no two items share a protocol identifier.
fn check_distinct(items: &Vec<MultiCommitItem>) -> (r: bool)
    ensures
        r == distinct_protocols(item_views(items@)),
{
    let n = items.len();
    let mut i: usize = 0;
    while i < n
        invariant
            i <= n,
            n == items@.len(),
            forall|a: int, b: int|
                0 <= a < b < n && a < i ==> (#[trigger] item_views(items@)[a]).0 != (
                #[trigger] item_views(items@)[b]).0,
        decreases n - i,
    {
        let mut j: usize = i + 1;
        while j < n
            invariant
                i < j <= n,
                n == items@.len(),
                forall|b: int| i < b < j ==> (#[trigger] item_views(items@)[b]).0 != item_views(
                    items@,
                )[i as int].0,
            decreases n - j,
        {
            if digest_eq(&items[i].protocol.0, &items[j].protocol.0) {
                proof {
                    assert(item_views(items@)[i as int].0 == item_views(items@)[j as int].0);
                }
                return false;
            }
            j = j + 1;
        }
        i = i + 1;
    }
    true
}

/// The view of one slot: the item it holds, or `None` for a filler.
pub type SlotView = Option<ItemView>;

/// The views of a sequence of slots.
pub open spec fn slot_views(s: Seq<Option<MultiCommitItem>>) -> Seq<SlotView> {
    s.map_values(
        |o: Option<MultiCommitItem>|
            match o {
                Some(it) => Some(it@),
                None => None,
            },
    )
}

/// The first free slot reached by probing forward (wrapping) from
/// `idx`, for at most `steps` slots.
pub open spec fn probe_free(slots: Seq<SlotView>, idx: nat, steps: nat) -> Option<nat>
    recommends
        slots.len() >= 1,
        idx < slots.len(),
    decreases steps,
{
    if steps == 0 {
        None
    } else if slots[idx as int] is None {
        Some(idx)
    } else {
        probe_free(slots, (((idx + 1) as int) % (slots.len() as int)) as nat, (steps - 1) as nat)
    }
}

/// Deterministic placement: each item in turn is placed into the first
/// free slot probing forward from its candidate index; `None` when a
/// free slot cannot be found for some item.
pub open spec fn place_items(slots: Seq<SlotView>, items: Seq<ItemView>) -> Option<Seq<SlotView>>
    decreases items.len(),
{
    if items.len() == 0 {
        Some(slots)
    } else {
        let c = candidate_of(items[0].0, slots.len());
        match probe_free(slots, c, slots.len()) {
            None => None,
            Some(i) => place_items(slots.update(i as int, Some(items[0])), items.drop_first()),
        }
    }
}

/// A sequence of all-free slots.
pub open spec fn empty_slots(n: nat) -> Seq<SlotView> {
    Seq::new(n, |i: int| None::<ItemView>)
}

/// The slot count chosen for a requested minimum capacity: the
/// smallest power of two at least that minimum (and at least one).
pub open spec fn slot_count_of(min_capacity: u16) -> nat {
    crate::merkle::pow2_ceil(min_capacity as nat)
}

/// The slots of the block committing `items`: the canonical order of
/// the items placed into `n` initially free slots.
pub open spec fn block_slots_of(items: Seq<ItemView>, n: nat) -> Option<Seq<SlotView>> {
    place_items(empty_slots(n), canonical_order(items))
}

/// The number of free slots.
pub open spec fn free_count(slots: Seq<SlotView>) -> nat
    decreases slots.len(),
{
    if slots.len() == 0 {
        0
    } else {
        free_count(slots.drop_last()) + if slots.last() is None {
            1nat
        } else {
            0nat
        }
    }
}

proof fn lemma_free_count_update(slots: Seq<SlotView>, i: int, x: ItemView)
    requires
        0 <= i < slots.len(),
        slots[i] is None,
    ensures
        free_count(slots.update(i, Some(x))) + 1 == free_count(slots),
    decreases slots.len(),
{
    let u = slots.update(i, Some(x));
    if i == slots.len() - 1 {
        assert(u.drop_last() =~= slots.drop_last());
    } else {
        assert(u.last() == slots.last());
        assert(u.drop_last() =~= slots.drop_last().update(i, Some(x)));
        lemma_free_count_update(slots.drop_last(), i, x);
    }
}

proof fn lemma_free_count_zero(slots: Seq<SlotView>)
    requires
        free_count(slots) == 0,
    ensures
        forall|j: int| 0 <= j < slots.len() ==> (#[trigger] slots[j]) is Some,
    decreases slots.len(),
{
    if slots.len() > 0 {
        lemma_free_count_zero(slots.drop_last());
        assert forall|j: int| 0 <= j < slots.len() implies (#[trigger] slots[j]) is Some by {
            if j < slots.len() - 1 {
                assert(slots.drop_last()[j] is Some);
            }
        }
    }
}

proof fn lemma_free_count_pos(slots: Seq<SlotView>)
    requires
        free_count(slots) > 0,
    ensures
        exists|j: int| 0 <= j < slots.len() && (#[trigger] slots[j]) is None,
    decreases slots.len(),
{
    if slots.last() is None {
        assert(slots[slots.len() - 1] is None);
    } else {
        lemma_free_count_pos(slots.drop_last());
        let j = choose|j: int| 0 <= j < slots.drop_last().len() && (#[trigger] slots.drop_last()[j]) is None;
        assert(slots[j] is None);
    }
}

proof fn lemma_probe_some(slots: Seq<SlotView>, idx: nat, steps: nat)
    requires
        slots.len() >= 1,
        idx < slots.len(),
    ensures
        probe_free(slots, idx, steps) matches Some(f) ==> f < slots.len() && slots[f as int] is None,
    decreases steps,
{
    if steps > 0 && !(slots[idx as int] is None) {
        let len = slots.len() as int;
        vstd::arithmetic::div_mod::lemma_mod_bound((idx + 1) as int, len);
        lemma_probe_some(slots, (((idx + 1) as int) % len) as nat, (steps - 1) as nat);
    }
}

proof fn lemma_probe_finds(slots: Seq<SlotView>, idx: nat, k: nat, steps: nat)
    requires
        slots.len() >= 1,
        idx < slots.len(),
        k < steps,
        k < slots.len(),
        slots[((idx + k) as int % (slots.len() as int))] is None,
    ensures
        probe_free(slots, idx, steps) is Some,
    decreases steps,
{
    let len = slots.len() as int;
    if slots[idx as int] is None {
    } else {
        vstd::arithmetic::div_mod::lemma_small_mod(idx, slots.len());
        assert(k != 0);
        let idx2 = (((idx + 1) as int) % len) as nat;
        vstd::arithmetic::div_mod::lemma_mod_bound((idx + 1) as int, len);
        assert((idx2 + (k - 1)) as int % len == (idx + k) as int % len) by {
            vstd::arithmetic::div_mod::lemma_add_mod_noop((idx + 1) as int, (k - 1) as int, len);
            vstd::arithmetic::div_mod::lemma_mod_twice((idx + 1) as int, len);
            vstd::arithmetic::div_mod::lemma_small_mod((k - 1) as nat, slots.len());
            assert(((idx + 1) as int % len + (k - 1) as int % len) % len == ((idx + 1) + (k - 1))
                % len);
        }
        lemma_probe_finds(slots, idx2, (k - 1) as nat, (steps - 1) as nat);
    }
}

proof fn lemma_free_probe_succeeds(slots: Seq<SlotView>, idx: nat)
    requires
        slots.len() >= 1,
        idx < slots.len(),
        free_count(slots) > 0,
    ensures
        probe_free(slots, idx, slots.len()) is Some,
{
    let len = slots.len() as int;
    lemma_free_count_pos(slots);
    let f = choose|j: int| 0 <= j < slots.len() && (#[trigger] slots[j]) is None;
    let k: int = if f >= idx { f - idx } else { f + len - idx };
    assert(0 <= k < len);
    assert((idx + k) as int % len == f) by {
        if f >= idx {
            vstd::arithmetic::div_mod::lemma_small_mod(f as nat, slots.len());
        } else {
            vstd::arithmetic::div_mod::lemma_mod_multiples_vanish(1, f, len);
            vstd::arithmetic::div_mod::lemma_small_mod(f as nat, slots.len());
        }
    }
    lemma_probe_finds(slots, idx, k as nat, slots.len());
}

proof fn lemma_candidate_bound(p: Seq<u8>, n: nat)
    requires
        n >= 1,
    ensures
        candidate_of(p, n) < n,
{
    vstd::arithmetic::div_mod::lemma_mod_bound(
        tagged_hash_of(protocol_tag_spec(), p)[0] as int + 256 * (tagged_hash_of(
            protocol_tag_spec(),
            p,
        )[1] as int),
        n as int,
    );
}

proof fn lemma_place_len(slots: Seq<SlotView>, items: Seq<ItemView>)
    ensures
        place_items(slots, items) matches Some(s) ==> s.len() == slots.len(),
    decreases items.len(),
{
    if items.len() > 0 {
        let c = candidate_of(items[0].0, slots.len());
        match probe_free(slots, c, slots.len()) {
            None => {
                assert(place_items(slots, items) is None);
            },
            Some(i) => {
                assert(slots.len() > 0);
                lemma_candidate_bound(items[0].0, slots.len());
                lemma_probe_some(slots, c, slots.len());
                let u = slots.update(i as int, Some(items[0]));
                lemma_place_len(u, items.drop_first());
                assert(place_items(slots, items) == place_items(u, items.drop_first()));
            },
        }
    } else {
        assert(place_items(slots, items) == Some(slots));
    }
}

proof fn lemma_place_snoc(slots: Seq<SlotView>, items: Seq<ItemView>, x: ItemView)
    ensures
        place_items(slots, items.push(x)) == match place_items(slots, items) {
            None => None::<Seq<SlotView>>,
            Some(s) => match probe_free(s, candidate_of(x.0, s.len()), s.len()) {
                None => None::<Seq<SlotView>>,
                Some(i) => Some(s.update(i as int, Some(x))),
            },
        },
    decreases items.len(),
{
    if items.len() == 0 {
        assert(items.push(x)[0] == x);
        assert(items.push(x).drop_first() =~= Seq::<ItemView>::empty());
        let c = candidate_of(x.0, slots.len());
        match probe_free(slots, c, slots.len()) {
            None => {},
            Some(i) => {
                assert(slots.len() > 0);
                lemma_candidate_bound(x.0, slots.len());
                lemma_probe_some(slots, c, slots.len());
                assert(place_items(slots.update(i as int, Some(x)), Seq::<ItemView>::empty())
                    == Some(slots.update(i as int, Some(x))));
            },
        }
    } else {
        let y = items[0];
        assert(items.push(x)[0] == y);
        assert(items.push(x).drop_first() =~= items.drop_first().push(x));
        let c = candidate_of(y.0, slots.len());
        match probe_free(slots, c, slots.len()) {
            None => {},
            Some(i) => {
                assert(slots.len() > 0);
                lemma_candidate_bound(y.0, slots.len());
                lemma_probe_some(slots, c, slots.len());
                lemma_place_snoc(slots.update(i as int, Some(y)), items.drop_first(), x);
            },
        }
    }
}

proof fn lemma_canonical_len(items: Seq<ItemView>)
    ensures
        canonical_order(items).len() == items.len(),
    decreases items.len(),
{
    if items.len() > 0 {
        lemma_canonical_len(items.drop_last());
        lemma_sorted_insert_len(canonical_order(items.drop_last()), items.last());
    }
}

proof fn lemma_sorted_insert_len(s: Seq<ItemView>, x: ItemView)
    ensures
        sorted_insert(s, x).len() == s.len() + 1,
    decreases s.len(),
{
    if s.len() > 0 && !item_leq(x, s[0]) {
        lemma_sorted_insert_len(s.drop_first(), x);
    }
}

/// The construction errors of a multi-message commitment block.
#[derive(Clone, Copy, Debug, PartialEq, Eq)]
pub enum MultiCommitError {
    /// Two items carry the same protocol identifier.
    DuplicateProtocol,
    /// More distinct protocol identifiers than slots: no free slot is
    /// left after full probing.
    CapacityExceeded,
}

/// The source a multi-message block commits from: the requested
/// minimum capacity and the per-block entropy seed that derives the
/// filler digests.
#[derive(Clone, Copy, Debug)]
pub struct MultiSource {
    /// The minimum number of slots the block must provide.
    pub min_capacity: u16,
    /// The entropy seed for the filler digests.
    pub entropy: u64,
}

/// The multi-message commitment block: a fixed-capacity slot array
/// holding each committed item at its deterministically probed slot,
/// with every remaining slot filled from the entropy seed.
#[derive(Debug)]
pub struct MultiCommitBlock {
    slots: Vec<Option<MultiCommitItem>>,
    entropy: u64,
}

impl View for MultiCommitBlock {
    type V = (Seq<SlotView>, u64);

    closed spec fn view(&self) -> (Seq<SlotView>, u64) {
        (slot_views(self.slots@), self.entropy)
    }
}

/// Finds the first free slot probing forward (wrapping) from `start`.
fn probe_slot(occ: &Vec<Option<MultiCommitItem>>, start: usize) -> (r: Option<usize>)
    requires
        occ@.len() >= 1,
        start < occ@.len(),
    ensures
        match r {
            Some(i) => i < occ@.len() && probe_free(slot_views(occ@), start as nat, occ@.len() as nat)
                == Some(i as nat) && slot_views(occ@)[i as int] is None,
            None => probe_free(slot_views(occ@), start as nat, occ@.len() as nat) is None,
        },
{
    let len = occ.len();
    let mut idx = start;
    let mut k: usize = 0;
    while k < len
        invariant
            len == occ@.len(),
            k <= len,
            idx < len,
            probe_free(slot_views(occ@), start as nat, len as nat) == probe_free(
                slot_views(occ@),
                idx as nat,
                (len - k) as nat,
            ),
        decreases len - k,
    {
        if occ[idx].is_none() {
            proof {
                assert(slot_views(occ@)[idx as int] is None);
            }
            return Some(idx);
        }
        proof {
            assert(slot_views(occ@)[idx as int] is Some);
            if idx + 1 < len {
                vstd::arithmetic::div_mod::lemma_small_mod((idx + 1) as nat, len as nat);
            } else {
                vstd::arithmetic::div_mod::lemma_mod_self_0(len as int);
            }
        }
        if idx + 1 < len {
            idx = idx + 1;
        } else {
            idx = 0;
        }
        k = k + 1;
    }
    None
}

impl MultiCommitBlock {
    /// The views of the slots, in order.
    pub closed spec fn slots_spec(&self) -> Seq<SlotView> {
        slot_views(self.slots@)
    }

    /// The entropy seed the fillers are derived from.
    pub closed spec fn entropy_spec(&self) -> u64 {
        self.entropy
    }

    /// The number of slots.
    pub open spec fn slot_count_spec(&self) -> nat {
        self.slots_spec().len()
    }

    /// The entropy seed the fillers of this block are derived from.
    pub fn entropy(&self) -> (r: u64)
        ensures
            r == self.entropy_spec(),
    {
        self.entropy
    }

    /// The number of slots of this block.
    pub fn slot_count(&self) -> (r: usize)
        ensures
            r as nat == self.slot_count_spec(),
    {
        self.slots.len()
    }

    /// The item held at slot `idx`, or `None` for a filler slot.
    pub fn slot(&self, idx: usize) -> (r: Option<MultiCommitItem>)
        requires
            idx < self.slot_count_spec(),
        ensures
            r matches Some(it) ==> self.slots_spec()[idx as int] == Some(it@),
            r is None ==> self.slots_spec()[idx as int] is None,
    {
        self.slots[idx]
    }

    /// Builds the block committing `items` for `source`: the slot
    /// count is the smallest power of two at least the requested
    /// minimum capacity; the items, taken in canonical order, are
    /// placed by deterministic linear probing from their candidate
    /// indices.  Duplicate protocol identifiers and exhausted capacity
    /// are reported as typed errors; nothing is dropped or overwritten.
    pub fn try_commit(source: &MultiSource, items: &Vec<MultiCommitItem>) -> (r: Result<
        MultiCommitBlock,
        MultiCommitError,
    >)
        ensures
            (r is Ok) == (distinct_protocols(item_views(items@)) && items@.len() <= slot_count_of(
                source.min_capacity,
            )),
            r matches Ok(b) ==> Some(b.slots_spec()) == block_slots_of(
                item_views(items@),
                slot_count_of(source.min_capacity),
            ) && b.entropy_spec() == source.entropy && b.slot_count_spec() == slot_count_of(
                source.min_capacity,
            ),
            !distinct_protocols(item_views(items@)) ==> r == Err::<MultiCommitBlock,
                MultiCommitError,
            >(MultiCommitError::DuplicateProtocol),
            distinct_protocols(item_views(items@)) && items@.len() > slot_count_of(
                source.min_capacity,
            ) ==> r == Err::<MultiCommitBlock, MultiCommitError>(
                MultiCommitError::CapacityExceeded,
            ),
    {
        if !check_distinct(items) {
            return Err(MultiCommitError::DuplicateProtocol);
        }
        let slot_count = crate::merkle::pow2_ceil_exec(source.min_capacity as usize);
        if items.len() > slot_count {
            return Err(MultiCommitError::CapacityExceeded);
        }
        let sorted = sort_items(items);
        let ghost canon = canonical_order(item_views(items@));
        proof {
            lemma_canonical_len(item_views(items@));
        }
        let mut occ: Vec<Option<MultiCommitItem>> = Vec::new();
        let mut f: usize = 0;
        while f < slot_count
            invariant
                f <= slot_count,
                occ@.len() == f,
                slot_views(occ@) == empty_slots(f as nat),
            decreases slot_count - f,
        {
            let ghost pre = slot_views(occ@);
            occ.push(None);
            proof {
                assert forall|j: int| 0 <= j < occ@.len() implies slot_views(occ@)[j] == empty_slots(
                    (f + 1) as nat,
                )[j] by {
                    if j < f {
                        assert(slot_views(occ@)[j] == pre[j]);
                    }
                }
                assert(slot_views(occ@) =~= empty_slots((f + 1) as nat));
            }
            f = f + 1;
        }
        proof {
            lemma_free_count_all_free(slot_views(occ@));
        }
        let n = sorted.len();
        let mut k: usize = 0;
        while k < n
            invariant
                k <= n,
                n == canon.len(),
                n <= slot_count,
                slot_count >= 1,
                occ@.len() == slot_count,
                n == sorted@.len(),
                item_views(sorted@) == canon,
                place_items(empty_slots(slot_count as nat), canon.take(k as int)) == Some(
                    slot_views(occ@),
                ),
                free_count(slot_views(occ@)) + k == slot_count,
            decreases n - k,
        {
            let it = sorted[k];
            let c = protocol_id_slot(&it.protocol, slot_count);
            let ghost pre = slot_views(occ@);
            proof {
                lemma_free_probe_succeeds(pre, c as nat);
            }
            match probe_slot(&occ, c) {
                Some(i) => {
                    occ.set(i, Some(it));
                    proof {
                        assert(slot_views(occ@) =~= pre.update(i as int, Some(it@)));
                        lemma_free_count_update(pre, i as int, it@);
                        assert(canon.take(k + 1).drop_last() =~= canon.take(k as int));
                        assert(canon.take(k + 1) =~= canon.take(k as int).push(canon[k as int]));
                        lemma_place_snoc(
                            empty_slots(slot_count as nat),
                            canon.take(k as int),
                            canon[k as int],
                        );
                        assert(canon[k as int] == it@);
                    }
                },
                None => {
                    // Unreachable: the capacity check above leaves a free
                    // slot for every remaining item, so probing cannot fail.
                    proof {
                        assert(false);
                    }
                },
            }
            k = k + 1;
        }
        proof {
            assert(canon.take(n as int) =~= canon);
        }
        Ok(MultiCommitBlock { slots: occ, entropy: source.entropy })
    }
}

/// The digest a slot contributes to the block's Merkle leaves: the
/// message digest of a real item, the entropy-derived filler otherwise.
pub open spec fn slot_digest_of(slots: Seq<SlotView>, entropy: u64, i: int) -> Seq<u8> {
    match slots[i] {
        Some(it) => it.1,
        None => filler_of(entropy, i as nat),
    }
}

/// The ordered digests of all slots.
pub open spec fn slot_digests_of(slots: Seq<SlotView>, entropy: u64) -> Seq<Seq<u8>> {
    Seq::new(slots.len(), |i: int| slot_digest_of(slots, entropy, i))
}

/// Forward probing as the verifier performs it: from `idx`, a slot
/// holding the sought protocol decides by its message digest, a slot
/// holding another protocol is stepped over, and a filler slot ends
/// the search, since an item for the sought protocol could never have
/// been placed beyond a slot that was free.
pub open spec fn probe_verify(
    slots: Seq<SlotView>,
    protocol: Seq<u8>,
    message: Seq<u8>,
    idx: nat,
    steps: nat,
) -> bool
    recommends
        slots.len() >= 1,
        idx < slots.len(),
    decreases steps,
{
    if steps == 0 {
        false
    } else {
        match slots[idx as int] {
            None => false,
            Some(it) => if it.0 == protocol {
                it.1 == message
            } else {
                probe_verify(
                    slots,
                    protocol,
                    message,
                    (((idx + 1) as int) % (slots.len() as int)) as nat,
                    (steps - 1) as nat,
                )
            },
        }
    }
}

/// Whether the block's slots verify `message` for `protocol`: probing
/// forward from the protocol's candidate index finds a slot holding
/// exactly this protocol and message.
pub open spec fn block_verifies(slots: Seq<SlotView>, protocol: Seq<u8>, message: Seq<u8>) -> bool {
    slots.len() >= 1 && probe_verify(
        slots,
        protocol,
        message,
        candidate_of(protocol, slots.len()),
        slots.len(),
    )
}

proof fn lemma_free_count_all_free(slots: Seq<SlotView>)
    requires
        forall|j: int| 0 <= j < slots.len() ==> (#[trigger] slots[j]) is None,
    ensures
        free_count(slots) == slots.len(),
    decreases slots.len(),
{
    if slots.len() > 0 {
        lemma_free_count_all_free(slots.drop_last());
    }
}

/// No occupied slot of `occ` holds the protocol `protocol`.
pub open spec fn occupants_lack(occ: Seq<SlotView>, protocol: Seq<u8>) -> bool {
    forall|j: int|
        0 <= j < occ.len() ==> ((#[trigger] occ[j]) matches Some(it) ==> it.0 != protocol)
}

/// `res` keeps every occupied slot of `occ` unchanged.
pub open spec fn extends_slots(occ: Seq<SlotView>, res: Seq<SlotView>) -> bool {
    res.len() == occ.len() && forall|j: int|
        0 <= j < occ.len() && (#[trigger] occ[j]) is Some ==> res[j] == occ[j]
}

proof fn lemma_place_preserves(occ: Seq<SlotView>, items: Seq<ItemView>, res: Seq<SlotView>)
    requires
        place_items(occ, items) == Some(res),
    ensures
        extends_slots(occ, res),
    decreases items.len(),
{
    if items.len() == 0 {
        assert(res == occ);
    } else {
        let x = items[0];
        let c = candidate_of(x.0, occ.len());
        match probe_free(occ, c, occ.len()) {
            None => {},
            Some(f) => {
                assert(occ.len() > 0);
                lemma_candidate_bound(x.0, occ.len());
                lemma_probe_some(occ, c, occ.len());
                let occ2 = occ.update(f as int, Some(x));
                lemma_place_preserves(occ2, items.drop_first(), res);
                assert forall|j: int|
                    0 <= j < occ.len() && (#[trigger] occ[j]) is Some implies res[j] == occ[j] by {
                    assert(j != f);
                    assert(occ2[j] == occ[j]);
                }
            },
        }
    }
}

proof fn lemma_probe_transfer(
    occ: Seq<SlotView>,
    res: Seq<SlotView>,
    protocol: Seq<u8>,
    message: Seq<u8>,
    idx: nat,
    steps: nat,
    f: nat,
)
    requires
        occ.len() >= 1,
        idx < occ.len(),
        extends_slots(occ, res),
        occupants_lack(occ, protocol),
        probe_free(occ, idx, steps) == Some(f),
        res[f as int] == Some((protocol, message)),
    ensures
        probe_verify(res, protocol, message, idx, steps),
    decreases steps,
{
    let len = occ.len() as int;
    if occ[idx as int] is None {
        assert(f == idx);
    } else {
        assert(res[idx as int] == occ[idx as int]);
        let idx2 = (((idx + 1) as int) % len) as nat;
        vstd::arithmetic::div_mod::lemma_mod_bound((idx + 1) as int, len);
        lemma_probe_transfer(occ, res, protocol, message, idx2, (steps - 1) as nat, f);
    }
}

proof fn lemma_place_complete(occ: Seq<SlotView>, items: Seq<ItemView>, res: Seq<SlotView>)
    requires
        occ.len() >= 1,
        place_items(occ, items) == Some(res),
        distinct_protocols(items),
        forall|i: int| 0 <= i < items.len() ==> occupants_lack(occ, (#[trigger] items[i]).0),
    ensures
        forall|i: int|
            0 <= i < items.len() ==> block_verifies(res, (#[trigger] items[i]).0, items[i].1),
    decreases items.len(),
{
    if items.len() > 0 {
        let x = items[0];
        let c = candidate_of(x.0, occ.len());
        match probe_free(occ, c, occ.len()) {
            None => {},
            Some(f) => {
                lemma_candidate_bound(x.0, occ.len());
                lemma_probe_some(occ, c, occ.len());
                let occ2 = occ.update(f as int, Some(x));
                let rest = items.drop_first();
                lemma_place_preserves(occ2, rest, res);
                assert(occ2[f as int] == Some(x));
                assert(occ2[f as int] is Some);
                assert(res[f as int] == occ2[f as int]);
                assert(res[f as int] == Some(x));
                assert(extends_slots(occ, res)) by {
                    assert forall|j: int|
                        0 <= j < occ.len() && (#[trigger] occ[j]) is Some implies res[j] == occ[j] by {
                        assert(j != f);
                        assert(occ2[j] == occ[j]);
                    }
                }
                assert(occupants_lack(occ, x.0));
                lemma_probe_transfer(occ, res, x.0, x.1, c, occ.len(), f);
                assert(block_verifies(res, x.0, x.1)) by {
                    lemma_place_len(occ2, rest);
                }
                assert(distinct_protocols(rest)) by {
                    assert forall|a: int, b: int|
                        0 <= a < b < rest.len() implies (#[trigger] rest[a]).0 != (
                    #[trigger] rest[b]).0 by {
                        assert(rest[a] == items[a + 1]);
                        assert(rest[b] == items[b + 1]);
                    }
                }
                assert forall|i: int|
                    0 <= i < rest.len() implies occupants_lack(occ2, (#[trigger] rest[i]).0) by {
                    assert(rest[i] == items[i + 1]);
                    assert(occupants_lack(occ, items[i + 1].0));
                    assert forall|j: int|
                        0 <= j < occ2.len() implies ((#[trigger] occ2[j]) matches Some(it)
                        ==> it.0 != rest[i].0) by {
                        if j == f {
                            assert(occ2[j] == Some(x));
                            assert(x.0 != items[i + 1].0);
                        } else {
                            assert(occ2[j] == occ[j]);
                        }
                    }
                }
                lemma_place_complete(occ2, rest, res);
                assert forall|i: int|
                    0 <= i < items.len() implies block_verifies(
                    res,
                    (#[trigger] items[i]).0,
                    items[i].1,
                ) by {
                    if i > 0 {
                        assert(rest[i - 1] == items[i]);
                        assert(block_verifies(res, rest[i - 1].0, rest[i - 1].1));
                    }
                }
            },
        }
    }
}

proof fn lemma_probe_sound(
    res: Seq<SlotView>,
    protocol: Seq<u8>,
    message: Seq<u8>,
    idx: nat,
    steps: nat,
)
    requires
        res.len() >= 1,
        idx < res.len(),
        probe_verify(res, protocol, message, idx, steps),
    ensures
        exists|j: int| 0 <= j < res.len() && (#[trigger] res[j]) == Some((protocol, message)),
    decreases steps,
{
    let len = res.len() as int;
    match res[idx as int] {
        None => {},
        Some(it) => {
            if it.0 == protocol {
                assert(it == (protocol, message));
                assert(res[idx as int] == Some((protocol, message)));
            } else {
                let idx2 = (((idx + 1) as int) % len) as nat;
                vstd::arithmetic::div_mod::lemma_mod_bound((idx + 1) as int, len);
                lemma_probe_sound(res, protocol, message, idx2, (steps - 1) as nat);
            }
        },
    }
}

proof fn lemma_place_occupants(occ: Seq<SlotView>, items: Seq<ItemView>, res: Seq<SlotView>)
    requires
        place_items(occ, items) == Some(res),
    ensures
        forall|j: int|
            0 <= j < res.len() ==> ((#[trigger] res[j]) matches Some(it) ==> occ[j] == Some(it)
                || items.contains(it)),
    decreases items.len(),
{
    if items.len() == 0 {
        assert(res == occ);
    } else {
        let x = items[0];
        let c = candidate_of(x.0, occ.len());
        match probe_free(occ, c, occ.len()) {
            None => {},
            Some(f) => {
                assert(occ.len() > 0);
                lemma_candidate_bound(x.0, occ.len());
                lemma_probe_some(occ, c, occ.len());
                let occ2 = occ.update(f as int, Some(x));
                let rest = items.drop_first();
                lemma_place_occupants(occ2, rest, res);
                lemma_place_len(occ2, rest);
                assert(res.len() == occ.len());
                assert forall|j: int|
                    0 <= j < res.len() implies ((#[trigger] res[j]) matches Some(it) ==> occ[j]
                    == Some(it) || items.contains(it)) by {
                    if res[j] is Some {
                        let it = res[j]->0;
                        assert(res[j] == Some(it));
                        assert(occ2[j] == Some(it) || rest.contains(it));
                        if occ2[j] == Some(it) {
                            if j == f {
                                assert(occ2[j] == Some(x));
                                assert(items[0] == it);
                                assert(items.contains(it));
                            } else {
                                assert(occ2[j] == occ[j]);
                            }
                        } else {
                            assert(rest.contains(it));
                            let i = choose|i: int| 0 <= i < rest.len() && rest[i] == it;
                            assert(items[i + 1] == it);
                            assert(items.contains(it));
                        }
                    }
                }
            },
        }
    }
}

/// Round trip for the multi-message block: every item of a sequence
/// with distinct protocols that the deterministic placement put into
/// an initially free slot array is found again by the verifier's
/// probe, with exactly its committed message digest.
pub proof fn lemma_block_round_trip(items: Seq<ItemView>, n: nat, res: Seq<SlotView>)
    requires
        n >= 1,
        distinct_protocols(items),
        place_items(empty_slots(n), items) == Some(res),
    ensures
        forall|i: int|
            0 <= i < items.len() ==> block_verifies(res, (#[trigger] items[i]).0, items[i].1),
{
    assert forall|i: int|
        0 <= i < items.len() implies occupants_lack(empty_slots(n), (#[trigger] items[i]).0) by {
        assert(forall|j: int| 0 <= j < n ==> empty_slots(n)[j] is None);
    }
    lemma_place_complete(empty_slots(n), items, res);
}

/// Soundness of block verification: the probe accepts a (protocol,
/// message) pair only if that exact pair was placed.  Nothing outside
/// the committed items ever verifies.
pub proof fn lemma_block_sound(
    items: Seq<ItemView>,
    n: nat,
    res: Seq<SlotView>,
    protocol: Seq<u8>,
    message: Seq<u8>,
)
    requires
        place_items(empty_slots(n), items) == Some(res),
        block_verifies(res, protocol, message),
    ensures
        items.contains((protocol, message)),
{
    lemma_place_len(empty_slots(n), items);
    lemma_candidate_bound(protocol, res.len());
    lemma_probe_sound(res, protocol, message, candidate_of(protocol, res.len()), res.len());
    let j = choose|j: int| 0 <= j < res.len() && (#[trigger] res[j]) == Some((protocol, message));
    lemma_place_occupants(empty_slots(n), items, res);
    assert(empty_slots(n)[j] is None);
}

/// Tamper sensitivity of the block: once a message is committed for a
/// protocol, no different message digest for that protocol ever
/// verifies against the placed slots.
pub proof fn lemma_block_tamper(
    items: Seq<ItemView>,
    n: nat,
    res: Seq<SlotView>,
    protocol: Seq<u8>,
    message: Seq<u8>,
    tampered: Seq<u8>,
)
    requires
        distinct_protocols(items),
        items.contains((protocol, message)),
        tampered != message,
        place_items(empty_slots(n), items) == Some(res),
    ensures
        !block_verifies(res, protocol, tampered),
{
    if block_verifies(res, protocol, tampered) {
        lemma_block_sound(items, n, res, protocol, tampered);
        let i = choose|i: int| 0 <= i < items.len() && items[i] == (protocol, message);
        let j = choose|j: int| 0 <= j < items.len() && items[j] == (protocol, tampered);
        assert(items[i].0 == items[j].0);
        assert(i != j);
    }
}

proof fn lemma_sorted_insert_contains(s: Seq<ItemView>, x: ItemView, y: ItemView)
    ensures
        sorted_insert(s, x).contains(y) <==> (s.contains(y) || y == x),
    decreases s.len(),
{
    if s.len() == 0 {
        assert(sorted_insert(s, x) =~= seq![x]);
        assert(seq![x][0] == x);
        if y == x {
            assert(sorted_insert(s, x).contains(y));
        }
    } else if item_leq(x, s[0]) {
        let t = seq![x] + s;
        assert(t[0] == x);
        assert forall|i: int| 0 <= i < s.len() implies t[i + 1] == s[i] by {}
        if s.contains(y) {
            let i = choose|i: int| 0 <= i < s.len() && s[i] == y;
            assert(t[i + 1] == y);
        }
        if t.contains(y) {
            let i = choose|i: int| 0 <= i < t.len() && t[i] == y;
            if i > 0 {
                assert(s[i - 1] == y);
            }
        }
    } else {
        lemma_sorted_insert_contains(s.drop_first(), x, y);
        let t = seq![s[0]] + sorted_insert(s.drop_first(), x);
        assert(t[0] == s[0]);
        assert forall|i: int|
            0 <= i < sorted_insert(s.drop_first(), x).len() implies t[i + 1] == sorted_insert(
            s.drop_first(),
            x,
        )[i] by {}
        if s.contains(y) {
            let i = choose|i: int| 0 <= i < s.len() && s[i] == y;
            if i == 0 {
                assert(t[0] == y);
            } else {
                assert(s.drop_first()[i - 1] == y);
                assert(s.drop_first().contains(y));
                let j = choose|j: int|
                    0 <= j < sorted_insert(s.drop_first(), x).len() && sorted_insert(
                        s.drop_first(),
                        x,
                    )[j] == y;
                assert(t[j + 1] == y);
            }
        }
        if y == x {
            let j = choose|j: int|
                0 <= j < sorted_insert(s.drop_first(), x).len() && sorted_insert(
                    s.drop_first(),
                    x,
                )[j] == y;
            assert(t[j + 1] == y);
        }
        if t.contains(y) {
            let i = choose|i: int| 0 <= i < t.len() && t[i] == y;
            if i == 0 {
                assert(s[0] == y);
            } else {
                assert(sorted_insert(s.drop_first(), x)[i - 1] == y);
                assert(sorted_insert(s.drop_first(), x).contains(y));
                if s.drop_first().contains(y) {
                    let j = choose|j: int| 0 <= j < s.drop_first().len() && s.drop_first()[j] == y;
                    assert(s[j + 1] == y);
                }
            }
        }
    }
}

proof fn lemma_canonical_contains(items: Seq<ItemView>, y: ItemView)
    ensures
        canonical_order(items).contains(y) <==> items.contains(y),
    decreases items.len(),
{
    if items.len() == 0 {
    } else {
        lemma_canonical_contains(items.drop_last(), y);
        lemma_sorted_insert_contains(canonical_order(items.drop_last()), items.last(), y);
        if items.contains(y) {
            let i = choose|i: int| 0 <= i < items.len() && items[i] == y;
            if i < items.len() - 1 {
                assert(items.drop_last()[i] == y);
            }
        }
        if items.drop_last().contains(y) {
            let i = choose|i: int| 0 <= i < items.drop_last().len() && items.drop_last()[i] == y;
            assert(items[i] == y);
        }
        if y == items.last() {
            assert(items[items.len() - 1] == y);
        }
    }
}

proof fn lemma_sorted_insert_distinct(s: Seq<ItemView>, x: ItemView)
    requires
        distinct_protocols(s),
        forall|k: int| 0 <= k < s.len() ==> (#[trigger] s[k]).0 != x.0,
    ensures
        distinct_protocols(sorted_insert(s, x)),
    decreases s.len(),
{
    if s.len() == 0 {
        assert(sorted_insert(s, x) =~= seq![x]);
    } else if item_leq(x, s[0]) {
        let t = seq![x] + s;
        assert forall|a: int, b: int| 0 <= a < b < t.len() implies (#[trigger] t[a]).0 != (
        #[trigger] t[b]).0 by {
            if a == 0 {
                assert(t[b] == s[b - 1]);
            } else {
                assert(t[a] == s[a - 1]);
                assert(t[b] == s[b - 1]);
            }
        }
    } else {
        assert(forall|k: int|
            0 <= k < s.drop_first().len() ==> (#[trigger] s.drop_first()[k]).0 != x.0);
        assert(distinct_protocols(s.drop_first())) by {
            assert forall|a: int, b: int|
                0 <= a < b < s.drop_first().len() implies (#[trigger] s.drop_first()[a]).0 != (
            #[trigger] s.drop_first()[b]).0 by {
                assert(s.drop_first()[a] == s[a + 1]);
                assert(s.drop_first()[b] == s[b + 1]);
            }
        }
        lemma_sorted_insert_distinct(s.drop_first(), x);
        let u = sorted_insert(s.drop_first(), x);
        let t = seq![s[0]] + u;
        assert forall|a: int, b: int| 0 <= a < b < t.len() implies (#[trigger] t[a]).0 != (
        #[trigger] t[b]).0 by {
            if a == 0 {
                assert(t[b] == u[b - 1]);
                assert(u.contains(u[b - 1]));
                lemma_sorted_insert_contains(s.drop_first(), x, u[b - 1]);
                if s.drop_first().contains(u[b - 1]) {
                    let j = choose|j: int|
                        0 <= j < s.drop_first().len() && s.drop_first()[j] == u[b - 1];
                    assert(s[j + 1] == u[b - 1]);
                }
            } else {
                assert(t[a] == u[a - 1]);
                assert(t[b] == u[b - 1]);
            }
        }
    }
}

/// The canonical order keeps exactly the items it was given: same
/// length, same members, and distinct protocols stay distinct.
pub proof fn lemma_canonical_distinct(items: Seq<ItemView>)
    requires
        distinct_protocols(items),
    ensures
        distinct_protocols(canonical_order(items)),
    decreases items.len(),
{
    if items.len() > 0 {
        let front = items.drop_last();
        let x = items.last();
        assert(distinct_protocols(front)) by {
            assert forall|a: int, b: int| 0 <= a < b < front.len() implies (#[trigger] front[a]).0
                != (#[trigger] front[b]).0 by {
                assert(front[a] == items[a]);
                assert(front[b] == items[b]);
            }
        }
        lemma_canonical_distinct(front);
        let c = canonical_order(front);
        assert forall|k: int| 0 <= k < c.len() implies (#[trigger] c[k]).0 != x.0 by {
            assert(c.contains(c[k]));
            lemma_canonical_contains(front, c[k]);
            let i = choose|i: int| 0 <= i < front.len() && front[i] == c[k];
            assert(items[i] == c[k]);
            assert(items[items.len() - 1] == x);
        }
        lemma_sorted_insert_distinct(c, x);
    }
}

proof fn lemma_bytes_leq_refl(a: Seq<u8>)
    ensures
        bytes_leq(a, a),
    decreases a.len(),
{
    if a.len() > 0 {
        lemma_bytes_leq_refl(a.drop_first());
    }
}

proof fn lemma_bytes_leq_antisym(a: Seq<u8>, b: Seq<u8>)
    requires
        bytes_leq(a, b),
        bytes_leq(b, a),
    ensures
        a == b,
    decreases a.len(),
{
    if a.len() == 0 {
        assert(b.len() == 0);
        assert(a =~= b);
    } else {
        assert(b.len() > 0);
        assert(a[0] == b[0]);
        lemma_bytes_leq_antisym(a.drop_first(), b.drop_first());
        assert forall|i: int| 0 <= i < a.len() implies a[i] == b[i] by {
            if i > 0 {
                assert(a.drop_first()[i - 1] == b.drop_first()[i - 1]);
            }
        }
        assert(a =~= b);
    }
}

proof fn lemma_bytes_leq_trans(a: Seq<u8>, b: Seq<u8>, c: Seq<u8>)
    requires
        bytes_leq(a, b),
        bytes_leq(b, c),
    ensures
        bytes_leq(a, c),
    decreases a.len(),
{
    if a.len() > 0 {
        assert(b.len() > 0);
        assert(c.len() > 0);
        if a[0] == b[0] && b[0] == c[0] {
            lemma_bytes_leq_trans(a.drop_first(), b.drop_first(), c.drop_first());
        }
    }
}

proof fn lemma_bytes_leq_total(a: Seq<u8>, b: Seq<u8>)
    ensures
        bytes_leq(a, b) || bytes_leq(b, a),
    decreases a.len(),
{
    if a.len() > 0 && b.len() > 0 && a[0] == b[0] {
        lemma_bytes_leq_total(a.drop_first(), b.drop_first());
    }
}

/// The canonical insertion order as a relation value.
pub open spec fn item_order() -> spec_fn(ItemView, ItemView) -> bool {
    |x: ItemView, y: ItemView| item_leq(x, y)
}

/// The canonical insertion order is a total order on items.
pub proof fn lemma_item_order_total()
    ensures
        vstd::relations::total_ordering(item_order()),
{
    assert forall|x: ItemView| #[trigger] item_order()(x, x) by {
        lemma_bytes_leq_refl(x.1);
    }
    assert forall|x: ItemView, y: ItemView|
        #[trigger] item_order()(x, y) && #[trigger] item_order()(y, x) implies x == y by {
        if x.0 != y.0 {
            lemma_bytes_leq_antisym(x.0, y.0);
        } else {
            lemma_bytes_leq_antisym(x.1, y.1);
        }
    }
    assert forall|x: ItemView, y: ItemView, z: ItemView|
        #[trigger] item_order()(x, y) && #[trigger] item_order()(y, z) implies item_order()(
        x,
        z,
    ) by {
        if x.0 == y.0 && y.0 == z.0 {
            lemma_bytes_leq_trans(x.1, y.1, z.1);
        } else if x.0 == y.0 {
            assert(bytes_leq(y.0, z.0));
        } else if y.0 == z.0 {
            assert(bytes_leq(x.0, y.0));
        } else {
            lemma_bytes_leq_trans(x.0, y.0, z.0);
            if x.0 == z.0 {
                lemma_bytes_leq_antisym(x.0, y.0);
            }
        }
    }
    assert forall|x: ItemView, y: ItemView|
        #[trigger] item_order()(x, y) || #[trigger] item_order()(y, x) by {
        if x.0 != y.0 {
            lemma_bytes_leq_total(x.0, y.0);
        } else {
            lemma_bytes_leq_total(x.1, y.1);
        }
    }
}

proof fn lemma_sorted_insert_sorted(s: Seq<ItemView>, x: ItemView)
    requires
        vstd::relations::sorted_by(s, item_order()),
    ensures
        vstd::relations::sorted_by(sorted_insert(s, x), item_order()),
    decreases s.len(),
{
    lemma_item_order_total();
    if s.len() == 0 {
        assert(sorted_insert(s, x) =~= seq![x]);
    } else if item_leq(x, s[0]) {
        let t = seq![x] + s;
        assert forall|i: int, j: int| 0 <= i < j < t.len() implies #[trigger] item_order()(
            t[i],
            t[j],
        ) by {
            if i == 0 {
                assert(t[0] == x);
                assert(item_order()(x, s[0]));
                assert(t[j] == s[j - 1]);
                if j > 1 {
                    assert(item_order()(s[0], s[j - 1]));
                }
            } else {
                assert(t[i] == s[i - 1]);
                assert(t[j] == s[j - 1]);
                assert(item_order()(s[i - 1], s[j - 1]));
            }
        }
    } else {
        let tail = s.drop_first();
        assert(vstd::relations::sorted_by(tail, item_order())) by {
            assert forall|i: int, j: int| 0 <= i < j < tail.len() implies #[trigger] item_order()(
                tail[i],
                tail[j],
            ) by {
                assert(tail[i] == s[i + 1]);
                assert(tail[j] == s[j + 1]);
                assert(item_order()(s[i + 1], s[j + 1]));
            }
        }
        lemma_sorted_insert_sorted(tail, x);
        let u = sorted_insert(tail, x);
        let t = seq![s[0]] + u;
        assert forall|i: int, j: int| 0 <= i < j < t.len() implies #[trigger] item_order()(
            t[i],
            t[j],
        ) by {
            if i == 0 {
                assert(t[j] == u[j - 1]);
                assert(u.contains(u[j - 1]));
                lemma_sorted_insert_contains(tail, x, u[j - 1]);
                if tail.contains(u[j - 1]) {
                    let k = choose|k: int| 0 <= k < tail.len() && tail[k] == u[j - 1];
                    assert(tail[k] == s[k + 1]);
                    if k + 1 > 0 {
                        assert(item_order()(s[0], s[k + 1]));
                    }
                } else {
                    assert(u[j - 1] == x);
                    assert(!item_leq(x, s[0]));
                    assert(item_order()(s[0], x) || item_order()(x, s[0]));
                }
            } else {
                assert(t[i] == u[i - 1]);
                assert(t[j] == u[j - 1]);
                assert(item_order()(u[i - 1], u[j - 1]));
            }
        }
    }
}

proof fn lemma_sorted_insert_multiset(s: Seq<ItemView>, x: ItemView)
    ensures
        sorted_insert(s, x).to_multiset() == s.to_multiset().insert(x),
    decreases s.len(),
{
    broadcast use vstd::seq_lib::group_to_multiset_ensures;

    if s.len() == 0 {
        assert(sorted_insert(s, x) =~= s.push(x));
    } else if item_leq(x, s[0]) {
        assert(seq![x] + s =~= s.insert(0, x));
    } else {
        let tail = s.drop_first();
        lemma_sorted_insert_multiset(tail, x);
        let u = sorted_insert(tail, x);
        assert(seq![s[0]] + u =~= u.insert(0, s[0]));
        assert((seq![s[0]] + u).to_multiset() == u.to_multiset().insert(s[0]));
        assert(s =~= tail.insert(0, s[0]));
        assert(s.to_multiset() == tail.to_multiset().insert(s[0]));
        assert(u.to_multiset().insert(s[0]) =~= tail.to_multiset().insert(s[0]).insert(x)) by {
            broadcast use vstd::multiset::group_multiset_axioms;

        }
    }
}

proof fn lemma_canonical_sorted(items: Seq<ItemView>)
    ensures
        vstd::relations::sorted_by(canonical_order(items), item_order()),
        canonical_order(items).to_multiset() == items.to_multiset(),
    decreases items.len(),
{
    broadcast use vstd::seq_lib::group_to_multiset_ensures;

    if items.len() == 0 {
    } else {
        lemma_canonical_sorted(items.drop_last());
        lemma_sorted_insert_sorted(canonical_order(items.drop_last()), items.last());
        lemma_sorted_insert_multiset(canonical_order(items.drop_last()), items.last());
        assert(items =~= items.drop_last().push(items.last()));
    }
}

/// Canonicalization: the placement depends only on which items are
/// committed, never on the order the caller lists them in, because the
/// items are first brought into their canonical order.  Two item
/// sequences with the same members (as a multiset) place identically.
pub proof fn lemma_placement_order_invariant(a: Seq<ItemView>, b: Seq<ItemView>, n: nat)
    requires
        a.to_multiset() == b.to_multiset(),
    ensures
        block_slots_of(a, n) == block_slots_of(b, n),
{
    lemma_canonical_sorted(a);
    lemma_canonical_sorted(b);
    lemma_item_order_total();
    vstd::seq_lib::lemma_sorted_unique(canonical_order(a), canonical_order(b), item_order());
    assert(canonical_order(a) == canonical_order(b));
}

/// Round trip through construction (in any input order): every item
/// of a distinct-protocol sequence placed by `block_slots_of` is found
/// again by the verifier's probe with exactly its committed message,
/// and the probe accepts nothing that was not committed.
pub proof fn lemma_multi_commit_round_trip(items: Seq<ItemView>, n: nat, res: Seq<SlotView>)
    requires
        n >= 1,
        distinct_protocols(items),
        block_slots_of(items, n) == Some(res),
    ensures
        forall|i: int|
            0 <= i < items.len() ==> block_verifies(res, (#[trigger] items[i]).0, items[i].1),
        forall|p: Seq<u8>, m: Seq<u8>|
            #[trigger] block_verifies(res, p, m) ==> items.contains((p, m)),
{
    let canon = canonical_order(items);
    lemma_canonical_distinct(items);
    lemma_block_round_trip(canon, n, res);
    assert forall|i: int|
        0 <= i < items.len() implies block_verifies(res, (#[trigger] items[i]).0, items[i].1) by {
        assert(items.contains(items[i]));
        lemma_canonical_contains(items, items[i]);
        let j = choose|j: int| 0 <= j < canon.len() && canon[j] == items[i];
        assert(block_verifies(res, canon[j].0, canon[j].1));
    }
    assert forall|p: Seq<u8>, m: Seq<u8>|
        #[trigger] block_verifies(res, p, m) implies items.contains((p, m)) by {
        lemma_block_sound(canon, n, res, p, m);
        lemma_canonical_contains(items, (p, m));
    }
}

/// Tamper sensitivity through construction: once `block_slots_of` has
/// committed a message for a protocol, no different message digest for
/// that protocol verifies against the placed slots.
pub proof fn lemma_multi_commit_tamper(
    items: Seq<ItemView>,
    n: nat,
    res: Seq<SlotView>,
    protocol: Seq<u8>,
    message: Seq<u8>,
    tampered: Seq<u8>,
)
    requires
        n >= 1,
        distinct_protocols(items),
        items.contains((protocol, message)),
        tampered != message,
        block_slots_of(items, n) == Some(res),
    ensures
        !block_verifies(res, protocol, tampered),
{
    let canon = canonical_order(items);
    lemma_canonical_distinct(items);
    lemma_canonical_contains(items, (protocol, message));
    lemma_block_tamper(canon, n, res, protocol, message, tampered);
}

impl MultiCommitBlock {
    /// The ordered slot digests: each real slot contributes its
    /// message digest and each filler slot its entropy-derived filler,
    /// so blocks with different numbers of real items are identical in
    /// shape.
    pub fn commitments(&self) -> (r: Vec<Message>)
        ensures
            r@.len() == self.slot_count_spec(),
            forall|i: int|
                0 <= i < r@.len() ==> (#[trigger] r@[i])@ == slot_digest_of(
                    self.slots_spec(),
                    self.entropy_spec(),
                    i,
                ),
    {
        let n = self.slots.len();
        let mut out: Vec<Message> = Vec::new();
        let mut i: usize = 0;
        while i < n
            invariant
                i <= n,
                n == self.slots@.len(),
                out@.len() == i,
                forall|j: int|
                    0 <= j < i ==> (#[trigger] out@[j])@ == slot_digest_of(
                        self.slots_spec(),
                        self.entropy_spec(),
                        j,
                    ),
            decreases n - i,
        {
            match self.slots[i] {
                Some(it) => {
                    out.push(it.message);
                },
                None => {
                    out.push(Message(filler_digest(self.entropy, i as u64)));
                },
            }
            i = i + 1;
        }
        out
    }

    /// Verifies that this block commits `message` for `protocol`:
    /// recomputes the candidate index and probes forward with the same
    /// deterministic rule the committer used, accepting only the slot
    /// that holds exactly this protocol, and stopping at a filler slot,
    /// beyond which no unseen protocol can sit.
    pub fn verify(&self, protocol: &ProtocolId, message: &Message) -> (r: bool)
        ensures
            r == block_verifies(self.slots_spec(), protocol@, message@),
    {
        let len = self.slots.len();
        if len == 0 {
            return false;
        }
        let start = protocol_id_slot(protocol, len);
        let ghost views = self.slots_spec();
        let mut idx = start;
        let mut k: usize = 0;
        while k < len
            invariant
                len == self.slots@.len(),
                len >= 1,
                k <= len,
                idx < len,
                views == self.slots_spec(),
                start as nat == candidate_of(protocol@, len as nat),
                probe_verify(views, protocol@, message@, start as nat, len as nat) == probe_verify(
                    views,
                    protocol@,
                    message@,
                    idx as nat,
                    (len - k) as nat,
                ),
            decreases len - k,
        {
            match self.slots[idx] {
                None => {
                    proof {
                        assert(views[idx as int] is None);
                    }
                    return false;
                },
                Some(it) => {
                    if digest_eq(&it.protocol.0, &protocol.0) {
                        proof {
                            assert(views[idx as int] == Some(it@));
                        }
                        return digest_eq(&it.message.0, &message.0);
                    }
                    proof {
                        assert(views[idx as int] == Some(it@));
                        if idx + 1 < len {
                            vstd::arithmetic::div_mod::lemma_small_mod((idx + 1) as nat, len as nat);
                        } else {
                            vstd::arithmetic::div_mod::lemma_mod_self_0(len as int);
                        }
                    }
                    if idx + 1 < len {
                        idx = idx + 1;
                    } else {
                        idx = 0;
                    }
                    k = k + 1;
                },
            }
        }
        false
    }

    /// Verifies a (protocol, message) pair against a published root:
    /// the probe must find the pair among the slots, and the ordered
    /// slot digests must reproduce exactly that Merkle root.
    pub fn verify_against_root(
        &self,
        protocol: &ProtocolId,
        message: &Message,
        root: &crate::merkle::MerkleNode,
    ) -> (r: bool)
        requires
            self.slot_count_spec() < usize::MAX / 2,
        ensures
            r == (block_verifies(self.slots_spec(), protocol@, message@) && root@
                == crate::merkle::merkle_root_of(
                block_tag_spec(),
                slot_digests_of(self.slots_spec(), self.entropy_spec()),
            )),
    {
        let found = self.verify(protocol, message);
        let recomputed = self.consensus_commit();
        found && crate::tagged_hash::digest_eq(&recomputed.0, &root.0)
    }

    /// Commits the ordered slot digests to a single Merkle root under
    /// the block tag.
    pub fn consensus_commit(&self) -> (r: crate::merkle::MerkleNode)
        requires
            self.slot_count_spec() < usize::MAX / 2,
        ensures
            r@ == crate::merkle::merkle_root_of(
                block_tag_spec(),
                slot_digests_of(self.slots_spec(), self.entropy_spec()),
            ),
    {
        let source = self.to_merkle_source();
        proof {
            assert(crate::merkle::node_views(source.leaves@).len() == source.leaves@.len());
            assert(source.leaves@.len() == self.slot_count_spec());
        }
        let tag = block_tag();
        crate::merkle::merklize(&tag, &source.leaves)
    }
}

impl crate::merkle::ToMerkleSource for MultiCommitBlock {
    /// The canonical leaf sequence of a block: its ordered slot
    /// digests.
    open spec fn merkle_source_spec(&self) -> Seq<Seq<u8>> {
        slot_digests_of(self.slots_spec(), self.entropy_spec())
    }

    fn to_merkle_source(&self) -> (r: crate::merkle::MerkleSource) {
        let n = self.slots.len();
        let mut leaves: Vec<crate::merkle::MerkleNode> = Vec::new();
        let mut i: usize = 0;
        while i < n
            invariant
                i <= n,
                n == self.slots@.len(),
                leaves@.len() == i,
                forall|j: int|
                    0 <= j < i ==> (#[trigger] leaves@[j])@ == slot_digest_of(
                        self.slots_spec(),
                        self.entropy_spec(),
                        j,
                    ),
            decreases n - i,
        {
            match self.slots[i] {
                Some(it) => {
                    leaves.push(crate::merkle::MerkleNode::from_bytes(it.message.0));
                },
                None => {
                    leaves.push(
                        crate::merkle::MerkleNode::from_bytes(filler_digest(self.entropy, i as u64)),
                    );
                },
            }
            i = i + 1;
        }
        let r = crate::merkle::MerkleSource { leaves };
        proof {
            assert(r.leaves_spec() =~= self.merkle_source_spec());
        }
        r
    }
}

impl crate::commit::VerifyEq for Message {
    fn verify_eq(&self, other: &Self) -> (r: bool) {
        digest_eq(&self.0, &other.0)
    }
}

impl crate::commit::CommitEncode for Message {
    /// The canonical encoding of a message digest: its 32 bytes.
    open spec fn commit_encode_spec(&self) -> Seq<u8> {
        self@
    }

    fn commit_encode(&self) -> (r: Vec<u8>) {
        digest_to_vec(&self.0)
    }
}

impl crate::commit::VerifyEq for MultiCommitBlock {
    fn verify_eq(&self, other: &Self) -> (r: bool) {
        if self.entropy != other.entropy {
            return false;
        }
        let n = self.slots.len();
        if n != other.slots.len() {
            proof {
                assert(self.slots_spec().len() != other.slots_spec().len());
            }
            return false;
        }
        let mut i: usize = 0;
        while i < n
            invariant
                i <= n,
                n == self.slots@.len(),
                n == other.slots@.len(),
                self.entropy == other.entropy,
                forall|j: int|
                    0 <= j < i ==> #[trigger] self.slots_spec()[j] == other.slots_spec()[j],
            decreases n - i,
        {
            let same = match (self.slots[i], other.slots[i]) {
                (None, None) => true,
                (Some(a), Some(b)) => digest_eq(&a.protocol.0, &b.protocol.0) && digest_eq(
                    &a.message.0,
                    &b.message.0,
                ),
                _ => false,
            };
            if !same {
                proof {
                    assert(self.slots_spec()[i as int] != other.slots_spec()[i as int]);
                }
                return false;
            }
            i = i + 1;
        }
        proof {
            assert(self.slots_spec() =~= other.slots_spec());
        }
        true
    }
}

impl crate::commit::TryCommitVerify<Vec<MultiCommitItem>> for MultiSource {
    type Commitment = MultiCommitBlock;

    type Error = MultiCommitError;

    /// Committing succeeds exactly when the protocols are distinct and
    /// the items fit the slot count chosen for the minimum capacity.
    open spec fn try_commit_ok_spec(&self, msg: Vec<MultiCommitItem>) -> bool {
        distinct_protocols(item_views(msg@)) && msg@.len() <= slot_count_of(self.min_capacity)
    }

    /// The committed content: the deterministic placement of the items
    /// in canonical order, with this source's entropy seed.
    open spec fn try_commit_view_spec(&self, msg: Vec<MultiCommitItem>) -> (Seq<SlotView>, u64) {
        (block_slots_of(item_views(msg@), slot_count_of(self.min_capacity)).unwrap(), self.entropy)
    }

    /// Duplicate protocols are reported as such; otherwise the only
    /// failure is exhausted capacity.
    open spec fn try_commit_err_spec(&self, msg: Vec<MultiCommitItem>) -> MultiCommitError {
        if !distinct_protocols(item_views(msg@)) {
            MultiCommitError::DuplicateProtocol
        } else {
            MultiCommitError::CapacityExceeded
        }
    }

    fn try_commit(&self, msg: &Vec<MultiCommitItem>) -> (r: Result<
        MultiCommitBlock,
        MultiCommitError,
    >) {
        MultiCommitBlock::try_commit(self, msg)
    }
}

} // verus!

