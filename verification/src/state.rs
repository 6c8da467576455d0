//! The host state machine: input scheduling, checkpoints and the yield
//! protocol, over the key-value [`Store`].
//!
//! The host keeps its own bookkeeping in the store under a handful of
//! reserved keys (current input level, checkpoint counter, per-level input
//! identifier, consuming flag, output identifier, reboot flag), all outside
//! the durable namespace.  [`HostState::wf`] states that those keys carry
//! their expected encodings; every operation preserves it.

use crate::codec::{
    lemma_dec_int_injective, lemma_dec_int_no_separator, lemma_separator_split, separator_free,
    spec_dec_int, spec_u32_from_be_bytes, spec_u64_from_be_bytes, i32_to_dec,
};
use crate::path::{durable_key, durable_prefix, is_valid_path};
use crate::rollup_core;
use crate::store::{Store, StoreValue};
use vstd::prelude::*;

verus! {

/// The number of checkpoints the host allows per non-empty level.
pub const CHECKPOINTS_PER_LEVEL: usize = 1000;

/// The maximum size of one inbox-message payload handed to input injection.
pub const MAX_HEADER_SIZE: usize = 4096;

/// The maximum size of one slot payload handed to input injection.
pub const MAX_SLOT_SIZE: usize = 1048576;

// ------------------------------------------------------------------
// Reserved bookkeeping keys
// ------------------------------------------------------------------

/// The key holding the current input level (`/input/level`).
pub open spec fn input_level_key() -> Seq<u8> {
    seq![47u8, 105u8, 110u8, 112u8, 117u8, 116u8, 47u8, 108u8, 101u8, 118u8, 101u8, 108u8]
}

/// The key holding the per-level input identifier (`/input/id`).
pub open spec fn input_id_key() -> Seq<u8> {
    seq![47u8, 105u8, 110u8, 112u8, 117u8, 116u8, 47u8, 105u8, 100u8]
}

/// The key holding the consuming flag (`/input/consuming`).
pub open spec fn input_consuming_key() -> Seq<u8> {
    seq![
        47u8,
        105u8,
        110u8,
        112u8,
        117u8,
        116u8,
        47u8,
        99u8,
        111u8,
        110u8,
        115u8,
        117u8,
        109u8,
        105u8,
        110u8,
        103u8,
    ]
}

/// The key holding the checkpoint counter (`/checkpoints`).
pub open spec fn checkpoints_key() -> Seq<u8> {
    seq![47u8, 99u8, 104u8, 101u8, 99u8, 107u8, 112u8, 111u8, 105u8, 110u8, 116u8, 115u8]
}

/// The key holding the output identifier (`/output/id`).
pub open spec fn output_id_key() -> Seq<u8> {
    seq![47u8, 111u8, 117u8, 116u8, 112u8, 117u8, 116u8, 47u8, 105u8, 100u8]
}

/// The key holding the reboot flag (`/reboot`).
pub open spec fn reboot_key() -> Seq<u8> {
    seq![47u8, 114u8, 101u8, 98u8, 111u8, 111u8, 116u8]
}

/// The prefix of all per-level input keys (`/input/`).
pub open spec fn input_prefix() -> Seq<u8> {
    seq![47u8, 105u8, 110u8, 112u8, 117u8, 116u8, 47u8]
}

/// The prefix of all output keys (`/output/`).
pub open spec fn output_prefix() -> Seq<u8> {
    seq![47u8, 111u8, 117u8, 116u8, 112u8, 117u8, 116u8, 47u8]
}

/// A per-level input key: `/input/<level>` followed by `tail`.
pub open spec fn input_dyn_key(level: int, tail: Seq<u8>) -> Seq<u8> {
    input_prefix() + spec_dec_int(level) + tail
}

/// The key recording how many chunks were injected at `level`
/// (`/input/<level>/size`).
pub open spec fn level_size_key(level: int) -> Seq<u8> {
    input_dyn_key(level, seq![47u8, 115u8, 105u8, 122u8, 101u8])
}

/// The tail of a chunk key: `/<id>` followed by a field name.
pub open spec fn chunk_tail(id: int, field: Seq<u8>) -> Seq<u8> {
    seq![47u8] + spec_dec_int(id) + field
}

/// The key holding the payload of chunk `id` of `level`.
pub open spec fn chunk_payload_key(level: int, id: int) -> Seq<u8> {
    input_dyn_key(level, chunk_tail(id, seq![47u8, 112u8, 97u8, 121u8, 108u8, 111u8, 97u8, 100u8]))
}

/// The key holding the input kind of chunk `id` of `level`.
pub open spec fn chunk_type_key(level: int, id: int) -> Seq<u8> {
    input_dyn_key(level, chunk_tail(id, seq![47u8, 116u8, 121u8, 112u8, 101u8]))
}

/// The key holding the first-chunk identifier of chunk `id` of `level`.
pub open spec fn chunk_n_key(level: int, id: int) -> Seq<u8> {
    input_dyn_key(level, chunk_tail(id, seq![47u8, 110u8]))
}

/// The key holding output `id` written at `level` (`/output/<level>/<id>`).
pub open spec fn output_key(level: int, id: int) -> Seq<u8> {
    output_prefix() + spec_dec_int(level) + seq![47u8] + spec_dec_int(id)
}

// ------------------------------------------------------------------
// Key distinctness
// ------------------------------------------------------------------

/// Whether `k` is one of the six reserved bookkeeping keys.
pub open spec fn is_fixed_key(k: Seq<u8>) -> bool {
    k == input_level_key() || k == input_id_key() || k == input_consuming_key() || k
        == checkpoints_key() || k == output_id_key() || k == reboot_key()
}

/// A per-level input key differs from every reserved bookkeeping key.
pub proof fn lemma_input_dyn_not_fixed(level: int, tail: Seq<u8>)
    ensures
        !is_fixed_key(input_dyn_key(level, tail)),
{
    lemma_dec_int_no_separator(level);
    crate::codec::lemma_dec_int_first_byte(level);
    let k = input_dyn_key(level, tail);
    let d0 = spec_dec_int(level)[0];
    assert(k[7] == d0);
    assert(d0 == 45 || (48 <= d0 <= 57));
    assert(k.len() >= 8);
    assert(k != input_level_key()) by {
        if k.len() == input_level_key().len() {
            assert(input_level_key()[7] == 108);
        }
    }
    assert(k != input_id_key()) by {
        if k.len() == input_id_key().len() {
            assert(input_id_key()[7] == 105);
        }
    }
    assert(k != input_consuming_key()) by {
        if k.len() == input_consuming_key().len() {
            assert(input_consuming_key()[7] == 99);
        }
    }
    assert(k != checkpoints_key()) by {
        if k.len() == checkpoints_key().len() {
            assert(k[1] == 105 && checkpoints_key()[1] == 99);
        }
    }
    assert(k != output_id_key()) by {
        if k.len() == output_id_key().len() {
            assert(k[1] == 105 && output_id_key()[1] == 111);
        }
    }
    assert(k != reboot_key()) by {
        if k.len() == reboot_key().len() {
            assert(k[1] == 105 && reboot_key()[1] == 114);
        }
    }
}

/// An output key differs from every reserved bookkeeping key.
pub proof fn lemma_output_key_not_fixed(level: int, id: int)
    ensures
        !is_fixed_key(output_key(level, id)),
{
    lemma_dec_int_no_separator(level);
    crate::codec::lemma_dec_int_first_byte(level);
    let k = output_key(level, id);
    let d0 = spec_dec_int(level)[0];
    assert(k[8] == d0);
    assert(d0 == 45 || (48 <= d0 <= 57));
    assert(k.len() >= 9);
    assert(k != output_id_key()) by {
        if k.len() == output_id_key().len() {
            assert(output_id_key()[8] == 100);
        }
    }
    assert(k[1] == 111);
    assert(k != input_level_key()) by {
        if k.len() == input_level_key().len() {
            assert(input_level_key()[1] == 105);
        }
    }
    assert(k != input_id_key()) by {
        if k.len() == input_id_key().len() {
            assert(input_id_key()[1] == 105);
        }
    }
    assert(k != input_consuming_key()) by {
        if k.len() == input_consuming_key().len() {
            assert(input_consuming_key()[1] == 105);
        }
    }
    assert(k != checkpoints_key()) by {
        if k.len() == checkpoints_key().len() {
            assert(checkpoints_key()[1] == 99);
        }
    }
    assert(k != reboot_key()) by {
        if k.len() == reboot_key().len() {
            assert(reboot_key()[1] == 114);
        }
    }
}

/// A durable-store key differs from every reserved bookkeeping key, from
/// every per-level input key and from every output key.
pub proof fn lemma_durable_key_apart(p: Seq<u8>)
    ensures
        !is_fixed_key(durable_key(p)),
        forall|l: int, t: Seq<u8>| durable_key(p) != #[trigger] input_dyn_key(l, t),
        forall|l: int, i: int| durable_key(p) != #[trigger] output_key(l, i),
{
    let k = durable_key(p);
    assert(k[1] == 100);
    assert(k != input_level_key()) by {
        if k.len() == input_level_key().len() {
            assert(input_level_key()[1] == 105);
        }
    }
    assert(k != input_id_key()) by {
        if k.len() == input_id_key().len() {
            assert(input_id_key()[1] == 105);
        }
    }
    assert(k != input_consuming_key()) by {
        if k.len() == input_consuming_key().len() {
            assert(input_consuming_key()[1] == 105);
        }
    }
    assert(k != checkpoints_key()) by {
        if k.len() == checkpoints_key().len() {
            assert(checkpoints_key()[1] == 99);
        }
    }
    assert(k != output_id_key()) by {
        if k.len() == output_id_key().len() {
            assert(output_id_key()[1] == 111);
        }
    }
    assert(k != reboot_key()) by {
        if k.len() == reboot_key().len() {
            assert(reboot_key()[1] == 114);
        }
    }
    assert forall|l: int, t: Seq<u8>| k != #[trigger] input_dyn_key(l, t) by {
        if k.len() == input_dyn_key(l, t).len() {
            assert(input_dyn_key(l, t)[1] == 105);
        }
    }
    assert forall|l: int, i: int| k != #[trigger] output_key(l, i) by {
        if k.len() == output_key(l, i).len() {
            assert(output_key(l, i)[1] == 111);
        }
    }
}

/// Per-level input keys split uniquely into level and tail.
pub proof fn lemma_input_dyn_injective(l1: int, t1: Seq<u8>, l2: int, t2: Seq<u8>)
    requires
        t1.len() >= 1 && t1[0] == 47,
        t2.len() >= 1 && t2[0] == 47,
        input_dyn_key(l1, t1) == input_dyn_key(l2, t2),
    ensures
        l1 == l2,
        t1 == t2,
{
    lemma_dec_int_no_separator(l1);
    lemma_dec_int_no_separator(l2);
    let a = spec_dec_int(l1);
    let b = spec_dec_int(l2);
    assert((input_prefix() + a + t1).skip(7) =~= a + t1);
    assert((input_prefix() + b + t2).skip(7) =~= b + t2);
    assert(a + t1 == b + t2);
    lemma_separator_split(a, t1, b, t2);
    lemma_dec_int_injective(l1, l2);
}

/// Chunk tails split uniquely into identifier and field.
pub proof fn lemma_chunk_tail_injective(i1: int, f1: Seq<u8>, i2: int, f2: Seq<u8>)
    requires
        f1.len() >= 1 && f1[0] == 47,
        f2.len() >= 1 && f2[0] == 47,
        chunk_tail(i1, f1) == chunk_tail(i2, f2),
    ensures
        i1 == i2,
        f1 == f2,
{
    lemma_dec_int_no_separator(i1);
    lemma_dec_int_no_separator(i2);
    let a = spec_dec_int(i1);
    let b = spec_dec_int(i2);
    assert((seq![47u8] + a + f1).skip(1) =~= a + f1);
    assert((seq![47u8] + b + f2).skip(1) =~= b + f2);
    assert(a + f1 == b + f2);
    lemma_separator_split(a, f1, b, f2);
    lemma_dec_int_injective(i1, i2);
}


/// Chunk payload keys of distinct levels or identifiers never collide.
pub proof fn lemma_chunk_keys_distinct(l1: int, i1: int, l2: int, i2: int)
    requires
        l1 != l2 || i1 != i2,
    ensures
        chunk_payload_key(l1, i1) != chunk_payload_key(l2, i2),
{
    let f = seq![47u8, 112u8, 97u8, 121u8, 108u8, 111u8, 97u8, 100u8];
    if chunk_payload_key(l1, i1) == chunk_payload_key(l2, i2) {
        lemma_input_dyn_injective(l1, chunk_tail(i1, f), l2, chunk_tail(i2, f));
        lemma_chunk_tail_injective(i1, f, i2, f);
    }
}

// ------------------------------------------------------------------
// The state machine
// ------------------------------------------------------------------

/// When handling a yield, the next step that the driver should take.
#[derive(Debug, PartialEq, Eq, Structural)]
pub enum YieldStep {
    /// The driver should call [`HostState::handle_yield`] again.
    HandleYield,
    /// The kernel should be rebooted.
    Reboot,
    /// The kernel's entrypoint should be called again.
    Trampoline,
    /// The driver must inject input chunks at the given level before the
    /// kernel can proceed; see [`HostState::add_next_inputs`].
    InputTicks(i32),
    /// The driver should mark a new level for input, at at least the given
    /// level; see [`HostState::mark_level_for_input`].
    MarkLevelForInput(i32),
}

/// A transient input value: kind tag, inbox level, first-chunk identifier
/// and payload bytes.
#[derive(Debug, PartialEq, Eq)]
pub struct NextInput {
    /// Whether the chunk belongs to an inbox message or a slot.
    pub input_type: rollup_core::Input,
    /// The inbox level the chunk was injected at.
    pub level: i32,
    /// The identifier of the first chunk of the same payload.
    pub id: i32,
    /// The chunk's bytes.
    pub payload: Vec<u8>,
}

/// The simulated host: the store, and the ordered queue of levels marked as
/// expecting input.
#[derive(Debug, Clone, PartialEq, Eq)]
pub struct HostState {
    /// Key-value store of runtime state.
    pub store: Store,
    /// The ordered queue of levels marked as expecting input.
    pub input_levels: Vec<i32>,
}

impl Default for HostState {
    /// A fresh host: level, input id, checkpoints and output id all zero; no
    /// level marked for input.
    fn default() -> (r: HostState)
        ensures
            r.wf(),
            r.store@ == Map::<Seq<u8>, Seq<u8>>::empty().insert(
                input_level_key(),
                (0i32).spec_encode(),
            ).insert(input_id_key(), (0i32).spec_encode()).insert(
                checkpoints_key(),
                (0usize).spec_encode(),
            ).insert(output_id_key(), (0u32).spec_encode()),
            r.store.preimages() == Map::<Seq<u8>, Seq<u8>>::empty(),
            r.input_levels() == Seq::<i32>::empty(),
            r.current_level() == 0,
            r.input_id_v() == 0,
            r.checkpoints_v() == 0,
            r.output_id_v() == 0,
            !r.consuming_present(),
            !r.reboot_requested(),
    {
        let mut store = Store::default();
        store.set_value::<i32>(make_input_level_key().as_slice(), 0);
        store.set_value::<i32>(make_input_id_key().as_slice(), 0);
        store.set_value::<usize>(make_checkpoints_key().as_slice(), 0);
        store.set_value::<u32>(make_output_id_key().as_slice(), 0);
        let r = HostState { store, input_levels: Vec::new() };
        proof {
            lemma_fixed_keys_distinct();
            crate::codec::lemma_u32_be_bytes_roundtrip(0);
            crate::codec::lemma_u64_be_bytes_roundtrip(0);
        }
        r
    }
}

/// All six reserved bookkeeping keys are pairwise distinct.
pub proof fn lemma_fixed_keys_distinct()
    ensures
        input_level_key() != input_id_key(),
        input_level_key() != input_consuming_key(),
        input_level_key() != checkpoints_key(),
        input_level_key() != output_id_key(),
        input_level_key() != reboot_key(),
        input_id_key() != input_consuming_key(),
        input_id_key() != checkpoints_key(),
        input_id_key() != output_id_key(),
        input_id_key() != reboot_key(),
        input_consuming_key() != checkpoints_key(),
        input_consuming_key() != output_id_key(),
        input_consuming_key() != reboot_key(),
        checkpoints_key() != output_id_key(),
        checkpoints_key() != reboot_key(),
        output_id_key() != reboot_key(),
{
    assert(input_level_key().len() == 12);
    assert(input_id_key().len() == 9);
    assert(input_consuming_key().len() == 16);
    assert(checkpoints_key().len() == 12);
    assert(output_id_key().len() == 10);
    assert(reboot_key().len() == 7);
    assert(input_level_key()[1] == 105 && checkpoints_key()[1] == 99);
}

impl HostState {
    /// The queue of levels marked as expecting input.
    pub open spec fn input_levels(&self) -> Seq<i32> {
        self.input_levels@
    }

    /// The current input level.
    pub open spec fn current_level(&self) -> i32 {
        spec_u32_from_be_bytes(self.store@[input_level_key()]) as i32
    }

    /// The per-level input identifier: the index of the next chunk to read.
    pub open spec fn input_id_v(&self) -> i32 {
        spec_u32_from_be_bytes(self.store@[input_id_key()]) as i32
    }

    /// The number of checkpoints elapsed in the current cycle.
    pub open spec fn checkpoints_v(&self) -> usize {
        spec_u64_from_be_bytes(self.store@[checkpoints_key()]) as usize
    }

    /// The identifier of the next output to be written.
    pub open spec fn output_id_v(&self) -> u32 {
        spec_u32_from_be_bytes(self.store@[output_id_key()])
    }

    /// Whether the consuming flag is present (set or unset).
    pub open spec fn consuming_present(&self) -> bool {
        self.store@.contains_key(input_consuming_key())
    }

    /// Whether the consuming flag is present and set.
    pub open spec fn consuming_set(&self) -> bool {
        self.consuming_present() && self.store@[input_consuming_key()] == true.spec_encode()
    }

    /// Whether a reboot has been requested.
    pub open spec fn reboot_requested(&self) -> bool {
        self.store@.contains_key(reboot_key()) && self.store@[reboot_key()] == seq![1u8]
    }

    /// The recorded chunk count of `level`, where present.
    pub open spec fn level_size_v(&self, level: int) -> i32 {
        spec_u32_from_be_bytes(self.store@[level_size_key(level)]) as i32
    }

    /// Well-formedness of the host state: the store is well-formed, the
    /// reserved bookkeeping keys exist with their expected encodings, the
    /// checkpoint counter is within its budget, and the queue of marked
    /// levels is strictly increasing.
    pub open spec fn wf(&self) -> bool {
        &&& self.store.wf()
        &&& self.store@.contains_key(input_level_key()) && self.store@[input_level_key()].len()
            == 4
        &&& self.store@.contains_key(input_id_key()) && self.store@[input_id_key()].len() == 4
        &&& self.store@.contains_key(checkpoints_key()) && <usize as StoreValue>::is_encoding(
            self.store@[checkpoints_key()],
        )
        &&& self.store@.contains_key(output_id_key()) && self.store@[output_id_key()].len() == 4
        &&& (self.store@.contains_key(input_consuming_key())
            ==> <bool as StoreValue>::is_encoding(self.store@[input_consuming_key()]))
        &&& (self.store@.contains_key(reboot_key()) ==> self.store@[reboot_key()].len() == 1)
        &&& self.checkpoints_v() <= CHECKPOINTS_PER_LEVEL
        &&& (forall|i: int, j: int|
            0 <= i < j < self.input_levels().len() ==> #[trigger] self.input_levels()[i]
                < #[trigger] self.input_levels()[j])
    }

    /// Set the host ready to consume input at `level`, marking the level as
    /// well; `level` must lie strictly above any level already marked.
    pub fn set_ready_for_input(&mut self, level: i32)
        requires
            old(self).wf(),
            old(self).input_levels().len() == 0 || old(self).input_levels().last() < level,
        ensures
            final(self).wf(),
            final(self).store@ == old(self).store@.insert(
                input_level_key(),
                level.spec_encode(),
            ).insert(input_consuming_key(), true.spec_encode()).insert(
                checkpoints_key(),
                CHECKPOINTS_PER_LEVEL.spec_encode(),
            ),
            final(self).store.preimages() == old(self).store.preimages(),
            final(self).input_levels() == old(self).input_levels().push(level),
            final(self).current_level() == level,
            final(self).checkpoints_v() == CHECKPOINTS_PER_LEVEL,
            final(self).consuming_set(),
    {
        proof {
            lemma_fixed_keys_distinct();
            crate::codec::lemma_u32_be_bytes_roundtrip(level as u32);
            crate::codec::lemma_u64_be_bytes_roundtrip(CHECKPOINTS_PER_LEVEL as u64);
        }
        self.store.set_value::<i32>(make_input_level_key().as_slice(), level);
        self.store.set_value::<bool>(make_input_consuming_key().as_slice(), true);
        self.store.set_value::<usize>(make_checkpoints_key().as_slice(), CHECKPOINTS_PER_LEVEL);
        proof {
            assert((level as u32) as i32 == level) by (bit_vector);
        }
        self.mark_level_for_input(level);
    }

    /// Mark `level` for input, causing the runtime to ask for messages when
    /// reaching it.  Levels must be marked in strictly increasing order, at
    /// or above the current level; marking out of order is a driver error.
    pub fn mark_level_for_input(&mut self, level: i32)
        requires
            old(self).wf(),
            old(self).input_levels().len() == 0 || (old(self).input_levels().last() < level
                && old(self).current_level() <= level),
        ensures
            final(self).wf(),
            final(self).store@ == old(self).store@,
            final(self).store.preimages() == old(self).store.preimages(),
            final(self).input_levels() == old(self).input_levels().push(level),
    {
        self.input_levels.push(level);
        proof {
            let q = self.input_levels@;
            assert forall|i: int, j: int| 0 <= i < j < q.len() implies #[trigger] q[i]
                < #[trigger] q[j] by {
                if j < q.len() - 1 {
                    assert(q[i] == old(self).input_levels()[i]);
                } else if i < q.len() - 1 {
                    assert(q[i] == old(self).input_levels()[i]);
                    assert(old(self).input_levels().last() == old(self).input_levels()[q.len()
                        - 2]);
                }
            }
        }
    }

    /// Whether it is legal to call [`HostState::add_next_inputs`] at
    /// `at_level`: the level is the next marked level, the current level has
    /// reached it, the checkpoint budget is exhausted and the host is
    /// consuming.
    pub open spec fn spec_ready_for_input(&self, at_level: i32) -> bool {
        &&& self.input_levels().len() > 0
        &&& self.input_levels()[0] == at_level
        &&& self.current_level() >= at_level
        &&& self.checkpoints_v() == CHECKPOINTS_PER_LEVEL
        &&& self.consuming_set()
    }

    /// Returns whether it is safe to call [`HostState::add_next_inputs`] at
    /// `at_level`.
    pub fn ready_for_input(&self, at_level: i32) -> (r: bool)
        requires
            self.wf(),
        ensures
            r == self.spec_ready_for_input(at_level),
    {
        proof {
            lemma_fixed_keys_distinct();
        }
        let next_matches = if self.input_levels.len() > 0 {
            self.input_levels[0] == at_level
        } else {
            false
        };
        let curr_level = self.store.get_value::<i32>(make_input_level_key().as_slice());
        let is_consuming = match self.store.maybe_get_value::<bool>(
            make_input_consuming_key().as_slice(),
        ) {
            Some(b) => b,
            None => false,
        };
        proof {
            crate::codec::lemma_u32_be_bytes_roundtrip(curr_level as u32);
            assert((curr_level as u32) as i32 == curr_level) by (bit_vector);
            assert(true.spec_encode() =~= seq![116u8]);
            assert(false.spec_encode() =~= seq![102u8]);
            assert(true.spec_encode() != false.spec_encode()) by {
                assert(true.spec_encode()[0] == 116 && false.spec_encode()[0] == 102);
            }
        }
        next_matches && curr_level >= at_level && self.checkpoints() == CHECKPOINTS_PER_LEVEL
            && is_consuming
    }

    /// The number of checkpoints elapsed in the current cycle.
    pub fn checkpoints(&self) -> (r: usize)
        requires
            self.wf(),
        ensures
            r == self.checkpoints_v(),
    {
        let r = self.store.get_value::<usize>(make_checkpoints_key().as_slice());
        proof {
            crate::codec::lemma_u64_be_bytes_roundtrip(r as u64);
        }
        r
    }

    /// Handles a kernel yield, returning the next action to be taken by the
    /// driver.
    ///
    /// In precedence order: a requested reboot wins; below the checkpoint
    /// budget the counter advances and the kernel is re-invoked; at the
    /// budget, a host not yet consuming advances its level and asks to be
    /// called again; a consuming host with no marked level asks for one;
    /// when the current level is the next marked level and has no input yet,
    /// the driver must inject it; otherwise the per-level bookkeeping resets
    /// and the kernel is re-invoked.  A current level beyond the next marked
    /// level is an unreachable inconsistency, excluded here and escalated by
    /// the driver.
    pub fn handle_yield(&mut self) -> (r: YieldStep)
        requires
            old(self).wf(),
            old(self).current_level() < i32::MAX,
            old(self).input_levels().len() > 0 ==> (old(self).store@.contains_key(
                level_size_key(old(self).input_levels()[0] as int),
            ) ==> old(self).store@[level_size_key(old(self).input_levels()[0] as int)].len() == 4),
            !(old(self).checkpoints_v() == CHECKPOINTS_PER_LEVEL && old(self).consuming_present()
                && old(self).input_levels().len() > 0 && old(self).current_level() > old(self).input_levels()[0]),
        ensures
            final(self).wf(),
            final(self).store.preimages() == old(self).store.preimages(),
            ({
                let pre = *old(self);
                let post = *final(self);
                if pre.reboot_requested() {
                    r == YieldStep::Reboot && post == pre
                } else if pre.checkpoints_v() != CHECKPOINTS_PER_LEVEL {
                    r == YieldStep::Trampoline && post.store@ == pre.store@.insert(
                        checkpoints_key(),
                        ((pre.checkpoints_v() + 1) as usize).spec_encode(),
                    ) && post.input_levels() == pre.input_levels() && post.checkpoints_v()
                        == pre.checkpoints_v() + 1
                } else if !pre.consuming_present() {
                    r == YieldStep::HandleYield && post.store@ == pre.store@.insert(
                        input_level_key(),
                        ((pre.current_level() + 1) as i32).spec_encode(),
                    ).insert(input_consuming_key(), true.spec_encode()) && post.input_levels()
                        == pre.input_levels() && post.current_level() == pre.current_level() + 1
                        && post.consuming_set()
                } else if pre.input_levels().len() == 0 {
                    r == YieldStep::MarkLevelForInput(pre.current_level()) && post == pre
                } else if pre.current_level() == pre.input_levels()[0]
                    && !pre.store@.contains_key(level_size_key(pre.input_levels()[0] as int)) {
                    r == YieldStep::InputTicks(pre.current_level()) && post == pre
                } else {
                    r == YieldStep::Trampoline && post.store@ == pre.store@.insert(
                        checkpoints_key(),
                        (1usize).spec_encode(),
                    ).insert(input_id_key(), (0i32).spec_encode()).remove(input_consuming_key())
                        && post.input_levels() == pre.input_levels() && post.checkpoints_v() == 1
                        && post.input_id_v() == 0 && !post.consuming_present()
                }
            }),
    {
        proof {
            lemma_fixed_keys_distinct();
        }
        let reboot = self.store.maybe_get_value::<u8>(make_reboot_key().as_slice());
        if let Some(flag) = reboot {
            if flag == 1 {
                proof {
                    assert(flag.spec_encode() =~= seq![1u8]);
                }
                return YieldStep::Reboot;
            }
            proof {
                assert(flag.spec_encode()[0] == flag);
                assert(self.store@[reboot_key()] != seq![1u8]);
            }
        }
        let checkpoints = self.checkpoints();
        if checkpoints != CHECKPOINTS_PER_LEVEL {
            self.store.set_value::<usize>(make_checkpoints_key().as_slice(), checkpoints + 1);
            proof {
                crate::codec::lemma_u64_be_bytes_roundtrip((checkpoints + 1) as u64);
            }
            return YieldStep::Trampoline;
        }
        let consuming = self.store.maybe_get_value::<bool>(make_input_consuming_key().as_slice());
        let level = self.store.get_value::<i32>(make_input_level_key().as_slice());
        proof {
            crate::codec::lemma_u32_be_bytes_roundtrip(level as u32);
            assert((level as u32) as i32 == level) by (bit_vector);
        }
        if consuming.is_none() {
            self.store.set_value::<i32>(make_input_level_key().as_slice(), level + 1);
            self.store.set_value::<bool>(make_input_consuming_key().as_slice(), true);
            proof {
                crate::codec::lemma_u32_be_bytes_roundtrip((level + 1) as u32);
                let l1 = (level + 1) as i32;
                assert((l1 as u32) as i32 == l1) by (bit_vector);
            }
            return YieldStep::HandleYield;
        }
        if self.input_levels.len() == 0 {
            return YieldStep::MarkLevelForInput(level);
        }
        let next_level = self.input_levels[0];
        let size_key = make_level_size_key(next_level);
        let next_level_size = self.store.maybe_get_value::<i32>(size_key.as_slice());
        proof {
            lemma_input_dyn_not_fixed(next_level as int, seq![47u8, 115u8, 105u8, 122u8, 101u8]);
        }
        if level == next_level && next_level_size.is_none() {
            return YieldStep::InputTicks(level);
        }
        self.store.set_value::<usize>(make_checkpoints_key().as_slice(), 1);
        self.store.set_value::<i32>(make_input_id_key().as_slice(), 0);
        self.store.delete_value(make_input_consuming_key().as_slice());
        proof {
            crate::codec::lemma_u64_be_bytes_roundtrip(1u64);
            crate::codec::lemma_u32_be_bytes_roundtrip(0u32);
        }
        YieldStep::Trampoline
    }
}

/// The input kind denoted by a stored tag byte.
pub open spec fn decode_input_kind(b: Seq<u8>) -> rollup_core::Input {
    if b == seq![104u8] {
        rollup_core::Input::MessageData
    } else {
        rollup_core::Input::SlotDataChunk
    }
}

impl HostState {
    /// The per-chunk bookkeeping of the current level is well encoded, as
    /// far as the next read touches it.
    pub open spec fn level_inputs_wf(&self) -> bool {
        let l = self.current_level() as int;
        let c = self.input_id_v() as int;
        self.store@.contains_key(level_size_key(l)) ==> {
            &&& self.store@[level_size_key(l)].len() == 4
            &&& (self.input_id_v() < self.level_size_v(l) ==> {
                &&& self.store@.contains_key(chunk_payload_key(l, c))
                &&& self.store@.contains_key(chunk_type_key(l, c))
                &&& <rollup_core::Input as StoreValue>::is_encoding(
                    self.store@[chunk_type_key(l, c)],
                )
                &&& self.store@.contains_key(chunk_n_key(l, c))
                &&& self.store@[chunk_n_key(l, c)].len() == 4
            })
        }
    }

    /// Writes `output` into the store at the next output key, if it fits in
    /// one output call.
    ///
    /// The write is recorded at `/output/<level>/<id>` and the output
    /// identifier advances.  Exhausting the 32-bit identifier space is a
    /// fatal condition, excluded here.
    pub fn handle_write_output(&mut self, output: Vec<u8>) -> (r: rollup_core::WriteResult)
        requires
            old(self).wf(),
            old(self).output_id_v() < u32::MAX,
        ensures
            final(self).wf(),
            final(self).store.preimages() == old(self).store.preimages(),
            final(self).input_levels() == old(self).input_levels(),
            if output@.len() > rollup_core::MAX_OUTPUT_SIZE {
                r == rollup_core::WriteResult::TooLarge && final(self).store@ == old(self).store@
            } else {
                r == rollup_core::WriteResult::Accepted && final(self).store@ == old(self).store@.insert(
                    output_id_key(),
                    ((old(self).output_id_v() + 1) as u32).spec_encode(),
                ).insert(
                    output_key(old(self).current_level() as int, old(self).output_id_v() as int),
                    output@,
                ) && final(self).output_id_v() == old(self).output_id_v() + 1 && final(self).current_level() == old(self).current_level()
            },
    {
        if output.len() > rollup_core::MAX_OUTPUT_SIZE {
            return rollup_core::WriteResult::TooLarge;
        }
        proof {
            lemma_fixed_keys_distinct();
        }
        let output_id = self.store.get_value::<u32>(make_output_id_key().as_slice());
        proof {
            crate::codec::lemma_u32_be_bytes_roundtrip(output_id);
        }
        self.store.set_value::<u32>(make_output_id_key().as_slice(), output_id + 1);
        proof {
            crate::codec::lemma_u32_be_bytes_roundtrip((output_id + 1) as u32);
        }
        let level = self.store.get_value::<i32>(make_input_level_key().as_slice());
        proof {
            crate::codec::lemma_u32_be_bytes_roundtrip(level as u32);
            assert((level as u32) as i32 == level) by (bit_vector);
        }
        let out_key = make_output_key(level, output_id);
        self.store.set_value::<Vec<u8>>(out_key.as_slice(), output);
        proof {
            lemma_output_key_not_fixed(level as int, output_id as int);
            assert(self.store.wf());
            assert(self.store@.contains_key(input_level_key()));
            assert(self.store@[input_level_key()].len() == 4);
            assert(self.store@.contains_key(checkpoints_key()) && <usize as StoreValue>::is_encoding(self.store@[checkpoints_key()]));
            assert(self.checkpoints_v() <= CHECKPOINTS_PER_LEVEL);
            assert(self.store@.contains_key(output_id_key()) && self.store@[output_id_key()].len() == 4);
            assert forall|i: int, j: int|
                0 <= i < j < self.input_levels().len() implies #[trigger] self.input_levels()[i]
                < #[trigger] self.input_levels()[j] by {
                assert(old(self).input_levels()[i] < old(self).input_levels()[j]);
            }
            assert(self.wf());
        }
        rollup_core::WriteResult::Accepted
    }

    /// Returns the next input chunk of the current level, in identifier
    /// order, or `None` when the level's input is exhausted.
    ///
    /// A successful read truncates the payload to `max_bytes` and advances
    /// the input identifier.  The read that finds the level exactly
    /// exhausted removes the level from the queue of marked levels (the
    /// level must then be the head of the queue); any further read returns
    /// `None` without changes.
    pub fn handle_read_input(&mut self, max_bytes: usize) -> (r: Option<NextInput>)
        requires
            old(self).wf(),
            old(self).level_inputs_wf(),
            old(self).input_id_v() < i32::MAX,
            (old(self).store@.contains_key(level_size_key(old(self).current_level() as int))
                && old(self).input_id_v() == old(self).level_size_v(
                old(self).current_level() as int,
            )) ==> (old(self).input_levels().len() > 0 && old(self).input_levels()[0] == old(self).current_level()),
        ensures
            final(self).wf(),
            final(self).store.preimages() == old(self).store.preimages(),
            ({
                let pre = *old(self);
                let post = *final(self);
                let l = pre.current_level() as int;
                let c = pre.input_id_v() as int;
                let has_size = pre.store@.contains_key(level_size_key(l));
                if has_size && pre.input_id_v() < pre.level_size_v(l) {
                    &&& r matches Some(ni) && ni.input_type == decode_input_kind(
                        pre.store@[chunk_type_key(l, c)],
                    ) && ni.level == pre.current_level() && ni.id == spec_u32_from_be_bytes(
                        pre.store@[chunk_n_key(l, c)],
                    ) as i32 && ni.payload@ == (if max_bytes <= pre.store@[chunk_payload_key(
                        l,
                        c,
                    )].len() {
                        pre.store@[chunk_payload_key(l, c)].subrange(0, max_bytes as int)
                    } else {
                        pre.store@[chunk_payload_key(l, c)]
                    })
                    &&& post.store@ == pre.store@.insert(
                        input_id_key(),
                        ((pre.input_id_v() + 1) as i32).spec_encode(),
                    )
                    &&& post.input_levels() == pre.input_levels()
                    &&& post.input_id_v() == pre.input_id_v() + 1
                    &&& post.current_level() == pre.current_level()
                } else if has_size && pre.input_id_v() == pre.level_size_v(l) {
                    &&& r is None
                    &&& post.store@ == pre.store@.insert(
                        input_id_key(),
                        ((pre.input_id_v() + 1) as i32).spec_encode(),
                    )
                    &&& post.input_levels() == pre.input_levels().skip(1)
                    &&& post.input_id_v() == pre.input_id_v() + 1
                } else {
                    r is None && post == pre
                }
            }),
    {
        proof {
            lemma_fixed_keys_distinct();
        }
        let input_id = self.store.get_value::<i32>(make_input_id_key().as_slice());
        let level = self.store.get_value::<i32>(make_input_level_key().as_slice());
        proof {
            crate::codec::lemma_u32_be_bytes_roundtrip(input_id as u32);
            crate::codec::lemma_u32_be_bytes_roundtrip(level as u32);
            assert((input_id as u32) as i32 == input_id && (level as u32) as i32 == level)
                by (bit_vector);
            lemma_input_dyn_not_fixed(level as int, seq![47u8, 115u8, 105u8, 122u8, 101u8]);
        }
        let size_key = make_level_size_key(level);
        let level_size = self.store.maybe_get_value::<i32>(size_key.as_slice());
        match level_size {
            Some(ls) => {
                proof {
                    crate::codec::lemma_u32_be_bytes_roundtrip(ls as u32);
                    assert((ls as u32) as i32 == ls) by (bit_vector);
                }
                if input_id < ls {
                    let l = level;
                    let c = input_id;
                    let tkey = make_chunk_type_key(l, c);
                    let nkey = make_chunk_n_key(l, c);
                    let pkey = make_chunk_payload_key(l, c);
                    let input_type = self.store.get_value::<rollup_core::Input>(tkey.as_slice());
                    let id = self.store.get_value::<i32>(nkey.as_slice());
                    let mut payload = self.store.get_value::<Vec<u8>>(pkey.as_slice());
                    payload.truncate(max_bytes);
                    proof {
                        crate::codec::lemma_u32_be_bytes_roundtrip(id as u32);
                        assert((id as u32) as i32 == id) by (bit_vector);
                        crate::codec::lemma_u32_be_bytes_roundtrip((input_id + 1) as u32);
                        let i1 = (input_id + 1) as i32;
                        assert((i1 as u32) as i32 == i1) by (bit_vector);
                        assert(seq![104u8][0] == 104 && seq![115u8][0] == 115);
                        assert(input_type.spec_encode() == decode_input_kind(
                            input_type.spec_encode(),
                        ).spec_encode());
                        assert(input_type == decode_input_kind(
                            old(self).store@[chunk_type_key(l as int, c as int)],
                        ));
                        lemma_input_dyn_not_fixed(
                            l as int,
                            chunk_tail(c as int, seq![47u8, 116u8, 121u8, 112u8, 101u8]),
                        );
                        lemma_input_dyn_not_fixed(
                            l as int,
                            chunk_tail(c as int, seq![47u8, 110u8]),
                        );
                        lemma_input_dyn_not_fixed(
                            l as int,
                            chunk_tail(
                                c as int,
                                seq![47u8, 112u8, 97u8, 121u8, 108u8, 111u8, 97u8, 100u8],
                            ),
                        );
                    }
                    self.store.set_value::<i32>(make_input_id_key().as_slice(), input_id + 1);
                    Some(NextInput { input_type, level, id, payload })
                } else if input_id == ls {
                    let popped = self.input_levels.remove(0);
                    self.store.set_value::<i32>(make_input_id_key().as_slice(), input_id + 1);
                    proof {
                        crate::codec::lemma_u32_be_bytes_roundtrip((input_id + 1) as u32);
                        let i1 = (input_id + 1) as i32;
                        assert((i1 as u32) as i32 == i1) by (bit_vector);
                        let q0 = old(self).input_levels();
                        assert(self.input_levels@ =~= q0.skip(1));
                        assert forall|i: int, j: int|
                            0 <= i < j < self.input_levels@.len() implies
                            #[trigger] self.input_levels@[i] < #[trigger] self.input_levels@[j]
                        by {
                            assert(self.input_levels@[i] == q0[i + 1]);
                            assert(self.input_levels@[j] == q0[j + 1]);
                        }
                    }
                    None
                } else {
                    None
                }
            },
            None => None,
        }
    }

    /// Retrieves a previously stored preimage from its digest, truncated to
    /// `max_bytes`.  Asking for an unknown digest is a host-side
    /// inconsistency.
    pub fn handle_reveal_preimage(&self, hash: &[u8], max_bytes: usize) -> (r: Vec<u8>)
        requires
            self.wf(),
            self.store.preimages().contains_key(hash@),
        ensures
            r@ == (if self.store.preimages()[hash@].len() < max_bytes {
                self.store.preimages()[hash@]
            } else {
                self.store.preimages()[hash@].subrange(0, max_bytes as int)
            }),
    {
        let mut preimage = self.store.retrieve_preimage(hash);
        if preimage.len() < max_bytes {
            preimage
        } else {
            preimage.truncate(max_bytes);
            preimage
        }
    }

    /// Stores a preimage, returning its 32-byte digest.  Preimages are
    /// limited to 4096 bytes.
    pub fn set_preimage(&mut self, preimage: Vec<u8>) -> (r: Vec<u8>)
        requires
            old(self).wf(),
            preimage@.len() <= 4096,
        ensures
            final(self).wf(),
            r@ == crate::store::digest_of(preimage@),
            r@.len() == 32,
            final(self).store.preimages() == old(self).store.preimages().insert(r@, preimage@),
            final(self).store@ == old(self).store@,
            final(self).input_levels() == old(self).input_levels(),
    {
        let r = self.store.add_preimage(preimage);
        proof {
            assert(self.store.wf());
            assert(self.store@ == old(self).store@);
            assert(self.input_levels@ == old(self).input_levels@);
            assert(self.checkpoints_v() <= CHECKPOINTS_PER_LEVEL);
            assert forall|i: int, j: int|
                0 <= i < j < self.input_levels().len() implies #[trigger] self.input_levels()[i]
                < #[trigger] self.input_levels()[j] by {
                assert(old(self).input_levels()[i] < old(self).input_levels()[j]);
            }
            assert(self.wf());
        }
        r
    }
}

// ------------------------------------------------------------------
// Durable subtrees
// ------------------------------------------------------------------

/// Whether `k` lies in the subtree rooted at `p`: it is `p` itself, or
/// extends `p` at a separator.
pub open spec fn subtree_member(k: Seq<u8>, p: Seq<u8>) -> bool {
    k == p || (k.len() > p.len() && k.take(p.len() as int) == p && k[p.len() as int] == 47)
}

/// The map `m` with the whole subtree rooted at `p` removed.
pub open spec fn remove_subtree(m: Map<Seq<u8>, Seq<u8>>, p: Seq<u8>) -> Map<Seq<u8>, Seq<u8>> {
    Map::new(|k: Seq<u8>| m.dom().contains(k) && !subtree_member(k, p), |k: Seq<u8>| m[k])
}

/// The suffixes under prefix `p` of the keys of `m`: the empty suffix when
/// `p` itself is a key, and every separator-led extension.
pub open spec fn subkey_set(m: Map<Seq<u8>, Seq<u8>>, p: Seq<u8>) -> Set<Seq<u8>> {
    Set::new(|t: Seq<u8>| (t.len() == 0 || t[0] == 47) && m.dom().contains(p + t))
}

/// The suffixes of the keys of `m` that have `p` as a strict ancestor:
/// every separator-led extension, the prefix's own (empty) suffix excluded.
pub open spec fn strict_subkey_set(m: Map<Seq<u8>, Seq<u8>>, p: Seq<u8>) -> Set<Seq<u8>> {
    Set::new(|t: Seq<u8>| t.len() >= 1 && t[0] == 47 && m.dom().contains(p + t))
}

/// Subtree membership is the same as carrying a subkey suffix.
pub proof fn lemma_subtree_member_suffix(k: Seq<u8>, p: Seq<u8>)
    ensures
        subtree_member(k, p) <==> (k.len() >= p.len() && k.take(p.len() as int) == p && (k.len()
            == p.len() || k[p.len() as int] == 47)),
        subtree_member(k, p) ==> {
            let t = k.skip(p.len() as int);
            (t.len() == 0 || t[0] == 47) && k == p + t
        },
{
    if k.len() >= p.len() && k.take(p.len() as int) == p && k.len() == p.len() {
        assert(k =~= p);
    }
    if subtree_member(k, p) {
        assert(k.take(p.len() as int) =~= p);
        assert(k =~= p + k.skip(p.len() as int));
    }
}

/// A prefixed suffix lies in the subtree of its prefix.
pub proof fn lemma_suffix_subtree_member(p: Seq<u8>, t: Seq<u8>)
    requires
        t.len() == 0 || t[0] == 47,
    ensures
        subtree_member(p + t, p),
        (p + t).skip(p.len() as int) == t,
{
    if t.len() == 0 {
        assert(p + t =~= p);
    } else {
        assert((p + t).take(p.len() as int) =~= p);
    }
    assert((p + t).skip(p.len() as int) =~= t);
}

/// No reserved bookkeeping key lies in a durable subtree.
pub proof fn lemma_fixed_not_in_durable_subtree(k: Seq<u8>, p: Seq<u8>)
    requires
        is_fixed_key(k),
    ensures
        !subtree_member(k, durable_key(p)),
{
    lemma_durable_key_apart(p);
    let dk = durable_key(p);
    if k.len() > dk.len() && k.take(dk.len() as int) == dk {
        assert(k[1] == dk[1]);
        assert(dk[1] == 100);
        assert(input_level_key()[1] == 105);
        assert(input_id_key()[1] == 105);
        assert(input_consuming_key()[1] == 105);
        assert(checkpoints_key()[1] == 99);
        assert(output_id_key()[1] == 111);
        assert(reboot_key()[1] == 114);
    }
}

/// Builds the durable-store key of `path`: the implicit prefix followed by
/// the path's own bytes.
pub fn with_durable(path: &[u8]) -> (r: Vec<u8>)
    requires
        is_valid_path(path@),
    ensures
        r@ == durable_key(path@),
{
    let mut v: Vec<u8> = Vec::new();
    v.push(47);
    v.push(100);
    v.push(117);
    v.push(114);
    v.push(97);
    v.push(98);
    v.push(108);
    v.push(101);
    proof {
        assert(v@ =~= durable_prefix());
    }
    append_bytes(&mut v, path);
    v
}

/// Whether `k` lies in the subtree rooted at `p`.
fn is_subtree_key(k: &[u8], p: &[u8]) -> (r: bool)
    ensures
        r == subtree_member(k@, p@),
{
    let kn = k.len();
    let pn = p.len();
    if kn < pn {
        return false;
    }
    let mut i: usize = 0;
    while i < pn
        invariant
            0 <= i <= pn <= kn,
            kn == k@.len(),
            pn == p@.len(),
            forall|j: int| 0 <= j < i ==> k@[j] == p@[j],
        decreases pn - i,
    {
        if k[i] != p[i] {
            proof {
                assert(k@.take(pn as int)[i as int] != p@[i as int]);
            }
            return false;
        }
        i = i + 1;
    }
    proof {
        assert(k@.take(pn as int) =~= p@);
    }
    if kn == pn {
        proof {
            assert(k@ =~= p@);
        }
        true
    } else {
        let r = k[pn] == 47;
        r
    }
}

impl HostState {
    /// Lists the subkey suffixes of `prefix` in the durable store: the
    /// suffixes of every stored key that lies in the subtree rooted at the
    /// prefixed path, without duplicates, in no particular order.
    #[verifier::rlimit(60)]
    pub fn subkeys_of(&self, prefix: &[u8]) -> (r: Vec<Vec<u8>>)
        requires
            self.wf(),
            is_valid_path(prefix@),
        ensures
            forall|i: int|
                0 <= i < r@.len() ==> subkey_set(self.store@, durable_key(prefix@)).contains(
                    (#[trigger] r@[i])@,
                ),
            forall|t: Seq<u8>|
                subkey_set(self.store@, durable_key(prefix@)).contains(t) ==> exists|i: int|
                    0 <= i < r@.len() && (#[trigger] r@[i])@ == t,
            forall|i: int, j: int| 0 <= i < j < r@.len() ==> (#[trigger] r@[i])@ != (
            #[trigger] r@[j])@,
    {
        let dk = with_durable(prefix);
        let keys = self.store.list_paths();
        let ghost ks = keys@;
        let ghost dks = dk@;
        let n = keys.len();
        let mut r: Vec<Vec<u8>> = Vec::new();
        let ghost mut src: Seq<int> = Seq::empty();
        let mut i: usize = 0;
        while i < n
            invariant
                0 <= i <= n,
                n == ks.len(),
                keys@ == ks,
                dk@ == dks,
                dks == durable_key(prefix@),
                forall|a: int, b: int| 0 <= a < b < ks.len() ==> (#[trigger] ks[a])@ != (
                #[trigger] ks[b])@,
                forall|a: int| 0 <= a < ks.len() ==> self.store@.contains_key((#[trigger] ks[a])@),
                src.len() == r@.len(),
                forall|p: int|
                    0 <= p < r@.len() ==> 0 <= #[trigger] src[p] < i && subtree_member(
                        (ks[src[p]])@,
                        dks,
                    ) && (r@[p])@ == (ks[src[p]])@.skip(dks.len() as int),
                forall|p: int, q: int| 0 <= p < q < src.len() ==> src[p] < src[q],
                forall|a: int|
                    0 <= a < i && subtree_member((#[trigger] ks[a])@, dks) ==> exists|p: int|
                        0 <= p < src.len() && src[p] == a,
            decreases n - i,
        {
            let ghost src0 = src;
            if is_subtree_key(keys[i].as_slice(), dk.as_slice()) {
                let mut suffix: Vec<u8> = Vec::new();
                let mut j: usize = dk.len();
                while j < keys[i].len()
                    invariant
                        dks.len() <= j <= (ks[i as int])@.len(),
                        keys@ == ks,
                        dk@ == dks,
                        0 <= i < ks.len(),
                        suffix@ == (ks[i as int])@.subrange(dks.len() as int, j as int),
                    decreases (ks[i as int])@.len() - j,
                {
                    suffix.push(keys[i][j]);
                    proof {
                        assert((ks[i as int])@.subrange(dks.len() as int, j + 1) =~= (
                        ks[i as int])@.subrange(dks.len() as int, j as int).push(
                            (ks[i as int])@[j as int],
                        ));
                    }
                    j = j + 1;
                }
                proof {
                    assert(suffix@ =~= (ks[i as int])@.skip(dks.len() as int));
                }
                r.push(suffix);
                proof {
                    src = src.push(i as int);
                }
            }
            proof {
                assert forall|a: int|
                    0 <= a < i + 1 && subtree_member((#[trigger] ks[a])@, dks) implies exists|
                    p: int,
                |
                    0 <= p < src.len() && src[p] == a by {
                    if a < i {
                        let p = choose|p: int| 0 <= p < src0.len() && src0[p] == a;
                        assert(src[p] == a);
                    } else {
                        assert(src[src.len() - 1] == a);
                    }
                }
            }
            i = i + 1;
        }
        proof {
            let m = self.store@;
            let set0 = subkey_set(m, dks);
            assert forall|p: int| 0 <= p < r@.len() implies set0.contains((#[trigger] r@[p])@) by {
                let a = src[p];
                lemma_subtree_member_suffix((ks[a])@, dks);
                assert(m.dom().contains(dks + (r@[p])@));
            }
            assert forall|t: Seq<u8>| set0.contains(t) implies exists|p: int|
                0 <= p < r@.len() && (#[trigger] r@[p])@ == t by {
                assert(m.dom().contains(dks + t));
                assert(m.contains_key(dks + t));
                let a = choose|a: int| 0 <= a < ks.len() && (#[trigger] ks[a])@ == dks + t;
                lemma_suffix_subtree_member(dks, t);
                assert(subtree_member((ks[a])@, dks));
                let p = choose|p: int| 0 <= p < src.len() && src[p] == a;
                assert((r@[p])@ == t);
            }
            assert forall|p: int, q: int| 0 <= p < q < r@.len() implies (#[trigger] r@[p])@ != (
            #[trigger] r@[q])@ by {
                lemma_subtree_member_suffix((ks[src[p]])@, dks);
                lemma_subtree_member_suffix((ks[src[q]])@, dks);
                assert((ks[src[p]])@ == dks + (r@[p])@);
                assert((ks[src[q]])@ == dks + (r@[q])@);
            }
        }
        r
    }

    /// Classifies the prefixed `raw_path` in the durable store: whether it
    /// holds a value, and whether it is a strict ancestor of other keys.
    pub fn handle_store_has(&self, raw_path: &[u8]) -> (r: rollup_core::ValueType)
        requires
            self.wf(),
            is_valid_path(raw_path@),
        ensures
            ({
                let dk = durable_key(raw_path@);
                let has_value = self.store@.contains_key(dk);
                let has_sub = exists|t: Seq<u8>| #[trigger] strict_subkey_set(
                    self.store@,
                    dk,
                ).contains(t);
                r == (if !has_value && !has_sub {
                    rollup_core::ValueType::Missing
                } else if has_value && !has_sub {
                    rollup_core::ValueType::Value
                } else if !has_value && has_sub {
                    rollup_core::ValueType::Subtree
                } else {
                    rollup_core::ValueType::ValueWithSubtree
                })
            }),
    {
        let dk = with_durable(raw_path);
        let has_value = self.store.has_entry(dk.as_slice());
        let subs = self.subkeys_of(raw_path);
        let ghost dks = durable_key(raw_path@);
        let mut has_sub = false;
        let n = subs.len();
        let mut i: usize = 0;
        while i < n
            invariant
                0 <= i <= n,
                n == subs@.len(),
                forall|p: int|
                    0 <= p < subs@.len() ==> subkey_set(self.store@, dks).contains(
                        (#[trigger] subs@[p])@,
                    ),
                forall|t: Seq<u8>|
                    subkey_set(self.store@, dks).contains(t) ==> exists|p: int|
                        0 <= p < subs@.len() && (#[trigger] subs@[p])@ == t,
                has_sub == exists|p: int| 0 <= p < i && (#[trigger] subs@[p])@.len() >= 1,
            decreases n - i,
        {
            if subs[i].len() > 0 {
                has_sub = true;
                proof {
                    assert((subs@[i as int])@.len() >= 1);
                }
            }
            i = i + 1;
        }
        proof {
            if has_sub {
                let p = choose|p: int| 0 <= p < n && (#[trigger] subs@[p])@.len() >= 1;
                assert(subkey_set(self.store@, dks).contains((subs@[p])@));
                assert(strict_subkey_set(self.store@, dks).contains((subs@[p])@));
            }
            if exists|t: Seq<u8>| #[trigger] strict_subkey_set(self.store@, dks).contains(t) {
                let t = choose|t: Seq<u8>| #[trigger] strict_subkey_set(self.store@, dks).contains(
                    t,
                );
                assert(subkey_set(self.store@, dks).contains(t));
                let p = choose|p: int| 0 <= p < subs@.len() && (#[trigger] subs@[p])@ == t;
                assert((subs@[p])@.len() >= 1);
            }
        }
        if has_value && !has_sub {
            rollup_core::ValueType::Value
        } else if !has_value && has_sub {
            rollup_core::ValueType::Subtree
        } else if has_value && has_sub {
            rollup_core::ValueType::ValueWithSubtree
        } else {
            rollup_core::ValueType::Missing
        }
    }

    /// Reads up to `max_bytes` (and at most one storage chunk) from the
    /// value at the prefixed `path`, starting at `offset`.  The path must
    /// exist and the offset must lie within the value.
    pub fn handle_store_read(&self, path: &[u8], offset: usize, max_bytes: usize) -> (r: Vec<u8>)
        requires
            self.wf(),
            is_valid_path(path@),
            self.store@.contains_key(durable_key(path@)),
            offset <= self.store@[durable_key(path@)].len(),
        ensures
            ({
                let v = self.store@[durable_key(path@)];
                let n = vstd::math::min(
                    rollup_core::MAX_FILE_CHUNK_SIZE as int,
                    vstd::math::min(max_bytes as int, v.len() - offset),
                );
                r@ == v.subrange(offset as int, offset + n)
            }),
    {
        let dk = with_durable(path);
        let value = self.store.get_value::<Vec<u8>>(dk.as_slice());
        let rest = value.len() - offset;
        let within = if max_bytes < rest {
            max_bytes
        } else {
            rest
        };
        let num_bytes = if rollup_core::MAX_FILE_CHUNK_SIZE < within {
            rollup_core::MAX_FILE_CHUNK_SIZE
        } else {
            within
        };
        let out = vstd::slice::slice_to_vec(
            vstd::slice::slice_subrange(value.as_slice(), offset, offset + num_bytes),
        );
        out
    }

    /// The splice of `src` into `old_value` at `offset`: bytes before the
    /// offset stay, `src` follows, and the old tail survives only when the
    /// write lands fully within the old value.
    pub open spec fn write_bytes(old_value: Seq<u8>, offset: int, src: Seq<u8>) -> Seq<u8> {
        old_value.take(offset) + src + (if offset + src.len() <= old_value.len() {
            old_value.skip(offset + src.len())
        } else {
            Seq::<u8>::empty()
        })
    }

    /// Writes `bytes` into the value at the prefixed `path`, starting at
    /// `offset` within the value, creating the path if absent.  Writes of
    /// more than one storage chunk are refused; an offset beyond the end of
    /// the existing value is kernel misuse, excluded here.
    pub fn handle_store_write(&mut self, path: &[u8], offset: usize, bytes: &[u8]) -> (r:
        rollup_core::WriteResult)
        requires
            old(self).wf(),
            is_valid_path(path@),
            offset <= (if old(self).store@.contains_key(durable_key(path@)) {
                old(self).store@[durable_key(path@)].len()
            } else {
                0
            }),
        ensures
            final(self).wf(),
            final(self).store.preimages() == old(self).store.preimages(),
            final(self).input_levels() == old(self).input_levels(),
            ({
                let dk = durable_key(path@);
                let old_value = if old(self).store@.contains_key(dk) {
                    old(self).store@[dk]
                } else {
                    Seq::<u8>::empty()
                };
                if bytes@.len() > rollup_core::MAX_FILE_CHUNK_SIZE {
                    r == rollup_core::WriteResult::TooLarge && final(self).store@ == old(self).store@
                } else {
                    r == rollup_core::WriteResult::Accepted && final(self).store@ == old(self).store@.insert(dk, HostState::write_bytes(old_value, offset as int, bytes@))
                }
            }),
    {
        if bytes.len() > rollup_core::MAX_FILE_CHUNK_SIZE {
            return rollup_core::WriteResult::TooLarge;
        }
        let dk = with_durable(path);
        let value: Vec<u8> = match self.store.maybe_get_value::<Vec<u8>>(dk.as_slice()) {
            Some(v) => v,
            None => Vec::new(),
        };
        let mut out = vstd::slice::slice_to_vec(
            vstd::slice::slice_subrange(value.as_slice(), 0, offset),
        );
        append_bytes(&mut out, bytes);
        if bytes.len() <= value.len() - offset {
            append_bytes(
                &mut out,
                vstd::slice::slice_subrange(value.as_slice(), offset + bytes.len(), value.len()),
            );
        }
        proof {
            let old_value = if old(self).store@.contains_key(dk@) {
                old(self).store@[dk@]
            } else {
                Seq::<u8>::empty()
            };
            assert(out@ =~= HostState::write_bytes(old_value, offset as int, bytes@));
        }
        self.store.set_value::<Vec<u8>>(dk.as_slice(), out);
        proof {
            lemma_durable_key_apart(path@);
            assert forall|i: int, j: int|
                0 <= i < j < self.input_levels().len() implies #[trigger] self.input_levels()[i]
                < #[trigger] self.input_levels()[j] by {
                assert(old(self).input_levels()[i] < old(self).input_levels()[j]);
            }
        }
        rollup_core::WriteResult::Accepted
    }

    /// Deletes the whole subtree rooted at the prefixed `prefix`, including
    /// the prefixed path itself when it holds a value.
    pub fn handle_store_delete(&mut self, prefix: &[u8])
        requires
            old(self).wf(),
            is_valid_path(prefix@),
        ensures
            final(self).wf(),
            final(self).store.preimages() == old(self).store.preimages(),
            final(self).input_levels() == old(self).input_levels(),
            final(self).store@ == remove_subtree(old(self).store@, durable_key(prefix@)),
    {
        let dk = with_durable(prefix);
        let ghost dks = durable_key(prefix@);
        let keys = self.store.list_paths();
        let ghost ks = keys@;
        let ghost m0 = self.store@;
        let n = keys.len();
        let mut i: usize = 0;
        while i < n
            invariant
                0 <= i <= n,
                n == ks.len(),
                keys@ == ks,
                dk@ == dks,
                self.store.wf(),
                self.store.preimages() == old(self).store.preimages(),
                self.input_levels@ == old(self).input_levels@,
                forall|a: int, b: int| 0 <= a < b < ks.len() ==> (#[trigger] ks[a])@ != (
                #[trigger] ks[b])@,
                forall|a: int| 0 <= a < ks.len() ==> m0.contains_key((#[trigger] ks[a])@),
                forall|k: Seq<u8>| m0.contains_key(k) ==> exists|a: int|
                    0 <= a < ks.len() && (#[trigger] ks[a])@ == k,
                forall|k: Seq<u8>|
                    #[trigger] self.store@.contains_key(k) <==> (m0.contains_key(k) && !(
                    subtree_member(k, dks) && exists|a: int|
                        0 <= a < i && (#[trigger] ks[a])@ == k)),
                forall|k: Seq<u8>| self.store@.contains_key(k) ==> #[trigger] self.store@[k]
                    == m0[k],
            decreases n - i,
        {
            if is_subtree_key(keys[i].as_slice(), dk.as_slice()) {
                proof {
                    assert(self.store@.contains_key((ks[i as int])@)) by {
                        assert(m0.contains_key((ks[i as int])@));
                        assert forall|a: int|
                            0 <= a < i implies (#[trigger] ks[a])@ != (ks[i as int])@ by {}
                    }
                }
                self.store.delete_value(keys[i].as_slice());
                proof {
                    assert forall|k: Seq<u8>| #[trigger] self.store@.contains_key(k) <==> (
                    m0.contains_key(k) && !(subtree_member(k, dks) && exists|a: int|
                        0 <= a < i + 1 && (#[trigger] ks[a])@ == k)) by {}
                }
            } else {
                proof {
                    assert forall|k: Seq<u8>| #[trigger] self.store@.contains_key(k) <==> (
                    m0.contains_key(k) && !(subtree_member(k, dks) && exists|a: int|
                        0 <= a < i + 1 && (#[trigger] ks[a])@ == k)) by {
                        if m0.contains_key(k) && subtree_member(k, dks) {
                            if exists|a: int| 0 <= a < i + 1 && (#[trigger] ks[a])@ == k {
                                let a = choose|a: int|
                                    0 <= a < i + 1 && (#[trigger] ks[a])@ == k;
                                if a == i {
                                    assert(!subtree_member((ks[i as int])@, dks));
                                }
                            }
                        }
                    }
                }
            }
            i = i + 1;
        }
        proof {
            assert(self.store@ =~= remove_subtree(m0, dks));
            assert forall|i2: int, j2: int|
                0 <= i2 < j2 < self.input_levels().len() implies #[trigger] self.input_levels()[i2]
                < #[trigger] self.input_levels()[j2] by {
                assert(old(self).input_levels()[i2] < old(self).input_levels()[j2]);
            }
            assert(is_fixed_key(input_level_key()));
            assert(is_fixed_key(input_id_key()));
            assert(is_fixed_key(checkpoints_key()));
            assert(is_fixed_key(output_id_key()));
            assert(is_fixed_key(input_consuming_key()));
            assert(is_fixed_key(reboot_key()));
            lemma_fixed_not_in_durable_subtree(input_level_key(), prefix@);
            lemma_fixed_not_in_durable_subtree(input_id_key(), prefix@);
            lemma_fixed_not_in_durable_subtree(checkpoints_key(), prefix@);
            lemma_fixed_not_in_durable_subtree(output_id_key(), prefix@);
            lemma_fixed_not_in_durable_subtree(input_consuming_key(), prefix@);
            lemma_fixed_not_in_durable_subtree(reboot_key(), prefix@);
        }
    }

    /// Lists the suffixes of every stored key that has the prefixed path as
    /// a strict ancestor, without duplicates, in no particular order.
    fn strict_subkeys_of(&self, prefix: &[u8]) -> (r: Vec<Vec<u8>>)
        requires
            self.wf(),
            is_valid_path(prefix@),
        ensures
            forall|i: int|
                0 <= i < r@.len() ==> strict_subkey_set(self.store@, durable_key(prefix@)).contains(
                    (#[trigger] r@[i])@,
                ),
            forall|t: Seq<u8>|
                strict_subkey_set(self.store@, durable_key(prefix@)).contains(t) ==> exists|i: int|
                    0 <= i < r@.len() && (#[trigger] r@[i])@ == t,
            forall|i: int, j: int| 0 <= i < j < r@.len() ==> (#[trigger] r@[i])@ != (
            #[trigger] r@[j])@,
    {
        let subs = self.subkeys_of(prefix);
        let ghost all = subs@;
        let ghost dks = durable_key(prefix@);
        let n = subs.len();
        let mut r: Vec<Vec<u8>> = Vec::new();
        let ghost mut src: Seq<int> = Seq::empty();
        let mut i: usize = 0;
        while i < n
            invariant
                0 <= i <= n,
                n == all.len(),
                subs@ == all,
                dks == durable_key(prefix@),
                forall|a: int|
                    0 <= a < all.len() ==> subkey_set(self.store@, dks).contains(
                        (#[trigger] all[a])@,
                    ),
                forall|a: int, b: int| 0 <= a < b < all.len() ==> (#[trigger] all[a])@ != (
                #[trigger] all[b])@,
                src.len() == r@.len(),
                forall|p: int|
                    0 <= p < r@.len() ==> 0 <= #[trigger] src[p] < i && (all[src[p]])@.len() >= 1
                        && (r@[p])@ == (all[src[p]])@,
                forall|p: int, q: int| 0 <= p < q < src.len() ==> src[p] < src[q],
                forall|a: int|
                    0 <= a < i && (#[trigger] all[a])@.len() >= 1 ==> exists|p: int|
                        0 <= p < src.len() && src[p] == a,
            decreases n - i,
        {
            let ghost src0 = src;
            if subs[i].len() > 0 {
                r.push(vstd::slice::slice_to_vec(subs[i].as_slice()));
                proof {
                    src = src.push(i as int);
                }
            }
            proof {
                assert forall|a: int|
                    0 <= a < i + 1 && (#[trigger] all[a])@.len() >= 1 implies exists|p: int|
                    0 <= p < src.len() && src[p] == a by {
                    if a < i {
                        let p = choose|p: int| 0 <= p < src0.len() && src0[p] == a;
                        assert(src[p] == a);
                    } else {
                        assert(src[src.len() - 1] == a);
                    }
                }
            }
            i = i + 1;
        }
        proof {
            assert forall|p: int| 0 <= p < r@.len() implies strict_subkey_set(
                self.store@,
                dks,
            ).contains((#[trigger] r@[p])@) by {
                let a = src[p];
                assert(subkey_set(self.store@, dks).contains((all[a])@));
            }
            assert forall|t: Seq<u8>| strict_subkey_set(self.store@, dks).contains(t) implies exists|
                i2: int,
            | 0 <= i2 < r@.len() && (#[trigger] r@[i2])@ == t by {
                assert(subkey_set(self.store@, dks).contains(t));
                let a = choose|a: int| 0 <= a < all.len() && (#[trigger] all[a])@ == t;
                let p = choose|p: int| 0 <= p < src.len() && src[p] == a;
                assert((r@[p])@ == t);
            }
            assert forall|p: int, q: int| 0 <= p < q < r@.len() implies (#[trigger] r@[p])@ != (
            #[trigger] r@[q])@ by {
                assert((r@[p])@ == (all[src[p]])@ && (r@[q])@ == (all[src[q]])@);
            }
        }
        r
    }

    /// Counts the subkeys of `prefix` in the durable store: the keys that
    /// have the prefixed path as a strict ancestor.
    pub fn handle_store_list_size(&self, prefix: &[u8]) -> (r: i64)
        requires
            self.wf(),
            is_valid_path(prefix@),
            strict_subkey_set(self.store@, durable_key(prefix@)).finite() ==> strict_subkey_set(
                self.store@,
                durable_key(prefix@),
            ).len() <= i64::MAX,
        ensures
            strict_subkey_set(self.store@, durable_key(prefix@)).finite(),
            r == strict_subkey_set(self.store@, durable_key(prefix@)).len(),
    {
        let subs = self.strict_subkeys_of(prefix);
        proof {
            lemma_subkey_list_cardinality(
                subs@,
                strict_subkey_set(self.store@, durable_key(prefix@)),
            );
        }
        subs.len() as i64
    }
}

/// A duplicate-free list holding exactly the elements of `set` witnesses the
/// set's cardinality.
proof fn lemma_subkey_list_cardinality(subs: Seq<Vec<u8>>, set0: Set<Seq<u8>>)
    requires
        forall|i: int| 0 <= i < subs.len() ==> set0.contains((#[trigger] subs[i])@),
        forall|t: Seq<u8>| set0.contains(t) ==> exists|i: int|
            0 <= i < subs.len() && (#[trigger] subs[i])@ == t,
        forall|i: int, j: int| 0 <= i < j < subs.len() ==> (#[trigger] subs[i])@ != (
        #[trigger] subs[j])@,
    ensures
        set0.finite(),
        set0.len() == subs.len(),
{
    let views = subs.map_values(|v: Vec<u8>| v@);
    assert(views.no_duplicates()) by {
        assert forall|i: int, j: int|
            0 <= i < views.len() && 0 <= j < views.len() && i != j implies views[i] != views[j] by {
            if i < j {
                assert(views[i] == (subs[i])@ && views[j] == (subs[j])@);
            } else {
                assert(views[i] == (subs[i])@ && views[j] == (subs[j])@);
            }
        }
    }
    assert(views.to_set() =~= set0) by {
        assert forall|t: Seq<u8>| views.to_set().contains(t) implies set0.contains(t) by {
            let i = choose|i: int| 0 <= i < views.len() && views[i] == t;
            assert(set0.contains((subs[i])@));
        }
        assert forall|t: Seq<u8>| set0.contains(t) implies views.to_set().contains(t) by {
            let i = choose|i: int| 0 <= i < subs.len() && (#[trigger] subs[i])@ == t;
            assert(views[i] == t);
        }
    }
    views.unique_seq_to_set();
}

// ------------------------------------------------------------------
// Input injection
// ------------------------------------------------------------------

/// The chunk size used when splitting a payload of the given kind.
pub open spec fn chunk_size_of(kind: rollup_core::Input) -> nat {
    match kind {
        rollup_core::Input::MessageData => rollup_core::MAX_INPUT_MESSAGE_SIZE as nat,
        rollup_core::Input::SlotDataChunk => rollup_core::MAX_INPUT_SLOT_DATA_CHUNK_SIZE as nat,
    }
}

/// A non-empty payload split into chunks of at most `c` bytes, in order.
pub open spec fn chunks_of(p: Seq<u8>, c: nat) -> Seq<Seq<u8>>
    recommends
        c >= 1,
    decreases p.len(),
{
    if p.len() <= c || c < 1 {
        seq![p]
    } else {
        seq![p.take(c as int)] + chunks_of(p.skip(c as int), c)
    }
}

/// The chunk stream of a batch of inputs: each payload is chunked, every
/// chunk carries its kind, and all chunks of one payload share the index of
/// the payload's first chunk.
pub open spec fn input_chunks(inputs: Seq<(rollup_core::Input, Vec<u8>)>) -> Seq<
    (rollup_core::Input, Seq<u8>, int),
>
    decreases inputs.len(),
{
    if inputs.len() == 0 {
        Seq::empty()
    } else {
        let prev = input_chunks(inputs.drop_last());
        let kind = inputs.last().0;
        let cs = chunks_of(inputs.last().1@, chunk_size_of(kind));
        prev + Seq::new(cs.len(), |k: int| (kind, cs[k], prev.len() as int))
    }
}

/// The store contents after recording the chunk stream `cs` at `level`:
/// chunk `c` occupies its payload, kind and first-chunk keys.
pub open spec fn apply_chunks(
    m: Map<Seq<u8>, Seq<u8>>,
    l: int,
    cs: Seq<(rollup_core::Input, Seq<u8>, int)>,
) -> Map<Seq<u8>, Seq<u8>>
    decreases cs.len(),
{
    if cs.len() == 0 {
        m
    } else {
        let c = cs.len() - 1;
        apply_chunks(m, l, cs.drop_last()).insert(chunk_payload_key(l, c), cs.last().1).insert(
            chunk_type_key(l, c),
            cs.last().0.spec_encode(),
        ).insert(chunk_n_key(l, c), ((cs.last().2) as i32).spec_encode())
    }
}

/// Chunk streams of longer batches extend those of their prefixes.
proof fn lemma_input_chunks_prefix(inputs: Seq<(rollup_core::Input, Vec<u8>)>, i: int)
    requires
        0 <= i <= inputs.len(),
    ensures
        input_chunks(inputs.take(i)).len() <= input_chunks(inputs).len(),
    decreases inputs.len() - i,
{
    if i < inputs.len() {
        lemma_input_chunks_prefix(inputs, i + 1);
        assert(inputs.take(i + 1).drop_last() =~= inputs.take(i));
        assert(inputs.take(i + 1).last() == inputs[i]);
    } else {
        assert(inputs.take(i) =~= inputs);
    }
}

/// Fixed bookkeeping keys are untouched by recording a chunk stream.
proof fn lemma_apply_chunks_fixed(
    m: Map<Seq<u8>, Seq<u8>>,
    l: int,
    cs: Seq<(rollup_core::Input, Seq<u8>, int)>,
    k: Seq<u8>,
)
    requires
        is_fixed_key(k),
    ensures
        apply_chunks(m, l, cs).contains_key(k) == m.contains_key(k),
        m.contains_key(k) ==> apply_chunks(m, l, cs)[k] == m[k],
    decreases cs.len(),
{
    if cs.len() > 0 {
        let c = cs.len() - 1;
        lemma_apply_chunks_fixed(m, l, cs.drop_last(), k);
        lemma_input_dyn_not_fixed(
            l,
            chunk_tail(c, seq![47u8, 112u8, 97u8, 121u8, 108u8, 111u8, 97u8, 100u8]),
        );
        lemma_input_dyn_not_fixed(l, chunk_tail(c, seq![47u8, 116u8, 121u8, 112u8, 101u8]));
        lemma_input_dyn_not_fixed(l, chunk_tail(c, seq![47u8, 110u8]));
    }
}

impl HostState {
    /// Injects a batch of inputs at `at_level`, splitting each payload into
    /// chunks and recording the total chunk count as the level's size.
    ///
    /// Only legal when the host is ready for input at that level (see
    /// [`HostState::ready_for_input`]); injecting on an unready host, an
    /// empty payload, or an oversized payload is a driver error.  All
    /// chunks of one payload share the identifier of the payload's first
    /// chunk; chunk identifiers increase across payloads without resetting.
    #[verifier::rlimit(100)]
    pub fn add_next_inputs(&mut self, at_level: i32, inputs: &Vec<(rollup_core::Input, Vec<u8>)>)
        requires
            old(self).wf(),
            old(self).spec_ready_for_input(at_level),
            forall|i: int|
                0 <= i < inputs@.len() ==> {
                    &&& (#[trigger] inputs@[i]).1@.len() >= 1
                    &&& (inputs@[i].0 == rollup_core::Input::MessageData ==> inputs@[i].1@.len()
                        <= MAX_HEADER_SIZE)
                    &&& (inputs@[i].0 == rollup_core::Input::SlotDataChunk ==> inputs@[i].1@.len()
                        <= MAX_SLOT_SIZE)
                },
            input_chunks(inputs@).len() <= i32::MAX,
        ensures
            final(self).wf(),
            final(self).store.preimages() == old(self).store.preimages(),
            final(self).input_levels() == old(self).input_levels(),
            final(self).store@ == apply_chunks(
                old(self).store@,
                at_level as int,
                input_chunks(inputs@),
            ).insert(
                level_size_key(at_level as int),
                ((input_chunks(inputs@).len() as i32)).spec_encode(),
            ),
            final(self).current_level() == old(self).current_level(),
            final(self).checkpoints_v() == old(self).checkpoints_v(),
            final(self).input_id_v() == old(self).input_id_v(),
    {
        let ghost m0 = self.store@;
        let ghost l = at_level as int;
        let ghost all = input_chunks(inputs@);
        let n = inputs.len();
        let mut id: i32 = 0;
        let mut inp: usize = 0;
        proof {
            assert(inputs@.take(0) =~= Seq::<(rollup_core::Input, Vec<u8>)>::empty());
        }
        while inp < n
            invariant
                0 <= inp <= n,
                n == inputs@.len(),
                forall|i: int|
                    0 <= i < inputs@.len() ==> {
                        &&& (#[trigger] inputs@[i]).1@.len() >= 1
                        &&& (inputs@[i].0 == rollup_core::Input::MessageData ==> inputs@[i].1@.len()
                            <= MAX_HEADER_SIZE)
                        &&& (inputs@[i].0 == rollup_core::Input::SlotDataChunk ==> inputs@[i].1@.len()
                            <= MAX_SLOT_SIZE)
                    },
                input_chunks(inputs@).len() <= i32::MAX,
                all == input_chunks(inputs@),
                id as int == input_chunks(inputs@.take(inp as int)).len(),
                self.store.wf(),
                self.store.preimages() == old(self).store.preimages(),
                self.input_levels@ == old(self).input_levels@,
                self.store@ == apply_chunks(m0, l, input_chunks(inputs@.take(inp as int))),
                m0 == old(self).store@,
                l == at_level as int,
            decreases n - inp,
        {
            let ghost prev = input_chunks(inputs@.take(inp as int));
            let kind = inputs[inp].0;
            let chunk_size: usize = match kind {
                rollup_core::Input::MessageData => rollup_core::MAX_INPUT_MESSAGE_SIZE,
                rollup_core::Input::SlotDataChunk => rollup_core::MAX_INPUT_SLOT_DATA_CHUNK_SIZE,
            };
            let ghost cs = chunks_of((inputs@[inp as int]).1@, chunk_size_of(kind));
            let ghost this_part = Seq::new(cs.len(), |k: int| (kind, cs[k], prev.len() as int));
            proof {
                assert(inputs@.take(inp + 1).drop_last() =~= inputs@.take(inp as int));
                assert(inputs@.take(inp + 1).last() == inputs@[inp as int]);
                assert(input_chunks(inputs@.take(inp + 1)) == prev + this_part);
                lemma_input_chunks_prefix(inputs@, inp + 1);
            }
            let first_id: i32 = id;
            let plen = inputs[inp].1.len();
            let mut off: usize = 0;
            let ghost mut k: int = 0;
            proof {
                assert((inputs@[inp as int]).1@.skip(0) =~= (inputs@[inp as int]).1@);
                assert(cs.take(0) =~= Seq::<Seq<u8>>::empty());
                assert(cs =~= cs.take(0) + chunks_of(
                    (inputs@[inp as int]).1@.skip(0),
                    chunk_size_of(kind),
                ));
                assert(this_part.take(0) =~= Seq::<(rollup_core::Input, Seq<u8>, int)>::empty());
                assert(prev + this_part.take(0) =~= prev);
            }
            while off < plen
                invariant
                    0 <= off <= plen,
                    plen == (inputs@[inp as int]).1@.len(),
                    plen >= 1,
                    0 <= inp < n,
                    n == inputs@.len(),
                    chunk_size as nat == chunk_size_of(kind),
                    chunk_size >= 1,
                    kind == (inputs@[inp as int]).0,
                    cs == chunks_of((inputs@[inp as int]).1@, chunk_size_of(kind)),
                    this_part == Seq::new(cs.len(), |k2: int| (kind, cs[k2], prev.len() as int)),
                    0 <= k <= cs.len(),
                    off < plen ==> (k < cs.len() && cs =~= cs.take(k) + chunks_of(
                        (inputs@[inp as int]).1@.skip(off as int),
                        chunk_size_of(kind),
                    )),
                    off == plen ==> k == cs.len(),
                    first_id as int == prev.len(),
                    id as int == prev.len() + k,
                    prev.len() + cs.len() <= i32::MAX,
                    prev == input_chunks(inputs@.take(inp as int)),
                    self.store.wf(),
                    self.store.preimages() == old(self).store.preimages(),
                    self.input_levels@ == old(self).input_levels@,
                    self.store@ == apply_chunks(m0, l, prev + this_part.take(k)),
                    m0 == old(self).store@,
                    l == at_level as int,
                decreases plen - off,
            {
                let end = if plen - off < chunk_size {
                    plen
                } else {
                    off + chunk_size
                };
                let chunk = vstd::slice::slice_to_vec(
                    vstd::slice::slice_subrange(inputs[inp].1.as_slice(), off, end),
                );
                let ghost rest = (inputs@[inp as int]).1@.skip(off as int);
                proof {
                    assert(cs[k] == chunk@ && (end == plen ==> k == cs.len() - 1) && (end < plen
                        ==> cs =~= cs.take(k + 1) + chunks_of(
                        (inputs@[inp as int]).1@.skip(end as int),
                        chunk_size_of(kind),
                    ))) by {
                        assert(cs.take(k).len() == k);
                        if rest.len() <= chunk_size_of(kind) {
                            assert(chunks_of(rest, chunk_size_of(kind)) =~= seq![rest]);
                            assert(cs[k] == rest);
                            assert(end == plen);
                            assert(chunk@ =~= rest);
                        } else {
                            assert(chunks_of(rest, chunk_size_of(kind)) == seq![rest.take(
                                chunk_size as int,
                            )] + chunks_of(rest.skip(chunk_size as int), chunk_size_of(kind)));
                            assert(cs[k] == rest.take(chunk_size as int));
                            assert(chunk@ =~= rest.take(chunk_size as int));
                            assert(rest.skip(chunk_size as int) =~= (
                            inputs@[inp as int]).1@.skip(end as int));
                            assert(cs =~= cs.take(k + 1) + chunks_of(
                                (inputs@[inp as int]).1@.skip(end as int),
                                chunk_size_of(kind),
                            )) by {
                                assert(cs.take(k + 1) =~= cs.take(k).push(cs[k]));
                            }
                        }
                    }
                }
                let pkey = make_chunk_payload_key(at_level, id);
                let tkey = make_chunk_type_key(at_level, id);
                let nkey = make_chunk_n_key(at_level, id);
                self.store.set_value::<Vec<u8>>(pkey.as_slice(), chunk);
                self.store.set_value::<rollup_core::Input>(tkey.as_slice(), kind);
                self.store.set_value::<i32>(nkey.as_slice(), first_id);
                proof {
                    let done = prev + this_part.take(k + 1);
                    assert(done.drop_last() =~= prev + this_part.take(k));
                    assert(done.last() == (kind, cs[k], prev.len() as int));
                    assert(done.len() - 1 == id as int);
                    assert(self.store@ == apply_chunks(m0, l, done));
                }
                id = id + 1;
                proof {
                    k = k + 1;
                }
                off = end;
            }
            proof {
                assert(this_part.take(k) =~= this_part);
                assert(self.store@ == apply_chunks(m0, l, input_chunks(inputs@.take(inp + 1))));
            }
            inp = inp + 1;
        }
        proof {
            assert(inputs@.take(n as int) =~= inputs@);
        }
        let size_key = make_level_size_key(at_level);
        self.store.set_value::<i32>(size_key.as_slice(), id);
        proof {
            lemma_input_dyn_not_fixed(l, seq![47u8, 115u8, 105u8, 122u8, 101u8]);
            lemma_apply_chunks_fixed(m0, l, all, input_level_key());
            lemma_apply_chunks_fixed(m0, l, all, input_id_key());
            lemma_apply_chunks_fixed(m0, l, all, input_consuming_key());
            lemma_apply_chunks_fixed(m0, l, all, checkpoints_key());
            lemma_apply_chunks_fixed(m0, l, all, output_id_key());
            lemma_apply_chunks_fixed(m0, l, all, reboot_key());
            assert(is_fixed_key(input_level_key()));
            assert(is_fixed_key(input_id_key()));
            assert(is_fixed_key(input_consuming_key()));
            assert(is_fixed_key(checkpoints_key()));
            assert(is_fixed_key(output_id_key()));
            assert(is_fixed_key(reboot_key()));
            assert forall|i: int, j: int|
                0 <= i < j < self.input_levels().len() implies #[trigger] self.input_levels()[i]
                < #[trigger] self.input_levels()[j] by {
                assert(old(self).input_levels()[i] < old(self).input_levels()[j]);
            }
        }
    }
}

/// Splitting a payload into chunks loses nothing: the chunks are non-empty,
/// each is at most `c` long, and concatenated in order they reproduce the
/// payload.
pub proof fn lemma_chunks_reassemble(p: Seq<u8>, c: nat)
    requires
        c >= 1,
        p.len() >= 1,
    ensures
        chunks_of(p, c).len() >= 1,
        forall|k: int|
            0 <= k < chunks_of(p, c).len() ==> 1 <= (#[trigger] chunks_of(p, c)[k]).len() <= c,
        chunks_of(p, c).flatten() == p,
        (chunks_of(p, c).len() - 1) * c < p.len() <= chunks_of(p, c).len() * c,
    decreases p.len(),
{
    let cs = chunks_of(p, c);
    if p.len() <= c {
        assert(cs =~= seq![p]);
        assert(cs.flatten() =~= p) by {
            assert(cs.flatten() == p + cs.drop_first().flatten());
            assert(cs.drop_first() =~= Seq::<Seq<u8>>::empty());
            assert(Seq::<Seq<u8>>::empty().flatten() =~= Seq::<u8>::empty());
            assert(p + Seq::<u8>::empty() =~= p);
        }
        assert((cs.len() - 1) * c == 0) by (nonlinear_arith)
            requires
                cs.len() == 1,
        ;
    } else {
        lemma_chunks_reassemble(p.skip(c as int), c);
        let rest = chunks_of(p.skip(c as int), c);
        assert(cs == seq![p.take(c as int)] + rest);
        assert(cs.drop_first() =~= rest);
        assert(cs.flatten() == p.take(c as int) + rest.flatten());
        assert(p.take(c as int) + p.skip(c as int) =~= p);
        assert forall|k: int| 0 <= k < cs.len() implies 1 <= (#[trigger] cs[k]).len() <= c by {
            if k > 0 {
                assert(cs[k] == rest[k - 1]);
            }
        }
        assert((cs.len() - 1) * c < p.len() <= cs.len() * c) by (nonlinear_arith)
            requires
                cs.len() == rest.len() + 1,
                (rest.len() - 1) * c < p.len() - c <= rest.len() * c,
                p.len() > c,
        ;
    }
}

// ------------------------------------------------------------------
// Lexicographic order on byte sequences
// ------------------------------------------------------------------

/// Byte-wise lexicographic order.
pub open spec fn lex_le(a: Seq<u8>, b: Seq<u8>) -> bool
    decreases a.len(),
{
    if a.len() == 0 {
        true
    } else if b.len() == 0 {
        false
    } else if a[0] < b[0] {
        true
    } else if a[0] > b[0] {
        false
    } else {
        lex_le(a.skip(1), b.skip(1))
    }
}

/// Lexicographic order is total.
pub proof fn lemma_lex_total(a: Seq<u8>, b: Seq<u8>)
    ensures
        lex_le(a, b) || lex_le(b, a),
    decreases a.len(),
{
    if a.len() > 0 && b.len() > 0 && a[0] == b[0] {
        lemma_lex_total(a.skip(1), b.skip(1));
    }
}

/// Lexicographic order is antisymmetric.
pub proof fn lemma_lex_antisym(a: Seq<u8>, b: Seq<u8>)
    requires
        lex_le(a, b),
        lex_le(b, a),
    ensures
        a == b,
    decreases a.len(),
{
    if a.len() == 0 {
        assert(b.len() == 0);
        assert(a =~= b);
    } else {
        assert(a[0] == b[0]);
        lemma_lex_antisym(a.skip(1), b.skip(1));
        assert(a =~= seq![a[0]] + a.skip(1));
        assert(b =~= seq![b[0]] + b.skip(1));
    }
}

/// Lexicographic order is transitive.
pub proof fn lemma_lex_trans(a: Seq<u8>, b: Seq<u8>, c: Seq<u8>)
    requires
        lex_le(a, b),
        lex_le(b, c),
    ensures
        lex_le(a, c),
    decreases a.len(),
{
    if a.len() > 0 && b.len() > 0 && c.len() > 0 && a[0] == b[0] && b[0] == c[0] {
        lemma_lex_trans(a.skip(1), b.skip(1), c.skip(1));
    }
}

/// Compares two byte slices lexicographically.
pub fn lex_le_bytes(a: &[u8], b: &[u8]) -> (r: bool)
    ensures
        r == lex_le(a@, b@),
{
    let an = a.len();
    let bn = b.len();
    let m = if an < bn {
        an
    } else {
        bn
    };
    proof {
        assert(a@.skip(0) =~= a@);
        assert(b@.skip(0) =~= b@);
    }
    let mut i: usize = 0;
    while i < m
        invariant
            0 <= i <= m,
            an == a@.len(),
            bn == b@.len(),
            m == vstd::math::min(an as int, bn as int),
            lex_le(a@, b@) == lex_le(a@.skip(i as int), b@.skip(i as int)),
            forall|j: int| 0 <= j < i ==> a@[j] == b@[j],
        decreases m - i,
    {
        let ghost sa = a@.skip(i as int);
        let ghost sb = b@.skip(i as int);
        if a[i] < b[i] {
            proof {
                assert(sa[0] == a@[i as int] && sb[0] == b@[i as int]);
            }
            return true;
        }
        if a[i] > b[i] {
            proof {
                assert(sa[0] == a@[i as int] && sb[0] == b@[i as int]);
            }
            return false;
        }
        proof {
            assert(sa[0] == a@[i as int] && sb[0] == b@[i as int]);
            assert(sa.skip(1) =~= a@.skip(i + 1));
            assert(sb.skip(1) =~= b@.skip(i + 1));
        }
        i = i + 1;
    }
    proof {
        if an <= bn {
            assert(a@.skip(i as int).len() == 0);
        } else {
            assert(b@.skip(i as int).len() == 0);
            assert(a@.skip(i as int).len() > 0);
        }
    }
    an <= bn
}

/// A strictly sorted listing of exactly the elements of `set`.
pub open spec fn is_sorted_enumeration(s: Seq<Seq<u8>>, set: Set<Seq<u8>>) -> bool {
    &&& set.finite()
    &&& s.len() == set.len()
    &&& (forall|i: int| 0 <= i < s.len() ==> set.contains(#[trigger] s[i]))
    &&& (forall|i: int, j: int|
        0 <= i < j < s.len() ==> lex_le(#[trigger] s[i], #[trigger] s[j]) && s[i] != s[j])
}

/// Finds the first position of `r` whose element is not below `x`.
fn find_insert_pos(r: &Vec<Vec<u8>>, x: &[u8]) -> (pos: usize)
    ensures
        0 <= pos <= r@.len(),
        forall|p: int| 0 <= p < pos ==> !lex_le(x@, (#[trigger] r@[p])@),
        pos < r@.len() ==> lex_le(x@, (r@[pos as int])@),
{
    let n = r.len();
    let mut pos: usize = 0;
    while pos < n
        invariant
            0 <= pos <= n,
            n == r@.len(),
            forall|p: int| 0 <= p < pos ==> !lex_le(x@, (#[trigger] r@[p])@),
        decreases n - pos,
    {
        if lex_le_bytes(x, r[pos].as_slice()) {
            return pos;
        }
        pos = pos + 1;
    }
    pos
}

/// Every element of `a` is, by view, one of the first `i` elements of `b`.
pub open spec fn views_among(a: Seq<Vec<u8>>, i: int, b: Seq<Vec<u8>>) -> bool {
    forall|p: int| 0 <= p < a.len() ==> exists|j: int|
        0 <= j < i && ((#[trigger] a[p])@ == (#[trigger] b[j])@)
}

/// Inserting an element at its found position keeps the list a sorted
/// listing of the elements seen so far.
#[verifier::rlimit(100)]
#[verifier::spinoff_prover]
proof fn lemma_sorted_insert(
    input: Seq<Vec<u8>>,
    i: int,
    r0: Seq<Vec<u8>>,
    r1: Seq<Vec<u8>>,
    x: Vec<u8>,
    pos: int,
)
    requires
        0 <= i < input.len(),
        x@ == (input[i])@,
        forall|a: int, b: int| 0 <= a < b < input.len() ==> (#[trigger] input[a])@ != (
        #[trigger] input[b])@,
        0 <= pos <= r0.len(),
        r1 == r0.insert(pos, x),
        forall|p: int| 0 <= p < pos ==> !lex_le(x@, (#[trigger] r0[p])@),
        pos < r0.len() ==> lex_le(x@, (r0[pos])@),
        views_among(r0, i, input),
        forall|p: int, q: int|
            0 <= p < q < r0.len() ==> lex_le((#[trigger] r0[p])@, (#[trigger] r0[q])@) && (
            r0[p])@ != (r0[q])@,
    ensures
        r1.len() == r0.len() + 1,
        views_among(r1, i + 1, input),
        forall|p: int, q: int|
            0 <= p < q < r1.len() ==> lex_le((#[trigger] r1[p])@, (#[trigger] r1[q])@) && (
            r1[p])@ != (r1[q])@,
{
    let xv = x@;
    assert forall|p: int| 0 <= p < r1.len() implies (#[trigger] r1[p])@ == (if p < pos {
        (r0[p])@
    } else if p == pos {
        xv
    } else {
        (r0[p - 1])@
    }) by {}
    assert forall|p: int| 0 <= p < r0.len() implies (#[trigger] r0[p])@ != xv by {
        assert(views_among(r0, i, input));
        let j = choose|j: int| 0 <= j < i && ((#[trigger] r0[p])@ == (#[trigger] input[j])@);
        assert((input[j])@ != (input[i])@);
    }
    assert forall|p: int| 0 <= p < pos implies lex_le((#[trigger] r0[p])@, xv) by {
        lemma_lex_total((r0[p])@, xv);
    }
    assert forall|p: int, q: int|
        0 <= p < q < r1.len() implies lex_le((#[trigger] r1[p])@, (#[trigger] r1[q])@) && (
        r1[p])@ != (r1[q])@ by {
        if q == pos {
            assert(lex_le((r0[p])@, xv) && (r0[p])@ != xv);
        } else if p == pos {
            let qq = q - 1;
            assert(pos < r0.len());
            assert(lex_le(xv, (r0[pos])@));
            if qq > pos {
                assert(lex_le((r0[pos])@, (r0[qq])@));
                lemma_lex_trans(xv, (r0[pos])@, (r0[qq])@);
            }
            assert((r0[qq])@ != xv);
        } else if p < pos && q > pos {
            assert(lex_le((r0[p])@, (r0[q - 1])@) && (r0[p])@ != (r0[q - 1])@);
        } else if p > pos {
            assert(lex_le((r0[p - 1])@, (r0[q - 1])@) && (r0[p - 1])@ != (r0[q - 1])@);
        }
    }
    assert forall|p: int| 0 <= p < r1.len() implies exists|j: int|
        0 <= j < i + 1 && ((#[trigger] r1[p])@ == (#[trigger] input[j])@) by {
        if p == pos {
            assert((r1[p])@ == (input[i])@);
        } else if p < pos {
            let j = choose|j: int| 0 <= j < i && ((#[trigger] r0[p])@ == (#[trigger] input[j])@);
            assert((r1[p])@ == (input[j])@);
        } else {
            let j = choose|j: int|
                0 <= j < i && ((#[trigger] r0[p - 1])@ == (#[trigger] input[j])@);
            assert((r1[p])@ == (input[j])@);
        }
    }
}

/// Sorts a duplicate-free list of byte vectors lexicographically.
fn sort_byte_vecs(input: Vec<Vec<u8>>) -> (r: Vec<Vec<u8>>)
    requires
        forall|i: int, j: int| 0 <= i < j < input@.len() ==> (#[trigger] input@[i])@ != (
        #[trigger] input@[j])@,
    ensures
        r@.len() == input@.len(),
        views_among(r@, input@.len() as int, input@),
        forall|i: int, j: int|
            0 <= i < j < r@.len() ==> lex_le((#[trigger] r@[i])@, (#[trigger] r@[j])@) && (
            r@[i])@ != (r@[j])@,
{
    let n = input.len();
    let mut r: Vec<Vec<u8>> = Vec::new();
    let mut i: usize = 0;
    while i < n
        invariant
            0 <= i <= n,
            n == input@.len(),
            forall|a: int, b: int| 0 <= a < b < input@.len() ==> (#[trigger] input@[a])@ != (
            #[trigger] input@[b])@,
            r@.len() == i,
            views_among(r@, i as int, input@),
            forall|p: int, q: int|
                0 <= p < q < r@.len() ==> lex_le((#[trigger] r@[p])@, (#[trigger] r@[q])@) && (
                r@[p])@ != (r@[q])@,
        decreases n - i,
    {
        let x = vstd::slice::slice_to_vec(input[i].as_slice());
        let ghost r0 = r@;
        let pos = find_insert_pos(&r, x.as_slice());
        proof {
            lemma_sorted_insert(input@, i as int, r@, r@.insert(pos as int, x), x, pos as int);
        }
        r.insert(pos, x);
        proof {
            assert(r@ == r0.insert(pos as int, x));
        }
        i = i + 1;
    }
    r
}

impl HostState {
    /// Returns the subkey of `prefix` at `index`, in the ascending
    /// lexicographic enumeration of the suffixes of the keys that have the
    /// prefixed path as a strict ancestor.  An index outside the
    /// enumeration is kernel misuse, excluded here.
    pub fn handle_store_list_get(&self, prefix: &[u8], index: i64) -> (r: Vec<u8>)
        requires
            self.wf(),
            is_valid_path(prefix@),
            strict_subkey_set(self.store@, durable_key(prefix@)).finite() ==> 0 <= index
                < strict_subkey_set(self.store@, durable_key(prefix@)).len(),
        ensures
            exists|sorted: Seq<Seq<u8>>|
                #[trigger] is_sorted_enumeration(
                    sorted,
                    strict_subkey_set(self.store@, durable_key(prefix@)),
                ) && r@ == sorted[index as int],
    {
        let subs = self.strict_subkeys_of(prefix);
        proof {
            lemma_subkey_list_cardinality(
                subs@,
                strict_subkey_set(self.store@, durable_key(prefix@)),
            );
        }
        let sorted = sort_byte_vecs(subs);
        let ghost set0 = strict_subkey_set(self.store@, durable_key(prefix@));
        let ghost views = sorted@.map_values(|v: Vec<u8>| v@);
        proof {
            assert(views.len() == sorted@.len());
            assert forall|p: int| 0 <= p < views.len() implies set0.contains(
                #[trigger] views[p],
            ) by {
                assert(views[p] == (sorted@[p])@);
                let j = choose|j: int|
                    0 <= j < subs@.len() && (((sorted@[p])@ == (#[trigger] subs@[j])@));
                assert(set0.contains((subs@[j])@));
            }
            assert forall|p: int, q: int| 0 <= p < q < views.len() implies lex_le(
                #[trigger] views[p],
                #[trigger] views[q],
            ) && views[p] != views[q] by {
                assert(views[p] == (sorted@[p])@ && views[q] == (sorted@[q])@);
            }
            assert(is_sorted_enumeration(views, set0));
            assert((sorted@[index as int])@ == views[index as int]);
        }
        let out = vstd::slice::slice_to_vec(sorted[index as usize].as_slice());
        out
    }
}

// ------------------------------------------------------------------
// Moving and copying subtrees
// ------------------------------------------------------------------

/// The subtree of `m` rooted at `f`, re-rooted at `t`: for every subkey
/// suffix `s` of `f`, the key `t + s` maps to the value at `f + s`.
pub open spec fn subtree_map(m: Map<Seq<u8>, Seq<u8>>, f: Seq<u8>, t: Seq<u8>) -> Map<
    Seq<u8>,
    Seq<u8>,
> {
    Map::new(
        |k: Seq<u8>| exists|s: Seq<u8>| #[trigger] subkey_set(m, f).contains(s) && k == t + s,
        |k: Seq<u8>| m[f + k.skip(t.len() as int)],
    )
}

/// The outcome of copying the subtree at `f` over the subtree at `t`: the
/// destination subtree is replaced by the source subtree, and everything
/// else stays.
pub open spec fn copy_result(m: Map<Seq<u8>, Seq<u8>>, f: Seq<u8>, t: Seq<u8>) -> Map<
    Seq<u8>,
    Seq<u8>,
> {
    remove_subtree(m, t).union_prefer_right(subtree_map(m, f, t))
}

/// The outcome of moving the subtree at `f` over the subtree at `t`: as a
/// copy, with the source subtree also removed.
pub open spec fn move_result(m: Map<Seq<u8>, Seq<u8>>, f: Seq<u8>, t: Seq<u8>) -> Map<
    Seq<u8>,
    Seq<u8>,
> {
    remove_subtree(remove_subtree(m, f), t).union_prefer_right(subtree_map(m, f, t))
}

/// Concatenates two byte slices into a fresh vector.
fn concat_bytes(a: &[u8], b: &[u8]) -> (r: Vec<u8>)
    ensures
        r@ == a@ + b@,
{
    let mut v = vstd::slice::slice_to_vec(a);
    append_bytes(&mut v, b);
    v
}

impl HostState {
    /// Collects, for every subkey suffix of `from_path`, the pair of the
    /// re-rooted destination key and the source value.
    fn collect_subtree_pairs(&self, subs: &Vec<Vec<u8>>, dfrom: &[u8], dto: &[u8]) -> (pairs: Vec<
        (Vec<u8>, Vec<u8>),
    >)
        requires
            self.wf(),
            forall|p: int|
                0 <= p < subs@.len() ==> subkey_set(self.store@, dfrom@).contains(
                    (#[trigger] subs@[p])@,
                ),
        ensures
            pairs@.len() == subs@.len(),
            forall|q: int|
                0 <= q < pairs@.len() ==> (#[trigger] pairs@[q]).0@ == dto@ + (subs@[q])@ && (
                pairs@[q]).1@ == self.store@[dfrom@ + (subs@[q])@],
    {
        let n = subs.len();
        let mut pairs: Vec<(Vec<u8>, Vec<u8>)> = Vec::new();
        let mut p: usize = 0;
        while p < n
            invariant
                0 <= p <= n,
                n == subs@.len(),
                self.wf(),
                forall|q: int|
                    0 <= q < subs@.len() ==> subkey_set(self.store@, dfrom@).contains(
                        (#[trigger] subs@[q])@,
                    ),
                pairs@.len() == p,
                forall|q: int|
                    0 <= q < p ==> (#[trigger] pairs@[q]).0@ == dto@ + (subs@[q])@ && (
                    pairs@[q]).1@ == self.store@[dfrom@ + (subs@[q])@],
            decreases n - p,
        {
            let src = concat_bytes(dfrom, subs[p].as_slice());
            proof {
                assert(subkey_set(self.store@, dfrom@).contains((subs@[p as int])@));
                assert(self.store@.dom().contains(dfrom@ + (subs@[p as int])@));
            }
            let value = self.store.get_value::<Vec<u8>>(src.as_slice());
            let dst = concat_bytes(dto, subs[p].as_slice());
            pairs.push((dst, value));
            p = p + 1;
        }
        pairs
    }

    /// Installs the collected destination pairs into the store.
    fn install_subtree_pairs(&mut self, pairs: &Vec<(Vec<u8>, Vec<u8>)>)
        requires
            old(self).wf(),
            forall|q1: int, q2: int|
                0 <= q1 < q2 < pairs@.len() ==> (#[trigger] pairs@[q1]).0@ != (
                #[trigger] pairs@[q2]).0@,
            forall|q: int| 0 <= q < pairs@.len() ==> !is_fixed_key((#[trigger] pairs@[q]).0@),
        ensures
            final(self).wf(),
            final(self).store.preimages() == old(self).store.preimages(),
            final(self).input_levels() == old(self).input_levels(),
            forall|q: int|
                0 <= q < pairs@.len() ==> final(self).store@.contains_key(
                    (#[trigger] pairs@[q]).0@,
                ) && final(self).store@[(pairs@[q]).0@] == (pairs@[q]).1@,
            forall|k: Seq<u8>|
                #[trigger] final(self).store@.contains_key(k) <==> (old(self).store@.contains_key(k) || exists|q: int|
                    0 <= q < pairs@.len() && (#[trigger] pairs@[q]).0@ == k),
            forall|k: Seq<u8>|
                final(self).store@.contains_key(k) && (forall|q: int|
                    0 <= q < pairs@.len() ==> (#[trigger] pairs@[q]).0@ != k)
                    ==> #[trigger] final(self).store@[k] == old(self).store@[k],
    {
        let n = pairs.len();
        let mut q: usize = 0;
        while q < n
            invariant
                0 <= q <= n,
                n == pairs@.len(),
                self.store.wf(),
                self.store.preimages() == old(self).store.preimages(),
                self.input_levels@ == old(self).input_levels@,
                forall|q1: int, q2: int|
                    0 <= q1 < q2 < pairs@.len() ==> (#[trigger] pairs@[q1]).0@ != (
                    #[trigger] pairs@[q2]).0@,
                forall|q2: int|
                    0 <= q2 < q ==> self.store@.contains_key((#[trigger] pairs@[q2]).0@)
                        && self.store@[(pairs@[q2]).0@] == (pairs@[q2]).1@,
                forall|k: Seq<u8>|
                    #[trigger] self.store@.contains_key(k) <==> (old(self).store@.contains_key(k)
                        || exists|q2: int| 0 <= q2 < q && (#[trigger] pairs@[q2]).0@ == k),
                forall|k: Seq<u8>|
                    self.store@.contains_key(k) && (forall|q2: int|
                        0 <= q2 < q ==> (#[trigger] pairs@[q2]).0@ != k)
                        ==> #[trigger] self.store@[k] == old(self).store@[k],
                old(self).wf(),
            decreases n - q,
        {
            let value = vstd::slice::slice_to_vec(pairs[q].1.as_slice());
            self.store.set_value::<Vec<u8>>(pairs[q].0.as_slice(), value);
            q = q + 1;
        }
        proof {
            assert forall|i: int, j: int|
                0 <= i < j < self.input_levels().len() implies #[trigger] self.input_levels()[i]
                < #[trigger] self.input_levels()[j] by {
                assert(old(self).input_levels()[i] < old(self).input_levels()[j]);
            }
            assert(is_fixed_key(input_level_key()));
            assert(is_fixed_key(input_id_key()));
            assert(is_fixed_key(input_consuming_key()));
            assert(is_fixed_key(checkpoints_key()));
            assert(is_fixed_key(output_id_key()));
            assert(is_fixed_key(reboot_key()));
        }
    }

    /// Copies the whole durable subtree at the prefixed `from_path` over the
    /// prefixed `to_path`, overwriting anything previously there.
    ///
    /// The copy is computed as a single atomic snapshot-then-apply: every
    /// source pair is collected first, the destination subtree is deleted,
    /// and the collected pairs are installed at their translated keys, so
    /// that overlapping source and destination prefixes behave correctly.
    pub fn handle_store_copy(&mut self, from_path: &[u8], to_path: &[u8])
        requires
            old(self).wf(),
            is_valid_path(from_path@),
            is_valid_path(to_path@),
        ensures
            final(self).wf(),
            final(self).store.preimages() == old(self).store.preimages(),
            final(self).input_levels() == old(self).input_levels(),
            final(self).store@ == copy_result(
                old(self).store@,
                durable_key(from_path@),
                durable_key(to_path@),
            ),
    {
        let ghost m0 = self.store@;
        let ghost df = durable_key(from_path@);
        let ghost dt = durable_key(to_path@);
        let subs = self.subkeys_of(from_path);
        let dfrom = with_durable(from_path);
        let dto = with_durable(to_path);
        let pairs = self.collect_subtree_pairs(&subs, dfrom.as_slice(), dto.as_slice());
        proof {
            lemma_pairs_distinct(pairs@, subs@, dt);
            assert forall|q: int|
                0 <= q < pairs@.len() implies !is_fixed_key((#[trigger] pairs@[q]).0@) by {
                lemma_durable_key_apart(to_path@ + (subs@[q])@);
                assert((pairs@[q]).0@ =~= durable_key(to_path@ + (subs@[q])@));
            }
        }
        self.handle_store_delete(to_path);
        self.install_subtree_pairs(&pairs);
        proof {
            lemma_apply_pairs(m0, df, dt, subs@, pairs@, remove_subtree(m0, dt), self.store@);
        }
    }

    /// Moves the whole durable subtree at the prefixed `from_path` over the
    /// prefixed `to_path`, overwriting anything previously there and
    /// removing the source.
    ///
    /// As with [`HostState::handle_store_copy`], the move is a snapshot of
    /// every source pair, a deletion of the source and destination subtrees,
    /// and an installation of the collected pairs, so that overlapping
    /// source and destination prefixes behave correctly.
    pub fn handle_store_move(&mut self, from_path: &[u8], to_path: &[u8])
        requires
            old(self).wf(),
            is_valid_path(from_path@),
            is_valid_path(to_path@),
        ensures
            final(self).wf(),
            final(self).store.preimages() == old(self).store.preimages(),
            final(self).input_levels() == old(self).input_levels(),
            final(self).store@ == move_result(
                old(self).store@,
                durable_key(from_path@),
                durable_key(to_path@),
            ),
    {
        let ghost m0 = self.store@;
        let ghost df = durable_key(from_path@);
        let ghost dt = durable_key(to_path@);
        let subs = self.subkeys_of(from_path);
        let dfrom = with_durable(from_path);
        let dto = with_durable(to_path);
        let pairs = self.collect_subtree_pairs(&subs, dfrom.as_slice(), dto.as_slice());
        proof {
            lemma_pairs_distinct(pairs@, subs@, dt);
            assert forall|q: int|
                0 <= q < pairs@.len() implies !is_fixed_key((#[trigger] pairs@[q]).0@) by {
                lemma_durable_key_apart(to_path@ + (subs@[q])@);
                assert((pairs@[q]).0@ =~= durable_key(to_path@ + (subs@[q])@));
            }
        }
        self.handle_store_delete(from_path);
        proof {
            assert(self.store@ == remove_subtree(m0, df));
        }
        self.handle_store_delete(to_path);
        proof {
            assert(self.store@ == remove_subtree(remove_subtree(m0, df), dt));
        }
        self.install_subtree_pairs(&pairs);
        proof {
            lemma_apply_pairs(
                m0,
                df,
                dt,
                subs@,
                pairs@,
                remove_subtree(remove_subtree(m0, df), dt),
                self.store@,
            );
        }
    }
}

/// Destination keys of distinct suffixes are distinct.
proof fn lemma_pairs_distinct(pairs: Seq<(Vec<u8>, Vec<u8>)>, subs: Seq<Vec<u8>>, dt: Seq<u8>)
    requires
        pairs.len() == subs.len(),
        forall|q: int| 0 <= q < pairs.len() ==> (#[trigger] pairs[q]).0@ == dt + (subs[q])@,
        forall|p: int, q: int| 0 <= p < q < subs.len() ==> (#[trigger] subs[p])@ != (
        #[trigger] subs[q])@,
    ensures
        forall|q1: int, q2: int| 0 <= q1 < q2 < pairs.len() ==> (#[trigger] pairs[q1]).0@ != (
        #[trigger] pairs[q2]).0@,
{
    assert forall|q1: int, q2: int| 0 <= q1 < q2 < pairs.len() implies (#[trigger] pairs[q1]).0@
        != (#[trigger] pairs[q2]).0@ by {
        if (pairs[q1]).0@ == (pairs[q2]).0@ {
            assert((dt + (subs[q1])@).skip(dt.len() as int) =~= (subs[q1])@);
            assert((dt + (subs[q2])@).skip(dt.len() as int) =~= (subs[q2])@);
        }
    }
}

/// Installing the collected pairs over the cleared base yields the expected
/// union of the base and the re-rooted subtree.
proof fn lemma_apply_pairs(
    m0: Map<Seq<u8>, Seq<u8>>,
    df: Seq<u8>,
    dt: Seq<u8>,
    subs: Seq<Vec<u8>>,
    pairs: Seq<(Vec<u8>, Vec<u8>)>,
    base: Map<Seq<u8>, Seq<u8>>,
    post: Map<Seq<u8>, Seq<u8>>,
)
    requires
        pairs.len() == subs.len(),
        forall|p: int| 0 <= p < subs.len() ==> subkey_set(m0, df).contains((#[trigger] subs[p])@),
        forall|t: Seq<u8>|
            subkey_set(m0, df).contains(t) ==> exists|p: int|
                0 <= p < subs.len() && (#[trigger] subs[p])@ == t,
        forall|q: int|
            0 <= q < pairs.len() ==> (#[trigger] pairs[q]).0@ == dt + (subs[q])@ && (
            pairs[q]).1@ == m0[df + (subs[q])@],
        forall|q: int|
            0 <= q < pairs.len() ==> post.contains_key((#[trigger] pairs[q]).0@)
                && post[(pairs[q]).0@] == (pairs[q]).1@,
        forall|k: Seq<u8>|
            #[trigger] post.contains_key(k) <==> (base.dom().contains(k) || exists|q: int|
                0 <= q < pairs.len() && (#[trigger] pairs[q]).0@ == k),
        forall|k: Seq<u8>|
            post.contains_key(k) && (forall|q: int|
                0 <= q < pairs.len() ==> (#[trigger] pairs[q]).0@ != k) ==> #[trigger] post[k]
                == base[k],
    ensures
        post == base.union_prefer_right(subtree_map(m0, df, dt)),
{
    let sm = subtree_map(m0, df, dt);
    assert forall|k: Seq<u8>| #[trigger] sm.dom().contains(k) implies exists|q: int|
        0 <= q < pairs.len() && (#[trigger] pairs[q]).0@ == k by {
        let suf = choose|suf: Seq<u8>| #[trigger] subkey_set(m0, df).contains(suf) && k == dt
            + suf;
        let p = choose|p: int| 0 <= p < subs.len() && (#[trigger] subs[p])@ == suf;
        assert((pairs[p]).0@ == k);
    }
    assert forall|q: int| 0 <= q < pairs.len() implies sm.dom().contains(
        (#[trigger] pairs[q]).0@,
    ) by {
        assert(subkey_set(m0, df).contains((subs[q])@) && (pairs[q]).0@ == dt + (subs[q])@);
    }
    assert forall|q: int| 0 <= q < pairs.len() implies sm[(#[trigger] pairs[q]).0@] == (
    pairs[q]).1@ by {
        let suf = (subs[q])@;
        assert(suf.len() == 0 || suf[0] == 47);
        lemma_suffix_subtree_member(dt, suf);
        assert((dt + suf).skip(dt.len() as int) == suf);
        assert(sm[(pairs[q]).0@] == m0[df + suf]);
    }
    assert(post =~= base.union_prefer_right(sm));
}

// ------------------------------------------------------------------
// Reserved key builders
// ------------------------------------------------------------------

/// Builds `/input/level`.
pub fn make_input_level_key() -> (r: Vec<u8>)
    ensures
        r@ == input_level_key(),
{
    let mut v: Vec<u8> = Vec::new();
    v.push(47);
    v.push(105);
    v.push(110);
    v.push(112);
    v.push(117);
    v.push(116);
    v.push(47);
    v.push(108);
    v.push(101);
    v.push(118);
    v.push(101);
    v.push(108);
    proof {
        assert(v@ =~= input_level_key());
    }
    v
}

/// Builds `/input/id`.
pub fn make_input_id_key() -> (r: Vec<u8>)
    ensures
        r@ == input_id_key(),
{
    let mut v: Vec<u8> = Vec::new();
    v.push(47);
    v.push(105);
    v.push(110);
    v.push(112);
    v.push(117);
    v.push(116);
    v.push(47);
    v.push(105);
    v.push(100);
    proof {
        assert(v@ =~= input_id_key());
    }
    v
}

/// Builds `/input/consuming`.
pub fn make_input_consuming_key() -> (r: Vec<u8>)
    ensures
        r@ == input_consuming_key(),
{
    let mut v: Vec<u8> = Vec::new();
    v.push(47);
    v.push(105);
    v.push(110);
    v.push(112);
    v.push(117);
    v.push(116);
    v.push(47);
    v.push(99);
    v.push(111);
    v.push(110);
    v.push(115);
    v.push(117);
    v.push(109);
    v.push(105);
    v.push(110);
    v.push(103);
    proof {
        assert(v@ =~= input_consuming_key());
    }
    v
}

/// Builds `/checkpoints`.
pub fn make_checkpoints_key() -> (r: Vec<u8>)
    ensures
        r@ == checkpoints_key(),
{
    let mut v: Vec<u8> = Vec::new();
    v.push(47);
    v.push(99);
    v.push(104);
    v.push(101);
    v.push(99);
    v.push(107);
    v.push(112);
    v.push(111);
    v.push(105);
    v.push(110);
    v.push(116);
    v.push(115);
    proof {
        assert(v@ =~= checkpoints_key());
    }
    v
}

/// Builds `/output/id`.
pub fn make_output_id_key() -> (r: Vec<u8>)
    ensures
        r@ == output_id_key(),
{
    let mut v: Vec<u8> = Vec::new();
    v.push(47);
    v.push(111);
    v.push(117);
    v.push(116);
    v.push(112);
    v.push(117);
    v.push(116);
    v.push(47);
    v.push(105);
    v.push(100);
    proof {
        assert(v@ =~= output_id_key());
    }
    v
}

/// Builds `/reboot`.
pub fn make_reboot_key() -> (r: Vec<u8>)
    ensures
        r@ == reboot_key(),
{
    let mut v: Vec<u8> = Vec::new();
    v.push(47);
    v.push(114);
    v.push(101);
    v.push(98);
    v.push(111);
    v.push(111);
    v.push(116);
    proof {
        assert(v@ =~= reboot_key());
    }
    v
}

/// Appends all of `s` to `v`.
pub fn append_bytes(v: &mut Vec<u8>, s: &[u8])
    ensures
        final(v)@ == old(v)@ + s@,
{
    let n = s.len();
    let mut i: usize = 0;
    while i < n
        invariant
            0 <= i <= n,
            n == s@.len(),
            v@ == old(v)@ + s@.take(i as int),
        decreases n - i,
    {
        v.push(s[i]);
        proof {
            assert(old(v)@ + s@.take(i + 1) =~= (old(v)@ + s@.take(i as int)).push(s@[i as int]));
        }
        i = i + 1;
    }
    proof {
        assert(old(v)@ + s@.take(n as int) =~= old(v)@ + s@);
    }
}

/// Builds `/input/<level>/size`.
pub fn make_level_size_key(level: i32) -> (r: Vec<u8>)
    ensures
        r@ == level_size_key(level as int),
{
    let mut v: Vec<u8> = Vec::new();
    v.push(47);
    v.push(105);
    v.push(110);
    v.push(112);
    v.push(117);
    v.push(116);
    v.push(47);
    proof {
        assert(v@ =~= input_prefix());
    }
    let digits = i32_to_dec(level);
    append_bytes(&mut v, digits.as_slice());
    let mut tail: Vec<u8> = Vec::new();
    tail.push(47);
    tail.push(115);
    tail.push(105);
    tail.push(122);
    tail.push(101);
    proof {
        assert(tail@ =~= seq![47u8, 115u8, 105u8, 122u8, 101u8]);
    }
    append_bytes(&mut v, tail.as_slice());
    proof {
        assert(v@ =~= level_size_key(level as int));
    }
    v
}

/// Builds `/input/<level>/<id>` followed by `field`.
fn make_chunk_key(level: i32, id: i32, field: &[u8]) -> (r: Vec<u8>)
    ensures
        r@ == input_dyn_key(level as int, chunk_tail(id as int, field@)),
{
    let mut v: Vec<u8> = Vec::new();
    v.push(47);
    v.push(105);
    v.push(110);
    v.push(112);
    v.push(117);
    v.push(116);
    v.push(47);
    proof {
        assert(v@ =~= input_prefix());
    }
    let level_digits = i32_to_dec(level);
    append_bytes(&mut v, level_digits.as_slice());
    v.push(47);
    let id_digits = i32_to_dec(id);
    append_bytes(&mut v, id_digits.as_slice());
    append_bytes(&mut v, field);
    proof {
        assert(v@ =~= input_dyn_key(level as int, chunk_tail(id as int, field@)));
    }
    v
}

/// Builds `/input/<level>/<id>/payload`.
pub fn make_chunk_payload_key(level: i32, id: i32) -> (r: Vec<u8>)
    ensures
        r@ == chunk_payload_key(level as int, id as int),
{
    let mut field: Vec<u8> = Vec::new();
    field.push(47);
    field.push(112);
    field.push(97);
    field.push(121);
    field.push(108);
    field.push(111);
    field.push(97);
    field.push(100);
    proof {
        assert(field@ =~= seq![47u8, 112u8, 97u8, 121u8, 108u8, 111u8, 97u8, 100u8]);
    }
    make_chunk_key(level, id, field.as_slice())
}

/// Builds `/input/<level>/<id>/type`.
pub fn make_chunk_type_key(level: i32, id: i32) -> (r: Vec<u8>)
    ensures
        r@ == chunk_type_key(level as int, id as int),
{
    let mut field: Vec<u8> = Vec::new();
    field.push(47);
    field.push(116);
    field.push(121);
    field.push(112);
    field.push(101);
    proof {
        assert(field@ =~= seq![47u8, 116u8, 121u8, 112u8, 101u8]);
    }
    make_chunk_key(level, id, field.as_slice())
}

/// Builds `/input/<level>/<id>/n`.
pub fn make_chunk_n_key(level: i32, id: i32) -> (r: Vec<u8>)
    ensures
        r@ == chunk_n_key(level as int, id as int),
{
    let mut field: Vec<u8> = Vec::new();
    field.push(47);
    field.push(110);
    proof {
        assert(field@ =~= seq![47u8, 110u8]);
    }
    make_chunk_key(level, id, field.as_slice())
}

/// Builds `/output/<level>/<id>`.
pub fn make_output_key(level: i32, id: u32) -> (r: Vec<u8>)
    ensures
        r@ == output_key(level as int, id as int),
{
    let mut v: Vec<u8> = Vec::new();
    v.push(47);
    v.push(111);
    v.push(117);
    v.push(116);
    v.push(112);
    v.push(117);
    v.push(116);
    v.push(47);
    proof {
        assert(v@ =~= output_prefix());
    }
    let level_digits = i32_to_dec(level);
    append_bytes(&mut v, level_digits.as_slice());
    v.push(47);
    let id_digits = crate::codec::u64_to_dec(id as u64);
    append_bytes(&mut v, id_digits.as_slice());
    proof {
        assert(spec_dec_int(id as int) == crate::codec::spec_dec_nat(id as nat));
        assert(v@ =~= output_key(level as int, id as int));
    }
    v
}

} // verus!
