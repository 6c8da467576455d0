//! The in-memory host: a [`HostState`] together with an explicitly owned
//! debug log, offering the typed runtime operations that kernel code uses.

use crate::input::{Input, MessageData, SlotData};
use crate::path::{durable_key, is_valid_path, OwnedPath, Path, RefPath};
use crate::rollup_core;
use crate::runtime::{RuntimeError, ValueType};
use crate::state::{
    chunk_n_key, chunk_payload_key, chunk_type_key, decode_input_kind, input_id_key,
    is_sorted_enumeration, level_size_key, remove_subtree, strict_subkey_set, HostState, NextInput,
};
use crate::store::StoreValue;
use vstd::prelude::*;

verus! {

/// The simulated runtime host: host state plus a debug log owned by the
/// value itself rather than by the process.
#[derive(Debug)]
pub struct MockHost {
    /// The simulated host state.
    pub state: HostState,
    /// Debug messages written by the kernel, oldest first.
    pub debug_log: Vec<String>,
}

impl Default for MockHost {
    /// A fresh host with an empty debug log.
    fn default() -> (r: MockHost)
        ensures
            r.state.wf(),
            r.state.input_levels() == Seq::<i32>::empty(),
            r.state.current_level() == 0,
            r.state.input_id_v() == 0,
            r.state.checkpoints_v() == 0,
            r.state.output_id_v() == 0,
            !r.state.consuming_present(),
            !r.state.reboot_requested(),
            r.state.store.preimages() == Map::<Seq<u8>, Seq<u8>>::empty(),
            r.debug_log@ == Seq::<String>::empty(),
    {
        MockHost { state: HostState::default(), debug_log: Vec::new() }
    }
}

/// Runs an assertion over the current debug log of a host.
pub fn check_debug_log(host: &MockHost) -> (r: &Vec<String>)
    ensures
        r@ == host.debug_log@,
{
    &host.debug_log
}

/// Clears the debug log of a host.
pub fn reset_debug_log(host: &mut MockHost)
    ensures
        final(host).debug_log@ == Seq::<String>::empty(),
        final(host).state == old(host).state,
{
    host.debug_log.clear();
}

impl MockHost {
    /// Wraps an existing host state with an empty debug log.
    pub fn from(state: HostState) -> (r: MockHost)
        ensures
            r.state == state,
            r.debug_log@ == Seq::<String>::empty(),
    {
        MockHost { state, debug_log: Vec::new() }
    }

    /// Consumes the host and returns its inner [`HostState`].
    pub fn into_inner(self) -> (r: HostState)
        ensures
            r == self.state,
    {
        self.state
    }

    /// Returns the inner [`HostState`] for direct manipulation.
    pub fn as_mut(&mut self) -> (r: &mut HostState)
        ensures
            *r == old(self).state,
            final(self).state == *final(r),
            final(self).debug_log == old(self).debug_log,
    {
        &mut self.state
    }

    /// Appends a message to the debug log.
    pub fn write_debug(&mut self, msg: String)
        ensures
            final(self).debug_log@ == old(self).debug_log@.push(msg),
            final(self).state == old(self).state,
    {
        self.debug_log.push(msg);
    }

    /// Writes `output` to the output namespace; fails exactly when the
    /// bytes exceed the per-call output limit.
    pub fn write_output(&mut self, output: &[u8]) -> (r: Result<(), RuntimeError>)
        requires
            old(self).state.wf(),
            old(self).state.output_id_v() < u32::MAX,
        ensures
            final(self).state.wf(),
            r is Err <==> output@.len() > rollup_core::MAX_OUTPUT_SIZE,
            r matches Err(e) ==> e == RuntimeError::WriteTooLarge,
            output@.len() > rollup_core::MAX_OUTPUT_SIZE ==> (final(self).state.store@ == old(
                self,
            ).state.store@ && final(self).state.input_levels() == old(self).state.input_levels()),
    {
        let bytes = vstd::slice::slice_to_vec(output);
        match self.state.handle_write_output(bytes) {
            rollup_core::WriteResult::Accepted => Ok(()),
            rollup_core::WriteResult::TooLarge => Err(RuntimeError::WriteTooLarge),
        }
    }

    /// Reads up to `max_bytes` of the next input chunk, or `None` when the
    /// current level has no further input.
    ///
    /// A returned input carries the kind tag, level and first-chunk
    /// identifier recorded for the chunk, and the chunk's payload truncated
    /// to `max_bytes`; the per-level input identifier advances.  The read
    /// that finds the level exactly exhausted removes it from the queue of
    /// marked levels; any further read returns `None` without changes.
    pub fn read_input(&mut self, max_bytes: usize) -> (r: Option<Input>)
        requires
            old(self).state.wf(),
            old(self).state.level_inputs_wf(),
            old(self).state.input_id_v() < i32::MAX,
            (old(self).state.store@.contains_key(
                level_size_key(old(self).state.current_level() as int),
            ) && old(self).state.input_id_v() == old(self).state.level_size_v(
                old(self).state.current_level() as int,
            )) ==> (old(self).state.input_levels().len() > 0 && old(
                self,
            ).state.input_levels()[0] == old(self).state.current_level()),
        ensures
            final(self).state.wf(),
            final(self).debug_log == old(self).debug_log,
            ({
                let pre = old(self).state;
                let post = final(self).state;
                let l = pre.current_level() as int;
                let c = pre.input_id_v() as int;
                let has_size = pre.store@.contains_key(level_size_key(l));
                if has_size && pre.input_id_v() < pre.level_size_v(l) {
                    let chunk = pre.store@[chunk_payload_key(l, c)];
                    let expect_payload = if max_bytes <= chunk.len() {
                        chunk.subrange(0, max_bytes as int)
                    } else {
                        chunk
                    };
                    let expect_id = crate::codec::spec_u32_from_be_bytes(
                        pre.store@[chunk_n_key(l, c)],
                    ) as i32;
                    &&& (r matches Some(input) && match input {
                        Input::Message(m) => decode_input_kind(pre.store@[chunk_type_key(l, c)])
                            == rollup_core::Input::MessageData && m.level == pre.current_level()
                            && m.id == expect_id && m.payload@ == expect_payload,
                        Input::Slot(sl) => decode_input_kind(pre.store@[chunk_type_key(l, c)])
                            == rollup_core::Input::SlotDataChunk && sl.level == pre.current_level()
                            && sl.id == expect_id && sl.payload@ == expect_payload,
                    })
                    &&& post.store@ == pre.store@.insert(
                        input_id_key(),
                        ((pre.input_id_v() + 1) as i32).spec_encode(),
                    )
                    &&& post.input_levels() == pre.input_levels()
                    &&& post.input_id_v() == pre.input_id_v() + 1
                    &&& post.current_level() == pre.current_level()
                } else if has_size && pre.input_id_v() == pre.level_size_v(l) {
                    &&& r is None
                    &&& post.store@ == pre.store@.insert(
                        input_id_key(),
                        ((pre.input_id_v() + 1) as i32).spec_encode(),
                    )
                    &&& post.input_levels() == pre.input_levels().skip(1)
                    &&& post.input_id_v() == pre.input_id_v() + 1
                } else {
                    r is None && post == pre
                }
            }),
    {
        match self.state.handle_read_input(max_bytes) {
            Some(next) => {
                let NextInput { input_type, level, id, payload } = next;
                match input_type {
                    rollup_core::Input::MessageData => Some(
                        Input::Message(MessageData::new(level, id, payload)),
                    ),
                    rollup_core::Input::SlotDataChunk => Some(
                        Input::Slot(SlotData::new(level, id, payload)),
                    ),
                }
            },
            None => None,
        }
    }

    /// Classifies `path` in the durable store: `None` when absent, else
    /// whether it holds a value and/or is an ancestor of other keys.
    pub fn store_has<'a>(&self, path: &RefPath<'a>) -> (r: Option<ValueType>)
        requires
            self.state.wf(),
        ensures
            ({
                let dk = durable_key(path.path_bytes());
                let has_value = self.state.store@.contains_key(dk);
                let has_sub = exists|t: Seq<u8>| #[trigger] strict_subkey_set(
                    self.state.store@,
                    dk,
                ).contains(t);
                r == (if !has_value && !has_sub {
                    Option::<ValueType>::None
                } else if has_value && !has_sub {
                    Some(ValueType::Value)
                } else if !has_value && has_sub {
                    Some(ValueType::Subtree)
                } else {
                    Some(ValueType::ValueWithSubtree)
                })
            }),
    {
        let bytes = path.as_bytes();
        match self.state.handle_store_has(bytes) {
            rollup_core::ValueType::Missing => None,
            rollup_core::ValueType::Value => Some(ValueType::Value),
            rollup_core::ValueType::Subtree => Some(ValueType::Subtree),
            rollup_core::ValueType::ValueWithSubtree => Some(ValueType::ValueWithSubtree),
        }
    }

    /// Reads up to `max_bytes` (and at most one storage chunk) from the
    /// value at `path`, starting at `from_offset`; fails exactly when the
    /// path holds no value.
    pub fn store_read<'a>(&self, path: &RefPath<'a>, from_offset: usize, max_bytes: usize) -> (r:
        Result<Vec<u8>, RuntimeError>)
        requires
            self.state.wf(),
            self.state.store@.contains_key(durable_key(path.path_bytes())) ==> from_offset
                <= self.state.store@[durable_key(path.path_bytes())].len(),
        ensures
            r is Ok <==> self.state.store@.contains_key(durable_key(path.path_bytes())),
            r matches Ok(v) ==> ({
                let stored = self.state.store@[durable_key(path.path_bytes())];
                let n = vstd::math::min(
                    rollup_core::MAX_FILE_CHUNK_SIZE as int,
                    vstd::math::min(max_bytes as int, stored.len() - from_offset),
                );
                v@ == stored.subrange(from_offset as int, from_offset + n)
            }),
            r matches Err(e) ==> e == RuntimeError::PathNotFound,
    {
        let bytes = path.as_bytes();
        if !self.state.store.has_entry(crate::state::with_durable(bytes).as_slice()) {
            return Err(RuntimeError::PathNotFound);
        }
        Ok(self.state.handle_store_read(bytes, from_offset, max_bytes))
    }

    /// Writes `src` into the value at `path` starting at `at_offset`,
    /// creating the path when absent; fails exactly when the bytes exceed
    /// the per-call storage limit.
    pub fn store_write<'a>(&mut self, path: &RefPath<'a>, src: &[u8], at_offset: usize) -> (r:
        Result<(), RuntimeError>)
        requires
            old(self).state.wf(),
            at_offset <= (if old(self).state.store@.contains_key(durable_key(path.path_bytes())) {
                old(self).state.store@[durable_key(path.path_bytes())].len()
            } else {
                0
            }),
        ensures
            final(self).state.wf(),
            r is Err <==> src@.len() > rollup_core::MAX_FILE_CHUNK_SIZE,
            r matches Err(e) ==> e == RuntimeError::WriteTooLarge && final(self).state.store@
                == old(self).state.store@ && final(self).state.input_levels() == old(
                self,
            ).state.input_levels(),
            r is Ok ==> ({
                let dk = durable_key(path.path_bytes());
                let old_value = if old(self).state.store@.contains_key(dk) {
                    old(self).state.store@[dk]
                } else {
                    Seq::<u8>::empty()
                };
                final(self).state.store@ == old(self).state.store@.insert(
                    dk,
                    HostState::write_bytes(old_value, at_offset as int, src@),
                ) && final(self).state.input_levels() == old(self).state.input_levels()
            }),
    {
        let bytes = path.as_bytes();
        match self.state.handle_store_write(bytes, at_offset, src) {
            rollup_core::WriteResult::Accepted => Ok(()),
            rollup_core::WriteResult::TooLarge => Err(RuntimeError::WriteTooLarge),
        }
    }

    /// Deletes the value at `path` and its whole subtree; fails exactly
    /// when the path holds no value.
    pub fn store_delete<'a>(&mut self, path: &RefPath<'a>) -> (r: Result<(), RuntimeError>)
        requires
            old(self).state.wf(),
        ensures
            final(self).state.wf(),
            r is Ok <==> old(self).state.store@.contains_key(durable_key(path.path_bytes())),
            r matches Err(e) ==> e == RuntimeError::PathNotFound && final(self).state == old(
                self,
            ).state,
            r is Ok ==> final(self).state.store@ == remove_subtree(
                old(self).state.store@,
                durable_key(path.path_bytes()),
            ) && final(self).state.input_levels() == old(self).state.input_levels(),
    {
        let bytes = path.as_bytes();
        if !self.state.store.has_entry(crate::state::with_durable(bytes).as_slice()) {
            return Err(RuntimeError::PathNotFound);
        }
        self.state.handle_store_delete(bytes);
        Ok(())
    }

    /// Counts the subkeys under `prefix`: the stored keys that have the
    /// prefixed path as a strict ancestor.
    pub fn store_count_subkeys<'a>(&self, prefix: &RefPath<'a>) -> (r: Result<i64, RuntimeError>)
        requires
            self.state.wf(),
            strict_subkey_set(self.state.store@, durable_key(prefix.path_bytes())).finite()
                ==> strict_subkey_set(self.state.store@, durable_key(prefix.path_bytes())).len()
                <= i64::MAX,
        ensures
            r matches Ok(n) && n == strict_subkey_set(
                self.state.store@,
                durable_key(prefix.path_bytes()),
            ).len(),
    {
        let bytes = prefix.as_bytes();
        Ok(self.state.handle_store_list_size(bytes))
    }

    /// Returns the subkey of `prefix` at `index` in the ascending
    /// lexicographic enumeration of its strict-descendant suffixes, or an
    /// error for an index outside it.  Every such suffix must itself be a
    /// validly encoded path: a store whose keys break that is a host-side
    /// inconsistency.
    pub fn store_get_subkey<'a>(&self, prefix: &RefPath<'a>, index: i64) -> (r: Result<
        OwnedPath,
        RuntimeError,
    >)
        requires
            self.state.wf(),
            strict_subkey_set(self.state.store@, durable_key(prefix.path_bytes())).finite()
                ==> strict_subkey_set(self.state.store@, durable_key(prefix.path_bytes())).len()
                <= i64::MAX,
            forall|t: Seq<u8>|
                #[trigger] strict_subkey_set(
                    self.state.store@,
                    durable_key(prefix.path_bytes()),
                ).contains(t) ==> is_valid_path(t),
        ensures
            ({
                let set0 = strict_subkey_set(self.state.store@, durable_key(prefix.path_bytes()));
                if set0.finite() && 0 <= index < set0.len() {
                    r matches Ok(p) && exists|sorted: Seq<Seq<u8>>|
                        #[trigger] is_sorted_enumeration(sorted, set0) && p.path_bytes()
                            == sorted[index as int]
                } else {
                    r matches Err(e) && e == RuntimeError::StoreListIndexOutOfBounds
                }
            }),
    {
        let bytes = prefix.as_bytes();
        let size = self.state.handle_store_list_size(bytes);
        if 0 <= index && index < size {
            let suffix = self.state.handle_store_list_get(bytes, index);
            proof {
                let set0 = strict_subkey_set(self.state.store@, durable_key(prefix.path_bytes()));
                let sorted = choose|sorted: Seq<Seq<u8>>|
                    #[trigger] is_sorted_enumeration(sorted, set0) && suffix@ == sorted[
                        index as int
                    ];
                assert(set0.contains(sorted[index as int]));
                assert(is_valid_path(suffix@));
            }
            Ok(OwnedPath::from_bytes_unchecked(suffix))
        } else {
            Err(RuntimeError::StoreListIndexOutOfBounds)
        }
    }

    /// Moves the subtree at `from_path` over `to_path`; fails exactly when
    /// `from_path` holds no value.
    pub fn store_move<'a, 'b>(&mut self, from_path: &RefPath<'a>, to_path: &RefPath<'b>) -> (r:
        Result<(), RuntimeError>)
        requires
            old(self).state.wf(),
        ensures
            final(self).state.wf(),
            r is Ok <==> old(self).state.store@.contains_key(durable_key(from_path.path_bytes())),
            r matches Err(e) ==> e == RuntimeError::PathNotFound && final(self).state == old(
                self,
            ).state,
            r is Ok ==> final(self).state.store@ == crate::state::move_result(
                old(self).state.store@,
                durable_key(from_path.path_bytes()),
                durable_key(to_path.path_bytes()),
            ),
    {
        let fbytes = from_path.as_bytes();
        if !self.state.store.has_entry(crate::state::with_durable(fbytes).as_slice()) {
            return Err(RuntimeError::PathNotFound);
        }
        self.state.handle_store_move(fbytes, to_path.as_bytes());
        Ok(())
    }

    /// Copies the subtree at `from_path` over `to_path`; fails exactly when
    /// `from_path` holds no value.
    pub fn store_copy<'a, 'b>(&mut self, from_path: &RefPath<'a>, to_path: &RefPath<'b>) -> (r:
        Result<(), RuntimeError>)
        requires
            old(self).state.wf(),
        ensures
            final(self).state.wf(),
            r is Ok <==> old(self).state.store@.contains_key(durable_key(from_path.path_bytes())),
            r matches Err(e) ==> e == RuntimeError::PathNotFound && final(self).state == old(
                self,
            ).state,
            r is Ok ==> final(self).state.store@ == crate::state::copy_result(
                old(self).state.store@,
                durable_key(from_path.path_bytes()),
                durable_key(to_path.path_bytes()),
            ),
    {
        let fbytes = from_path.as_bytes();
        if !self.state.store.has_entry(crate::state::with_durable(fbytes).as_slice()) {
            return Err(RuntimeError::PathNotFound);
        }
        self.state.handle_store_copy(fbytes, to_path.as_bytes());
        Ok(())
    }

    /// Reveals the preimage of `hash`, truncated to `max_bytes`.
    pub fn reveal_preimage(&self, hash: &[u8], max_bytes: usize) -> (r: Vec<u8>)
        requires
            self.state.wf(),
            self.state.store.preimages().contains_key(hash@),
        ensures
            r@ == (if self.state.store.preimages()[hash@].len() < max_bytes {
                self.state.store.preimages()[hash@]
            } else {
                self.state.store.preimages()[hash@].subrange(0, max_bytes as int)
            }),
    {
        self.state.handle_reveal_preimage(hash, max_bytes)
    }
}

} // verus!
