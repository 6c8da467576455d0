//! Typed errors of the safe runtime surface, and the size-prefixed value
//! convention for values larger than one storage chunk.

use crate::codec::{
    spec_u64_from_be_bytes, spec_u64_to_be_bytes, u64_from_be_bytes, u64_to_be_bytes,
};
use crate::mock_host::MockHost;
use crate::path::{durable_key, Path, RefPath};
use crate::rollup_core;
use crate::state::remove_subtree;
use vstd::prelude::*;

verus! {

/// Errors that runtime operations may report.
///
/// Certain error situations instead make the runtime trap rather than
/// return an explicit error; those are excluded by the operations'
/// preconditions.
#[derive(Copy, Eq, PartialEq, Structural, Clone, Debug)]
pub enum RuntimeError {
    /// Attempted to write too many bytes to output or storage.
    WriteTooLarge,
    /// Attempted to read from or delete a key that does not exist.
    PathNotFound,
    /// Attempted to get a subkey at an out-of-bounds index.
    StoreListIndexOutOfBounds,
}

/// Returned by the typed `store_has`: whether a path holds a value or is a
/// prefix of other keys.
#[derive(Copy, Eq, PartialEq, Structural, Clone, Debug)]
pub enum ValueType {
    /// The path has a value, but is not a prefix to further values.
    Value,
    /// The path is a prefix to further values, but has no value.
    Subtree,
    /// The path has a value, and is a prefix to further values.
    ValueWithSubtree,
}

/// Succeeds exactly when `path` holds a direct value in the durable store.
pub fn check_path_exists<'a>(host: &MockHost, path: &RefPath<'a>) -> (r: Result<
    (),
    RuntimeError,
>)
    requires
        host.state.wf(),
    ensures
        r is Ok <==> host.state.store@.contains_key(durable_key(path.path_bytes())),
        r matches Err(e) ==> e == RuntimeError::PathNotFound,
{
    let bytes = path.as_bytes();
    if host.state.store.has_entry(crate::state::with_durable(bytes).as_slice()) {
        Ok(())
    } else {
        Err(RuntimeError::PathNotFound)
    }
}

/// The size-prefixed encoding of a value: its length as a fixed-width
/// big-endian word, followed by the value's bytes.
pub open spec fn sized_encoding(value: Seq<u8>) -> Seq<u8> {
    spec_u64_to_be_bytes(value.len() as u64) + value
}

/// The bytes that the sized load reads back out of a stored encoding: the
/// payload after the length word, truncated to the recorded length.
pub open spec fn sized_decoding(stored: Seq<u8>) -> Seq<u8> {
    let size = spec_u64_from_be_bytes(stored.take(8)) as int;
    stored.skip(8).take(vstd::math::min(size, stored.len() - 8))
}

/// Round trip of the size-prefixed convention: loading a value saved under
/// it yields the value again, whatever its size.
pub proof fn lemma_sized_value_roundtrip(value: Seq<u8>)
    requires
        value.len() <= usize::MAX - 8,
    ensures
        sized_decoding(sized_encoding(value)) == value,
        spec_u64_from_be_bytes(sized_encoding(value).take(8)) == value.len(),
{
    let stored = sized_encoding(value);
    assert(stored.take(8) =~= spec_u64_to_be_bytes(value.len() as u64));
    crate::codec::lemma_u64_be_bytes_roundtrip(value.len() as u64);
    assert(stored.skip(8) =~= value);
    assert(sized_decoding(stored) =~= value);
}

/// Saves `value` to the store at `path`, prefixing it by its size, written
/// out in chunks of at most one storage call each.
///
/// Whatever was previously under `path` (the value and its whole subtree)
/// is removed first.
pub fn save_value_sized<'a>(host: &mut MockHost, path: &RefPath<'a>, value: &[u8])
    requires
        old(host).state.wf(),
        value@.len() <= usize::MAX - 8,
    ensures
        final(host).state.wf(),
        ({
            let dk = durable_key(path.path_bytes());
            let base = if old(host).state.store@.contains_key(dk) {
                remove_subtree(old(host).state.store@, dk)
            } else {
                old(host).state.store@
            };
            final(host).state.store@ == base.insert(dk, sized_encoding(value@))
        }),
{
    let ghost dk = durable_key(path.path_bytes());
    let _ = host.store_delete(path);
    let ghost base = host.state.store@;
    let prefix = u64_to_be_bytes(value.len() as u64);
    proof {
        assert(!base.contains_key(dk)) by {
            if old(host).state.store@.contains_key(dk) {
                assert(crate::state::subtree_member(dk, dk));
            }
        }
        assert(crate::state::HostState::write_bytes(Seq::<u8>::empty(), 0, prefix@)
            =~= prefix@);
    }
    let r = host.store_write(path, prefix.as_slice(), 0);
    let mut index: usize = 0;
    proof {
        assert(prefix@ + value@.take(0) =~= prefix@);
        assert(host.state.store@ == base.insert(dk, prefix@ + value@.take(0)));
    }
    while index < value.len()
        invariant
            0 <= index <= value@.len(),
            value@.len() <= usize::MAX - 8,
            prefix@ == spec_u64_to_be_bytes(value@.len() as u64),
            prefix@.len() == 8,
            host.state.wf(),
            dk == durable_key(path.path_bytes()),
            host.state.store@ == base.insert(dk, prefix@ + value@.take(index as int)),
        decreases value@.len() - index,
    {
        let end = if value.len() - index < rollup_core::MAX_FILE_CHUNK_SIZE {
            value.len()
        } else {
            index + rollup_core::MAX_FILE_CHUNK_SIZE
        };
        let chunk = vstd::slice::slice_subrange(value, index, end);
        let ghost cur = prefix@ + value@.take(index as int);
        proof {
            assert(host.state.store@[dk].len() == 8 + index);
        }
        let r2 = host.store_write(path, chunk, 8 + index);
        proof {
            assert(crate::state::HostState::write_bytes(cur, 8 + index, chunk@) =~= prefix@
                + value@.take(end as int));
            assert(host.state.store@ == base.insert(dk, prefix@ + value@.take(end as int)))
                by {
                assert(base.insert(dk, cur).insert(
                    dk,
                    crate::state::HostState::write_bytes(cur, 8 + index, chunk@),
                ) =~= base.insert(dk, prefix@ + value@.take(end as int)));
            }
        }
        index = end;
    }
    proof {
        assert(value@.take(value@.len() as int) =~= value@);
        assert(host.state.store@ == base.insert(dk, sized_encoding(value@)));
        if old(host).state.store@.contains_key(dk) {
        } else {
            assert(base == old(host).state.store@);
        }
    }
}

/// Loads a value saved by [`save_value_sized`] from `path`: reads the size
/// word, then the payload in chunks until the recorded size is reached or
/// the stored bytes run out.  Fails exactly when the path holds no value.
pub fn load_value_sized<'a>(host: &MockHost, path: &RefPath<'a>) -> (r: Result<
    Vec<u8>,
    RuntimeError,
>)
    requires
        host.state.wf(),
        host.state.store@.contains_key(durable_key(path.path_bytes())) ==> ({
            let stored = host.state.store@[durable_key(path.path_bytes())];
            stored.len() >= 8 && spec_u64_from_be_bytes(stored.take(8)) <= (usize::MAX - 8) as u64
        }),
    ensures
        r is Ok <==> host.state.store@.contains_key(durable_key(path.path_bytes())),
        r matches Ok(v) ==> v@ == sized_decoding(
            host.state.store@[durable_key(path.path_bytes())],
        ),
        r matches Err(e) ==> e == RuntimeError::PathNotFound,
{
    let ghost dk = durable_key(path.path_bytes());
    let _ = check_path_exists(host, path)?;
    let ghost stored = host.state.store@[dk];
    let size_bytes = match host.store_read(path, 0, 8) {
        Ok(v) => v,
        Err(_) => {
            return Err(RuntimeError::PathNotFound);
        },
    };
    proof {
        assert(size_bytes@ =~= stored.take(8));
    }
    let size_word = u64_from_be_bytes(size_bytes.as_slice());
    let size = size_word as usize;
    let ghost want = vstd::math::min(size as int, stored.len() - 8);
    let mut buffer: Vec<u8> = Vec::new();
    let mut done = false;
    proof {
        assert(stored.skip(8).take(0) =~= Seq::<u8>::empty());
    }
    while !done && buffer.len() < size
        invariant
            host.state.wf(),
            dk == durable_key(path.path_bytes()),
            host.state.store@.contains_key(dk),
            stored == host.state.store@[dk],
            stored.len() >= 8,
            size == spec_u64_from_be_bytes(stored.take(8)),
            size <= usize::MAX - 8,
            want == vstd::math::min(size as int, stored.len() - 8),
            buffer@.len() <= want,
            buffer@ == stored.skip(8).take(buffer@.len() as int),
            done ==> buffer@.len() == want,
        decreases (if done {
            0int
        } else {
            1int
        }), size - buffer@.len(),
    {
        let remaining = size - buffer.len();
        let got = match host.store_read(path, 8 + buffer.len(), remaining) {
            Ok(v) => v,
            Err(_) => {
                proof {
                    assert(false);
                }
                Vec::new()
            },
        };
        if got.len() == 0 {
            done = true;
            proof {
                assert(buffer@.len() == stored.len() - 8 || remaining == 0);
                assert(buffer@.len() == want);
            }
        } else {
            let ghost blen = buffer@.len() as int;
            let ghost glen = got@.len() as int;
            crate::state::append_bytes(&mut buffer, got.as_slice());
            proof {
                assert(stored.skip(8).take(blen + glen) =~= stored.skip(8).take(blen)
                    + stored.subrange(8 + blen, 8 + blen + glen));
            }
        }
    }
    proof {
        if !done {
            assert(buffer@.len() == size);
            assert(buffer@.len() == want);
        }
        assert(buffer@ == sized_decoding(stored));
    }
    Ok(buffer)
}

} // verus!
