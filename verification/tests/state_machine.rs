use rollup_host::rollup_core::{
    Input, ValueType, MAX_INPUT_MESSAGE_SIZE, MAX_INPUT_SLOT_DATA_CHUNK_SIZE,
};
use rollup_host::state::{HostState, NextInput, YieldStep, CHECKPOINTS_PER_LEVEL, MAX_HEADER_SIZE};
use rollup_host::store::{Store, StoreValue};
use std::fmt::Debug;

const CHECKPOINTS: &[u8] = b"/checkpoints";
const INPUT_CONSUMING: &[u8] = b"/input/consuming";
const INPUT_LEVEL: &[u8] = b"/input/level";
const INPUT_ID: &[u8] = b"/input/id";

fn assert_value_and_delete<T: StoreValue + Eq + Debug>(store: &mut Store, path: &[u8], expected: T) {
    let v = store.get_value::<T>(path);

    assert_eq!(expected, v, "comparison for path {:?} failed", path);

    store.delete_value(path);
}

fn assert_input_and_delete(
    store: &mut Store,
    level: i32,
    idx: i32,
    payload: Vec<u8>,
    input_type: Input,
    id: i32,
) {
    let level_text = format!("{}", level);
    let idx_text = format!("{}", idx);
    let mut key = b"/input/".to_vec();
    key.extend_from_slice(level_text.as_bytes());
    key.push(b'/');
    key.extend_from_slice(idx_text.as_bytes());
    let mut payload_key = key.clone();
    payload_key.extend_from_slice(b"/payload");
    let mut n_key = key.clone();
    n_key.extend_from_slice(b"/n");
    let mut type_key = key;
    type_key.extend_from_slice(b"/type");

    assert_value_and_delete(store, &payload_key, payload);
    assert_value_and_delete(store, &n_key, id);
    assert_value_and_delete(store, &type_key, input_type);
}

#[test]
fn add_inputs_when_ready() {
    let level: i32 = 10;

    // Arrange
    let mut state = HostState::default();

    // make ready for input
    state.store.set_value::<usize>(CHECKPOINTS, CHECKPOINTS_PER_LEVEL);
    state.store.set_value::<bool>(INPUT_CONSUMING, true);
    state.store.set_value::<i32>(INPUT_LEVEL, level);

    let mut pristine = state.clone();

    let inputs = vec![
        (Input::MessageData, vec![4; MAX_INPUT_MESSAGE_SIZE / 2]),
        (Input::SlotDataChunk, vec![3; MAX_INPUT_SLOT_DATA_CHUNK_SIZE / 4]),
        (Input::MessageData, vec![2; MAX_HEADER_SIZE]),
        (
            Input::SlotDataChunk,
            vec![1; MAX_INPUT_SLOT_DATA_CHUNK_SIZE * 2 + MAX_INPUT_SLOT_DATA_CHUNK_SIZE / 2],
        ),
        (Input::MessageData, vec![0; MAX_INPUT_MESSAGE_SIZE / 8]),
    ];

    // Act
    state.mark_level_for_input(level);
    state.add_next_inputs(level, &inputs);

    // Assert

    // total number of chunks added
    assert_value_and_delete(
        &mut state.store,
        b"/input/10/size",
        // sum of 'ceil(chunks)' in inputs.
        1 + 1 + 1 + 3 + 1,
    );

    // first chunk was a header
    assert_input_and_delete(
        &mut state.store,
        level,
        0,
        vec![4; MAX_INPUT_MESSAGE_SIZE / 2],
        Input::MessageData,
        0,
    );
    // second chunk was a complete slot
    assert_input_and_delete(
        &mut state.store,
        level,
        1,
        vec![3; MAX_INPUT_SLOT_DATA_CHUNK_SIZE / 4],
        Input::SlotDataChunk,
        1,
    );
    // third chunk was a header
    assert_input_and_delete(
        &mut state.store,
        level,
        2,
        vec![2; MAX_INPUT_MESSAGE_SIZE],
        Input::MessageData,
        2,
    );
    // fourth chunk is the first chunk of a slot
    assert_input_and_delete(
        &mut state.store,
        level,
        3,
        vec![1; MAX_INPUT_SLOT_DATA_CHUNK_SIZE],
        Input::SlotDataChunk,
        3,
    );
    // fifth chunk is the second chunk of a slot
    assert_input_and_delete(
        &mut state.store,
        level,
        4,
        vec![1; MAX_INPUT_SLOT_DATA_CHUNK_SIZE],
        Input::SlotDataChunk,
        3,
    );
    // sixth chunk is the third chunk of a slot
    assert_input_and_delete(
        &mut state.store,
        level,
        5,
        vec![1; MAX_INPUT_SLOT_DATA_CHUNK_SIZE / 2],
        Input::SlotDataChunk,
        3,
    );
    // seventh chunk is a header
    assert_input_and_delete(
        &mut state.store,
        level,
        6,
        vec![0; MAX_INPUT_MESSAGE_SIZE / 8],
        Input::MessageData,
        6,
    );

    // all paths due to adding inputs now removed, but we have marked a level
    // for input
    pristine.mark_level_for_input(10);
    assert_eq!(pristine, state);
}

#[test]
fn read_next_inputs() {
    let level: i32 = 10;

    // Arrange
    let mut state = HostState::default();

    // make ready for input
    state.store.set_value::<usize>(CHECKPOINTS, CHECKPOINTS_PER_LEVEL);
    state.store.set_value::<bool>(INPUT_CONSUMING, true);
    state.store.set_value::<i32>(INPUT_LEVEL, level);
    state.store.set_value::<i32>(INPUT_ID, 0);

    let inputs = vec![
        (Input::MessageData, vec![2; MAX_INPUT_MESSAGE_SIZE / 2]),
        (
            Input::SlotDataChunk,
            vec![1; MAX_INPUT_SLOT_DATA_CHUNK_SIZE * 2 + MAX_INPUT_SLOT_DATA_CHUNK_SIZE / 2],
        ),
        (Input::MessageData, vec![0; MAX_INPUT_MESSAGE_SIZE / 8]),
    ];

    // Act
    state.mark_level_for_input(level);
    state.add_next_inputs(level, &inputs);

    // Assert

    // first chunk was a header
    assert_eq!(
        Some(NextInput {
            level,
            id: 0,
            input_type: Input::MessageData,
            payload: vec![2; MAX_INPUT_MESSAGE_SIZE / 2]
        }),
        state.handle_read_input(MAX_INPUT_MESSAGE_SIZE)
    );

    // read three chunks from a slot - the last of which is incomplete
    assert_eq!(
        Some(NextInput {
            level,
            id: 1,
            input_type: Input::SlotDataChunk,
            payload: vec![1; MAX_INPUT_SLOT_DATA_CHUNK_SIZE]
        }),
        state.handle_read_input(MAX_INPUT_SLOT_DATA_CHUNK_SIZE)
    );
    assert_eq!(
        Some(NextInput {
            level,
            id: 1,
            input_type: Input::SlotDataChunk,
            payload: vec![1; MAX_INPUT_SLOT_DATA_CHUNK_SIZE / 4]
        }),
        // We read less than the full chunk here
        state.handle_read_input(MAX_INPUT_SLOT_DATA_CHUNK_SIZE / 4)
    );
    // But read still moves to the next chunk
    assert_eq!(
        Some(NextInput {
            level,
            id: 1,
            input_type: Input::SlotDataChunk,
            payload: vec![1; MAX_INPUT_SLOT_DATA_CHUNK_SIZE / 2]
        }),
        state.handle_read_input(MAX_INPUT_SLOT_DATA_CHUNK_SIZE)
    );

    assert_eq!(
        Some(NextInput {
            level,
            id: 4,
            input_type: Input::MessageData,
            payload: vec![0; MAX_INPUT_MESSAGE_SIZE / 8]
        }),
        state.handle_read_input(MAX_INPUT_MESSAGE_SIZE)
    );

    // We've run out of input for this level
    assert_eq!(None, state.handle_read_input(MAX_INPUT_MESSAGE_SIZE));
}

#[test]
fn exhaustion_is_idempotent() {
    let level: i32 = 10;
    let mut state = HostState::default();
    state.store.set_value::<usize>(CHECKPOINTS, CHECKPOINTS_PER_LEVEL);
    state.store.set_value::<bool>(INPUT_CONSUMING, true);
    state.store.set_value::<i32>(INPUT_LEVEL, level);

    state.mark_level_for_input(level);
    state.add_next_inputs(level, &vec![(Input::MessageData, vec![7; 10])]);

    assert!(state.handle_read_input(4096).is_some());
    // exactly level_size chunks consumed: nothing more, level unqueued
    assert_eq!(None, state.handle_read_input(4096));
    assert!(state.input_levels.is_empty());
    // a further read is also empty and changes nothing further
    assert_eq!(None, state.handle_read_input(4096));
    assert!(state.input_levels.is_empty());
}

#[test]
fn input_chunking_roundtrip() {
    // a single payload longer than the chunk size arrives in order, in
    // ceil(n / chunk_size) chunks sharing one first-chunk id
    let level: i32 = 3;
    let n = MAX_INPUT_SLOT_DATA_CHUNK_SIZE * 2 + 500;
    let payload: Vec<u8> = (0..n).map(|i| (i % 251) as u8).collect();

    let mut state = HostState::default();
    state.store.set_value::<usize>(CHECKPOINTS, CHECKPOINTS_PER_LEVEL);
    state.store.set_value::<bool>(INPUT_CONSUMING, true);
    state.store.set_value::<i32>(INPUT_LEVEL, level);
    state.mark_level_for_input(level);
    state.add_next_inputs(level, &vec![(Input::SlotDataChunk, payload.clone())]);

    assert_eq!(3, state.store.get_value::<i32>(b"/input/3/size"));

    let mut collected: Vec<u8> = Vec::new();
    let mut chunks = 0;
    while let Some(next) = state.handle_read_input(MAX_INPUT_SLOT_DATA_CHUNK_SIZE) {
        assert_eq!(0, next.id, "all chunks share the first chunk id");
        assert_eq!(Input::SlotDataChunk, next.input_type);
        collected.extend_from_slice(&next.payload);
        chunks += 1;
    }
    assert_eq!(3, chunks);
    assert_eq!(payload, collected);
}

#[test]
fn yield_trampoline_on_checkpoint() {
    // Arrange
    let starting_checkpoints: usize = 5;
    let mut state = HostState::default();

    state.store.set_value::<usize>(CHECKPOINTS, starting_checkpoints);

    // Act
    let step = state.handle_yield();

    // Assert
    assert_eq!(YieldStep::Trampoline, step);

    assert_eq!(
        starting_checkpoints + 1,
        state.store.get_value::<usize>(CHECKPOINTS)
    );
}

#[test]
fn yield_handle_yield_on_not_consuming() {
    // Arrange
    let level: i32 = 8;

    let mut state = HostState::default();

    state.store.set_value::<usize>(CHECKPOINTS, CHECKPOINTS_PER_LEVEL);
    state.store.set_value::<i32>(INPUT_LEVEL, level);

    // Act
    let step = state.handle_yield();

    // Assert
    assert_eq!(YieldStep::HandleYield, step);

    assert_eq!(true, state.store.get_value::<bool>(INPUT_CONSUMING));

    assert_eq!(level + 1, state.store.get_value::<i32>(INPUT_LEVEL));
}

#[test]
fn yield_mark_for_input_on_consuming() {
    // Arrange
    let level: i32 = 8;

    let mut state = HostState::default();

    state.store.set_value::<usize>(CHECKPOINTS, CHECKPOINTS_PER_LEVEL);
    state.store.set_value::<i32>(INPUT_LEVEL, level);
    state.store.set_value::<bool>(INPUT_CONSUMING, true);

    // Act
    let step = state.handle_yield();

    // Assert
    assert_eq!(YieldStep::MarkLevelForInput(level), step);
}

#[test]
fn yield_input_ticks_at_level() {
    // Arrange
    let level: i32 = 8;

    let mut state = HostState::default();

    state.store.set_value::<usize>(CHECKPOINTS, CHECKPOINTS_PER_LEVEL);
    state.store.set_value::<i32>(INPUT_LEVEL, level);
    state.store.set_value::<bool>(INPUT_CONSUMING, true);

    state.mark_level_for_input(level);

    // Act
    let step = state.handle_yield();

    // Assert
    assert_eq!(YieldStep::InputTicks(level), step);
}

#[test]
fn yield_trampoline_once_input_consumed() {
    // Arrange
    let level: i32 = 8;

    let mut state = HostState::default();

    state.store.set_value::<usize>(CHECKPOINTS, CHECKPOINTS_PER_LEVEL);
    state.store.set_value::<i32>(INPUT_LEVEL, level);
    state.store.set_value::<bool>(INPUT_CONSUMING, true);

    state.mark_level_for_input(level + 1);

    // Act
    let step = state.handle_yield();

    // Assert
    assert_eq!(YieldStep::Trampoline, step);

    assert_eq!(1, state.store.get_value::<usize>(CHECKPOINTS));
    assert_eq!(0, state.store.get_value::<i32>(INPUT_ID));
    assert!(state.store.maybe_get_value::<bool>(INPUT_CONSUMING).is_none());
}

#[test]
fn yield_reboot_when_requested() {
    let mut state = HostState::default();
    state.store.set_value::<u8>(b"/reboot", 1);

    assert_eq!(YieldStep::Reboot, state.handle_yield());
}

#[test]
fn store_write_new_path() {
    // Arrange
    let mut state = HostState::default();
    let path: &[u8] = b"/test/path";

    let written = vec![1, 2, 3, 4];

    // Act
    state.handle_store_write(path, 0, &written);

    // Assert
    assert_eq!(
        ValueType::Value,
        state.handle_store_has(path),
        "Path previously written to"
    );
    assert_eq!(written, state.handle_store_read(path, 0, 4096));
}

#[test]
fn store_write_extend_path() {
    // Arrange
    let mut state = HostState::default();
    let path: &[u8] = b"/test/path";

    let written = vec![1, 2, 3, 4];
    state.handle_store_write(path, 0, &written);

    // Act
    state.handle_store_write(path, 4, &written);

    // Assert
    let expected = vec![1, 2, 3, 4, 1, 2, 3, 4];
    assert_eq!(
        ValueType::Value,
        state.handle_store_has(path),
        "Path previously written to"
    );
    assert_eq!(expected, state.handle_store_read(path, 0, 4096));
}

#[test]
fn store_write_extend_from_within() {
    // Arrange
    let mut state = HostState::default();
    let path: &[u8] = b"/test/path";

    let written = vec![1, 2, 3, 4];
    state.handle_store_write(path, 0, &written);

    // Act
    state.handle_store_write(path, 2, &written);

    // Assert
    let expected = vec![1, 2, 1, 2, 3, 4];
    assert_eq!(
        ValueType::Value,
        state.handle_store_has(path),
        "Path previously written to"
    );
    assert_eq!(expected, state.handle_store_read(path, 0, 4096));
}

#[test]
fn store_write_fully_within() {
    // Arrange
    let mut state = HostState::default();
    let path: &[u8] = b"/test/path";

    state.handle_store_write(path, 0, &[1, 2, 3, 4]);

    // Act
    state.handle_store_write(path, 1, &[9, 10]);

    // Assert
    let expected = vec![1, 9, 10, 4];
    assert_eq!(
        ValueType::Value,
        state.handle_store_has(path),
        "Path previously written to"
    );
    assert_eq!(expected, state.handle_store_read(path, 0, 4096));
}

#[test]
fn mod_store_delete() {
    // Arrange
    let mut state = HostState::default();
    let prefix = "/a/long/prefix";

    state.handle_store_write(prefix.as_bytes(), 0, &[]);

    for i in 0..10 {
        // subkey of prefix
        let subkey = format!("{}/{}", prefix, i);
        // not subkey as not a sub-path
        let almost_subkey = format!("{}{}", prefix, i);
        // completely different prefix
        let not_subkey = format!("/different/prefix/{}", i);

        state.handle_store_write(subkey.as_bytes(), 0, &[]);
        state.handle_store_write(almost_subkey.as_bytes(), 0, &[]);
        state.handle_store_write(not_subkey.as_bytes(), 0, &[]);
    }

    // Act
    state.handle_store_delete(prefix.as_bytes());

    // Assert
    assert_eq!(ValueType::Missing, state.handle_store_has(prefix.as_bytes()));
    assert_eq!(0, state.handle_store_list_size(prefix.as_bytes()));
}

#[test]
fn store_list_size() {
    // Arrange
    let mut state = HostState::default();
    let prefix = "/a/long/prefix";

    for i in 0..10 {
        // subkey of prefix
        let subkey = format!("{}/{}", prefix, i);
        // not subkey as not a sub-path
        let almost_subkey = format!("{}{}", prefix, i);
        // completely different prefix
        let not_subkey = format!("/different/prefix/{}", i);

        state.handle_store_write(subkey.as_bytes(), 0, &[]);
        state.handle_store_write(almost_subkey.as_bytes(), 0, &[]);
        state.handle_store_write(not_subkey.as_bytes(), 0, &[]);
    }

    // Act
    let result = state.handle_store_list_size(prefix.as_bytes());

    // Assert
    assert_eq!(10, result, "Expected 10 subkeys of prefix");
}

#[test]
fn store_list_get() {
    // Arrange
    let mut state = HostState::default();
    let prefix = "/a/long/prefix";

    for i in 0..10 {
        // subkey of prefix
        let subkey = format!("{}/{}", prefix, i);
        // not subkey as not a sub-path
        let almost_subkey = format!("{}{}", prefix, i);
        // completely different prefix
        let not_subkey = format!("/different/prefix/{}", i);

        state.handle_store_write(subkey.as_bytes(), 0, &[]);
        state.handle_store_write(almost_subkey.as_bytes(), 0, &[]);
        state.handle_store_write(not_subkey.as_bytes(), 0, &[]);
    }

    // Act
    let result = state.handle_store_list_get(prefix.as_bytes(), 6);

    // Assert
    assert_eq!(b"/6".to_vec(), result, "Expected different subkey");
}

#[test]
fn store_move() {
    // Arrange
    let mut state = HostState::default();
    state.handle_store_write(b"/a/b", 0, b"ab");
    state.handle_store_write(b"/a/b/c", 0, b"abc");
    state.handle_store_write(b"/a/b/c/z", 0, b"abcz");
    state.handle_store_write(b"/a/b/d", 0, b"abd");
    state.handle_store_write(b"/a/bc", 0, b"abc");

    // Act
    state.handle_store_move(b"/a/b", b"/a/b/c");

    // Assert
    assert_eq!(b"ab".to_vec(), state.handle_store_read(b"/a/b/c", 0, 4096));
    assert_eq!(b"abc".to_vec(), state.handle_store_read(b"/a/b/c/c", 0, 4096));
    assert_eq!(b"abd".to_vec(), state.handle_store_read(b"/a/b/c/d", 0, 4096));
    assert_eq!(b"abc".to_vec(), state.handle_store_read(b"/a/bc", 0, 4096));
    assert_eq!(ValueType::Subtree, state.handle_store_has(b"/a/b"));
    assert_eq!(ValueType::Missing, state.handle_store_has(b"/a/b/c/z"));
}

#[test]
fn store_copy() {
    // Arrange
    let mut state = HostState::default();
    state.handle_store_write(b"/a/b", 0, b"ab");
    state.handle_store_write(b"/a/b/c", 0, b"abc");
    state.handle_store_write(b"/a/b/c/z", 0, b"abcz");
    state.handle_store_write(b"/a/b/d", 0, b"abd");
    state.handle_store_write(b"/a/bc", 0, b"abc");

    // Act
    state.handle_store_copy(b"/a/b", b"/a/b/c");

    // Assert
    assert_eq!(b"ab".to_vec(), state.handle_store_read(b"/a/b/c", 0, 4096));
    assert_eq!(b"abc".to_vec(), state.handle_store_read(b"/a/b/c/c", 0, 4096));
    assert_eq!(b"abd".to_vec(), state.handle_store_read(b"/a/b/c/d", 0, 4096));
    assert_eq!(b"abc".to_vec(), state.handle_store_read(b"/a/bc", 0, 4096));
    assert_eq!(b"ab".to_vec(), state.handle_store_read(b"/a/b", 0, 4096));
    assert_eq!(ValueType::Missing, state.handle_store_has(b"/a/b/c/z"));
}

#[test]
fn write_output_records_at_output_key() {
    let mut state = HostState::default();
    state.handle_write_output(vec![1, 2, 3]);
    assert_eq!(vec![1, 2, 3], state.store.get_value::<Vec<u8>>(b"/output/0/0"));
    assert_eq!(1, state.store.get_value::<u32>(b"/output/id"));
}

#[test]
fn update_value_applies_function() {
    let mut store = Store::default();
    store.set_value::<u32>(b"/counter", 41);
    store.update_value::<u32, _>(b"/counter", |v| v + 1);
    assert_eq!(42, store.get_value::<u32>(b"/counter"));
    assert!(store.has_entry(b"/counter"));
    assert_eq!(1, store.list_paths().len());
    store.delete_value(b"/counter");
    assert!(!store.has_entry(b"/counter"));
}

#[test]
fn yield_reboot_takes_precedence() {
    // a requested reboot wins even over a queue the host has advanced past
    let mut state = HostState::default();
    state.store.set_value::<usize>(CHECKPOINTS, CHECKPOINTS_PER_LEVEL);
    state.store.set_value::<bool>(INPUT_CONSUMING, true);
    state.store.set_value::<i32>(INPUT_LEVEL, 9);
    state.mark_level_for_input(9);
    state.store.set_value::<i32>(INPUT_LEVEL, 12);
    state.store.set_value::<u8>(b"/reboot", 1);

    assert_eq!(YieldStep::Reboot, state.handle_yield());
}

#[test]
fn set_ready_above_marked_level() {
    let mut state = HostState::default();
    state.set_ready_for_input(3);
    state.set_ready_for_input(7);

    assert_eq!(vec![3, 7], state.input_levels);
    assert!(state.ready_for_input(3));
}
