use rollup_host::input::{Input as KernelInput, MessageData, SlotData};
use rollup_host::mock_host::{check_debug_log, reset_debug_log, MockHost};
use rollup_host::path::{path_kernel_boot, path_kernel_next, OwnedPath, Path, RefPath};
use rollup_host::rollup_core::{Input, MAX_INPUT_MESSAGE_SIZE, MAX_OUTPUT_SIZE};
use rollup_host::runtime::{load_value_sized, save_value_sized, RuntimeError};
use rollup_host::state::{HostState, CHECKPOINTS_PER_LEVEL};

fn new_host_state() -> HostState {
    let mut state = HostState::default();
    state.store.set_value::<usize>(b"/checkpoints", CHECKPOINTS_PER_LEVEL);
    state.store.set_value::<bool>(b"/input/consuming", true);
    state
}

#[test]
fn test_read_input_slot() {
    // Arrange
    let mut state = new_host_state();

    state.mark_level_for_input(0);
    state.add_next_inputs(0, &vec![(Input::MessageData, vec![5; MAX_INPUT_MESSAGE_SIZE / 2])]);

    let mut mock_host = MockHost::from(state);

    // Act
    let result = mock_host.read_input(MAX_INPUT_MESSAGE_SIZE);

    // Assert
    let expected = Some(KernelInput::Message(MessageData::new(
        0,
        0,
        vec![5; MAX_INPUT_MESSAGE_SIZE / 2],
    )));

    assert_eq!(expected, result);
}

#[test]
fn read_slot_input_with_size_max_bytes() {
    let mut state = new_host_state();
    state.store.set_value::<i32>(b"/input/level", 2);
    state.mark_level_for_input(2);
    state.add_next_inputs(2, &vec![(Input::SlotDataChunk, vec![b'!'; 100])]);

    let mut host = MockHost::from(state);
    let outcome = host.read_input(100);

    let expected = SlotData::new(2, 0, vec![b'!'; 100]);
    assert_eq!(Some(KernelInput::Slot(expected)), outcome);
}

#[test]
fn read_slot_input_with_size_lt_max_bytes() {
    let mut state = new_host_state();
    state.store.set_value::<i32>(b"/input/level", 5);
    state.mark_level_for_input(5);
    state.add_next_inputs(5, &vec![(Input::SlotDataChunk, vec![b'\\'; 50])]);

    let mut host = MockHost::from(state);
    let outcome = host.read_input(100);

    let expected = SlotData::new(5, 0, vec![b'\\'; 50]);
    assert_eq!(Some(KernelInput::Slot(expected)), outcome);
}

#[test]
fn read_message_input_with_size_max_bytes() {
    let mut state = new_host_state();
    state.store.set_value::<i32>(b"/input/level", 5);
    state.mark_level_for_input(5);
    state.add_next_inputs(5, &vec![(Input::MessageData, vec![b'?'; 100])]);

    let mut host = MockHost::from(state);
    let outcome = host.read_input(100);

    let expected = MessageData::new(5, 0, vec![b'?'; 100]);
    assert_eq!(Some(KernelInput::Message(expected)), outcome);
}

#[test]
fn read_message_input_with_size_lt_max_bytes() {
    let mut state = new_host_state();
    state.store.set_value::<i32>(b"/input/level", 5);
    state.mark_level_for_input(5);
    state.add_next_inputs(5, &vec![(Input::MessageData, vec![b'A'; 25])]);

    let mut host = MockHost::from(state);
    let outcome = host.read_input(100);

    let expected = MessageData::new(5, 0, vec![b'A'; 25]);
    assert_eq!(Some(KernelInput::Message(expected)), outcome);
}

#[test]
fn read_input_returns_none_when_nothing_read() {
    let mut host = MockHost::default();

    let outcome = host.read_input(100);

    assert_eq!(None, outcome);
}

#[test]
fn test_reveal_preimage() {
    // Arrange
    let mut state = new_host_state();

    let data = vec![b'a'; 3 * 1024];

    let hash = state.set_preimage(data);

    let mock_host = MockHost::from(state);

    // Act
    let result = mock_host.reveal_preimage(hash.as_slice(), 300);

    // Assert
    assert_eq!(result, vec![b'a'; 300]);
}

#[test]
fn reveal_preimage_ok() {
    let mut state = new_host_state();
    let hash = state.set_preimage(vec![b'!'; 50]);
    let host = MockHost::from(state);

    let result = host.reveal_preimage(hash.as_slice(), 55);

    assert_eq!(50, result.len());
    assert_eq!(vec![b'!'; 50], result);
}

#[test]
fn save_value_sized_load_value_sized_roundtrip() {
    // Arrange
    let path = RefPath::assert_from(b"/testing/path");
    let value = (0..79u8).cycle().take(8000).collect::<Vec<u8>>();

    let mut host = MockHost::from(new_host_state());

    // Act
    save_value_sized(&mut host, &path, value.as_slice());
    let result = load_value_sized(&host, &path);

    // Assert
    assert_eq!(result, Ok(value));
}

#[test]
fn given_output_written_then_ok() {
    let mut host = MockHost::default();
    let output = "just a bit of output we want to write";

    let result = host.write_output(output.as_bytes());

    assert_eq!(Ok(()), result);
}

#[test]
fn given_output_too_large_then_err() {
    let mut host = MockHost::default();

    let output = [b'a'; MAX_OUTPUT_SIZE + 1];

    let result = host.write_output(output.as_slice());

    assert_eq!(Err(RuntimeError::WriteTooLarge), result);
}

#[test]
fn store_has_existing_return_true() {
    let mut host = MockHost::default();
    let existing_path = RefPath::assert_from("/an/Existing/path".as_bytes());
    host.store_write(&existing_path, b"data", 0).unwrap();

    let result = host.store_has(&existing_path);

    assert!(result.is_some());
}

#[test]
fn store_has_not_existing_returns_false() {
    let host = MockHost::default();
    let non_existent_path = RefPath::assert_from("/does/not.exist".as_bytes());

    let result = host.store_has(&non_existent_path);

    assert!(result.is_none());
}

#[test]
fn store_read_max_bytes() {
    const PATH: &[u8] = b"/a/simple/path";
    const OFFSET: usize = 5;
    const READ_SIZE: usize = 80;

    let mut host = MockHost::default();
    let path = RefPath::assert_from(PATH);
    host.store_write(&path, &[b'2'; OFFSET + READ_SIZE], 0).unwrap();

    let result = host.store_read(&path, OFFSET, READ_SIZE);

    let expected: Vec<u8> = std::iter::repeat(b'2').take(READ_SIZE).collect();
    assert_eq!(Ok(expected), result);
}

#[test]
fn store_read_lt_max_bytes() {
    const PATH: &[u8] = b"/a/simple/path";
    const OFFSET: usize = 10;
    const READ_SIZE: usize = 80;

    let mut host = MockHost::default();
    let path = RefPath::assert_from(PATH);
    host.store_write(&path, &[b'Z'; OFFSET + READ_SIZE / 5], 0).unwrap();

    let result = host.store_read(&path, OFFSET, READ_SIZE);

    let expected: Vec<u8> = std::iter::repeat(b'Z').take(READ_SIZE / 5).collect();
    assert_eq!(Ok(expected), result);
}

#[test]
fn store_read_path_not_found() {
    let host = MockHost::default();
    let path = RefPath::assert_from("/a/2nd/PATH.which/doesnt/exist".as_bytes());

    let result = host.store_read(&path, 25, 80);

    assert_eq!(Err(RuntimeError::PathNotFound), result);
}

#[test]
fn store_write_ok() {
    const OUTPUT: &[u8] = "One two three four five".as_bytes();

    let mut host = MockHost::default();
    let path = RefPath::assert_from("/a/simple/path".as_bytes());

    let result = host.store_write(&path, OUTPUT, 0);

    assert_eq!(Ok(()), result);
    assert_eq!(Ok(OUTPUT.to_vec()), host.store_read(&path, 0, 4096));
}

#[test]
fn store_write_too_large() {
    let mut host = MockHost::default();
    let path = RefPath::assert_from("/a/simple/path".as_bytes());
    let output = vec![b'f'; 4097];

    let result = host.store_write(&path, output.as_slice(), 0);

    assert_eq!(Err(RuntimeError::WriteTooLarge), result);
}

#[test]
fn runtime_store_delete() {
    let mut host = MockHost::default();
    let path = RefPath::assert_from("/a/2nd/PATH.which/does/exist".as_bytes());
    host.store_write(&path, b"here", 0).unwrap();

    let result = host.store_delete(&path);

    assert_eq!(Ok(()), result);
    assert!(host.store_has(&path).is_none());
}

#[test]
fn store_delete_path_not_found() {
    let mut host = MockHost::default();
    let path = RefPath::assert_from("/a/2nd/PATH.which/doesnt/exist".as_bytes());

    let result = host.store_delete(&path);

    assert_eq!(Err(RuntimeError::PathNotFound), result);
}

#[test]
fn store_count_subkeys() {
    let mut host = MockHost::default();
    let prefix = RefPath::assert_from("/prefix/of/other/keys".as_bytes());

    for i in 0..14 {
        let key = format!("/prefix/of/other/keys/n{}", i);
        let path_bytes = key.into_bytes();
        let path = RefPath::assert_from(path_bytes.as_slice());
        host.store_write(&path, b"v", 0).unwrap();
    }

    let result = host.store_count_subkeys(&prefix);

    assert_eq!(Ok(14), result);
}

#[test]
fn store_get_subkey() {
    let mut host = MockHost::default();
    let prefix = RefPath::assert_from("/prefix/of/other/paths".as_bytes());

    // fourteen subkeys that sort before the one we ask for
    for i in 0..14 {
        let key = format!("/prefix/of/other/paths/a{:02}", i);
        let path_bytes = key.into_bytes();
        let path = RefPath::assert_from(path_bytes.as_slice());
        host.store_write(&path, b"v", 0).unwrap();
    }
    let wanted = RefPath::assert_from("/prefix/of/other/paths/short/suffix".as_bytes());
    host.store_write(&wanted, b"v", 0).unwrap();

    let result = host.store_get_subkey(&prefix, 14);

    let expected = OwnedPath::try_from(b"/short/suffix".to_vec()).unwrap();
    assert_eq!(Ok(expected), result);
}

#[test]
fn store_get_subkey_index_out_of_range_upper() {
    let host = MockHost::default();
    let prefix = RefPath::assert_from("/prefix/of/other/paths".as_bytes());

    let result = host.store_get_subkey(&prefix, 0);

    assert_eq!(Err(RuntimeError::StoreListIndexOutOfBounds), result);
}

#[test]
fn store_get_subkey_index_out_of_range_lower() {
    let mut host = MockHost::default();
    let prefix = RefPath::assert_from("/prefix/of/other/paths".as_bytes());
    for i in 0..5 {
        let key = format!("/prefix/of/other/paths/k{}", i);
        let path_bytes = key.into_bytes();
        let path = RefPath::assert_from(path_bytes.as_slice());
        host.store_write(&path, b"v", 0).unwrap();
    }

    let result = host.store_get_subkey(&prefix, -1);

    assert_eq!(Err(RuntimeError::StoreListIndexOutOfBounds), result);
}

#[test]
fn debug_log_collects_and_resets() {
    let mut host = MockHost::default();
    host.write_debug(String::from("first"));
    host.write_debug(String::from("second"));

    let log = check_debug_log(&host);
    assert_eq!(2, log.len());
    assert_eq!("first", log[0]);
    assert_eq!("second", log[1]);

    reset_debug_log(&mut host);
    assert!(check_debug_log(&host).is_empty());
}

#[test]
fn into_inner_returns_state() {
    let state = new_host_state();
    let expected = state.clone();
    let host = MockHost::from(state);
    assert_eq!(expected, host.into_inner());
}

#[test]
fn save_value_sized_small_value_roundtrip() {
    let path = RefPath::assert_from(b"/testing/path");
    let value: Vec<u8> = vec![9, 8, 7];

    let mut host = MockHost::from(new_host_state());
    save_value_sized(&mut host, &path, value.as_slice());
    let result = load_value_sized(&host, &path);

    assert_eq!(result, Ok(value));
}

#[test]
fn codec_renders_decimal_and_words() {
    assert_eq!(b"0".to_vec(), rollup_host::codec::u64_to_dec(0));
    assert_eq!(b"1048576".to_vec(), rollup_host::codec::u64_to_dec(1048576));
    assert_eq!(b"-123".to_vec(), rollup_host::codec::i32_to_dec(-123));
    assert_eq!(b"42".to_vec(), rollup_host::codec::i32_to_dec(42));

    let bytes = rollup_host::codec::u64_to_be_bytes(0x0102030405060708);
    assert_eq!(vec![1, 2, 3, 4, 5, 6, 7, 8], bytes);
    assert_eq!(0x0102030405060708, rollup_host::codec::u64_from_be_bytes(bytes.as_slice()));

    let bytes = rollup_host::codec::u32_to_be_bytes(0xdeadbeef);
    assert_eq!(0xdeadbeef, rollup_host::codec::u32_from_be_bytes(bytes.as_slice()));
}

#[test]
fn preimage_digest_is_stable() {
    let mut a = new_host_state();
    let mut b = new_host_state();
    let h1 = a.set_preimage(vec![1, 2, 3]);
    let h2 = b.set_preimage(vec![1, 2, 3]);
    let h3 = a.set_preimage(vec![1, 2, 4]);
    assert_eq!(h1, h2);
    assert_ne!(h1, h3);
    assert_eq!(32, h1.len());
}

#[test]
fn count_subkeys_is_strict() {
    // the prefix's own value is not one of its subkeys
    let mut host = MockHost::default();
    let prefix = RefPath::assert_from(b"/a/b");
    host.store_write(&prefix, b"ab", 0).unwrap();

    assert_eq!(Ok(0), host.store_count_subkeys(&prefix));
    assert_eq!(
        Err(RuntimeError::StoreListIndexOutOfBounds),
        host.store_get_subkey(&prefix, 0)
    );

    let child = RefPath::assert_from(b"/a/b/c");
    host.store_write(&child, b"abc", 0).unwrap();

    assert_eq!(Ok(1), host.store_count_subkeys(&prefix));
    let expected = OwnedPath::try_from(b"/c".to_vec()).unwrap();
    assert_eq!(Ok(expected), host.store_get_subkey(&prefix, 0));
}

#[test]
fn reserved_kernel_paths() {
    assert_eq!(b"/kernel/next".to_vec(), path_kernel_next().as_bytes().to_vec());
    assert_eq!(b"/kernel/boot.wasm".to_vec(), path_kernel_boot().as_bytes().to_vec());
}
