use nsedit::command::{Command, CommandBuffer, CreateCommand, CreateObject};
use nsedit::input::{InputChunk, KeyCode};

#[test]
fn chords_c_c_enqueue_exactly_one_create_class() {
    let mut buffer = CommandBuffer::new();
    buffer.add_key(InputChunk(KeyCode::C, 0));
    buffer.add_key(InputChunk(KeyCode::C, 0));
    assert_eq!(
        buffer.poll_cmd(),
        Some(Command::Create(CreateCommand(CreateObject::Class)))
    );
    assert_eq!(buffer.poll_cmd(), None);
    assert!(buffer.is_empty());
}

#[test]
fn unmapped_chord_clears_pending_input() {
    let mut buffer = CommandBuffer::new();
    buffer.add_key(InputChunk(KeyCode::C, 0));
    assert!(!buffer.is_empty());
    buffer.add_key(InputChunk(KeyCode::X, 0));
    assert_eq!(buffer.poll_cmd(), None);
    assert!(buffer.is_empty());
}

#[test]
fn pending_input_renders_back_to_characters() {
    let mut buffer = CommandBuffer::new();
    buffer.add_key(InputChunk(KeyCode::C, 0));
    assert_eq!(buffer.get_input_as_str(), "c");
    buffer.reset_input();
    assert_eq!(buffer.get_input_as_str(), "");
    assert!(buffer.is_empty());
}

#[test]
fn commands_leave_the_queue_in_fifo_order() {
    let mut buffer = CommandBuffer::new();
    buffer.add_key(InputChunk(KeyCode::C, 0));
    buffer.add_key(InputChunk(KeyCode::C, 0));
    buffer.add_key(InputChunk(KeyCode::C, 0));
    buffer.add_key(InputChunk(KeyCode::P, 0));
    assert_eq!(
        buffer.poll_cmd(),
        Some(Command::Create(CreateCommand(CreateObject::Class)))
    );
    assert_eq!(
        buffer.poll_cmd(),
        Some(Command::Create(CreateCommand(CreateObject::Package)))
    );
    assert_eq!(buffer.poll_cmd(), None);
}

#[test]
fn chord_display_follows_the_shift_bit() {
    assert_eq!(InputChunk(KeyCode::A, 0).to_str(), "a");
    assert_eq!(InputChunk(KeyCode::A, 0b1000).to_str(), "A");
    assert_eq!(InputChunk(KeyCode::Z, 0b1000).to_str(), "Z");
    assert_eq!(InputChunk(KeyCode::Tab, 0).to_str(), "");
}

#[test]
fn modifier_bits_pack_in_order() {
    assert_eq!(nsedit::input::mods_to_bitflags(true, false, false, false), 0b1000);
    assert_eq!(nsedit::input::mods_to_bitflags(false, true, false, false), 0b0100);
    assert_eq!(nsedit::input::mods_to_bitflags(false, false, true, false), 0b0010);
    assert_eq!(nsedit::input::mods_to_bitflags(false, false, false, true), 0b0001);
    assert_eq!(nsedit::input::mods_to_bitflags(true, true, true, true), 0b1111);
}
