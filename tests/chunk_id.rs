use wav_cue::chunk_id::ChunkId;

fn ascii() -> ChunkId {
    ChunkId::new(*b"TEST")
}

fn invalid() -> ChunkId {
    ChunkId::new([255, 127, 0, 128])
}

#[test]
fn chunk_id_ascii_debug_std() {
    assert_eq!(ascii().to_debug_string(false), format!("{:?}", "TEST"));
}

#[test]
fn chunk_id_ascii_debug_alt() {
    assert_eq!(ascii().to_debug_string(true), format!("{:#?}", "TEST"));
}

#[test]
fn chunk_id_ascii_display_std() {
    assert_eq!(ascii().to_display_string(false), format!("{}", "TEST"));
}

#[test]
fn chunk_id_ascii_display_alt() {
    assert_eq!(ascii().to_display_string(true), format!("{:#}", "TEST"));
}

#[test]
fn chunk_id_invalid_debug_std() {
    assert_eq!(invalid().to_debug_string(false), format!("{:08X}", 0xFF7F0080u32));
}

#[test]
fn chunk_id_invalid_debug_alt() {
    assert_eq!(invalid().to_debug_string(true), format!("{:#08X}", 0xFF7F0080u32));
}

#[test]
fn chunk_id_invalid_display_std() {
    assert_eq!(invalid().to_display_string(false), format!("{:08X}", 0xFF7F0080u32));
}

#[test]
fn chunk_id_invalid_display_alt() {
    assert_eq!(invalid().to_display_string(true), format!("{:#08X}", 0xFF7F0080u32));
}

#[test]
fn chunk_id_quote_is_escaped_in_debug() {
    let id = ChunkId::new(*b"a\"b\\");
    assert_eq!(id.to_debug_string(false), format!("{:?}", "a\"b\\"));
    assert_eq!(id.to_display_string(false), "a\"b\\");
}

#[test]
fn chunk_id_control_byte_is_hex() {
    let id = ChunkId::new([0x64, 0x61, 0x74, 0x0a]);
    assert_eq!(id.to_display_string(false), "6461740A");
    assert_eq!(id.to_display_string(true), "0x6461740A");
}

#[test]
fn chunk_id_equality_is_bytewise() {
    assert_eq!(ChunkId::new(*b"data"), ChunkId::new(*b"data"));
    assert_ne!(ChunkId::new(*b"data"), ChunkId::new(*b"DATA"));
    assert_eq!(ChunkId::new(*b"cue ").bytes(), *b"cue ");
}
