use shellhist::bash::BashHistoryReader;
use shellhist::blocks::RevLineBuffer;
use shellhist::zsh::ZshReassembler;
use shellhist::Error;

#[test]
fn block_splitter_carries_partial_lines() {
    // The stream "echo hi\ncd\nls" arrives backward in two blocks; the line
    // "echo hi" spans the block boundary and is carried across it.
    let mut m = RevLineBuffer::new();
    assert!(!m.has_line());
    m.push_block(b"cd\nls".to_vec());
    assert_eq!(m.pop_line(), Some(b"ls".to_vec()));
    assert_eq!(m.pop_line(), None);
    m.push_block(b"echo hi\n".to_vec());
    assert_eq!(m.pop_line(), Some(b"cd".to_vec()));
    assert_eq!(m.pop_line(), None);
    assert!(!m.is_finished());
    m.finish();
    assert!(m.is_finished());
    assert_eq!(m.pop_line(), Some(b"echo hi".to_vec()));
    assert_eq!(m.pop_line(), None);
}

#[test]
fn block_splitter_strips_one_trailing_delimiter() {
    let mut m = RevLineBuffer::new();
    m.push_block(b"a\nb\n".to_vec());
    m.finish();
    assert_eq!(m.pop_line(), Some(b"b".to_vec()));
    assert_eq!(m.pop_line(), Some(b"a".to_vec()));
    assert_eq!(m.pop_line(), None);
}

#[test]
fn block_splitter_empty_stream_has_no_lines() {
    let mut m = RevLineBuffer::new();
    m.finish();
    assert_eq!(m.pop_line(), None);
}

#[test]
fn reassembler_joins_and_emits() {
    // Lines arrive last-to-first: a continuation, then its entry start.
    let mut a = ZshReassembler::new();
    assert_eq!(a.feed_line(b": 2:0;b".to_vec()), Some(": 2:0;b".to_string()));
    assert_eq!(a.feed_line(b"test".to_vec()), None);
    assert_eq!(
        a.feed_line(b": 1:0;gcc \\".to_vec()),
        Some(": 1:0;gcc \\\ntest".to_string())
    );
    assert_eq!(a.finish(), None);
}

#[test]
fn reassembler_decodes_before_matching() {
    let mut a = ZshReassembler::new();
    // Marker then 0x4B: the line is unescaped to ": 8:0;xk" before the
    // start pattern is tested, and the emitted entry holds the decoded text.
    assert_eq!(
        a.feed_line(b": 8:0;x\x83\x4b".to_vec()),
        Some(": 8:0;xk".to_string())
    );
}

#[test]
fn commands_crossing_block_boundaries() {
    // Far more than one 4096-byte block, so lines straddle block reads.
    let n: usize = 3000;
    let mut data: Vec<u8> = Vec::new();
    for i in 0..n {
        data.extend_from_slice(format!("command number {} with some padding", i).as_bytes());
        data.push(b'\n');
    }
    let mut reader = BashHistoryReader::from_bytes(data);
    for i in (0..n).rev() {
        assert_eq!(
            reader.read_command(),
            Ok(format!("command number {} with some padding", i))
        );
    }
    assert_eq!(reader.read_command(), Err(Error::EOF));
}
