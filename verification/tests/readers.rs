use shellhist::Error;
use shellhist::bash::BashHistoryReader;
use shellhist::zsh::ZshHistoryReader;

#[test]
fn bash_lines_parsing() {
    let s = b"git\ngcc test\nvim .zsh\nvim .zshrc\nls";
    let mut reader = BashHistoryReader::from_bytes(s.to_vec());
    assert_eq!(reader.read_command(), Ok("ls".to_string()));
    assert_eq!(reader.read_command(), Ok("vim .zshrc".to_string()));
    assert_eq!(reader.read_command(), Ok("vim .zsh".to_string()));
    assert_eq!(reader.read_command(), Ok("gcc test".to_string()));
    assert_eq!(reader.read_command(), Ok("git".to_string()));
    assert_eq!(reader.read_command(), Err(Error::EOF));
}

#[test]
fn zsh_lines_parsing() {
    let s = b": 1681548611:0;git\n: 1681548612:0;gcc \\\ntest\n: 1681548613:0;vim .zsh\n: 1681548614:0;vim .zshrc\n: 1681548615:0;ls";
    let mut reader = ZshHistoryReader::from_bytes(s.to_vec());
    assert_eq!(reader.read_command(), Ok(": 1681548615:0;ls".to_string()));
    assert_eq!(reader.read_command(), Ok(": 1681548614:0;vim .zshrc".to_string()));
    assert_eq!(reader.read_command(), Ok(": 1681548613:0;vim .zsh".to_string()));
    assert_eq!(reader.read_command(), Ok(": 1681548612:0;gcc \\\ntest".to_string()));
    assert_eq!(reader.read_command(), Ok(": 1681548611:0;git".to_string()));
    assert_eq!(reader.read_command(), Err(Error::EOF));
}

#[test]
fn replace_meta_char() {
    let s = b": 1681739174:0;echo \xE5\xAD\x83\xB7\xE4\xB8\xB2\xE6\xB8\xAC\xE8\xA9\xA6";
    let mut reader = ZshHistoryReader::from_bytes(s.to_vec());
    assert_eq!(
        reader.read_command(),
        Ok(String::from_utf8_lossy(b": 1681739174:0;echo \xE5\xAD\x97\xE4\xB8\xB2\xE6\xB8\xAC\xE8\xA9\xA6").to_string())
    );
}

#[test]
fn simple_layout_reverse_order() {
    let s = b"git\ngcc test\nvim .zshrc\n";
    let mut reader = BashHistoryReader::from_bytes(s.to_vec());
    assert_eq!(reader.read_command(), Ok("vim .zshrc".to_string()));
    assert_eq!(reader.read_command(), Ok("gcc test".to_string()));
    assert_eq!(reader.read_command(), Ok("git".to_string()));
    assert_eq!(reader.read_command(), Err(Error::EOF));
}

#[test]
fn annotated_layout_example() {
    let s = b": 100:0;git\n: 101:0;gcc \\\ntest\n";
    let mut reader = ZshHistoryReader::from_bytes(s.to_vec());
    assert_eq!(reader.read_command(), Ok(": 101:0;gcc \\\ntest".to_string()));
    assert_eq!(reader.read_command(), Ok(": 100:0;git".to_string()));
    assert_eq!(reader.read_command(), Err(Error::EOF));
    // Exhaustion is terminal: every later call keeps failing the same way.
    assert_eq!(reader.read_command(), Err(Error::EOF));
}

#[test]
fn empty_input_is_eof() {
    let mut bash = BashHistoryReader::from_bytes(Vec::new());
    assert_eq!(bash.read_command(), Err(Error::EOF));
    let mut zsh = ZshHistoryReader::from_bytes(Vec::new());
    assert_eq!(zsh.read_command(), Err(Error::EOF));
}

#[test]
fn trailing_delimiter_is_ignored() {
    let with: &[u8] = b"a\nb\n";
    let without: &[u8] = b"a\nb";
    let mut r1 = BashHistoryReader::from_bytes(with.to_vec());
    let mut r2 = BashHistoryReader::from_bytes(without.to_vec());
    for _ in 0..3 {
        assert_eq!(r1.read_command(), r2.read_command());
    }
    let mut z1 = ZshHistoryReader::from_bytes(b": 1:0;x\n".to_vec());
    let mut z2 = ZshHistoryReader::from_bytes(b": 1:0;x".to_vec());
    for _ in 0..2 {
        assert_eq!(z1.read_command(), z2.read_command());
    }
}

#[test]
fn decode_is_idempotent_without_marker() {
    // No marker byte anywhere: every command comes back byte-for-byte.
    let s = b": 5:0;echo hi\n: 6:0;ls -l\n";
    let mut reader = ZshHistoryReader::from_bytes(s.to_vec());
    assert_eq!(reader.read_command(), Ok(": 6:0;ls -l".to_string()));
    assert_eq!(reader.read_command(), Ok(": 5:0;echo hi".to_string()));
    assert_eq!(reader.read_command(), Err(Error::EOF));
}

#[test]
fn marker_unmasks_next_byte() {
    // Marker then 0x4B: decodes to 0x4B XOR 32 == 0x6B, the letter k.
    let s = b": 9:0;echo \x83\x4b";
    let mut reader = ZshHistoryReader::from_bytes(s.to_vec());
    assert_eq!(reader.read_command(), Ok(": 9:0;echo k".to_string()));
}

#[test]
fn marker_as_last_byte_is_dropped() {
    let s = b": 9:0;abc\x83";
    let mut reader = ZshHistoryReader::from_bytes(s.to_vec());
    assert_eq!(reader.read_command(), Ok(": 9:0;abc".to_string()));
}

#[test]
fn continuation_newline_count() {
    let s = b": 7:0;for i\ndo x\ndone\n";
    let mut reader = ZshHistoryReader::from_bytes(s.to_vec());
    let cmd = reader.read_command().unwrap();
    assert_eq!(cmd, ": 7:0;for i\ndo x\ndone".to_string());
    assert_eq!(cmd.bytes().filter(|b| *b == b'\n').count(), 2);
    assert_eq!(reader.read_command(), Err(Error::EOF));
}

#[test]
fn round_trip_oldest_first() {
    let s = b": 1:0;a\nb\n: 2:0;c\n";
    let mut reader = ZshHistoryReader::from_bytes(s.to_vec());
    let mut cmds = Vec::new();
    while let Ok(c) = reader.read_command() {
        cmds.push(c);
    }
    cmds.reverse();
    assert_eq!(cmds.join("\n").as_bytes(), b": 1:0;a\nb\n: 2:0;c");
}

#[test]
fn leading_lines_without_start_marker() {
    // Lines at the top of the file with no start line of their own come
    // back as one final entry once the source is exhausted.
    let s = b"plain\nlines";
    let mut reader = ZshHistoryReader::from_bytes(s.to_vec());
    assert_eq!(reader.read_command(), Ok("plain\nlines".to_string()));
    assert_eq!(reader.read_command(), Err(Error::EOF));
}

#[test]
fn invalid_utf8_is_replaced() {
    let mut reader = BashHistoryReader::from_bytes(vec![0xff]);
    assert_eq!(reader.read_command(), Ok("\u{FFFD}".to_string()));
}

#[test]
fn empty_middle_line_is_kept() {
    let s = b"a\n\nb";
    let mut reader = BashHistoryReader::from_bytes(s.to_vec());
    assert_eq!(reader.read_command(), Ok("b".to_string()));
    assert_eq!(reader.read_command(), Ok("".to_string()));
    assert_eq!(reader.read_command(), Ok("a".to_string()));
    assert_eq!(reader.read_command(), Err(Error::EOF));
}

#[test]
fn start_pattern_needs_both_numbers() {
    // ": x:0;..." has no timestamp digits, so it is no entry start: it is
    // joined as a continuation of the entry above it.
    let s = b": 3:0;a\n: x:0;b";
    let mut reader = ZshHistoryReader::from_bytes(s.to_vec());
    assert_eq!(reader.read_command(), Ok(": 3:0;a\n: x:0;b".to_string()));
    assert_eq!(reader.read_command(), Err(Error::EOF));
}
