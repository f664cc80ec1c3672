use cheat_parser::{hex_to_u32, parse_cheats, SliceSubsequence, INVALID_LINE, SUCCESS};

const WHITESPACE: &[u8] = b" \t\n\r";

#[test]
fn test_hex_to_u32() {
    println!("i: {:?}", b"c rust test\0");
    assert_eq!(hex_to_u32(b"0x09"), 9);
}

#[test]
fn test_trim_start() {
    let buf = &b"    bla"[..];
    let buf = buf.trim_start(WHITESPACE);
    assert_eq!(buf, b"bla");

    let buf = &b"\n\t\r   \rbla"[..];
    let buf = buf.trim_start(WHITESPACE);
    assert_eq!(buf, b"bla");
}

#[test]
fn test_trim_end() {
    let buf = &b"bla    "[..];
    let buf = buf.trim_end(WHITESPACE);
    assert_eq!(buf, b"bla");

    let buf = &b"bla\n\t\r   \r"[..];
    let buf = buf.trim_end(WHITESPACE);
    assert_eq!(buf, b"bla");
}

#[test]
fn test_trim() {
    let buf = &b"    bla    "[..];
    let buf = buf.trim(WHITESPACE);
    assert_eq!(buf, b"bla");

    let buf = &b"\n\t\r   \rbla\n\t\r   \r"[..];
    let buf = buf.trim(WHITESPACE);
    assert_eq!(buf, b"bla");
}

#[test]
fn test_lines() {
    let lines = &b"\
line1
line2\r
line3
"[..];
    let mut lines = lines.lines(b"\n");
    assert_eq!(lines.next(), Some(&b"line1"[..]));
    assert_eq!(lines.next(), Some(&b"line2\r"[..]));
    assert_eq!(lines.next(), Some(&b"line3"[..]));
    assert_eq!(lines.next(), None);
    assert_eq!(lines.next(), None);

    let lines = &b"F10004E4 2400"[..];
    let mut lines = lines.lines(b" ");
    assert_eq!(lines.next(), Some(&b"F10004E4"[..]));
    assert_eq!(lines.next(), Some(&b"2400"[..]));
    assert_eq!(lines.next(), None);
}

#[test]
fn test_parse_cheats() {
    let cheats_file = &b"\
---

A:
  - F10004E4 2400
  - EE000000 0000

B:
  - 8138EDA0 2400

        "[..];
    let mut boot_cheats = [0u32; 6];
    let mut in_game_cheats = [0u32; 6];
    let ok = parse_cheats(cheats_file, &mut boot_cheats, &mut in_game_cheats);
    assert_eq!(ok, SUCCESS);
    assert_eq!(boot_cheats, [0xF10004E4, 0x2400, 0xEE000000, 0x0000, 0, 0]);
    assert_eq!(in_game_cheats, [0x8138EDA0, 0x2400, 0, 0, 0, 0]);

    let cheats_file = &b"\
---
# Legend of Zelda, The - Ocarina of Time (USA) (Rev 2)

Master Code:
  - F10004E4 2400
  - EE000000 0000

In Health (ASM):
  - 8138EDA0 2400
        "[..];
    let mut boot_cheats = [0u32; 6];
    let mut in_game_cheats = [0u32; 6];
    let ok = parse_cheats(cheats_file, &mut boot_cheats, &mut in_game_cheats);
    assert_eq!(ok, SUCCESS);
    assert_eq!(boot_cheats, [0xF10004E4, 0x2400, 0xEE000000, 0x0000, 0, 0]);
    assert_eq!(in_game_cheats, [0x8138EDA0, 0x2400, 0, 0, 0, 0]);

    let cheats_file = &b"wootwootwootwootwootwootwootwoot\0"[..];
    let cheats_file = &b"wootwootwootwootwootwootwootwoot"[..];
    let mut boot_cheats = [0u32; 6];
    let mut in_game_cheats = [0u32; 6];
    let ok = parse_cheats(cheats_file, &mut boot_cheats, &mut in_game_cheats);
    assert_eq!(ok, INVALID_LINE);
    assert_eq!(boot_cheats, [0, 0, 0, 0, 0, 0]);
    assert_eq!(in_game_cheats, [0, 0, 0, 0, 0, 0]);
}
