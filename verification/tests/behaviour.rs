use cheat_parser::{
    hex_to_u32, parse_cheats, SliceSubsequence, INVALID_CODE_LINE, INVALID_LINE, SUCCESS,
};

const WHITESPACE: &[u8] = b" \t\n\r";

fn run(file: &[u8]) -> (u8, [u32; 8], [u32; 8]) {
    let mut boot = [0u32; 8];
    let mut game = [0u32; 8];
    let code = parse_cheats(file, &mut boot, &mut game);
    (code, boot, game)
}

#[test]
fn trim_of_only_set_elements_is_empty() {
    let buf = &b" \t \r\n"[..];
    assert_eq!(buf.trim(WHITESPACE), b"");
    assert_eq!(buf.trim_start(WHITESPACE), b"");
    assert_eq!(buf.trim_end(WHITESPACE), b"");
    let empty = &b""[..];
    assert_eq!(empty.trim(WHITESPACE), b"");
}

#[test]
fn trim_start_treats_needle_as_a_set() {
    let buf = &b" - -x- "[..];
    assert_eq!(buf.trim_start(b"- "), b"x- ");
    assert_eq!(buf.trim_end(b"- "), b" - -x");
    assert_eq!(buf.trim(b"- "), b"x");
}

#[test]
fn trim_keeps_inner_set_elements() {
    let buf = &b"  a b  "[..];
    assert_eq!(buf.trim(WHITESPACE), b"a b");
}

#[test]
fn trim_laws_on_values() {
    let s = &b"\t xy z \n"[..];
    let a = s.trim(WHITESPACE);
    let b = s.trim_start(WHITESPACE);
    let b = b.trim_end(WHITESPACE);
    let c = s.trim_end(WHITESPACE);
    let c = c.trim_start(WHITESPACE);
    assert_eq!(a, b);
    assert_eq!(a, c);
    assert_eq!(a.trim(WHITESPACE), a);
    let d = s.trim_start(WHITESPACE);
    assert_eq!(d.trim_start(WHITESPACE), d);
}

#[test]
fn first_index_of_finds_the_first_occurrence() {
    let s = &b"abcabc"[..];
    assert_eq!(s.first_index_of(b"bc"), Some(1));
    assert_eq!(s.first_index_of(b"abc"), Some(0));
    assert_eq!(s.first_index_of(b"cab"), Some(2));
    assert_eq!(s.first_index_of(b"cc"), None);
    assert_eq!(s.first_index_of(b"abcabcx"), None);
    assert_eq!(s.first_index_of(b""), Some(0));
    let empty = &b""[..];
    assert_eq!(empty.first_index_of(b""), Some(0));
    assert_eq!(empty.first_index_of(b"a"), None);
}

#[test]
fn contains_seq_matches_first_index_of() {
    let s = &b"F10004E4 2400"[..];
    assert!(s.contains_seq(b" "));
    assert!(s.contains_seq(b"2400"));
    assert!(!s.contains_seq(b"24000"));
}

#[test]
fn lines_keep_empty_pieces_but_no_trailing_one() {
    let s = &b"a\n\nb\n"[..];
    let mut it = s.lines(b"\n");
    assert_eq!(it.next(), Some(&b"a"[..]));
    assert_eq!(it.next(), Some(&b""[..]));
    assert_eq!(it.next(), Some(&b"b"[..]));
    assert_eq!(it.next(), None);
    let empty = &b""[..];
    let mut it = empty.lines(b"\n");
    assert_eq!(it.next(), None);
}

#[test]
fn lines_with_a_longer_separator() {
    let s = &b"aaa"[..];
    let mut it = s.lines(b"aa");
    assert_eq!(it.next(), Some(&b""[..]));
    assert_eq!(it.next(), Some(&b"a"[..]));
    assert_eq!(it.next(), None);
    let s = &b"x--y--"[..];
    let mut it = s.lines(b"--");
    assert_eq!(it.next(), Some(&b"x"[..]));
    assert_eq!(it.next(), Some(&b"y"[..]));
    assert_eq!(it.next(), None);
}

#[test]
fn hex_reads_digits_signs_and_prefixes() {
    assert_eq!(hex_to_u32(b"F10004E4"), 0xF10004E4);
    assert_eq!(hex_to_u32(b"2400"), 0x2400);
    assert_eq!(hex_to_u32(b"0000"), 0);
    assert_eq!(hex_to_u32(b"ff"), 255);
    assert_eq!(hex_to_u32(b"0XaB"), 0xAB);
    assert_eq!(hex_to_u32(b" \x0b+1f"), 0x1F);
    assert_eq!(hex_to_u32(b"-1"), 0xFFFF_FFFF);
    assert_eq!(hex_to_u32(b"-10"), 0xFFFF_FFF0);
    assert_eq!(hex_to_u32(b"12g4"), 0x12);
    assert_eq!(hex_to_u32(b""), 0);
    assert_eq!(hex_to_u32(b"0x"), 0);
    assert_eq!(hex_to_u32(b"zz"), 0);
    assert_eq!(hex_to_u32(b"FFFFFFFF"), 0xFFFF_FFFF);
    assert_eq!(hex_to_u32(b"100000000"), 0xFFFF_FFFF);
    assert_eq!(hex_to_u32(b"-100000000"), 0xFFFF_FFFF);
}

#[test]
fn code_line_without_value_is_invalid() {
    let (code, boot, game) = run(b"A:\n  - F10004E4 2400\n  - 8138EDA0\n  - 8138EDA2 0001\n");
    assert_eq!(code, INVALID_CODE_LINE);
    assert_eq!(boot, [0xF10004E4, 0x2400, 0, 0, 0, 0, 0, 0]);
    assert_eq!(game, [0; 8]);
}

#[test]
fn code_line_with_three_fields_is_invalid() {
    let (code, _, _) = run(b"- 8138EDA0 2400 1");
    assert_eq!(code, INVALID_CODE_LINE);
    let (code, _, _) = run(b"- 8138EDA0  2400");
    assert_eq!(code, INVALID_CODE_LINE);
}

#[test]
fn stray_text_is_an_invalid_line_after_earlier_codes() {
    let (code, boot, game) = run(b"- 8138EDA0 2400\nnot a code\n- 8138EDA2 0001\n");
    assert_eq!(code, INVALID_LINE);
    assert_eq!(boot, [0; 8]);
    assert_eq!(game, [0x8138EDA0, 0x2400, 0, 0, 0, 0, 0, 0]);
}

#[test]
fn dropped_code_types() {
    let (code, boot, game) =
        run(b"- 20000000 0000\n- CC000000 0001\n- DE000400 0000\n- D1000001 0002\n- 81000001 0003\n- 50000101 0000\n");
    assert_eq!(code, SUCCESS);
    assert_eq!(boot, [0; 8]);
    assert_eq!(game, [0; 8]);
}

#[test]
fn conditional_codes_go_in_game() {
    let (code, boot, game) = run(b"- D0081234 0042\n- 81081234 2400\n");
    assert_eq!(code, SUCCESS);
    assert_eq!(boot, [0; 8]);
    assert_eq!(game, [0xD0081234, 0x42, 0x81081234, 0x2400, 0, 0, 0, 0]);
}

#[test]
fn boot_code_types() {
    let (code, boot, game) = run(b"- FF000220 0000\n- F0000318 0040\n");
    assert_eq!(code, SUCCESS);
    assert_eq!(boot, [0xFF000220, 0, 0xF0000318, 0x40, 0, 0, 0, 0]);
    assert_eq!(game, [0; 8]);
}

#[test]
fn repeater_data_is_copied_unchecked() {
    let (code, boot, game) = run(b"- 50000010 0000\n- F1000001 0001\n- F1000002 0002\n");
    assert_eq!(code, SUCCESS);
    assert_eq!(game, [0x50000010, 0, 0xF1000001, 1, 0, 0, 0, 0]);
    assert_eq!(boot, [0xF1000002, 2, 0, 0, 0, 0, 0, 0]);
}

#[test]
fn a_title_closes_repeater_data_but_a_comment_does_not() {
    let (_, boot, game) = run(b"- 50000010 0000\nNext:\n- F1000002 0002\n");
    assert_eq!(game, [0x50000010, 0, 0, 0, 0, 0, 0, 0]);
    assert_eq!(boot, [0xF1000002, 2, 0, 0, 0, 0, 0, 0]);
    let (_, boot, game) = run(b"- 50000010 0000\n# note\n\n- F1000002 0002\n");
    assert_eq!(game, [0x50000010, 0, 0xF1000002, 2, 0, 0, 0, 0]);
    assert_eq!(boot, [0; 8]);
}

#[test]
fn entries_past_the_written_ones_are_kept() {
    let mut boot = [7u32; 4];
    let mut game = [9u32; 3];
    let code = parse_cheats(b"- EE000000 0000\n", &mut boot, &mut game);
    assert_eq!(code, SUCCESS);
    assert_eq!(boot, [0xEE000000, 0, 7, 7]);
    assert_eq!(game, [9, 9, 9]);
}

#[test]
fn tables_hold_whole_codes() {
    let (_, boot, game) = run(b"- EE000000 0000\n- 8138EDA0 2400\n- F10004E4 2400\n");
    assert_eq!(boot[..4], [0xEE000000, 0, 0xF10004E4, 0x2400]);
    assert_eq!(game[..2], [0x8138EDA0, 0x2400]);
    assert!(boot[0] >> 24 == 0xEE && boot[2] >> 24 == 0xF1);
}

#[test]
fn table_lengths_match_what_parse_cheats_writes() {
    let file = b"- EE000000 0000\n- 8138EDA0 2400\n- F10004E4 2400\nbad\n- 8138EDA2 2400\n";
    assert_eq!(cheat_parser::cheat_table_lens(file), (4, 2));
    assert_eq!(cheat_parser::cheat_table_lens(b"# nothing\n"), (0, 0));
}

#[test]
fn works_on_other_element_types() {
    let words: &[u16] = &[0, 0, 7, 300, 0, 9, 0];
    assert_eq!(words.trim(&[0]), &[7, 300, 0, 9]);
    assert_eq!(words.trim_start(&[0]), &[7, 300, 0, 9, 0]);
    assert_eq!(words.trim_end(&[0, 9]), &[0, 0, 7, 300]);
    assert_eq!(words.first_index_of(&[300, 0]), Some(3));
    assert!(!words.contains_seq(&[300, 9]));
    let mut it = words.lines(&[0]);
    assert_eq!(it.next(), Some(&[][..]));
    assert_eq!(it.next(), Some(&[][..]));
    assert_eq!(it.next(), Some(&[7, 300][..]));
    assert_eq!(it.next(), Some(&[9][..]));
    assert_eq!(it.next(), None);
    let text: &[char] = &['a', ',', 'b'];
    let mut it = text.lines(&[',']);
    assert_eq!(it.next(), Some(&['a'][..]));
    assert_eq!(it.next(), Some(&['b'][..]));
    assert_eq!(it.next(), None);
}

#[test]
fn crlf_padding_and_comments_change_nothing() {
    let plain = b"A:\n- F10004E4 2400\n- 50000010 0000\n- F1000002 0002\n- 8138EDA0 2400\n";
    let edited =
        b"A:\r\n\t- F10004E4 2400 \r\n# note\r\n  - 50000010 0000\r\n\n- F1000002 0002\r\n---\r\n- 8138EDA0 2400\r\n";
    assert_eq!(run(plain), run(edited));
    let (code, boot, game) = run(edited);
    assert_eq!(code, SUCCESS);
    assert_eq!(boot, [0xF10004E4, 0x2400, 0, 0, 0, 0, 0, 0]);
    assert_eq!(game, [0x50000010, 0, 0xF1000002, 2, 0x8138EDA0, 0x2400, 0, 0]);
}

#[test]
fn empty_separator_yields_empty_pieces_without_moving() {
    let s = &b"ab"[..];
    let mut it = s.lines(b"");
    for _ in 0..5 {
        assert_eq!(it.next(), Some(&b""[..]));
    }
    assert_eq!(s.first_index_of(b""), Some(0));
    assert!(s.contains_seq(b""));
    assert!(!s.contains_seq(b"abc"));
}
