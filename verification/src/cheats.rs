use vstd::prelude::*;

use crate::hex::{hex_to_u32, strtoul_hex};
use crate::subseq::{
    occurs_at, occurs_at_exec, split_lines, trimmed, trimmed_start, LineIterator, SliceSubsequence,
};

verus! {

/// The cheat file was read to its end.
pub const SUCCESS: u8 = 0;

/// A code line does not hold exactly an address and a value.
pub const INVALID_CODE_LINE: u8 = 1;

/// A line is neither blank, a comment, the document start, a title nor a code.
pub const INVALID_LINE: u8 = 2;

/// The table that a code is written to.
pub enum CheatList {
    /// Applied once, at boot.
    Boot,
    /// Applied while the game runs.
    InGame,
}

/// The bytes trimmed from lines and fields: space, `\t`, `\n` and `\r`.
pub open spec fn whitespace() -> Seq<u8> {
    seq![32u8, 9u8, 10u8, 13u8]
}

/// `s` begins with `p`.
pub open spec fn has_prefix(s: Seq<u8>, p: Seq<u8>) -> bool {
    occurs_at(s, p, 0)
}

/// `s` ends with `p`.
pub open spec fn has_suffix(s: Seq<u8>, p: Seq<u8>) -> bool {
    p.len() <= s.len() && occurs_at(s, p, s.len() - p.len())
}

/// Where a code read outside repeater data goes, by its code type (the top
/// byte of its address), and whether it opens repeater data. Codes that
/// clear the list, select the exception handler or set the entry point are
/// dropped; boot-time codes go to the boot table; a repeater goes to the
/// in-game table when its count byte is zero, and opens repeater data;
/// every other code goes to the in-game table unless it is a misaligned
/// 16-bit code (bits 24 and 0 both set).
pub open spec fn code_effect(address: u32, value: u32) -> (bool, Option<(CheatList, u32, u32)>) {
    let code_type = address >> 24u32;
    if code_type == 0x20 || code_type == 0xCC || code_type == 0xDE {
        (false, None)
    } else if code_type == 0xEE || code_type == 0xF0 || code_type == 0xF1 || code_type == 0xFF {
        (false, Some((CheatList::Boot, address, value)))
    } else if code_type == 0x50 {
        if address & 0x0000_FF00u32 == 0 {
            (true, Some((CheatList::InGame, address, value)))
        } else {
            (false, None)
        }
    } else if address & 0x0100_0001u32 == 0x0100_0001u32 {
        (false, None)
    } else {
        (false, Some((CheatList::InGame, address, value)))
    }
}

/// What one line of a cheat file does, given whether the previous code
/// opened repeater data: the new repeater state and the code to store, or
/// the error code. Blank lines, comments (`#`) and `---` change nothing; a
/// title (ending in `:`) closes repeater data; a code line `- ADDRESS VALUE`
/// holds two hexadecimal fields separated by one space.
#[verifier::opaque]
pub open spec fn cheat_line_effect(line: Seq<u8>, repeater: bool) -> Result<
    (bool, Option<(CheatList, u32, u32)>),
    u8,
> {
    let t = trimmed(line, whitespace());
    if t.len() == 0 || has_prefix(t, seq![35u8]) || t == seq![45u8, 45u8, 45u8] {
        Ok((repeater, None))
    } else if has_suffix(t, seq![58u8]) {
        Ok((false, None))
    } else if has_prefix(t, seq![45u8, 32u8]) {
        let body = trimmed(trimmed_start(t, seq![45u8, 32u8]), whitespace());
        let fields = split_lines(body, seq![32u8]);
        if fields.len() != 2 {
            Err(INVALID_CODE_LINE)
        } else {
            let address = strtoul_hex(trimmed(fields[0], whitespace()));
            let value = strtoul_hex(trimmed(fields[1], whitespace()));
            if repeater {
                Ok((false, Some((CheatList::InGame, address, value))))
            } else {
                Ok(code_effect(address, value))
            }
        }
    } else {
        Err(INVALID_LINE)
    }
}

/// The two words that a stored code adds to `list`.
pub open spec fn words_for(entry: Option<(CheatList, u32, u32)>, list: CheatList) -> Seq<u32> {
    match entry {
        Some((l, address, value)) => if l == list {
            seq![address, value]
        } else {
            Seq::empty()
        },
        None => Seq::empty(),
    }
}

/// Reading `lines` in order from the given repeater state: the result code
/// and the words written to the boot and in-game tables. Reading stops at
/// the first invalid line, keeping the words written before it.
pub open spec fn run_cheat_lines(lines: Seq<Seq<u8>>, repeater: bool) -> (u8, Seq<u32>, Seq<u32>)
    decreases lines.len(),
{
    if lines.len() == 0 {
        (SUCCESS, Seq::empty(), Seq::empty())
    } else {
        match cheat_line_effect(lines[0], repeater) {
            Err(code) => (code, Seq::empty(), Seq::empty()),
            Ok((next_repeater, entry)) => {
                let rest = run_cheat_lines(lines.drop_first(), next_repeater);
                (
                    rest.0,
                    words_for(entry, CheatList::Boot) + rest.1,
                    words_for(entry, CheatList::InGame) + rest.2,
                )
            },
        }
    }
}

/// A cheat file read line by line (lines end at `\n`): the result code and
/// the words of the boot and in-game tables.
pub open spec fn parsed_cheats(file: Seq<u8>) -> (u8, Seq<u32>, Seq<u32>) {
    run_cheat_lines(split_lines(file, seq![10u8]), false)
}

fn starts_with(s: &[u8], p: &[u8]) -> (r: bool)
    ensures
        r == has_prefix(s@, p@),
{
    occurs_at_exec(s, p, 0)
}

fn ends_with(s: &[u8], p: &[u8]) -> (r: bool)
    ensures
        r == has_suffix(s@, p@),
{
    if p.len() > s.len() {
        false
    } else {
        occurs_at_exec(s, p, s.len() - p.len())
    }
}

fn code_line_effect(address: u32, value: u32) -> (r: (bool, Option<(CheatList, u32, u32)>))
    ensures
        r == code_effect(address, value),
{
    let code_type = address >> 24u32;
    if code_type == 0x20 || code_type == 0xCC || code_type == 0xDE {
        (false, None)
    } else if code_type == 0xEE || code_type == 0xF0 || code_type == 0xF1 || code_type == 0xFF {
        (false, Some((CheatList::Boot, address, value)))
    } else if code_type == 0x50 {
        if address & 0x0000_FF00u32 == 0 {
            (true, Some((CheatList::InGame, address, value)))
        } else {
            (false, None)
        }
    } else if address & 0x0100_0001u32 == 0x0100_0001u32 {
        (false, None)
    } else {
        (false, Some((CheatList::InGame, address, value)))
    }
}

fn cheat_line(line: &[u8], repeater: bool) -> (r: Result<(bool, Option<(CheatList, u32, u32)>), u8>)
    ensures
        r == cheat_line_effect(line@, repeater),
{
    reveal(cheat_line_effect);
    let ws: &[u8] = &[32u8, 9u8, 10u8, 13u8];
    let hash: &[u8] = &[35u8];
    let dashes: &[u8] = &[45u8, 45u8, 45u8];
    let colon: &[u8] = &[58u8];
    let dash_space: &[u8] = &[45u8, 32u8];
    let space: &[u8] = &[32u8];
    assert(ws@ =~= whitespace());
    assert(hash@ =~= seq![35u8]);
    assert(dashes@ =~= seq![45u8, 45u8, 45u8]);
    assert(colon@ =~= seq![58u8]);
    assert(dash_space@ =~= seq![45u8, 32u8]);
    assert(space@ =~= seq![32u8]);
    let t = line.trim(ws);
    let is_dashes = t.len() == 3 && starts_with(t, dashes);
    assert(is_dashes <==> t@ == seq![45u8, 45u8, 45u8]) by {
        if t@.len() == 3 {
            assert(t@.subrange(0, 3) =~= t@);
        }
    }
    if t.len() == 0 || starts_with(t, hash) || is_dashes {
        Ok((repeater, None))
    } else if ends_with(t, colon) {
        Ok((false, None))
    } else if starts_with(t, dash_space) {
        let body = t.trim_start(dash_space);
        let body = body.trim(ws);
        let mut fields = body.lines(space);
        assert(body@.skip(0) =~= body@);
        let ghost all = fields.lines_left();
        let first = fields.next();
        let second = fields.next();
        let third = fields.next();
        assert(first is Some && second is Some && third is None <==> all.len() == 2) by {
            if all.len() >= 1 {
                assert(all.drop_first().len() == all.len() - 1);
            }
            if all.len() >= 2 {
                assert(all.drop_first().drop_first().len() == all.len() - 2);
            }
        }
        assert(first matches Some(a) ==> a@ == all[0]);
        assert(second matches Some(b) ==> b@ == all[1]);
        match (first, second, third) {
            (Some(address), Some(value), None) => {
                let address = hex_to_u32(address.trim(ws));
                let value = hex_to_u32(value.trim(ws));
                if repeater {
                    Ok((false, Some((CheatList::InGame, address, value))))
                } else {
                    Ok(code_line_effect(address, value))
                }
            },
            _ => Err(INVALID_CODE_LINE),
        }
    } else {
        Err(INVALID_LINE)
    }
}

/// Reads lines of a cheat file until one stores a code (`Ok(Some(..))`),
/// one is invalid (`Err(code)`), or none is left (`Ok(None)`), updating the
/// repeater state on the way.
fn next_code<'a>(lines: &mut LineIterator<'a, u8>, repeater: &mut bool) -> (r: Result<
    Option<(CheatList, u32, u32)>,
    u8,
>)
    requires
        old(lines).separator() == seq![10u8],
    ensures
        final(lines).text() == old(lines).text(),
        final(lines).separator() == seq![10u8],
        ({
            let before = run_cheat_lines(old(lines).lines_left(), *old(repeater));
            let after = run_cheat_lines(final(lines).lines_left(), *final(repeater));
            match r {
                Err(code) => before == (code, Seq::<u32>::empty(), Seq::<u32>::empty()),
                Ok(None) => before == (SUCCESS, Seq::<u32>::empty(), Seq::<u32>::empty()),
                Ok(Some(entry)) => {
                    &&& before.0 == after.0
                    &&& before.1 == words_for(Some(entry), CheatList::Boot) + after.1
                    &&& before.2 == words_for(Some(entry), CheatList::InGame) + after.2
                    &&& final(lines).lines_left().len() < old(lines).lines_left().len()
                },
            }
        }),
{
    let ghost start = run_cheat_lines(lines.lines_left(), *repeater);
    let ghost start_len = lines.lines_left().len();
    loop
        invariant
            lines.text() == old(lines).text(),
            lines.separator() == seq![10u8],
            start == run_cheat_lines(old(lines).lines_left(), *old(repeater)),
            start_len == old(lines).lines_left().len(),
            start == run_cheat_lines(lines.lines_left(), *repeater),
            lines.lines_left().len() <= start_len,
        decreases lines.lines_left().len(),
    {
        let ghost left = lines.lines_left();
        let line = match lines.next() {
            None => {
                return Ok(None);
            },
            Some(line) => line,
        };
        match cheat_line(line, *repeater) {
            Err(code) => {
                return Err(code);
            },
            Ok((next_repeater, entry)) => {
                *repeater = next_repeater;
                match entry {
                    Some(entry) => {
                        return Ok(Some(entry));
                    },
                    None => {
                        assert(start.1 =~= run_cheat_lines(lines.lines_left(), *repeater).1);
                        assert(start.2 =~= run_cheat_lines(lines.lines_left(), *repeater).2);
                    },
                }
            },
        }
    }
}

/// Reads a cheat file into the boot-time and in-game code tables: each
/// stored code writes its address and then its value to the next two free
/// entries of its table, from the start. Returns `SUCCESS`, or the error
/// code of the first invalid line, after which nothing more is read; the
/// codes stored before it stay written. Entries past those written are left
/// as they were.
pub fn parse_cheats(cheat_file: &[u8], boot_cheats: &mut [u32], in_game_cheats: &mut [u32]) -> (r: u8)
    requires
        parsed_cheats(cheat_file@).1.len() <= old(boot_cheats)@.len(),
        parsed_cheats(cheat_file@).2.len() <= old(in_game_cheats)@.len(),
    ensures
        r == parsed_cheats(cheat_file@).0,
        final(boot_cheats)@ == parsed_cheats(cheat_file@).1 + old(boot_cheats)@.skip(
            parsed_cheats(cheat_file@).1.len() as int,
        ),
        final(in_game_cheats)@ == parsed_cheats(cheat_file@).2 + old(in_game_cheats)@.skip(
            parsed_cheats(cheat_file@).2.len() as int,
        ),
{
    let ghost total = parsed_cheats(cheat_file@);
    let ghost boot0 = boot_cheats@;
    let ghost game0 = in_game_cheats@;
    let newline: &[u8] = &[10u8];
    assert(newline@ =~= seq![10u8]);
    let mut repeater = false;
    let mut boot_cheats_idx: usize = 0;
    let mut in_game_cheats_idx: usize = 0;
    let ghost mut boot_done: Seq<u32> = Seq::empty();
    let ghost mut game_done: Seq<u32> = Seq::empty();
    let mut lines = cheat_file.lines(newline);
    assert(cheat_file@.skip(0) =~= cheat_file@);
    assert(boot0.skip(0) =~= boot0);
    assert(game0.skip(0) =~= game0);
    let boot_len = boot_cheats.len();
    let in_game_len = in_game_cheats.len();
    let mut result: u8 = SUCCESS;
    loop
        invariant_except_break
            result == SUCCESS,
            lines.separator() == seq![10u8],
            boot_done.len() == boot_cheats_idx,
            game_done.len() == in_game_cheats_idx,
            boot_cheats@ == boot_done + boot0.skip(boot_done.len() as int),
            in_game_cheats@ == game_done + game0.skip(game_done.len() as int),
            ({
                let rest = run_cheat_lines(lines.lines_left(), repeater);
                &&& total.0 == rest.0
                &&& total.1 == boot_done + rest.1
                &&& total.2 == game_done + rest.2
            }),
        invariant
            total == parsed_cheats(cheat_file@),
            total.1.len() <= boot0.len(),
            total.2.len() <= game0.len(),
            boot0.len() == boot_len,
            game0.len() == in_game_len,
            boot_cheats@.len() == boot_len,
            in_game_cheats@.len() == in_game_len,
        ensures
            result == total.0,
            boot_cheats@ == total.1 + boot0.skip(total.1.len() as int),
            in_game_cheats@ == total.2 + game0.skip(total.2.len() as int),
        decreases lines.lines_left().len(),
    {
        match next_code(&mut lines, &mut repeater) {
            Err(code) => {
                assert(total.1 =~= boot_done);
                assert(total.2 =~= game_done);
                result = code;
                break;
            },
            Ok(None) => {
                assert(total.1 =~= boot_done);
                assert(total.2 =~= game_done);
                break;
            },
            Ok(Some((CheatList::Boot, address, value))) => {
                let ghost after = run_cheat_lines(lines.lines_left(), repeater);
                assert(total.1 =~= (boot_done + seq![address, value]) + after.1);
                assert(total.2 =~= game_done + after.2);
                store_code(boot_cheats, boot_cheats_idx, address, value);
                boot_cheats_idx += 2;
                proof {
                    boot_done = boot_done + seq![address, value];
                    assert(boot_cheats@ =~= boot_done + boot0.skip(boot_done.len() as int));
                }
            },
            Ok(Some((CheatList::InGame, address, value))) => {
                let ghost after = run_cheat_lines(lines.lines_left(), repeater);
                assert(total.2 =~= (game_done + seq![address, value]) + after.2);
                assert(total.1 =~= boot_done + after.1);
                store_code(in_game_cheats, in_game_cheats_idx, address, value);
                in_game_cheats_idx += 2;
                proof {
                    game_done = game_done + seq![address, value];
                    assert(in_game_cheats@ =~= game_done + game0.skip(game_done.len() as int));
                }
            },
        }
    }
    result
}

/// How many entries `parse_cheats` writes to the boot and in-game tables for
/// `cheat_file` (a count past `usize::MAX` is given as `usize::MAX`): a
/// caller checks its tables against these before handing them over.
pub fn cheat_table_lens(cheat_file: &[u8]) -> (r: (usize, usize))
    ensures
        r.0 == if parsed_cheats(cheat_file@).1.len() > usize::MAX {
            usize::MAX as int
        } else {
            parsed_cheats(cheat_file@).1.len() as int
        },
        r.1 == if parsed_cheats(cheat_file@).2.len() > usize::MAX {
            usize::MAX as int
        } else {
            parsed_cheats(cheat_file@).2.len() as int
        },
{
    let ghost total = parsed_cheats(cheat_file@);
    let newline: &[u8] = &[10u8];
    assert(newline@ =~= seq![10u8]);
    let mut repeater = false;
    let mut boot_count: usize = 0;
    let mut in_game_count: usize = 0;
    let ghost mut boot_done: nat = 0;
    let ghost mut game_done: nat = 0;
    let mut lines = cheat_file.lines(newline);
    assert(cheat_file@.skip(0) =~= cheat_file@);
    loop
        invariant_except_break
            lines.separator() == seq![10u8],
            boot_count == if boot_done > usize::MAX { usize::MAX as nat } else { boot_done },
            in_game_count == if game_done > usize::MAX { usize::MAX as nat } else { game_done },
            ({
                let rest = run_cheat_lines(lines.lines_left(), repeater);
                &&& total.1.len() == boot_done + rest.1.len()
                &&& total.2.len() == game_done + rest.2.len()
            }),
        invariant
            total == parsed_cheats(cheat_file@),
        ensures
            boot_count == if total.1.len() > usize::MAX { usize::MAX as nat } else { total.1.len() },
            in_game_count == if total.2.len() > usize::MAX { usize::MAX as nat } else { total.2.len() },
        decreases lines.lines_left().len(),
    {
        match next_code(&mut lines, &mut repeater) {
            Err(_) => {
                break;
            },
            Ok(None) => {
                break;
            },
            Ok(Some((CheatList::Boot, _, _))) => {
                boot_count = boot_count.saturating_add(2);
                proof {
                    boot_done = boot_done + 2;
                }
            },
            Ok(Some((CheatList::InGame, _, _))) => {
                in_game_count = in_game_count.saturating_add(2);
                proof {
                    game_done = game_done + 2;
                }
            },
        }
    }
    (boot_count, in_game_count)
}

/// Writes a code's address and value to `table` at `idx` and `idx + 1`.
fn store_code(table: &mut [u32], idx: usize, address: u32, value: u32)
    requires
        idx + 2 <= old(table)@.len(),
    ensures
        final(table)@ == old(table)@.update(idx as int, address).update(idx + 1, value),
{
    table[idx] = address;
    table[idx + 1] = value;
}

} // verus!
