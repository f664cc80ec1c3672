use vstd::prelude::*;

use crate::cheats::{
    cheat_line_effect, code_effect, has_prefix, has_suffix, parsed_cheats, run_cheat_lines,
    whitespace, words_for, CheatList, INVALID_CODE_LINE, INVALID_LINE, SUCCESS,
};
use crate::hex::{hex_digit_value, hex_run_len, hex_value, is_c_space, space_len, strtoul_hex};
use crate::subseq::{
    first_occurrence, is_first_occurrence, lemma_first_occurrence, lemma_first_occurrence_unique,
    leading_len, occurs_at,
    split_lines, trailing_len, trimmed, trimmed_end, trimmed_start,
};

verus! {

/// `k` is where the leading run of elements of `set` in `s` ends.
pub open spec fn is_leading_cut<T>(s: Seq<T>, set: Seq<T>, k: int) -> bool {
    &&& 0 <= k <= s.len()
    &&& forall|i: int| 0 <= i < k ==> set.contains(#[trigger] s[i])
    &&& k < s.len() ==> !set.contains(s[k])
}

/// `e` is where the trailing run of elements of `set` in `s` begins.
pub open spec fn is_trailing_cut<T>(s: Seq<T>, set: Seq<T>, e: int) -> bool {
    &&& 0 <= e <= s.len()
    &&& forall|i: int| e <= i < s.len() ==> set.contains(#[trigger] s[i])
    &&& e > 0 ==> !set.contains(s[e - 1])
}

/// The leading run of elements of `set` ends exactly at `leading_len`.
pub proof fn lemma_leading_len_cut<T>(s: Seq<T>, set: Seq<T>, k: int)
    ensures
        is_leading_cut(s, set, leading_len(s, set) as int),
        is_leading_cut(s, set, k) ==> k == leading_len(s, set),
    decreases s.len(),
{
    if s.len() > 0 && set.contains(s[0]) {
        lemma_leading_len_cut(s.drop_first(), set, k - 1);
        assert forall|i: int| 0 <= i < leading_len(s, set) implies set.contains(#[trigger] s[i]) by {
            if i > 0 {
                assert(s[i] == s.drop_first()[i - 1]);
            }
        }
        if is_leading_cut(s, set, k) {
            if k == 0 {
                assert(!set.contains(s[0]));
            } else {
                assert forall|i: int| 0 <= i < k - 1 implies set.contains(
                    #[trigger] s.drop_first()[i],
                ) by {
                    assert(s.drop_first()[i] == s[i + 1]);
                }
            }
        }
    } else {
        if is_leading_cut(s, set, k) && k > 0 {
            assert(set.contains(s[0]));
        }
    }
}

/// The trailing run of elements of `set` begins exactly at
/// `s.len() - trailing_len`.
pub proof fn lemma_trailing_len_cut<T>(s: Seq<T>, set: Seq<T>, e: int)
    ensures
        trailing_len(s, set) <= s.len(),
        is_trailing_cut(s, set, s.len() - trailing_len(s, set)),
        is_trailing_cut(s, set, e) ==> e == s.len() - trailing_len(s, set),
    decreases s.len(),
{
    if s.len() > 0 && set.contains(s.last()) {
        let p = s.drop_last();
        lemma_trailing_len_cut(p, set, e);
        assert forall|i: int| s.len() - trailing_len(s, set) <= i < s.len() implies set.contains(
            #[trigger] s[i],
        ) by {
            if i < s.len() - 1 {
                assert(s[i] == p[i]);
            }
        }
        let b = s.len() - trailing_len(s, set);
        if b > 0 {
            assert(s[b - 1] == p[b - 1]);
        }
        if is_trailing_cut(s, set, e) {
            if e == s.len() {
                assert(!set.contains(s[e - 1]));
            } else {
                assert forall|i: int| e <= i < p.len() implies set.contains(#[trigger] p[i]) by {
                    assert(p[i] == s[i]);
                }
                if e > 0 {
                    assert(p[e - 1] == s[e - 1]);
                }
            }
        }
    } else {
        if is_trailing_cut(s, set, e) && e < s.len() {
            assert(set.contains(s[s.len() - 1]));
        }
    }
}

/// `trim_start` leaves a slice that does not begin with an element of the
/// set, and everything it removed belongs to the set.
pub proof fn law_trim_start_removes_exactly_the_leading_set_elements<T>(s: Seq<T>, set: Seq<T>)
    ensures
        s == s.take(s.len() - trimmed_start(s, set).len()) + trimmed_start(s, set),
        forall|i: int|
            0 <= i < s.len() - trimmed_start(s, set).len() ==> set.contains(#[trigger] s[i]),
        trimmed_start(s, set).len() > 0 ==> !set.contains(trimmed_start(s, set)[0]),
{
    lemma_leading_len_cut(s, set, 0);
    let k = leading_len(s, set) as int;
    assert(s =~= s.take(k) + s.skip(k));
    if k < s.len() {
        assert(trimmed_start(s, set)[0] == s[k]);
    }
}

/// `trim_end` leaves a slice that does not end with an element of the set,
/// and everything it removed belongs to the set.
pub proof fn law_trim_end_removes_exactly_the_trailing_set_elements<T>(s: Seq<T>, set: Seq<T>)
    ensures
        s == trimmed_end(s, set) + s.skip(trimmed_end(s, set).len() as int),
        forall|i: int| trimmed_end(s, set).len() <= i < s.len() ==> set.contains(#[trigger] s[i]),
        trimmed_end(s, set).len() > 0 ==> !set.contains(trimmed_end(s, set).last()),
{
    lemma_trailing_len_cut(s, set, 0);
    let e = s.len() - trailing_len(s, set);
    assert(s =~= s.take(e) + s.skip(e));
    if e > 0 {
        assert(trimmed_end(s, set).last() == s[e - 1]);
    }
}

/// Trimming both ends is trimming the start, then the end.
pub proof fn law_trim_is_trim_start_then_trim_end<T>(s: Seq<T>, set: Seq<T>)
    ensures
        trimmed(s, set) == trimmed_end(trimmed_start(s, set), set),
{
    lemma_leading_len_cut(s, set, 0);
    lemma_trailing_len_cut(s, set, 0);
    let a = leading_len(s, set) as int;
    let b = s.len() - trailing_len(s, set);
    let t = s.skip(a);
    if a < b {
        assert(is_trailing_cut(t, set, b - a)) by {
            assert forall|i: int| b - a <= i < t.len() implies set.contains(#[trigger] t[i]) by {
                assert(t[i] == s[i + a]);
            }
            assert(t[b - a - 1] == s[b - 1]);
        }
        lemma_trailing_len_cut(t, set, b - a);
        assert(t.take(b - a) =~= s.subrange(a, b));
    } else {
        assert(is_trailing_cut(t, set, 0)) by {
            assert forall|i: int| 0 <= i < t.len() implies set.contains(#[trigger] t[i]) by {
                assert(t[i] == s[i + a]);
            }
        }
        lemma_trailing_len_cut(t, set, 0);
        assert(t.take(0) =~= Seq::<T>::empty());
    }
}

/// Trimming both ends is trimming the end, then the start.
pub proof fn law_trim_is_trim_end_then_trim_start<T>(s: Seq<T>, set: Seq<T>)
    ensures
        trimmed(s, set) == trimmed_start(trimmed_end(s, set), set),
{
    lemma_leading_len_cut(s, set, 0);
    lemma_trailing_len_cut(s, set, 0);
    let a = leading_len(s, set) as int;
    let b = s.len() - trailing_len(s, set);
    let t = s.take(b);
    if a < b {
        assert(is_leading_cut(t, set, a));
        lemma_leading_len_cut(t, set, a);
        assert(t.skip(a) =~= s.subrange(a, b));
    } else {
        assert(is_leading_cut(t, set, t.len() as int));
        lemma_leading_len_cut(t, set, t.len() as int);
        assert(t.skip(t.len() as int) =~= Seq::<T>::empty());
    }
}

/// Trimming the start twice is trimming it once.
pub proof fn law_trim_start_idempotent<T>(s: Seq<T>, set: Seq<T>)
    ensures
        trimmed_start(trimmed_start(s, set), set) == trimmed_start(s, set),
{
    law_trim_start_removes_exactly_the_leading_set_elements(s, set);
    let t = trimmed_start(s, set);
    lemma_leading_len_cut(t, set, 0);
    assert(t.skip(0) =~= t);
}

/// Trimming the end twice is trimming it once.
pub proof fn law_trim_end_idempotent<T>(s: Seq<T>, set: Seq<T>)
    ensures
        trimmed_end(trimmed_end(s, set), set) == trimmed_end(s, set),
{
    law_trim_end_removes_exactly_the_trailing_set_elements(s, set);
    let t = trimmed_end(s, set);
    lemma_trailing_len_cut(t, set, t.len() as int);
    assert(t.take(t.len() as int) =~= t);
}

/// Trimming both ends twice is trimming them once.
pub proof fn law_trim_idempotent<T>(s: Seq<T>, set: Seq<T>)
    ensures
        trimmed(trimmed(s, set), set) == trimmed(s, set),
{
    let t = trimmed(s, set);
    law_trim_is_trim_start_then_trim_end(s, set);
    law_trim_is_trim_start_then_trim_end(t, set);
    law_trim_is_trim_end_then_trim_start(t, set);
    let u = trimmed_start(s, set);
    law_trim_end_idempotent(u, set);
    law_trim_end_removes_exactly_the_trailing_set_elements(u, set);
    law_trim_start_removes_exactly_the_leading_set_elements(s, set);
    // t = trim_end(u); its first element is that of u (when t is not empty)
    // and its last element is not in the set, so nothing is left to trim.
    lemma_leading_len_cut(t, set, 0);
    if t.len() > 0 {
        assert(t[0] == u[0]);
        assert(is_leading_cut(t, set, 0));
        lemma_leading_len_cut(t, set, 0);
        assert(t.skip(0) =~= t);
    } else {
        assert(t.skip(leading_len(t, set) as int) =~= t);
    }
}

/// The pieces of `s` joined again with `sep` between them.
pub open spec fn join_with<T>(pieces: Seq<Seq<T>>, sep: Seq<T>) -> Seq<T>
    decreases pieces.len(),
{
    if pieces.len() == 0 {
        Seq::empty()
    } else if pieces.len() == 1 {
        pieces[0]
    } else {
        pieces[0] + sep + join_with(pieces.drop_first(), sep)
    }
}

/// Splitting loses nothing but a trailing separator: joining the pieces with
/// the separator gives back the text, or the text without its last
/// separator; and no piece contains the separator.
pub proof fn law_lines_rejoin<T>(s: Seq<T>, sep: Seq<T>)
    requires
        sep.len() > 0,
    ensures
        join_with(split_lines(s, sep), sep) == s || join_with(split_lines(s, sep), sep) + sep == s,
        forall|k: int, j: int|
            0 <= k < split_lines(s, sep).len() ==> !#[trigger] occurs_at(
                #[trigger] split_lines(s, sep)[k],
                sep,
                j,
            ),
    decreases s.len(),
{
    let pieces = split_lines(s, sep);
    if s.len() == 0 {
        assert(join_with(pieces, sep) =~= s);
    } else {
        lemma_first_occurrence(s, sep);
        match first_occurrence(s, sep) {
            None => {
                assert(pieces =~= seq![s]);
            },
            Some(i) => {
                let r = s.skip(i + sep.len());
                let rest = split_lines(r, sep);
                law_lines_rejoin(r, sep);
                assert(s.subrange(i, i + sep.len()) == sep);
                assert(pieces[0] == s.take(i));
                assert(pieces.drop_first() =~= rest);
                if rest.len() == 0 {
                    assert(r.len() == 0);
                    assert(s =~= s.take(i) + sep);
                } else {
                    assert(s =~= s.take(i) + sep + r);
                    assert(join_with(pieces, sep) == s.take(i) + sep + join_with(rest, sep));
                    if join_with(rest, sep) == r {
                        assert(join_with(pieces, sep) =~= s);
                    } else {
                        assert(join_with(pieces, sep) + sep =~= s);
                    }
                }
                assert forall|k: int, j: int| 0 <= k < pieces.len() implies !#[trigger] occurs_at(
                    #[trigger] pieces[k],
                    sep,
                    j,
                ) by {
                    if k == 0 {
                        if occurs_at(s.take(i), sep, j) {
                            assert(s.take(i).subrange(j, j + sep.len()) =~= s.subrange(
                                j,
                                j + sep.len(),
                            ));
                            assert(occurs_at(s, sep, j));
                        }
                    } else {
                        assert(pieces[k] == rest[k - 1]);
                    }
                }
            },
        }
    }
}

/// A code type that goes to the boot table.
pub open spec fn is_boot_code_type(code_type: u32) -> bool {
    code_type == 0xEE || code_type == 0xF0 || code_type == 0xF1 || code_type == 0xFF
}

/// Each table receives whole codes, an address and then a value, and the
/// boot table receives only boot-time codes.
pub proof fn law_tables_hold_whole_codes(file: Seq<u8>)
    ensures
        parsed_cheats(file).1.len() % 2 == 0,
        parsed_cheats(file).2.len() % 2 == 0,
        forall|k: int|
            0 <= k && 2 * k < parsed_cheats(file).1.len() ==> is_boot_code_type(
                #[trigger] parsed_cheats(file).1[2 * k] >> 24u32,
            ),
{
    lemma_run_holds_whole_codes(split_lines(file, seq![10u8]), false);
}

proof fn lemma_run_holds_whole_codes(lines: Seq<Seq<u8>>, repeater: bool)
    ensures
        run_cheat_lines(lines, repeater).1.len() % 2 == 0,
        run_cheat_lines(lines, repeater).2.len() % 2 == 0,
        forall|k: int|
            0 <= k && 2 * k < run_cheat_lines(lines, repeater).1.len() ==> is_boot_code_type(
                #[trigger] run_cheat_lines(lines, repeater).1[2 * k] >> 24u32,
            ),
    decreases lines.len(),
{
    if lines.len() > 0 {
        reveal(cheat_line_effect);
        if let Ok((next, entry)) = cheat_line_effect(lines[0], repeater) {
            lemma_run_holds_whole_codes(lines.drop_first(), next);
            let rest = run_cheat_lines(lines.drop_first(), next);
            let boot = words_for(entry, CheatList::Boot);
            assert(boot.len() == 0 || (boot.len() == 2 && is_boot_code_type(boot[0] >> 24u32)));
            let all = run_cheat_lines(lines, repeater).1;
            assert(all == boot + rest.1);
            assert forall|k: int| 0 <= k && 2 * k < all.len() implies is_boot_code_type(
                #[trigger] all[2 * k] >> 24u32,
            ) by {
                if boot.len() == 2 && k >= 1 {
                    assert(all[2 * k] == rest.1[2 * (k - 1)]);
                } else if boot.len() == 0 {
                    assert(all[2 * k] == rest.1[2 * k]);
                }
            }
        }
    }
}

/// No byte of `s` is `b`.
pub open spec fn lacks_byte(s: Seq<u8>, b: u8) -> bool {
    forall|j: int| 0 <= j < s.len() ==> s[j] != b
}

/// No byte of `s` is a newline.
pub open spec fn has_no_newline(s: Seq<u8>) -> bool {
    lacks_byte(s, 10u8)
}

/// `s` is made of spaces, tabs and carriage returns only.
pub open spec fn is_blank_padding(s: Seq<u8>) -> bool {
    forall|j: int| 0 <= j < s.len() ==> s[j] == 32 || s[j] == 9 || s[j] == 13
}

/// A line that the reader passes over without change: blank, a comment or
/// the document start `---`.
pub open spec fn is_ignored_line(line: Seq<u8>) -> bool {
    let t = trimmed(line, seq![32u8, 9u8, 10u8, 13u8]);
    t.len() == 0 || t[0] == 35 || t == seq![45u8, 45u8, 45u8]
}

/// A piece without byte `b`, followed by `b` and more text, splits at `b`
/// into that piece and the pieces of the rest.
proof fn lemma_split_at_byte(l: Seq<u8>, b: u8, rest: Seq<u8>)
    requires
        lacks_byte(l, b),
    ensures
        split_lines(l + seq![b] + rest, seq![b]) == seq![l] + split_lines(rest, seq![b]),
{
    let nl = seq![b];
    let s = l + nl + rest;
    assert(s.subrange(l.len() as int, l.len() + 1int) =~= nl);
    assert forall|j: int| 0 <= j < l.len() implies !#[trigger] occurs_at(s, nl, j) by {
        if occurs_at(s, nl, j) {
            assert(s.subrange(j, j + 1)[0] == s[j]);
            assert(s[j] == l[j]);
        }
    }
    assert(is_first_occurrence(s, nl, l.len() as int));
    lemma_first_occurrence_unique(s, nl, l.len() as int);
    assert(s.take(l.len() as int) =~= l);
    assert(s.skip(l.len() + 1int) =~= rest);
}

/// A piece without byte `b` is one piece when split at `b`, or none when it
/// is empty.
proof fn lemma_split_without_byte(l: Seq<u8>, b: u8)
    requires
        lacks_byte(l, b),
    ensures
        split_lines(l, seq![b]) == if l.len() == 0 {
            Seq::<Seq<u8>>::empty()
        } else {
            seq![l]
        },
{
    let nl = seq![b];
    assert forall|j: int| !#[trigger] occurs_at(l, nl, j) by {
        if occurs_at(l, nl, j) {
            assert(l.subrange(j, j + 1)[0] == l[j]);
        }
    }
    lemma_first_occurrence(l, nl);
}

/// An ignored line changes neither the tables nor the repeater state.
proof fn lemma_ignored_line_effect(c: Seq<u8>, repeater: bool)
    requires
        is_ignored_line(c),
    ensures
        cheat_line_effect(c, repeater) == Ok::<(bool, Option<(CheatList, u32, u32)>), u8>(
            (repeater, None),
        ),
{
    reveal(cheat_line_effect);
    let t = trimmed(c, whitespace());
    assert(whitespace() =~= seq![32u8, 9u8, 10u8, 13u8]);
    if t.len() > 0 {
        assert(t.subrange(0, 1)[0] == t[0]);
        if t[0] == 35 {
            assert(t.subrange(0, 1) =~= seq![35u8]);
        }
    }
}

/// Reading the lines of a file built from `lines` is reading `lines`.
proof fn lemma_run_joined_lines(lines: Seq<Seq<u8>>, repeater: bool)
    requires
        forall|i: int| 0 <= i < lines.len() ==> has_no_newline(#[trigger] lines[i]),
    ensures
        run_cheat_lines(split_lines(join_with(lines, seq![10u8]), seq![10u8]), repeater)
            == run_cheat_lines(lines, repeater),
    decreases lines.len(),
{
    let nl = seq![10u8];
    if lines.len() == 0 {
        lemma_split_without_byte(Seq::empty(), 10u8);
    } else if lines.len() == 1 {
        let l = lines[0];
        lemma_split_without_byte(l, 10u8);
        if l.len() == 0 {
            assert(trimmed(l, whitespace()) =~= Seq::<u8>::empty());
            lemma_ignored_line_effect(l, repeater);
            assert(lines.drop_first() =~= Seq::<Seq<u8>>::empty());
        } else {
            assert(split_lines(join_with(lines, nl), nl) =~= lines);
        }
    } else {
        let l = lines[0];
        let rest = lines.drop_first();
        assert forall|i: int| 0 <= i < rest.len() implies has_no_newline(#[trigger] rest[i]) by {
            assert(rest[i] == lines[i + 1]);
        }
        lemma_split_at_byte(l, 10u8, join_with(rest, nl));
        let pieces = split_lines(join_with(lines, nl), nl);
        let rest_pieces = split_lines(join_with(rest, nl), nl);
        assert(pieces == seq![l] + rest_pieces);
        assert(pieces[0] == l);
        assert(pieces.drop_first() =~= rest_pieces);
        reveal(cheat_line_effect);
        if let Ok((next, entry)) = cheat_line_effect(l, repeater) {
            lemma_run_joined_lines(rest, next);
        }
    }
}

/// Lists of lines that act alike line by line are read alike.
proof fn lemma_run_alike_lines(edited: Seq<Seq<u8>>, lines: Seq<Seq<u8>>, repeater: bool)
    requires
        edited.len() == lines.len(),
        forall|i: int, r: bool|
            #![trigger cheat_line_effect(edited[i], r)]
            #![trigger cheat_line_effect(lines[i], r)]
            0 <= i < lines.len() ==> cheat_line_effect(edited[i], r) == cheat_line_effect(
                lines[i],
                r,
            ),
    ensures
        run_cheat_lines(edited, repeater) == run_cheat_lines(lines, repeater),
    decreases lines.len(),
{
    if lines.len() > 0 {
        assert(cheat_line_effect(edited[0], repeater) == cheat_line_effect(lines[0], repeater));
        let e = edited.drop_first();
        let l = lines.drop_first();
        assert forall|i: int, r: bool|
            #![trigger cheat_line_effect(e[i], r)]
            #![trigger cheat_line_effect(l[i], r)]
            0 <= i < l.len() implies cheat_line_effect(e[i], r) == cheat_line_effect(l[i], r) by {
            assert(e[i] == edited[i + 1]);
            assert(l[i] == lines[i + 1]);
        }
        if let Ok((next, entry)) = cheat_line_effect(lines[0], repeater) {
            lemma_run_alike_lines(e, l, next);
        }
    }
}

/// Padding changes nothing that trimming keeps.
proof fn lemma_trimmed_padding(a: Seq<u8>, l: Seq<u8>, b: Seq<u8>)
    requires
        is_blank_padding(a),
        is_blank_padding(b),
    ensures
        trimmed(a + l + b, whitespace()) == trimmed(l, whitespace()),
{
    let ws = whitespace();
    let t = a + l + b;
    let m = a.len() as int;
    let n = l.len() as int;
    assert(ws[0] == 32u8 && ws[1] == 9u8 && ws[3] == 13u8);
    assert forall|j: int| 0 <= j < t.len() && (j < m || j >= m + n) implies ws.contains(
        #[trigger] t[j],
    ) by {
        if j < m {
            assert(t[j] == a[j]);
        } else {
            assert(t[j] == b[j - m - n]);
        }
        if t[j] == 32 {
            assert(ws[0] == t[j]);
        } else if t[j] == 9 {
            assert(ws[1] == t[j]);
        } else {
            assert(ws[3] == t[j]);
        }
    }
    lemma_leading_len_cut(l, ws, 0);
    lemma_trailing_len_cut(l, ws, 0);
    let lo = leading_len(l, ws) as int;
    let hi = n - trailing_len(l, ws);
    if lo < hi {
        assert(is_leading_cut(t, ws, m + lo)) by {
            assert forall|i: int| 0 <= i < m + lo implies ws.contains(#[trigger] t[i]) by {
                if i >= m {
                    assert(t[i] == l[i - m]);
                }
            }
            assert(t[m + lo] == l[lo]);
        }
        assert(is_trailing_cut(t, ws, m + hi)) by {
            assert forall|i: int| m + hi <= i < t.len() implies ws.contains(#[trigger] t[i]) by {
                if i < m + n {
                    assert(t[i] == l[i - m]);
                }
            }
            assert(t[m + hi - 1] == l[hi - 1]);
        }
        lemma_leading_len_cut(t, ws, m + lo);
        lemma_trailing_len_cut(t, ws, m + hi);
        assert(t.subrange(m + lo, m + hi) =~= l.subrange(lo, hi));
    } else {
        assert(is_leading_cut(t, ws, t.len() as int)) by {
            assert forall|i: int| 0 <= i < t.len() implies ws.contains(#[trigger] t[i]) by {
                if m <= i < m + n {
                    assert(t[i] == l[i - m]);
                }
            }
        }
        lemma_leading_len_cut(t, ws, t.len() as int);
        lemma_trailing_len_cut(t, ws, 0);
    }
}

/// A cheat file written as `lines` joined by newlines is read line by line:
/// its result and tables are those of reading `lines` in order.
pub proof fn law_file_is_read_line_by_line(lines: Seq<Seq<u8>>)
    requires
        forall|i: int| 0 <= i < lines.len() ==> has_no_newline(#[trigger] lines[i]),
    ensures
        parsed_cheats(join_with(lines, seq![10u8])) == run_cheat_lines(lines, false),
{
    lemma_run_joined_lines(lines, false);
}

/// Spaces, tabs and carriage returns added at the start or end of any lines
/// (so also `\r\n` line ends in place of `\n`) change neither the result nor
/// the tables.
pub proof fn law_padding_lines_changes_nothing(
    lines: Seq<Seq<u8>>,
    before: Seq<Seq<u8>>,
    after: Seq<Seq<u8>>,
)
    requires
        before.len() == lines.len(),
        after.len() == lines.len(),
        forall|i: int|
            0 <= i < lines.len() ==> has_no_newline(#[trigger] lines[i]) && is_blank_padding(
                before[i],
            ) && is_blank_padding(after[i]),
    ensures
        parsed_cheats(
            join_with(
                Seq::new(lines.len(), |i: int| before[i] + lines[i] + after[i]),
                seq![10u8],
            ),
        ) == parsed_cheats(join_with(lines, seq![10u8])),
{
    let edited = Seq::new(lines.len(), |i: int| before[i] + lines[i] + after[i]);
    assert forall|i: int| 0 <= i < edited.len() implies has_no_newline(#[trigger] edited[i]) by {
        let e = before[i] + lines[i] + after[i];
        assert forall|j: int| 0 <= j < e.len() implies e[j] != 10 by {
            if j < before[i].len() {
                assert(e[j] == before[i][j]);
            } else if j < before[i].len() + lines[i].len() {
                assert(e[j] == lines[i][j - before[i].len()]);
            } else {
                assert(e[j] == after[i][j - before[i].len() - lines[i].len()]);
            }
        }
        assert(edited[i] == e);
    }
    assert forall|i: int, r: bool|
        #![trigger cheat_line_effect(edited[i], r)]
        #![trigger cheat_line_effect(lines[i], r)]
        0 <= i < lines.len() implies cheat_line_effect(edited[i], r) == cheat_line_effect(
            lines[i],
            r,
        ) by {
        lemma_trimmed_padding(before[i], lines[i], after[i]);
        reveal(cheat_line_effect);
    }
    lemma_run_joined_lines(edited, false);
    lemma_run_joined_lines(lines, false);
    lemma_run_alike_lines(edited, lines, false);
}

/// Reading lines with an ignored line inserted is reading the lines.
proof fn lemma_run_insert_ignored(lines: Seq<Seq<u8>>, k: int, c: Seq<u8>, repeater: bool)
    requires
        0 <= k <= lines.len(),
        is_ignored_line(c),
    ensures
        run_cheat_lines(lines.insert(k, c), repeater) == run_cheat_lines(lines, repeater),
    decreases k,
{
    let with = lines.insert(k, c);
    if k == 0 {
        lemma_ignored_line_effect(c, repeater);
        assert(with[0] == c);
        assert(with.drop_first() =~= lines);
    } else {
        assert(with[0] == lines[0]);
        assert(with.drop_first() =~= lines.drop_first().insert(k - 1, c));
        reveal(cheat_line_effect);
        if let Ok((next, entry)) = cheat_line_effect(lines[0], repeater) {
            lemma_run_insert_ignored(lines.drop_first(), k - 1, c, next);
        }
    }
}

/// A blank line, a comment line or a `---` line inserted anywhere changes
/// neither the result nor the tables.
pub proof fn law_ignored_line_changes_nothing(lines: Seq<Seq<u8>>, k: int, c: Seq<u8>)
    requires
        forall|i: int| 0 <= i < lines.len() ==> has_no_newline(#[trigger] lines[i]),
        has_no_newline(c),
        is_ignored_line(c),
        0 <= k <= lines.len(),
    ensures
        parsed_cheats(join_with(lines.insert(k, c), seq![10u8])) == parsed_cheats(
            join_with(lines, seq![10u8]),
        ),
{
    let with = lines.insert(k, c);
    assert forall|i: int| 0 <= i < with.len() implies has_no_newline(#[trigger] with[i]) by {
        if i < k {
            assert(with[i] == lines[i]);
        } else if i > k {
            assert(with[i] == lines[i - 1]);
        }
    }
    lemma_run_joined_lines(with, false);
    lemma_run_joined_lines(lines, false);
    lemma_run_insert_ignored(lines, k, c, false);
}

/// An ASCII hexadecimal digit: `0`-`9`, `A`-`F` or `a`-`f`.
pub open spec fn is_hex_char(c: u8) -> bool {
    (48 <= c && c <= 57) || (65 <= c && c <= 70) || (97 <= c && c <= 102)
}

/// What a hexadecimal digit stands for: `0`-`9` for 0 to 9, `A`-`F` and
/// `a`-`f` for 10 to 15.
pub open spec fn hex_char_value(c: u8) -> int {
    if c <= 57 {
        c - 48
    } else if c <= 70 {
        c - 55
    } else {
        c - 87
    }
}

/// A non-empty text of hexadecimal digits only.
pub open spec fn is_hex_text(d: Seq<u8>) -> bool {
    d.len() > 0 && forall|j: int| 0 <= j < d.len() ==> is_hex_char(#[trigger] d[j])
}

proof fn lemma_hex_run_whole(d: Seq<u8>)
    requires
        forall|j: int| 0 <= j < d.len() ==> is_hex_char(#[trigger] d[j]),
    ensures
        hex_run_len(d) == d.len(),
    decreases d.len(),
{
    if d.len() > 0 {
        assert(is_hex_char(d[0]));
        let t = d.drop_first();
        assert forall|j: int| 0 <= j < t.len() implies is_hex_char(#[trigger] t[j]) by {
            assert(t[j] == d[j + 1]);
        }
        lemma_hex_run_whole(t);
    }
}

/// A text of hexadecimal digits is read whole, as the number it writes
/// (held at `u32::MAX` when larger).
proof fn lemma_hex_text_read_whole(d: Seq<u8>)
    requires
        is_hex_text(d),
    ensures
        strtoul_hex(d) == if hex_value(d) > u32::MAX {
            u32::MAX as nat
        } else {
            hex_value(d)
        },
{
    assert(is_hex_char(d[0]));
    assert(space_len(d) == 0);
    assert(d.skip(0) =~= d);
    if d.len() >= 2 {
        assert(is_hex_char(d[1]));
    }
    lemma_hex_run_whole(d);
    assert(d.take(d.len() as int) =~= d);
}

/// A single hexadecimal digit reads as the number it stands for.
pub proof fn law_hex_one_digit(c: u8)
    requires
        is_hex_char(c),
    ensures
        strtoul_hex(seq![c]) == hex_char_value(c),
{
    let d = seq![c];
    assert(is_hex_text(d));
    lemma_hex_text_read_whole(d);
    assert(d.drop_last() =~= Seq::<u8>::empty());
    assert(d.last() == c);
    assert(hex_value(Seq::<u8>::empty()) == 0);
    assert(hex_value(d) == 16 * hex_value(d.drop_last()) + hex_digit_value(c));
    assert(hex_digit_value(c) == hex_char_value(c));
}

/// Writing one more hexadecimal digit after a text of hexadecimal digits
/// multiplies what it reads by 16 and adds the digit, while the result fits
/// in a `u32`. With `law_hex_one_digit` this fixes what every text of
/// hexadecimal digits with a value below 2^32 reads as.
pub proof fn law_hex_next_digit(d: Seq<u8>, c: u8)
    requires
        is_hex_text(d),
        is_hex_char(c),
        16 * strtoul_hex(d) + hex_char_value(c) <= u32::MAX,
    ensures
        strtoul_hex(d + seq![c]) == 16 * strtoul_hex(d) + hex_char_value(c),
{
    let e = d + seq![c];
    assert forall|j: int| 0 <= j < e.len() implies is_hex_char(#[trigger] e[j]) by {
        if j < d.len() {
            assert(e[j] == d[j]);
        }
    }
    lemma_hex_text_read_whole(d);
    lemma_hex_text_read_whole(e);
    assert(e.drop_last() =~= d);
    assert(hex_digit_value(c) == hex_char_value(c));
}

/// A hexadecimal digit is none of the bytes that the reader treats
/// specially.
proof fn lemma_hex_char_is_plain(c: u8)
    requires
        is_hex_char(c),
    ensures
        !whitespace().contains(c),
        !seq![45u8, 32u8].contains(c),
        c != 10 && c != 32 && c != 35 && c != 45 && c != 58,
{
    let ws = whitespace();
    if ws.contains(c) {
        let j = choose|j: int| 0 <= j < ws.len() && ws[j] == c;
        assert(j == 0 || j == 1 || j == 2 || j == 3);
        assert(ws[0] == 32 && ws[1] == 9 && ws[2] == 10 && ws[3] == 13);
    }
    let ds = seq![45u8, 32u8];
    if ds.contains(c) {
        let j = choose|j: int| 0 <= j < ds.len() && ds[j] == c;
        assert(j == 0 || j == 1);
        assert(ds[0] == 45 && ds[1] == 32);
    }
}

/// Trimming leaves a text alone that neither begins nor ends with an element
/// of the set.
proof fn lemma_trimmed_keeps(s: Seq<u8>, set: Seq<u8>)
    requires
        s.len() > 0,
        !set.contains(s[0]),
        !set.contains(s.last()),
    ensures
        trimmed(s, set) == s,
{
    assert(is_leading_cut(s, set, 0));
    lemma_leading_len_cut(s, set, 0);
    assert(is_trailing_cut(s, set, s.len() as int));
    lemma_trailing_len_cut(s, set, s.len() as int);
    assert(s.subrange(0, s.len() as int) =~= s);
}

/// The text of one code line `- ADDRESS VALUE`, without its newline.
pub open spec fn code_line(a: Seq<u8>, v: Seq<u8>) -> Seq<u8> {
    seq![45u8, 32u8] + a + seq![32u8] + v
}

/// A code line of two hexadecimal fields is read as a code: the address and
/// value are what the fields read as.
proof fn lemma_code_line_effect(a: Seq<u8>, v: Seq<u8>, repeater: bool)
    requires
        is_hex_text(a),
        is_hex_text(v),
    ensures
        cheat_line_effect(code_line(a, v), repeater) == if repeater {
            Ok::<(bool, Option<(CheatList, u32, u32)>), u8>(
                (false, Some((CheatList::InGame, strtoul_hex(a), strtoul_hex(v)))),
            )
        } else {
            Ok::<(bool, Option<(CheatList, u32, u32)>), u8>(
                code_effect(strtoul_hex(a), strtoul_hex(v)),
            )
        },
{
    reveal(cheat_line_effect);
    let ws = whitespace();
    let l = code_line(a, v);
    let body = a + seq![32u8] + v;
    assert(is_hex_char(a[0]));
    assert(is_hex_char(v[0]));
    assert(is_hex_char(v.last()));
    assert(is_hex_char(a.last()));
    lemma_hex_char_is_plain(a[0]);
    lemma_hex_char_is_plain(v.last());
    lemma_hex_char_is_plain(a.last());
    lemma_hex_char_is_plain(v[0]);
    assert(l[0] == 45u8);
    assert(l[1] == 32u8);
    assert(l.last() == v.last());
    assert(!ws.contains(45u8)) by {
        if ws.contains(45u8) {
            let j = choose|j: int| 0 <= j < ws.len() && ws[j] == 45u8;
            assert(j == 0 || j == 1 || j == 2 || j == 3);
        }
    }
    lemma_trimmed_keeps(l, ws);
    let t = trimmed(l, ws);
    assert(t.subrange(0, 1)[0] == 45u8);
    assert(!has_prefix(t, seq![35u8]));
    assert(t != seq![45u8, 45u8, 45u8]) by {
        if t == seq![45u8, 45u8, 45u8] {
            assert(t[1] == 45u8);
        }
    }
    assert(t.subrange(t.len() - 1, t.len() as int)[0] == v.last());
    assert(!has_suffix(t, seq![58u8]));
    assert(t.subrange(0, 2) =~= seq![45u8, 32u8]);
    assert(has_prefix(t, seq![45u8, 32u8]));
    let ds = seq![45u8, 32u8];
    assert(ds[0] == 45u8 && ds[1] == 32u8);
    assert(is_leading_cut(t, ds, 2)) by {
        assert(t[2] == a[0]);
        assert forall|i: int| 0 <= i < 2 implies ds.contains(#[trigger] t[i]) by {
            assert(ds[i] == t[i]);
        }
    }
    lemma_leading_len_cut(t, ds, 2);
    assert(trimmed_start(t, ds) =~= body);
    assert(body[0] == a[0]);
    assert(body.last() == v.last());
    lemma_trimmed_keeps(body, ws);
    assert(lacks_byte(a, 32u8)) by {
        assert forall|j: int| 0 <= j < a.len() implies a[j] != 32u8 by {
            assert(is_hex_char(a[j]));
            lemma_hex_char_is_plain(a[j]);
        }
    }
    assert(lacks_byte(v, 32u8)) by {
        assert forall|j: int| 0 <= j < v.len() implies v[j] != 32u8 by {
            assert(is_hex_char(v[j]));
            lemma_hex_char_is_plain(v[j]);
        }
    }
    lemma_split_at_byte(a, 32u8, v);
    lemma_split_without_byte(v, 32u8);
    let fields = split_lines(body, seq![32u8]);
    assert(fields =~= seq![a, v]);
    lemma_trimmed_keeps(a, ws);
    lemma_trimmed_keeps(v, ws);
}

/// A cheat file of one code line `- A V` (then a newline), where `A` and `V`
/// are texts of hexadecimal digits reading as `address` and `value`, is read
/// without error, and the code goes where its code type (the top byte of the
/// address) sends it, whatever its value:
/// - `20`, `CC`, `DE` (clear list, exception handler, entry point): nowhere;
/// - `EE`, `F0`, `F1`, `FF` (boot-time codes): to the boot table;
/// - `50` (repeater): to the in-game table when its count byte (bits 8-15)
///   is zero, else nowhere;
/// - every other type, writes and conditionals alike: to the in-game table,
///   unless bits 24 and 0 of the address are both set (a misaligned 16-bit
///   code), which drops it.
pub proof fn law_single_code_line_goes_by_code_type(
    a: Seq<u8>,
    v: Seq<u8>,
    address: u32,
    value: u32,
)
    requires
        is_hex_text(a),
        is_hex_text(v),
        strtoul_hex(a) == address,
        strtoul_hex(v) == value,
    ensures
        ({
            let parsed = parsed_cheats(code_line(a, v) + seq![10u8]);
            let code_type = address >> 24u32;
            let code = seq![address, value];
            let nothing = Seq::<u32>::empty();
            &&& parsed.0 == SUCCESS
            &&& (code_type == 0x20 || code_type == 0xCC || code_type == 0xDE) ==> parsed.1
                == nothing && parsed.2 == nothing
            &&& (code_type == 0xEE || code_type == 0xF0 || code_type == 0xF1 || code_type == 0xFF)
                ==> parsed.1 == code && parsed.2 == nothing
            &&& code_type == 0x50 ==> parsed.1 == nothing && parsed.2 == (if address
                & 0x0000_FF00u32 == 0 {
                code
            } else {
                nothing
            })
            &&& (code_type != 0x20 && code_type != 0xCC && code_type != 0xDE && code_type != 0xEE
                && code_type != 0xF0 && code_type != 0xF1 && code_type != 0xFF && code_type != 0x50)
                ==> parsed.1 == nothing && parsed.2 == (if address & 0x0100_0001u32
                == 0x0100_0001u32 {
                nothing
            } else {
                code
            })
        }),
{
    let l = code_line(a, v);
    lemma_code_line_has_no_newline(a, v);
    lemma_split_at_byte(l, 10u8, Seq::empty());
    assert(l + seq![10u8] + Seq::<u8>::empty() =~= l + seq![10u8]);
    let lines = split_lines(l + seq![10u8], seq![10u8]);
    assert(lines =~= seq![l]);
    lemma_code_line_effect(a, v, false);
    assert(lines.drop_first() =~= Seq::<Seq<u8>>::empty());
    let entry = code_effect(address, value).1;
    let next = code_effect(address, value).0;
    let none_left = run_cheat_lines(Seq::<Seq<u8>>::empty(), next);
    assert(none_left == (SUCCESS, Seq::<u32>::empty(), Seq::<u32>::empty()));
    assert(lines[0] == l);
    assert(parsed_cheats(l + seq![10u8]) == run_cheat_lines(lines, false));
    assert(run_cheat_lines(lines, false) == (
        none_left.0,
        words_for(entry, CheatList::Boot) + none_left.1,
        words_for(entry, CheatList::InGame) + none_left.2,
    ));
    assert(words_for(entry, CheatList::Boot) + Seq::<u32>::empty() =~= words_for(
        entry,
        CheatList::Boot,
    ));
    assert(words_for(entry, CheatList::InGame) + Seq::<u32>::empty() =~= words_for(
        entry,
        CheatList::InGame,
    ));
}

proof fn lemma_code_line_has_no_newline(a: Seq<u8>, v: Seq<u8>)
    requires
        is_hex_text(a),
        is_hex_text(v),
    ensures
        lacks_byte(code_line(a, v), 10u8),
{
    let l = code_line(a, v);
    assert forall|j: int| 0 <= j < l.len() implies l[j] != 10u8 by {
        if j >= 2 && j < 2 + a.len() {
            assert(l[j] == a[j - 2]);
            assert(is_hex_char(a[j - 2]));
            lemma_hex_char_is_plain(a[j - 2]);
        } else if j >= 3 + a.len() {
            assert(l[j] == v[j - 3 - a.len()]);
            assert(is_hex_char(v[j - 3 - a.len()]));
            lemma_hex_char_is_plain(v[j - 3 - a.len()]);
        }
    }
}

/// A byte other than space, tab, newline and carriage return is not
/// trimmed.
proof fn lemma_not_whitespace(c: u8)
    requires
        c != 32 && c != 9 && c != 10 && c != 13,
    ensures
        !whitespace().contains(c),
{
    let ws = whitespace();
    if ws.contains(c) {
        let j = choose|j: int| 0 <= j < ws.len() && ws[j] == c;
        assert(j == 0 || j == 1 || j == 2 || j == 3);
    }
}

/// Reading a file whose first line has the given effect.
proof fn lemma_run_first_line(l: Seq<u8>, rest: Seq<u8>, repeater: bool)
    requires
        lacks_byte(l, 10u8),
    ensures
        run_cheat_lines(split_lines(l + seq![10u8] + rest, seq![10u8]), repeater) == match cheat_line_effect(l, repeater) {
            Err(code) => (code, Seq::<u32>::empty(), Seq::<u32>::empty()),
            Ok((next, entry)) => {
                let after = run_cheat_lines(split_lines(rest, seq![10u8]), next);
                (
                    after.0,
                    words_for(entry, CheatList::Boot) + after.1,
                    words_for(entry, CheatList::InGame) + after.2,
                )
            },
        },
{
    lemma_split_at_byte(l, 10u8, rest);
    let lines = split_lines(l + seq![10u8] + rest, seq![10u8]);
    assert(lines[0] == l);
    assert(lines.drop_first() =~= split_lines(rest, seq![10u8]));
}

/// A repeater code with a zero count byte passes the next code line to the
/// in-game table whatever that code's type: the two codes are stored there
/// in order, and nothing goes to the boot table.
pub proof fn law_repeater_passes_next_code_in_game(
    a1: Seq<u8>,
    v1: Seq<u8>,
    a2: Seq<u8>,
    v2: Seq<u8>,
)
    requires
        is_hex_text(a1),
        is_hex_text(v1),
        is_hex_text(a2),
        is_hex_text(v2),
        strtoul_hex(a1) >> 24u32 == 0x50,
        strtoul_hex(a1) & 0x0000_FF00u32 == 0,
    ensures
        parsed_cheats(code_line(a1, v1) + seq![10u8] + code_line(a2, v2) + seq![10u8]) == (
            SUCCESS,
            Seq::<u32>::empty(),
            seq![strtoul_hex(a1), strtoul_hex(v1), strtoul_hex(a2), strtoul_hex(v2)],
        ),
{
    let l1 = code_line(a1, v1);
    let l2 = code_line(a2, v2);
    let nl = seq![10u8];
    lemma_code_line_has_no_newline(a1, v1);
    lemma_code_line_has_no_newline(a2, v2);
    assert(l1 + nl + l2 + nl =~= l1 + nl + (l2 + nl));
    lemma_code_line_effect(a1, v1, false);
    lemma_code_line_effect(a2, v2, true);
    lemma_run_first_line(l1, l2 + nl, false);
    assert(l2 + nl + Seq::<u8>::empty() =~= l2 + nl);
    lemma_run_first_line(l2, Seq::empty(), true);
    assert(split_lines(Seq::<u8>::empty(), nl) == Seq::<Seq<u8>>::empty());
    let done = run_cheat_lines(Seq::<Seq<u8>>::empty(), false);
    assert(done == (SUCCESS, Seq::<u32>::empty(), Seq::<u32>::empty()));
    assert(parsed_cheats(l1 + nl + l2 + nl).2 =~= seq![
        strtoul_hex(a1),
        strtoul_hex(v1),
        strtoul_hex(a2),
        strtoul_hex(v2),
    ]);
    assert(parsed_cheats(l1 + nl + l2 + nl).1 =~= Seq::<u32>::empty());
}

/// A title line closes repeater data and stores nothing.
proof fn lemma_title_line_effect(title: Seq<u8>, repeater: bool)
    requires
        title.len() > 0,
        title[0] != 32 && title[0] != 9 && title[0] != 13 && title[0] != 35 && title[0] != 45,
        title[0] != 10,
    ensures
        cheat_line_effect(title + seq![58u8], repeater) == Ok::<
            (bool, Option<(CheatList, u32, u32)>),
            u8,
        >((false, None)),
{
    let t = title + seq![58u8];
    let ws = whitespace();
    assert(t[0] == title[0]);
    assert(t.last() == 58u8);
    lemma_not_whitespace(title[0]);
    lemma_not_whitespace(58u8);
    lemma_trimmed_keeps(t, ws);
    reveal(cheat_line_effect);
    assert(t.subrange(0, 1)[0] == title[0]);
    assert(!has_prefix(t, seq![35u8]));
    assert(t != seq![45u8, 45u8, 45u8]) by {
        if t == seq![45u8, 45u8, 45u8] {
            assert(t[0] == 45u8);
        }
    }
    assert(t.subrange(t.len() - 1, t.len() as int) =~= seq![58u8]);
    assert(has_suffix(t, seq![58u8]));
}

/// A title line (ending in `:`) between a repeater code and the next code
/// line closes the repeater data: the next code is stored as it would be
/// alone in a file, after the repeater code.
pub proof fn law_title_closes_repeater_data(
    a1: Seq<u8>,
    v1: Seq<u8>,
    title: Seq<u8>,
    a2: Seq<u8>,
    v2: Seq<u8>,
)
    requires
        is_hex_text(a1),
        is_hex_text(v1),
        is_hex_text(a2),
        is_hex_text(v2),
        strtoul_hex(a1) >> 24u32 == 0x50,
        strtoul_hex(a1) & 0x0000_FF00u32 == 0,
        title.len() > 0,
        lacks_byte(title, 10u8),
        title[0] != 32 && title[0] != 9 && title[0] != 13 && title[0] != 35 && title[0] != 45,
    ensures
        ({
            let file = code_line(a1, v1) + seq![10u8] + title + seq![58u8] + seq![10u8] + code_line(
                a2,
                v2,
            ) + seq![10u8];
            let alone = parsed_cheats(code_line(a2, v2) + seq![10u8]);
            &&& parsed_cheats(file).0 == SUCCESS
            &&& parsed_cheats(file).1 == alone.1
            &&& parsed_cheats(file).2 == seq![strtoul_hex(a1), strtoul_hex(v1)] + alone.2
        }),
{
    let l1 = code_line(a1, v1);
    let l2 = code_line(a2, v2);
    let t = title + seq![58u8];
    let nl = seq![10u8];
    lemma_code_line_has_no_newline(a1, v1);
    lemma_code_line_has_no_newline(a2, v2);
    assert(lacks_byte(t, 10u8)) by {
        assert forall|j: int| 0 <= j < t.len() implies t[j] != 10u8 by {
            if j < title.len() {
                assert(t[j] == title[j]);
            }
        }
    }
    let file = l1 + nl + title + seq![58u8] + nl + l2 + nl;
    assert(file =~= l1 + nl + (t + nl + (l2 + nl + Seq::<u8>::empty())));
    lemma_code_line_effect(a1, v1, false);
    lemma_code_line_effect(a2, v2, false);
    assert(title[0] != 10u8);
    lemma_title_line_effect(title, true);
    lemma_run_first_line(l1, t + nl + (l2 + nl + Seq::<u8>::empty()), false);
    lemma_run_first_line(t, l2 + nl + Seq::<u8>::empty(), true);
    lemma_run_first_line(l2, Seq::empty(), false);
    assert(l2 + nl + Seq::<u8>::empty() =~= l2 + nl);
    let after2 = run_cheat_lines(split_lines(Seq::<u8>::empty(), nl), code_effect(
        strtoul_hex(a2),
        strtoul_hex(v2),
    ).0);
    assert(after2 == (SUCCESS, Seq::<u32>::empty(), Seq::<u32>::empty()));
    let alone = parsed_cheats(l2 + nl);
    let entry1 = Some((CheatList::InGame, strtoul_hex(a1), strtoul_hex(v1)));
    assert(words_for(None, CheatList::Boot) + alone.1 =~= alone.1);
    assert(words_for(None, CheatList::InGame) + alone.2 =~= alone.2);
    assert(words_for(entry1, CheatList::Boot) + alone.1 =~= alone.1);
}

proof fn lemma_fields_plain(d: Seq<u8>)
    requires
        is_hex_text(d),
    ensures
        lacks_byte(d, 32u8),
        lacks_byte(d, 10u8),
        !whitespace().contains(d[0]),
        !whitespace().contains(d.last()),
        d[0] != 45,
        d[0] != 32,
        d.last() != 58,
{
    assert(is_hex_char(d[0]) && is_hex_char(d.last()));
    lemma_hex_char_is_plain(d[0]);
    lemma_hex_char_is_plain(d.last());
    assert forall|j: int| 0 <= j < d.len() implies d[j] != 32u8 && d[j] != 10u8 by {
        assert(is_hex_char(d[j]));
        lemma_hex_char_is_plain(d[j]);
    }
}

/// A `- ` line with a body of the given pieces, split at spaces, is a code
/// line whose fields are those pieces.
proof fn lemma_dash_line_effect(l: Seq<u8>, body: Seq<u8>)
    requires
        l == seq![45u8, 32u8] + body,
        body.len() > 0,
        !whitespace().contains(body[0]),
        !whitespace().contains(body.last()),
        body[0] != 45 && body[0] != 32,
        body.last() != 58,
        split_lines(body, seq![32u8]).len() != 2,
    ensures
        cheat_line_effect(l, false) == Err::<(bool, Option<(CheatList, u32, u32)>), u8>(
            INVALID_CODE_LINE,
        ),
{
    reveal(cheat_line_effect);
    let ws = whitespace();
    let ds = seq![45u8, 32u8];
    assert(ds[0] == 45u8 && ds[1] == 32u8);
    lemma_not_whitespace(45u8);
    assert(l[0] == 45u8 && l[1] == 32u8 && l.last() == body.last());
    lemma_trimmed_keeps(l, ws);
    assert(l.subrange(0, 1)[0] == 45u8);
    assert(l != seq![45u8, 45u8, 45u8]) by {
        if l == seq![45u8, 45u8, 45u8] {
            assert(l[1] == 45u8);
        }
    }
    assert(l.subrange(l.len() - 1, l.len() as int)[0] == body.last());
    assert(l.subrange(0, 2) =~= ds);
    assert(!ds.contains(body[0])) by {
        if ds.contains(body[0]) {
            let j = choose|j: int| 0 <= j < ds.len() && ds[j] == body[0];
            assert(j == 0 || j == 1);
        }
    }
    assert(is_leading_cut(l, ds, 2)) by {
        assert(l[2] == body[0]);
        assert forall|i: int| 0 <= i < 2 implies ds.contains(#[trigger] l[i]) by {
            assert(ds[i] == l[i]);
        }
    }
    lemma_leading_len_cut(l, ds, 2);
    assert(trimmed_start(l, ds) =~= body);
    lemma_trimmed_keeps(body, ws);
}

/// A code line that does not hold exactly two fields (one, or three) is an
/// invalid code line, and the file is refused with nothing stored.
pub proof fn law_code_line_needs_two_fields(a: Seq<u8>, v: Seq<u8>, w: Seq<u8>, rest: Seq<u8>)
    requires
        is_hex_text(a),
        is_hex_text(v),
        is_hex_text(w),
    ensures
        parsed_cheats(seq![45u8, 32u8] + a + seq![10u8] + rest) == (
            INVALID_CODE_LINE,
            Seq::<u32>::empty(),
            Seq::<u32>::empty(),
        ),
        parsed_cheats(code_line(a, v) + seq![32u8] + w + seq![10u8] + rest) == (
            INVALID_CODE_LINE,
            Seq::<u32>::empty(),
            Seq::<u32>::empty(),
        ),
{
    lemma_fields_plain(a);
    lemma_fields_plain(v);
    lemma_fields_plain(w);
    // one field
    let l = seq![45u8, 32u8] + a;
    assert(lacks_byte(l, 10u8)) by {
        assert forall|j: int| 0 <= j < l.len() implies l[j] != 10u8 by {
            if j >= 2 {
                assert(l[j] == a[j - 2]);
            }
        }
    }
    lemma_split_without_byte(a, 32u8);
    lemma_dash_line_effect(l, a);
    lemma_run_first_line(l, rest, false);
    // three fields
    let body = a + seq![32u8] + v + seq![32u8] + w;
    let m = seq![45u8, 32u8] + body;
    assert(m =~= code_line(a, v) + seq![32u8] + w);
    assert(lacks_byte(m, 10u8)) by {
        assert forall|j: int| 0 <= j < m.len() implies m[j] != 10u8 by {
            if 2 <= j < 2 + a.len() {
                assert(m[j] == a[j - 2]);
            } else if 3 + a.len() <= j < 3 + a.len() + v.len() {
                assert(m[j] == v[j - 3 - a.len()]);
            } else if j >= 4 + a.len() + v.len() {
                assert(m[j] == w[j - 4 - a.len() - v.len()]);
            }
        }
    }
    assert(body[0] == a[0] && body.last() == w.last());
    assert(body =~= a + seq![32u8] + (v + seq![32u8] + w));
    lemma_split_at_byte(a, 32u8, v + seq![32u8] + w);
    lemma_split_at_byte(v, 32u8, w);
    lemma_split_without_byte(w, 32u8);
    assert(split_lines(body, seq![32u8]).len() == 3);
    lemma_dash_line_effect(m, body);
    lemma_run_first_line(m, rest, false);
    assert(seq![45u8, 32u8] + a + seq![10u8] + rest =~= l + seq![10u8] + rest);
}

/// A first line that is none of blank, comment, `---`, title or code line
/// (it begins with neither `#` nor `-` and does not end in `:`) is an invalid
/// line: the file is refused, nothing after it is read and nothing is
/// stored.
pub proof fn law_stray_line_refuses_the_file(l: Seq<u8>, rest: Seq<u8>)
    requires
        l.len() > 0,
        lacks_byte(l, 10u8),
        l[0] != 32 && l[0] != 9 && l[0] != 13 && l[0] != 35 && l[0] != 45,
        l.last() != 32 && l.last() != 9 && l.last() != 13 && l.last() != 58,
    ensures
        parsed_cheats(l + seq![10u8] + rest) == (
            INVALID_LINE,
            Seq::<u32>::empty(),
            Seq::<u32>::empty(),
        ),
{
    reveal(cheat_line_effect);
    let ws = whitespace();
    assert(l[0] != 10u8) by {
        assert(l[0] == l[0]);
    }
    assert(l.last() != 10u8) by {
        assert(l[l.len() - 1] != 10u8);
    }
    lemma_not_whitespace(l[0]);
    lemma_not_whitespace(l.last());
    lemma_trimmed_keeps(l, ws);
    assert(l.subrange(0, 1)[0] == l[0]);
    assert(!has_prefix(l, seq![35u8]));
    assert(l != seq![45u8, 45u8, 45u8]) by {
        if l == seq![45u8, 45u8, 45u8] {
            assert(l[0] == 45u8);
        }
    }
    assert(l.subrange(l.len() - 1, l.len() as int)[0] == l.last());
    assert(!has_suffix(l, seq![58u8]));
    if l.len() >= 2 {
        assert(l.subrange(0, 2)[0] == l[0]);
    }
    assert(!has_prefix(l, seq![45u8, 32u8]));
    lemma_run_first_line(l, rest, false);
}

proof fn lemma_hex_run_then(d: Seq<u8>, tail: Seq<u8>)
    requires
        forall|j: int| 0 <= j < d.len() ==> is_hex_char(#[trigger] d[j]),
    ensures
        hex_run_len(d + tail) == d.len() + hex_run_len(tail),
    decreases d.len(),
{
    if d.len() > 0 {
        assert(is_hex_char(d[0]));
        let t = d.drop_first();
        assert forall|j: int| 0 <= j < t.len() implies is_hex_char(#[trigger] t[j]) by {
            assert(t[j] == d[j + 1]);
        }
        lemma_hex_run_then(t, tail);
        assert((d + tail).drop_first() =~= t + tail);
        assert((d + tail)[0] == d[0]);
    } else {
        assert(d + tail =~= tail);
    }
}

/// Reading stops at the first byte that is not a hexadecimal digit: what
/// follows it does not count.
pub proof fn law_hex_stops_at_non_digit(d: Seq<u8>, c: u8, rest: Seq<u8>)
    requires
        is_hex_text(d),
        !is_hex_char(c),
        c != 120 && c != 88,
    ensures
        strtoul_hex(d + seq![c] + rest) == strtoul_hex(d),
{
    let s = d + seq![c] + rest;
    assert(s[0] == d[0]);
    assert(is_hex_char(d[0]));
    assert(space_len(s) == 0);
    assert(s.skip(0) =~= s);
    if d.len() >= 2 {
        assert(s[1] == d[1]);
        assert(is_hex_char(d[1]));
    } else {
        assert(s[1] == c);
    }
    assert(s =~= d + (seq![c] + rest));
    lemma_hex_run_then(d, seq![c] + rest);
    assert((seq![c] + rest)[0] == c);
    assert(hex_run_len(seq![c] + rest) == 0);
    assert(s.take(d.len() as int) =~= d);
    lemma_hex_text_read_whole(d);
}

proof fn lemma_space_len_bound(s: Seq<u8>)
    ensures
        space_len(s) <= s.len(),
    decreases s.len(),
{
    if s.len() > 0 {
        lemma_space_len_bound(s.drop_first());
    }
}

/// Spaces before the number are passed over.
pub proof fn law_hex_skips_leading_space(c: u8, s: Seq<u8>)
    requires
        c == 32 || (9 <= c && c <= 13),
    ensures
        strtoul_hex(seq![c] + s) == strtoul_hex(s),
{
    let t = seq![c] + s;
    assert(is_c_space(t[0]));
    assert(t.drop_first() =~= s);
    lemma_space_len_bound(s);
    assert(space_len(t) == 1 + space_len(s));
    assert(t.skip(1 + space_len(s) as int) =~= s.skip(space_len(s) as int));
}

/// A `+` sign and a `0x` or `0X` prefix change nothing.
pub proof fn law_hex_plus_and_prefix(d: Seq<u8>)
    requires
        is_hex_text(d),
    ensures
        strtoul_hex(seq![43u8] + d) == strtoul_hex(d),
        strtoul_hex(seq![48u8, 120u8] + d) == strtoul_hex(d),
        strtoul_hex(seq![48u8, 88u8] + d) == strtoul_hex(d),
        strtoul_hex(seq![43u8, 48u8, 120u8] + d) == strtoul_hex(d),
{
    assert(is_hex_char(d[0]));
    if d.len() >= 2 {
        assert(is_hex_char(d[1]));
    }
    lemma_hex_text_read_whole(d);
    lemma_hex_run_whole(d);
    assert(d.take(d.len() as int) =~= d);
    let p = seq![43u8] + d;
    assert(space_len(p) == 0);
    assert(p.skip(0) =~= p);
    assert(p.drop_first() =~= d);
    let x = seq![48u8, 120u8] + d;
    assert(space_len(x) == 0);
    assert(x.skip(0) =~= x);
    assert(x.skip(2) =~= d);
    let y = seq![48u8, 88u8] + d;
    assert(space_len(y) == 0);
    assert(y.skip(0) =~= y);
    assert(y.skip(2) =~= d);
    let q = seq![43u8, 48u8, 120u8] + d;
    assert(space_len(q) == 0);
    assert(q.skip(0) =~= q);
    assert(q.drop_first() =~= x);
    assert(x.skip(2) =~= d);
}

/// A `-` sign negates the number modulo 2^32, unless the number is too
/// large for a `u32`.
pub proof fn law_hex_minus_negates(d: Seq<u8>)
    requires
        is_hex_text(d),
        strtoul_hex(d) < u32::MAX,
    ensures
        strtoul_hex(seq![45u8] + d) == (0x1_0000_0000 - strtoul_hex(d)) % 0x1_0000_0000,
{
    assert(is_hex_char(d[0]));
    if d.len() >= 2 {
        assert(is_hex_char(d[1]));
    }
    lemma_hex_text_read_whole(d);
    lemma_hex_run_whole(d);
    assert(d.take(d.len() as int) =~= d);
    let m = seq![45u8] + d;
    assert(space_len(m) == 0);
    assert(m.skip(0) =~= m);
    assert(m.drop_first() =~= d);
}

/// A number too large for a `u32` reads as `u32::MAX`: one more digit after
/// a number that, times 16 plus the digit, exceeds `u32::MAX`.
pub proof fn law_hex_saturates(d: Seq<u8>, c: u8)
    requires
        is_hex_text(d),
        is_hex_char(c),
        16 * strtoul_hex(d) + hex_char_value(c) > u32::MAX,
    ensures
        strtoul_hex(d + seq![c]) == u32::MAX,
{
    let e = d + seq![c];
    assert forall|j: int| 0 <= j < e.len() implies is_hex_char(#[trigger] e[j]) by {
        if j < d.len() {
            assert(e[j] == d[j]);
        }
    }
    lemma_hex_text_read_whole(d);
    lemma_hex_text_read_whole(e);
    assert(e.drop_last() =~= d);
    assert(hex_digit_value(c) == hex_char_value(c));
}

} // verus!
