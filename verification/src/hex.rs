use vstd::prelude::*;

verus! {

/// A byte that C's `isspace` accepts: space, `\t`, `\n`, `\v`, `\f` or `\r`.
pub open spec fn is_c_space(c: u8) -> bool {
    c == 32 || (9 <= c && c <= 13)
}

/// An ASCII hexadecimal digit, in either case.
pub open spec fn is_hex_digit(c: u8) -> bool {
    (48 <= c && c <= 57) || (65 <= c && c <= 70) || (97 <= c && c <= 102)
}

/// The value of a hexadecimal digit.
pub open spec fn hex_digit_value(c: u8) -> nat {
    if 48 <= c && c <= 57 {
        (c - 48) as nat
    } else if 65 <= c && c <= 70 {
        (c - 55) as nat
    } else {
        (c - 87) as nat
    }
}

/// The number of leading bytes of `s` that are spaces.
pub open spec fn space_len(s: Seq<u8>) -> nat
    decreases s.len(),
{
    if s.len() > 0 && is_c_space(s[0]) {
        1 + space_len(s.drop_first())
    } else {
        0
    }
}

/// The number of leading bytes of `s` that are hexadecimal digits.
pub open spec fn hex_run_len(s: Seq<u8>) -> nat
    decreases s.len(),
{
    if s.len() > 0 && is_hex_digit(s[0]) {
        1 + hex_run_len(s.drop_first())
    } else {
        0
    }
}

/// The number that a sequence of hexadecimal digits writes, most
/// significant digit first.
pub open spec fn hex_value(digits: Seq<u8>) -> nat
    decreases digits.len(),
{
    if digits.len() == 0 {
        0
    } else {
        16 * hex_value(digits.drop_last()) + hex_digit_value(digits.last())
    }
}

/// What C's `strtoul(s, NULL, 16)` returns with a 32-bit `unsigned long`,
/// reading `s` as the whole string: leading spaces are skipped, then an
/// optional sign, then an optional `0x`/`0X`, then the longest run of
/// hexadecimal digits is read (none gives 0). A value above `u32::MAX`
/// gives `u32::MAX`; a `-` negates the value modulo 2^32.
pub open spec fn strtoul_hex(s: Seq<u8>) -> u32 {
    let a = s.skip(space_len(s) as int);
    let negative = a.len() > 0 && a[0] == 45;
    let b = if a.len() > 0 && (a[0] == 43 || a[0] == 45) {
        a.drop_first()
    } else {
        a
    };
    let c = if b.len() >= 2 && b[0] == 48 && (b[1] == 120 || b[1] == 88) {
        b.skip(2)
    } else {
        b
    };
    let v = hex_value(c.take(hex_run_len(c) as int));
    if v > u32::MAX {
        u32::MAX
    } else if negative && v > 0 {
        (0x1_0000_0000 - v) as u32
    } else {
        v as u32
    }
}

fn is_space_byte(c: u8) -> (r: bool)
    ensures
        r == is_c_space(c),
{
    c == 32 || (9 <= c && c <= 13)
}

fn hex_digit(c: u8) -> (r: Option<u64>)
    ensures
        is_hex_digit(c) <==> r is Some,
        r matches Some(d) ==> d == hex_digit_value(c) && d < 16,
{
    if 48 <= c && c <= 57 {
        Some((c - 48) as u64)
    } else if 65 <= c && c <= 70 {
        Some((c - 55) as u64)
    } else if 97 <= c && c <= 102 {
        Some((c - 87) as u64)
    } else {
        None
    }
}

/// Parses `str` as C's `strtoul` does in base 16 (see `strtoul_hex`).
pub fn hex_to_u32(str: &[u8]) -> (r: u32)
    ensures
        r == strtoul_hex(str@),
{
    let s = str;
    let mut i: usize = 0;
    assert(s@.skip(0) =~= s@);
    while i < s.len() && is_space_byte(s[i])
        invariant
            i <= s@.len(),
            space_len(s@) == i + space_len(s@.skip(i as int)),
        decreases s@.len() - i,
    {
        assert(s@.skip(i as int).drop_first() =~= s@.skip(i + 1));
        i += 1;
    }
    assert(i < s@.len() ==> s@.skip(i as int)[0] == s@[i as int]);
    let a = vstd::slice::slice_subrange(s, i, s.len());
    assert(a@ =~= s@.skip(i as int));
    let negative = a.len() > 0 && a[0] == 45;
    let b = if a.len() > 0 && (a[0] == 43 || a[0] == 45) {
        let b = vstd::slice::slice_subrange(a, 1, a.len());
        assert(b@ =~= a@.drop_first());
        b
    } else {
        a
    };
    let c = if b.len() >= 2 && b[0] == 48 && (b[1] == 120 || b[1] == 88) {
        let c = vstd::slice::slice_subrange(b, 2, b.len());
        assert(c@ =~= b@.skip(2));
        c
    } else {
        b
    };
    let mut k: usize = 0;
    let mut acc: u64 = 0;
    assert(c@.skip(0) =~= c@);
    assert(c@.take(0) =~= Seq::<u8>::empty());
    loop
        invariant
            k <= c@.len(),
            hex_run_len(c@) == k + hex_run_len(c@.skip(k as int)),
            acc == if hex_value(c@.take(k as int)) > 0x1_0000_0000 {
                0x1_0000_0000
            } else {
                hex_value(c@.take(k as int))
            },
        ensures
            hex_run_len(c@) == k,
            acc == if hex_value(c@.take(k as int)) > 0x1_0000_0000 {
                0x1_0000_0000
            } else {
                hex_value(c@.take(k as int))
            },
        decreases c@.len() - k,
    {
        if k >= c.len() {
            break;
        }
        assert(c@.skip(k as int)[0] == c@[k as int]);
        let d = match hex_digit(c[k]) {
            Some(d) => d,
            None => {
                break;
            },
        };
        assert(c@.skip(k as int).drop_first() =~= c@.skip(k + 1));
        assert(c@.take(k + 1).drop_last() =~= c@.take(k as int));
        assert(c@.take(k + 1).last() == c@[k as int]);
        if acc >= 0x1_0000_0000 {
            acc = 0x1_0000_0000;
        } else {
            let n = acc * 16 + d;
            acc = if n > 0x1_0000_0000 {
                0x1_0000_0000
            } else {
                n
            };
        }
        k += 1;
    }
    if acc > 0xFFFF_FFFF {
        u32::MAX
    } else if negative && acc > 0 {
        (0x1_0000_0000 - acc) as u32
    } else {
        acc as u32
    }
}

} // verus!
