//! Character-level helpers shared by the modules that compare names.

use vstd::prelude::*;

verus! {

/// A code point with ASCII letters lower-cased.
pub open spec fn lower_code(c: u32) -> u32 {
    if 0x41 <= c <= 0x5A {
        (c + 32) as u32
    } else {
        c
    }
}

/// `a` and `b` are equal ignoring ASCII case.
pub open spec fn eq_ignore_ascii_case(a: Seq<char>, b: Seq<char>) -> bool {
    &&& a.len() == b.len()
    &&& forall|i: int| 0 <= i < a.len() ==> lower_code(#[trigger] a[i] as u32) == lower_code(b[i] as u32)
}

fn lower_u32(c: u32) -> (r: u32)
    ensures
        r == lower_code(c),
{
    if c >= 0x41 && c <= 0x5A {
        c + 32
    } else {
        c
    }
}

/// Compare two names ignoring ASCII case.
pub fn names_match(a: &[char], b: &[char]) -> (r: bool)
    ensures
        r == eq_ignore_ascii_case(a@, b@),
{
    if a.len() != b.len() {
        return false;
    }
    let mut i: usize = 0;
    while i < a.len()
        invariant
            a@.len() == b@.len(),
            i <= a@.len(),
            forall|j: int| 0 <= j < i ==> lower_code(#[trigger] a@[j] as u32) == lower_code(b@[j] as u32),
        decreases a@.len() - i,
    {
        if lower_u32(a[i] as u32) != lower_u32(b[i] as u32) {
            return false;
        }
        i += 1;
    }
    true
}

/// The characters of `s`, in order.
pub fn chars_of(s: &str) -> (v: Vec<char>)
    ensures
        v@ == s@,
{
    let mut v: Vec<char> = Vec::new();
    for c in it: s.chars()
        invariant
            v@ == it.seq().take(it.index() as int),
            it.seq() == s@,
    {
        v.push(c);
    }
    v
}

/// The lowercase hexadecimal digit for `d` (below 16).
pub open spec fn hex_char(d: nat) -> char {
    if d < 10 {
        (0x30 + d) as char
    } else {
        (0x61 + d - 10) as char
    }
}

/// The lowercase hexadecimal digits of `v`, without leading zeros (`0` for zero).
pub open spec fn hex_digits(v: nat) -> Seq<char>
    decreases v,
{
    if v < 16 {
        seq![hex_char(v)]
    } else {
        hex_digits(v / 16).push(hex_char(v % 16))
    }
}

/// `v` written as `{:#x}` writes it: `0x` and its lowercase hexadecimal digits.
pub open spec fn fmt_hex(v: nat) -> Seq<char> {
    seq!['0', 'x'] + hex_digits(v)
}

fn hex_char_of(d: u64) -> (c: char)
    requires
        d < 16,
    ensures
        c == hex_char(d as nat),
{
    if d < 10 {
        let b = 0x30u8 + d as u8;
        b as char
    } else {
        let b = 0x61u8 + (d - 10) as u8;
        b as char
    }
}

fn push_hex_digits(out: &mut Vec<char>, v: u64)
    ensures
        final(out)@ == old(out)@ + hex_digits(v as nat),
    decreases v,
{
    if v >= 16 {
        push_hex_digits(out, v / 16);
    }
    let ghost mid = out@;
    out.push(hex_char_of(v % 16));
    proof {
        if v >= 16 {
            assert(out@ =~= old(out)@ + hex_digits(v as nat));
        } else {
            assert(out@ =~= old(out)@ + hex_digits(v as nat));
        }
    }
}

/// Append `v` as `{:#x}` writes it.
pub fn push_hex(out: &mut Vec<char>, v: u64)
    ensures
        final(out)@ == old(out)@ + fmt_hex(v as nat),
{
    out.push('0');
    out.push('x');
    let ghost mid = out@;
    push_hex_digits(out, v);
    assert(out@ =~= old(out)@ + fmt_hex(v as nat));
}

/// Append the characters of `s`.
pub fn push_chars(out: &mut Vec<char>, s: &[char])
    ensures
        final(out)@ == old(out)@ + s@,
{
    let mut i: usize = 0;
    while i < s.len()
        invariant
            i <= s@.len(),
            out@ == old(out)@ + s@.subrange(0, i as int),
        decreases s@.len() - i,
    {
        out.push(s[i]);
        i += 1;
        assert(out@ =~= old(out)@ + s@.subrange(0, i as int));
    }
    assert(s@.subrange(0, s@.len() as int) =~= s@);
}

} // verus!
