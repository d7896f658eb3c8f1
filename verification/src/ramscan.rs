//! Searching guest physical RAM for byte patterns: text in ASCII or UTF-16LE, little-endian
//! integers, raw byte strings, and 1024x768 `SURFOBJ` headers.
//!
//! RAM is read a MiB at a time; the last bytes of each MiB are carried into the next so a
//! pattern across the boundary is still found.

use vstd::prelude::*;
use vstd::bytes::*;
use vstd::utf8::*;

use crate::cli::{
    hex_digit, hex_value, parse_hex, parse_hex_range, phys_bytes, pieces, same_memory, split_on,
    strip_all, trim, GuestPhysical,
};
use crate::inspect::{contains_u64, read_phys, u16_le, u32_le, u64_le, u16_at, u32_at, u64_at};
use crate::procscan::{scan_limit, MAX_CHUNKS, SCAN_CHUNK};
use crate::resume::trimmed;
use crate::sce::{chunk_len, holds_at};
use crate::text::{chars_of, fmt_hex, push_hex};

verus! {

/// How the pieces of a search request are read.
#[derive(Debug, Clone, Copy, PartialEq, Eq, Structural)]
pub enum NeedleKind {
    /// The piece's UTF-8 bytes, at most 32.
    Ascii,
    /// The piece in UTF-16LE, at most 32 characters.
    Utf16,
    /// Pairs of hexadecimal digits (other characters ignored), 4 to 64 digits.
    Bytes,
    /// A hexadecimal value as a little-endian `u32` (truncated).
    Int4,
    /// A hexadecimal value as a little-endian `u64`.
    Int8,
}

/// The UTF-16LE bytes of `c`.
pub open spec fn utf16_le_char(c: char) -> Seq<u8> {
    let v = c as u32;
    if v < 0x1_0000 {
        seq![(v & 0xff) as u8, (v >> 8u32) as u8]
    } else {
        let u = (v - 0x1_0000) as u32;
        let hi = (0xD800 + (u >> 10u32)) as u32;
        let lo = (0xDC00 + (u & 0x3ff)) as u32;
        seq![(hi & 0xff) as u8, (hi >> 8u32) as u8, (lo & 0xff) as u8, (lo >> 8u32) as u8]
    }
}

/// The UTF-16LE bytes of `s`.
pub open spec fn utf16_le(s: Seq<char>) -> Seq<u8>
    decreases s.len(),
{
    if s.len() == 0 {
        Seq::empty()
    } else {
        utf16_le(s.drop_last()) + utf16_le_char(s.last())
    }
}

/// The hexadecimal digits of `s`, in order.
pub open spec fn hex_digits_in(s: Seq<char>) -> Seq<char>
    decreases s.len(),
{
    if s.len() == 0 {
        Seq::empty()
    } else {
        let r = hex_digits_in(s.drop_last());
        if hex_digit(s.last()) is Some {
            r.push(s.last())
        } else {
            r
        }
    }
}

/// The bytes the digit pairs of `h` spell.
pub open spec fn digit_pairs(h: Seq<char>) -> Seq<u8> {
    Seq::new(h.len() / 2, |i: int| hex_value(h.subrange(2 * i, 2 * i + 2)) as u8)
}

/// The name and bytes of the needle the piece `t` gives, if it gives one.
pub open spec fn needle_of(kind: NeedleKind, t: Seq<char>) -> Option<(Seq<char>, Seq<u8>)> {
    match kind {
        NeedleKind::Ascii => {
            let b = encode_utf8(t);
            if 0 < b.len() <= 32 {
                Some((t, b))
            } else {
                None
            }
        },
        NeedleKind::Utf16 => if 0 < t.len() <= 32 {
            Some((t, utf16_le(t)))
        } else {
            None
        },
        NeedleKind::Bytes => {
            let h = hex_digits_in(t);
            if h.len() < 4 || h.len() % 2 != 0 || h.len() > 64 {
                None
            } else {
                Some((h, digit_pairs(h)))
            }
        },
        NeedleKind::Int4 | NeedleKind::Int8 => match parse_hex(
            strip_all(strip_all(t, seq!['0', 'x']), seq!['0', 'X']),
            u64::MAX as nat,
        ) {
            None => None,
            Some(v) => Some(
                (
                    fmt_hex(v),
                    if kind == NeedleKind::Int8 {
                        spec_u64_to_le_bytes(v as u64)
                    } else {
                        spec_u32_to_le_bytes(v as u32)
                    },
                ),
            ),
        },
    }
}

/// The first `n` pieces of `ps`, trimmed, without the empty ones.
pub open spec fn kept_pieces(ps: Seq<Seq<char>>, n: nat) -> Seq<Seq<char>>
    decreases n,
{
    if n == 0 || n > ps.len() {
        Seq::empty()
    } else {
        let r = kept_pieces(ps, (n - 1) as nat);
        let t = trim(ps[n - 1]);
        if t.len() > 0 {
            r.push(t)
        } else {
            r
        }
    }
}

/// At most the first `n` of `s`.
pub open spec fn at_most<T>(s: Seq<T>, n: nat) -> Seq<T> {
    if s.len() > n {
        s.take(n as int)
    } else {
        s
    }
}

/// The needles of the first `n` of the pieces `ts`.
pub open spec fn select_needles(kind: NeedleKind, ts: Seq<Seq<char>>, n: nat) -> Seq<(Seq<char>, Seq<u8>)>
    decreases n,
{
    if n == 0 || n > ts.len() {
        Seq::empty()
    } else {
        let r = select_needles(kind, ts, (n - 1) as nat);
        match needle_of(kind, ts[n - 1]) {
            Some(x) => r.push(x),
            None => r,
        }
    }
}

/// How many non-empty pieces a request is cut to.
pub open spec fn piece_limit(kind: NeedleKind) -> nat {
    if kind == NeedleKind::Bytes {
        4
    } else {
        8
    }
}

/// The needles of a comma-separated request: its pieces trimmed, the empty ones dropped, cut
/// to the first eight (four for raw bytes), and those that give no needle dropped.
pub open spec fn needles_of(kind: NeedleKind, spec: Seq<char>) -> Seq<(Seq<char>, Seq<u8>)> {
    let ps = pieces(spec, ',');
    let ts = at_most(kept_pieces(ps, ps.len()), piece_limit(kind));
    select_needles(kind, ts, ts.len())
}

/// Encoding a concatenation encodes each part.
proof fn lemma_encode_concat(a: Seq<char>, b: Seq<char>)
    ensures
        encode_utf8(a + b) == encode_utf8(a) + encode_utf8(b),
    decreases a.len(),
{
    if a.len() == 0 {
        assert(a + b =~= b);
        assert(encode_utf8(a) + encode_utf8(b) =~= encode_utf8(b));
    } else {
        lemma_encode_concat(a.drop_first(), b);
        assert((a + b).drop_first() =~= a.drop_first() + b);
        assert((a + b)[0] == a[0]);
        assert(encode_utf8(a + b) =~= encode_utf8(a) + encode_utf8(b));
    }
}

/// The UTF-8 bytes of `s`.
fn utf8_of(s: &Vec<char>) -> (r: Vec<u8>)
    ensures
        r@ == encode_utf8(s@),
{
    let mut out: Vec<u8> = Vec::new();
    let mut k: usize = 0;
    while k < s.len()
        invariant
            k <= s@.len(),
            out@ == encode_utf8(s@.subrange(0, k as int)),
        decreases s@.len() - k,
    {
        let v = s[k] as u32;
        let ghost before = out@;
        proof {
            let c = s@[k as int];
            char_is_scalar(c);
            assert(encode_utf8(Seq::<char>::empty()) =~= Seq::<u8>::empty());
            assert(s@.subrange(0, k + 1) =~= s@.subrange(0, k as int) + seq![c]);
            lemma_encode_concat(s@.subrange(0, k as int), seq![c]);
            assert(seq![c].drop_first() =~= Seq::<char>::empty());
            assert(encode_utf8(seq![c]) =~= encode_scalar(v));
        }
        if v <= 0x7F {
            out.push((v & 0x7F) as u8);
        } else if v <= 0x7FF {
            out.push(0xC0 | ((v >> 6u32) & 0x1F) as u8);
            out.push(0x80 | (v & 0x3F) as u8);
        } else if v <= 0xFFFF {
            out.push(0xE0 | ((v >> 12u32) & 0x0F) as u8);
            out.push(0x80 | ((v >> 6u32) & 0x3F) as u8);
            out.push(0x80 | (v & 0x3F) as u8);
        } else {
            out.push(0xF0 | ((v >> 18u32) & 0x7) as u8);
            out.push(0x80 | ((v >> 12u32) & 0x3F) as u8);
            out.push(0x80 | ((v >> 6u32) & 0x3F) as u8);
            out.push(0x80 | (v & 0x3F) as u8);
        }
        assert(out@ =~= before + encode_scalar(v));
        k += 1;
    }
    assert(s@.subrange(0, s@.len() as int) =~= s@);
    out
}

/// The UTF-16LE bytes of `s`.
fn utf16_of(s: &Vec<char>) -> (r: Vec<u8>)
    ensures
        r@ == utf16_le(s@),
{
    let mut out: Vec<u8> = Vec::new();
    let mut k: usize = 0;
    while k < s.len()
        invariant
            k <= s@.len(),
            out@ == utf16_le(s@.subrange(0, k as int)),
        decreases s@.len() - k,
    {
        let ghost before = out@;
        let v = s[k] as u32;
        proof {
            char_is_scalar(s@[k as int]);
        }
        assert(s@.subrange(0, k + 1).drop_last() =~= s@.subrange(0, k as int));
        if v < 0x1_0000 {
            out.push((v & 0xff) as u8);
            out.push((v >> 8u32) as u8);
        } else {
            let u = v - 0x1_0000;
            assert((u >> 10u32) <= 0x3ff) by (bit_vector)
                requires
                    u < 0x10_0000,
            ;
            assert(u & 0x3ff <= 0x3ff) by (bit_vector);
            let hi = 0xD800 + (u >> 10u32);
            let lo = 0xDC00 + (u & 0x3ff);
            out.push((hi & 0xff) as u8);
            out.push((hi >> 8u32) as u8);
            out.push((lo & 0xff) as u8);
            out.push((lo >> 8u32) as u8);
        }
        assert(out@ =~= before + utf16_le_char(s@[k as int]));
        k += 1;
    }
    assert(s@.subrange(0, s@.len() as int) =~= s@);
    out
}

/// The hexadecimal digits of `s`.
fn hex_digits_of(s: &Vec<char>) -> (r: Vec<char>)
    ensures
        r@ == hex_digits_in(s@),
{
    let mut out: Vec<char> = Vec::new();
    let mut k: usize = 0;
    while k < s.len()
        invariant
            k <= s@.len(),
            out@ == hex_digits_in(s@.subrange(0, k as int)),
        decreases s@.len() - k,
    {
        let c = s[k];
        let v = c as u32;
        assert(s@.subrange(0, k + 1).drop_last() =~= s@.subrange(0, k as int));
        if (v >= 0x30 && v <= 0x39) || (v >= 0x61 && v <= 0x66) || (v >= 0x41 && v <= 0x46) {
            out.push(c);
        }
        k += 1;
    }
    assert(s@.subrange(0, s@.len() as int) =~= s@);
    out
}

/// The bytes the digit pairs of `h` spell.
fn digit_pairs_of(h: &Vec<char>) -> (r: Vec<u8>)
    requires
        forall|i: int| 0 <= i < h@.len() ==> hex_digit(#[trigger] h@[i]) is Some,
    ensures
        r@ == digit_pairs(h@),
{
    let mut out: Vec<u8> = Vec::new();
    let mut i: usize = 0;
    while i < h.len() / 2
        invariant
            i <= h@.len() / 2,
            forall|j: int| 0 <= j < h@.len() ==> hex_digit(#[trigger] h@[j]) is Some,
            out@ =~= digit_pairs(h@).subrange(0, i as int),
        decreases h@.len() / 2 - i,
    {
        let ghost pair = h@.subrange(2 * i as int, 2 * i + 2);
        proof {
            assert(hex_digit(pair[0]) is Some && hex_digit(pair[1]) is Some) by {
                assert(pair[0] == h@[2 * i as int]);
                assert(pair[1] == h@[2 * i + 1]);
            }
            assert(pair.drop_last().drop_last() =~= Seq::<char>::empty());
            assert(pair.drop_last().last() == pair[0]);
            assert(hex_value(pair.drop_last().drop_last()) == 0);
            assert(hex_value(pair.drop_last()) <= 15);
            assert(hex_value(pair) <= 255);
            assert(pair[0] != '+');
            assert(crate::cli::unsigned_digits(pair) == pair);
            assert(!crate::cli::has_non_hex_digit(pair)) by {
                assert forall|j: int| 0 <= j < pair.len() implies hex_digit(#[trigger] pair[j]) is Some by {
                    assert(pair[j] == h@[2 * i + j]);
                }
            }
            assert(parse_hex(pair, 255) == Some(hex_value(pair)));
        }
        let b = match parse_hex_range(h.as_slice(), 2 * i, 2 * i + 2, 255) {
            Some(b) => b,
            None => 0,
        };
        out.push(b as u8);
        i += 1;
    }
    out
}

/// `s[from..]` without its leading repetitions of `a` `b`.
fn strip_pair(s: &[char], from: usize, a: char, b: char) -> (r: usize)
    requires
        from <= s@.len(),
    ensures
        from <= r <= s@.len(),
        strip_all(s@.subrange(from as int, s@.len() as int), seq![a, b]) == s@.subrange(r as int, s@.len() as int),
{
    let mut i = from;
    while s.len() - i >= 2 && s[i] == a && s[i + 1] == b
        invariant
            from <= i <= s@.len(),
            strip_all(s@.subrange(from as int, s@.len() as int), seq![a, b]) == strip_all(
                s@.subrange(i as int, s@.len() as int),
                seq![a, b],
            ),
        decreases s@.len() - i,
    {
        assert(s@.subrange(i as int, s@.len() as int).subrange(2, s@.len() - i) =~= s@.subrange(
            i + 2,
            s@.len() as int,
        ));
        i += 2;
    }
    i
}

/// The needle the piece `t` gives, if any.
fn needle_of_in(kind: NeedleKind, t: &Vec<char>) -> (r: Option<(Vec<char>, Vec<u8>)>)
    ensures
        match needle_of(kind, t@) {
            Some(x) => r matches Some(y) && y.0@ == x.0 && y.1@ == x.1,
            None => r is None,
        },
{
    match kind {
        NeedleKind::Ascii => {
            let b = utf8_of(t);
            if b.len() > 0 && b.len() <= 32 {
                Some((t.clone(), b))
            } else {
                None
            }
        },
        NeedleKind::Utf16 => if t.len() > 0 && t.len() <= 32 {
            Some((t.clone(), utf16_of(t)))
        } else {
            None
        },
        NeedleKind::Bytes => {
            let h = hex_digits_of(t);
            if h.len() < 4 || h.len() % 2 != 0 || h.len() > 64 {
                return None;
            }
            proof {
                lemma_hex_digits_in(t@);
            }
            let b = digit_pairs_of(&h);
            Some((h, b))
        },
        NeedleKind::Int4 | NeedleKind::Int8 => {
            let a = strip_pair(t.as_slice(), 0, '0', 'x');
            let c = strip_pair(t.as_slice(), a, '0', 'X');
            assert(t@.subrange(0, t@.len() as int) =~= t@);
            match parse_hex_range(t.as_slice(), c, t.len(), u64::MAX) {
                None => None,
                Some(v) => {
                    let mut name: Vec<char> = Vec::new();
                    push_hex(&mut name, v);
                    assert(name@ =~= fmt_hex(v as nat));
                    let bytes = match kind {
                        NeedleKind::Int8 => u64_to_le_bytes(v),
                        _ => u32_to_le_bytes(v as u32),
                    };
                    Some((name, bytes))
                },
            }
        },
    }
}

/// The characters `hex_digits_in` keeps are hexadecimal digits.
proof fn lemma_hex_digits_in(s: Seq<char>)
    ensures
        forall|i: int| 0 <= i < hex_digits_in(s).len() ==> hex_digit(#[trigger] hex_digits_in(s)[i]) is Some,
    decreases s.len(),
{
    if s.len() > 0 {
        lemma_hex_digits_in(s.drop_last());
    }
}

/// The needles of a search request.
fn needles_in(kind: NeedleKind, spec: &str) -> (r: Vec<(Vec<char>, Vec<u8>)>)
    ensures
        r@.len() == needles_of(kind, spec@).len(),
        forall|i: int|
            0 <= i < r@.len() ==> (#[trigger] r@[i]).0@ == needles_of(kind, spec@)[i].0 && r@[i].1@
                == needles_of(kind, spec@)[i].1,
{
    let chars = chars_of(spec);
    let ps = split_on(chars.as_slice(), ',');
    let ghost psv = pieces(spec@, ',');
    let limit: usize = if kind == NeedleKind::Bytes {
        4
    } else {
        8
    };
    let mut ts: Vec<Vec<char>> = Vec::new();
    let mut i: usize = 0;
    while i < ps.len()
        invariant
            i <= ps@.len(),
            ps@.len() == psv.len(),
            forall|k: int| 0 <= k < ps@.len() ==> #[trigger] ps@[k]@ == psv[k],
            limit == piece_limit(kind),
            Seq::new(ts@.len(), |k: int| ts@[k]@) == at_most(kept_pieces(psv, i as nat), limit as nat),
        decreases ps@.len() - i,
    {
        let ghost before = Seq::new(ts@.len(), |k: int| ts@[k]@);
        let ghost kept = kept_pieces(psv, i as nat);
        let t = trimmed(ps[i].as_slice(), 0, ps[i].len());
        assert(ps@[i as int]@.subrange(0, ps@[i as int]@.len() as int) =~= psv[i as int]);
        if t.len() > 0 && ts.len() < limit {
            ts.push(t);
            assert(Seq::new(ts@.len(), |k: int| ts@[k]@) =~= before.push(t@));
        }
        proof {
            if t@.len() > 0 && kept.len() >= limit {
                assert(kept.push(t@).take(limit as int) =~= kept.take(limit as int));
            }
        }
        i += 1;
    }
    assert(psv.len() == ps@.len());
    let ghost tsv = Seq::new(ts@.len(), |k: int| ts@[k]@);
    let mut out: Vec<(Vec<char>, Vec<u8>)> = Vec::new();
    let mut j: usize = 0;
    while j < ts.len()
        invariant
            j <= ts@.len(),
            tsv == Seq::new(ts@.len(), |k: int| ts@[k]@),
            out@.len() == select_needles(kind, tsv, j as nat).len(),
            forall|k: int|
                0 <= k < out@.len() ==> (#[trigger] out@[k]).0@ == select_needles(kind, tsv, j as nat)[k].0
                    && out@[k].1@ == select_needles(kind, tsv, j as nat)[k].1,
        decreases ts@.len() - j,
    {
        assert(tsv[j as int] == ts@[j as int]@);
        match needle_of_in(kind, &ts[j]) {
            Some(x) => out.push(x),
            None => {},
        }
        j += 1;
    }
    out
}

/// The hits of `needle` in `buf` (read at physical `base`) from offset `o` on, added to
/// `hits` (without repeats) until it holds `cap`; after a match the search goes on
/// `1 + extra` bytes later, otherwise one byte later.
pub open spec fn needle_hits(
    buf: Seq<u8>,
    base: u64,
    needle: Seq<u8>,
    extra: nat,
    cap: nat,
    hits: Seq<u64>,
    o: int,
) -> Seq<u64>
    decreases buf.len() + 1 + extra - o,
{
    if hits.len() >= cap || o < 0 || o + needle.len() > buf.len() {
        hits
    } else if buf.subrange(o, o + needle.len()) == needle {
        let abs = (base + o) as u64;
        let h2 = if hits.contains(abs) {
            hits
        } else {
            hits.push(abs)
        };
        needle_hits(buf, base, needle, extra, cap, h2, o + 1 + extra)
    } else {
        needle_hits(buf, base, needle, extra, cap, hits, o + 1)
    }
}

/// How many bytes of each MiB are carried into the next: one less than the longest needle.
pub open spec fn keep_for(needles: Seq<Seq<u8>>) -> nat
    decreases needles.len(),
{
    if needles.len() == 0 {
        0
    } else {
        let k = keep_for(needles.drop_last());
        let l = if needles.last().len() > 0 {
            (needles.last().len() - 1) as nat
        } else {
            0
        };
        if l > k {
            l
        } else {
            k
        }
    }
}

/// The last `keep` bytes of `buf`, when there are that many and `keep` is not 0.
pub open spec fn carry(buf: Seq<u8>, keep: nat) -> Seq<u8> {
    if keep > 0 && buf.len() >= keep {
        buf.subrange(buf.len() - keep, buf.len() as int)
    } else {
        Seq::empty()
    }
}

/// The scan of MiB `k..` of the first `total` bytes of RAM for `needles`, `hits` holding what
/// each found so far and `tail` the bytes carried from the MiB before.
pub open spec fn scan_needles<M: GuestPhysical>(
    m: &M,
    needles: Seq<Seq<u8>>,
    extra: nat,
    cap: nat,
    total: u64,
    keep: nat,
    tail: Seq<u8>,
    hits: Seq<Seq<u64>>,
    k: nat,
) -> Seq<Seq<u64>>
    decreases MAX_CHUNKS - k,
{
    if k >= MAX_CHUNKS || k * SCAN_CHUNK >= total {
        hits
    } else {
        let addr = (k * SCAN_CHUNK) as u64;
        let buf = tail + phys_bytes(m, addr, chunk_len(total, k));
        let base = if addr >= tail.len() {
            (addr - tail.len()) as u64
        } else {
            0
        };
        let h2 = Seq::new(hits.len(), |i: int| needle_hits(buf, base, needles[i], extra, cap, hits[i], 0));
        scan_needles(m, needles, extra, cap, total, keep, carry(buf, keep), h2, k + 1)
    }
}

/// How many hits are kept of each needle.
pub open spec fn hit_cap(kind: NeedleKind) -> nat {
    match kind {
        NeedleKind::Ascii | NeedleKind::Utf16 => 12,
        _ => 16,
    }
}

/// The extra step after a match: UTF-16 text moves on by whole units.
pub open spec fn match_extra(kind: NeedleKind) -> nat {
    if kind == NeedleKind::Utf16 {
        1
    } else {
        0
    }
}

/// What a search for one needle reports.
#[derive(Debug, Clone, PartialEq, Eq)]
pub struct NeedleHits {
    /// The needle as the request named it.
    pub name: Vec<char>,
    /// Its bytes.
    pub needle: Vec<u8>,
    /// Where it was found, in the order found.
    pub hits: Vec<u64>,
}

/// The report of a search of `scan_mb` MiB of `m` for the needles of `spec` read as `kind`:
/// one entry per needle, none when the request names none.
pub open spec fn ram_scan_of<M: GuestPhysical>(
    m: &M,
    kind: NeedleKind,
    spec: Seq<char>,
    scan_mb: u64,
    r: Seq<NeedleHits>,
) -> bool {
    let ns = needles_of(kind, spec);
    let bytes = Seq::new(ns.len(), |i: int| ns[i].1);
    let hits = scan_needles(
        m,
        bytes,
        match_extra(kind),
        hit_cap(kind),
        scan_limit(scan_mb),
        keep_for(bytes),
        Seq::empty(),
        Seq::new(ns.len(), |i: int| Seq::<u64>::empty()),
        0,
    );
    &&& r.len() == ns.len()
    &&& forall|i: int|
        0 <= i < r.len() ==> (#[trigger] r[i]).name@ == ns[i].0 && r[i].needle@ == ns[i].1 && r[i].hits@
            == hits[i]
}

/// `needle_hits` from the start of `buf`.
fn needle_hits_in(buf: &Vec<u8>, base: u64, needle: &Vec<u8>, extra: usize, cap: usize, hits: &mut Vec<u64>)
    requires
        extra <= 1,
        buf@.len() <= 0x20_0000,
        base <= 0x1_0000_0000,
    ensures
        final(hits)@ == needle_hits(buf@, base, needle@, extra as nat, cap as nat, old(hits)@, 0),
{
    let ghost target = needle_hits(buf@, base, needle@, extra as nat, cap as nat, hits@, 0);
    let mut o: usize = 0;
    while hits.len() < cap && needle.len() <= buf.len() && o <= buf.len() - needle.len()
        invariant
            extra <= 1,
            buf@.len() <= 0x20_0000,
            base <= 0x1_0000_0000,
            o <= buf@.len() + 2,
            target == needle_hits(buf@, base, needle@, extra as nat, cap as nat, hits@, o as int),
        decreases buf@.len() + 2 - o,
    {
        if holds_at(buf.as_slice(), o, needle.as_slice()) {
            let abs = base + o as u64;
            if !contains_u64(hits, abs) {
                hits.push(abs);
            }
            o += 1 + extra;
        } else {
            o += 1;
        }
    }
}

/// `keep_for`.
fn keep_of(ns: &Vec<(Vec<char>, Vec<u8>)>, Ghost(bytes): Ghost<Seq<Seq<u8>>>) -> (r: usize)
    requires
        bytes.len() == ns@.len(),
        forall|i: int| 0 <= i < ns@.len() ==> #[trigger] bytes[i] == ns@[i].1@,
        forall|i: int| 0 <= i < ns@.len() ==> #[trigger] ns@[i].1@.len() <= 128,
    ensures
        r == keep_for(bytes),
        r <= 127,
{
    let mut keep: usize = 0;
    let mut i: usize = 0;
    while i < ns.len()
        invariant
            i <= ns@.len(),
            bytes.len() == ns@.len(),
            forall|j: int| 0 <= j < ns@.len() ==> #[trigger] bytes[j] == ns@[j].1@,
            forall|j: int| 0 <= j < ns@.len() ==> #[trigger] ns@[j].1@.len() <= 128,
            keep == keep_for(bytes.subrange(0, i as int)),
            keep <= 127,
        decreases ns@.len() - i,
    {
        let n = ns[i].1.len();
        let l = if n > 0 {
            n - 1
        } else {
            0
        };
        assert(bytes.subrange(0, i + 1).drop_last() =~= bytes.subrange(0, i as int));
        assert(bytes.subrange(0, i + 1).last() == bytes[i as int]);
        if l > keep {
            keep = l;
        }
        i += 1;
    }
    assert(bytes.subrange(0, ns@.len() as int) =~= bytes);
    keep
}

/// `a` followed by `b`.
fn concat_bytes(a: &Vec<u8>, b: &Vec<u8>) -> (r: Vec<u8>)
    ensures
        r@ == a@ + b@,
{
    let mut r = a.clone();
    let mut i: usize = 0;
    while i < b.len()
        invariant
            i <= b@.len(),
            r@ =~= a@ + b@.subrange(0, i as int),
        decreases b@.len() - i,
    {
        r.push(b[i]);
        i += 1;
    }
    assert(b@.subrange(0, b@.len() as int) =~= b@);
    r
}

/// Search `scan_mb` MiB of RAM for the needles of `spec` read as `kind`.
fn scan_ram<M: GuestPhysical>(m: &mut M, kind: NeedleKind, spec: &str, scan_mb: u64) -> (r: Vec<NeedleHits>)
    ensures
        ram_scan_of(old(m), kind, spec@, scan_mb, r@),
        same_memory(final(m), old(m)),
{
    let ghost m0 = *m;
    let ns = needles_in(kind, spec);
    let ghost nsv = needles_of(kind, spec@);
    let ghost bytes = Seq::new(nsv.len(), |i: int| nsv[i].1);
    proof {
        assert forall|i: int| 0 <= i < ns@.len() implies #[trigger] ns@[i].1@.len() <= 128 by {
            lemma_needle_len(kind, spec@, i);
        }
    }
    let keep = keep_of(&ns, Ghost(bytes));
    let extra: usize = if kind == NeedleKind::Utf16 {
        1
    } else {
        0
    };
    let cap: usize = match kind {
        NeedleKind::Ascii | NeedleKind::Utf16 => 12,
        _ => 16,
    };
    let total: u64 = match scan_mb.checked_mul(0x10_0000) {
        Some(b) => if b < 0x1_0000_0000 {
            b
        } else {
            0x1_0000_0000
        },
        None => 0x1_0000_0000,
    };
    assert(total == scan_limit(scan_mb));
    let mut hits: Vec<Vec<u64>> = Vec::new();
    let mut i: usize = 0;
    while i < ns.len()
        invariant
            i <= ns@.len(),
            hits@.len() == i,
            forall|j: int| 0 <= j < i ==> (#[trigger] hits@[j])@ == Seq::<u64>::empty(),
        decreases ns@.len() - i,
    {
        hits.push(Vec::new());
        i += 1;
    }
    let ghost target = scan_needles(
        &m0,
        bytes,
        extra as nat,
        cap as nat,
        total,
        keep as nat,
        Seq::empty(),
        Seq::new(nsv.len(), |i: int| Seq::<u64>::empty()),
        0,
    );
    assert(Seq::new(hits@.len(), |j: int| hits@[j]@) =~= Seq::new(nsv.len(), |i: int| Seq::<u64>::empty()));
    let mut tail: Vec<u8> = Vec::new();
    let mut k: u64 = 0;
    while k < MAX_CHUNKS && k * SCAN_CHUNK < total
        invariant
            k <= MAX_CHUNKS,
            total <= 0x1_0000_0000,
            same_memory(m, &m0),
            keep <= 127,
            tail@.len() <= keep,
            k == 0 ==> tail@.len() == 0,
            extra <= 1,
            ns@.len() == nsv.len(),
            bytes.len() == nsv.len(),
            forall|j: int| 0 <= j < ns@.len() ==> #[trigger] bytes[j] == ns@[j].1@,
            hits@.len() == ns@.len(),
            target == scan_needles(
                &m0,
                bytes,
                extra as nat,
                cap as nat,
                total,
                keep as nat,
                tail@,
                Seq::new(hits@.len(), |j: int| hits@[j]@),
                k as nat,
            ),
        decreases MAX_CHUNKS - k,
    {
        let addr = k * SCAN_CHUNK;
        let len: u64 = if total - addr < SCAN_CHUNK {
            total - addr
        } else {
            SCAN_CHUNK
        };
        assert(len == chunk_len(total, k as nat));
        let read = read_phys(m, Ghost(m0), addr, len as usize);
        let buf = concat_bytes(&tail, &read);
        let base = addr - tail.len() as u64;
        let ghost old_hits = Seq::new(hits@.len(), |j: int| hits@[j]@);
        let mut next: Vec<Vec<u64>> = Vec::new();
        let mut i: usize = 0;
        while i < ns.len()
            invariant
                i <= ns@.len(),
                hits@.len() == ns@.len(),
                old_hits == Seq::new(hits@.len(), |j: int| hits@[j]@),
                extra <= 1,
                buf@.len() <= 0x20_0000,
                base <= 0x1_0000_0000,
                bytes.len() == ns@.len(),
                forall|j: int| 0 <= j < ns@.len() ==> #[trigger] bytes[j] == ns@[j].1@,
                next@.len() == i,
                forall|j: int|
                    0 <= j < i ==> (#[trigger] next@[j])@ == needle_hits(
                        buf@,
                        base,
                        bytes[j],
                        extra as nat,
                        cap as nat,
                        old_hits[j],
                        0,
                    ),
            decreases ns@.len() - i,
        {
            let mut h = hits[i].clone();
            assert(h@ == old_hits[i as int]);
            needle_hits_in(&buf, base, &ns[i].1, extra, cap, &mut h);
            next.push(h);
            i += 1;
        }
        assert(Seq::new(next@.len(), |j: int| next@[j]@) =~= Seq::new(
            old_hits.len(),
            |j: int| needle_hits(buf@, base, bytes[j], extra as nat, cap as nat, old_hits[j], 0),
        ));
        hits = next;
        let mut b2 = buf;
        tail = if keep > 0 && b2.len() >= keep {
            b2.split_off(b2.len() - keep)
        } else {
            Vec::new()
        };
        k += 1;
    }
    let mut out: Vec<NeedleHits> = Vec::new();
    let mut i: usize = 0;
    while i < ns.len()
        invariant
            i <= ns@.len(),
            hits@.len() == ns@.len(),
            ns@.len() == nsv.len(),
            forall|j: int| 0 <= j < ns@.len() ==> (#[trigger] ns@[j]).0@ == nsv[j].0 && ns@[j].1@ == nsv[j].1,
            target == Seq::new(hits@.len(), |j: int| hits@[j]@),
            out@.len() == i,
            forall|j: int|
                0 <= j < i ==> (#[trigger] out@[j]).name@ == nsv[j].0 && out@[j].needle@ == nsv[j].1
                    && out@[j].hits@ == target[j],
        decreases ns@.len() - i,
    {
        out.push(NeedleHits { name: ns[i].0.clone(), needle: ns[i].1.clone(), hits: hits[i].clone() });
        i += 1;
    }
    out
}

/// The needles of a request are at most 128 bytes.
proof fn lemma_needle_len(kind: NeedleKind, spec: Seq<char>, i: int)
    requires
        0 <= i < needles_of(kind, spec).len(),
    ensures
        needles_of(kind, spec)[i].1.len() <= 128,
{
    let ps = pieces(spec, ',');
    let ts = at_most(kept_pieces(ps, ps.len()), piece_limit(kind));
    lemma_select_len(kind, ts, ts.len(), i);
}

proof fn lemma_select_len(kind: NeedleKind, ts: Seq<Seq<char>>, n: nat, i: int)
    requires
        0 <= i < select_needles(kind, ts, n).len(),
    ensures
        select_needles(kind, ts, n)[i].1.len() <= 128,
    decreases n,
{
    if n > 0 && n <= ts.len() {
        let r = select_needles(kind, ts, (n - 1) as nat);
        if i < r.len() {
            lemma_select_len(kind, ts, (n - 1) as nat, i);
        } else {
            lemma_needle_of_len(kind, ts[n - 1]);
        }
    }
}

proof fn lemma_needle_of_len(kind: NeedleKind, t: Seq<char>)
    ensures
        needle_of(kind, t) matches Some(x) ==> x.1.len() <= 128,
{
    if kind == NeedleKind::Utf16 && 0 < t.len() <= 32 {
        lemma_utf16_len(t);
    }
    lemma_auto_spec_u64_to_from_le_bytes();
    lemma_auto_spec_u32_to_from_le_bytes();
}

proof fn lemma_utf16_len(s: Seq<char>)
    ensures
        utf16_le(s).len() <= 4 * s.len(),
    decreases s.len(),
{
    if s.len() > 0 {
        lemma_utf16_len(s.drop_last());
    }
}

/// Search RAM (`scan_mb` MiB, at most 4 GiB) for the UTF-8 text of each comma-separated piece
/// of `spec` (trimmed, the first eight non-empty ones of at most 32 bytes), keeping the first
/// 12 hits of each.
pub fn scan_ascii_in_ram<M: GuestPhysical>(m: &mut M, spec: &str, scan_mb: u64) -> (r: Vec<NeedleHits>)
    ensures
        ram_scan_of(old(m), NeedleKind::Ascii, spec@, scan_mb, r@),
        same_memory(final(m), old(m)),
{
    scan_ram(m, NeedleKind::Ascii, spec, scan_mb)
}

/// Search RAM for the UTF-16LE text of each comma-separated piece of `spec` (trimmed, the
/// first eight non-empty ones of at most 32 characters), keeping the first 12 hits of each.
pub fn scan_utf16_in_ram<M: GuestPhysical>(m: &mut M, spec: &str, scan_mb: u64) -> (r: Vec<NeedleHits>)
    ensures
        ram_scan_of(old(m), NeedleKind::Utf16, spec@, scan_mb, r@),
        same_memory(final(m), old(m)),
{
    scan_ram(m, NeedleKind::Utf16, spec, scan_mb)
}

/// Search RAM for each comma-separated hexadecimal value of `spec` (trimmed, `0x` optional,
/// the first eight non-empty pieces, those that do not parse dropped) as a little-endian
/// integer of `width` bytes (8, or else 4), keeping the first 16 hits of each.
pub fn scan_le_int_in_ram<M: GuestPhysical>(m: &mut M, spec: &str, width: usize, scan_mb: u64) -> (r: Vec<
    NeedleHits,
>)
    ensures
        ram_scan_of(
            old(m),
            if width == 8 {
                NeedleKind::Int8
            } else {
                NeedleKind::Int4
            },
            spec@,
            scan_mb,
            r@,
        ),
        same_memory(final(m), old(m)),
{
    let kind = if width == 8 {
        NeedleKind::Int8
    } else {
        NeedleKind::Int4
    };
    scan_ram(m, kind, spec, scan_mb)
}

/// Search RAM for each comma-separated byte string of `spec` (its hexadecimal digits, 4 to 64
/// of them in pairs; the first four non-empty pieces), keeping the first 16 hits of each.
pub fn scan_bytes_in_ram<M: GuestPhysical>(m: &mut M, spec: &str, scan_mb: u64) -> (r: Vec<NeedleHits>)
    ensures
        ram_scan_of(old(m), NeedleKind::Bytes, spec@, scan_mb, r@),
        same_memory(final(m), old(m)),
{
    scan_ram(m, NeedleKind::Bytes, spec, scan_mb)
}

/// `sizlBitmap` of 1024x768: what a primary `SURFOBJ` holds at +0x20.
pub open spec fn surf_needle() -> Seq<u8> {
    seq![0x00u8, 0x04, 0x00, 0x00, 0x00, 0x03, 0x00, 0x00]
}

/// The `SURFOBJ` at `surf` looks real: `iType` (+0x4c) at most 3, `iBitmapFormat` (+0x48) at
/// most 8, and `cjBits` (+0x28) 0, 0x300000 or 0x180000.
pub open spec fn surf_plausible<M: GuestPhysical>(m: &M, surf: u64) -> bool {
    let b = phys_bytes(m, surf, 0x50);
    let cj = u32_le(b, 0x28);
    u16_le(b, 0x4c) <= 3 && u32_le(b, 0x48) <= 8 && (cj == 0 || cj == 0x30_0000 || cj == 0x18_0000)
}

/// The surfaces whose `sizlBitmap` is in `buf` (read at `base`) from offset `o` on, added to
/// `hits` (without repeats) until it holds 32.
pub open spec fn surf_hits<M: GuestPhysical>(m: &M, buf: Seq<u8>, base: u64, hits: Seq<u64>, o: int) -> Seq<u64>
    decreases buf.len() + 1 - o,
{
    if hits.len() >= 32 || o < 0 || o + 8 > buf.len() {
        hits
    } else if buf.subrange(o, o + 8) == surf_needle() {
        let abs = (base + o) as u64;
        let surf = if abs >= 0x20 {
            (abs - 0x20) as u64
        } else {
            0
        };
        let h2 = if surf_plausible(m, surf) && !hits.contains(surf) {
            hits.push(surf)
        } else {
            hits
        };
        surf_hits(m, buf, base, h2, o + 1)
    } else {
        surf_hits(m, buf, base, hits, o + 1)
    }
}

/// The surfaces found in MiB `k..` of the first `total` bytes of RAM.
pub open spec fn surf_chunks<M: GuestPhysical>(m: &M, total: u64, tail: Seq<u8>, hits: Seq<u64>, k: nat) -> Seq<u64>
    decreases MAX_CHUNKS - k,
{
    if k >= MAX_CHUNKS || k * SCAN_CHUNK >= total || hits.len() >= 32 {
        hits
    } else {
        let addr = (k * SCAN_CHUNK) as u64;
        let buf = tail + phys_bytes(m, addr, chunk_len(total, k));
        let base = if addr >= tail.len() {
            (addr - tail.len()) as u64
        } else {
            0
        };
        surf_chunks(m, total, carry(buf, 7), surf_hits(m, buf, base, hits, 0), k + 1)
    }
}

/// A `SURFOBJ` found by the scan.
#[derive(Debug, Clone, Copy, PartialEq, Eq, Structural)]
pub struct SurfCandidate {
    pub surf_pa: u64,
    pub cj_bits: u32,
    pub pv_bits: u64,
    pub pv_scan0: u64,
    pub l_delta: i32,
    pub format: u32,
    pub surf_type: u16,
}

/// The fields of the `SURFOBJ` at `surf`.
pub open spec fn surf_candidate_at<M: GuestPhysical>(m: &M, surf: u64) -> SurfCandidate {
    let b = phys_bytes(m, surf, 0x50);
    SurfCandidate {
        surf_pa: surf,
        cj_bits: u32_le(b, 0x28),
        pv_bits: u64_le(b, 0x30),
        pv_scan0: u64_le(b, 0x38),
        l_delta: u32_le(b, 0x40) as i32,
        format: u32_le(b, 0x48),
        surf_type: u16_le(b, 0x4c),
    }
}

/// `surf_hits` from the start of `buf`.
fn surf_hits_in<M: GuestPhysical>(m: &mut M, Ghost(m0): Ghost<M>, buf: &Vec<u8>, base: u64, hits: &mut Vec<u64>)
    requires
        same_memory(old(m), &m0),
        buf@.len() <= 0x20_0000,
        base <= 0x1_0000_0000,
    ensures
        same_memory(final(m), &m0),
        final(hits)@ == surf_hits(&m0, buf@, base, old(hits)@, 0),
{
    let needle: [u8; 8] = [0x00, 0x04, 0x00, 0x00, 0x00, 0x03, 0x00, 0x00];
    assert(needle@ =~= surf_needle());
    let ghost target = surf_hits(&m0, buf@, base, hits@, 0);
    let mut o: usize = 0;
    while hits.len() < 32 && 8 <= buf.len() && o <= buf.len() - 8
        invariant
            same_memory(m, &m0),
            buf@.len() <= 0x20_0000,
            base <= 0x1_0000_0000,
            o <= buf@.len() + 1,
            needle@ == surf_needle(),
            target == surf_hits(&m0, buf@, base, hits@, o as int),
        decreases buf@.len() + 1 - o,
    {
        if holds_at(buf.as_slice(), o, needle.as_slice()) {
            let abs = base + o as u64;
            let surf = if abs >= 0x20 {
                abs - 0x20
            } else {
                0
            };
            let blob = read_phys(m, Ghost(m0), surf, 0x50);
            let cj = u32_at(blob.as_slice(), 0x28);
            if u16_at(blob.as_slice(), 0x4c) <= 3 && u32_at(blob.as_slice(), 0x48) <= 8 && (cj == 0 || cj
                == 0x30_0000 || cj == 0x18_0000) && !contains_u64(hits, surf) {
                hits.push(surf);
            }
        }
        o += 1;
    }
}

/// Search RAM (`scan_mb` MiB, at most 4 GiB) for Win7 `SURFOBJ`s of a 1024x768 surface by
/// their `sizlBitmap`, device surfaces and bitmaps alike, and report the first 32 plausible
/// ones with their fields.
pub fn scan_surfobj_candidates<M: GuestPhysical>(m: &mut M, scan_mb: u64) -> (r: Vec<SurfCandidate>)
    ensures
        ({
            let found = surf_chunks(old(m), scan_limit(scan_mb), Seq::empty(), Seq::empty(), 0);
            &&& r@.len() == found.len()
            &&& forall|i: int| 0 <= i < found.len() ==> r@[i] == surf_candidate_at(old(m), found[i])
        }),
        same_memory(final(m), old(m)),
{
    let ghost m0 = *m;
    let total: u64 = match scan_mb.checked_mul(0x10_0000) {
        Some(b) => if b < 0x1_0000_0000 {
            b
        } else {
            0x1_0000_0000
        },
        None => 0x1_0000_0000,
    };
    assert(total == scan_limit(scan_mb));
    let ghost target = surf_chunks(&m0, total, Seq::empty(), Seq::empty(), 0);
    let mut hits: Vec<u64> = Vec::new();
    let mut tail: Vec<u8> = Vec::new();
    let mut k: u64 = 0;
    while k < MAX_CHUNKS && k * SCAN_CHUNK < total && hits.len() < 32
        invariant
            k <= MAX_CHUNKS,
            total <= 0x1_0000_0000,
            same_memory(m, &m0),
            tail@.len() <= 7,
            k == 0 ==> tail@.len() == 0,
            target == surf_chunks(&m0, total, tail@, hits@, k as nat),
        decreases MAX_CHUNKS - k,
    {
        let addr = k * SCAN_CHUNK;
        let len: u64 = if total - addr < SCAN_CHUNK {
            total - addr
        } else {
            SCAN_CHUNK
        };
        assert(len == chunk_len(total, k as nat));
        let read = read_phys(m, Ghost(m0), addr, len as usize);
        let buf = concat_bytes(&tail, &read);
        let base = addr - tail.len() as u64;
        surf_hits_in(m, Ghost(m0), &buf, base, &mut hits);
        let mut b2 = buf;
        tail = if b2.len() >= 7 {
            b2.split_off(b2.len() - 7)
        } else {
            Vec::new()
        };
        k += 1;
    }
    let mut out: Vec<SurfCandidate> = Vec::new();
    let mut i: usize = 0;
    while i < hits.len()
        invariant
            i <= hits@.len(),
            same_memory(m, &m0),
            target == hits@,
            out@.len() == i,
            forall|j: int| 0 <= j < i ==> out@[j] == surf_candidate_at(&m0, hits@[j]),
        decreases hits@.len() - i,
    {
        let surf = hits[i];
        let b = read_phys(m, Ghost(m0), surf, 0x50);
        out.push(
            SurfCandidate {
                surf_pa: surf,
                cj_bits: u32_at(b.as_slice(), 0x28),
                pv_bits: u64_at(b.as_slice(), 0x30),
                pv_scan0: u64_at(b.as_slice(), 0x38),
                l_delta: u32_at(b.as_slice(), 0x40) as i32,
                format: u32_at(b.as_slice(), 0x48),
                surf_type: u16_at(b.as_slice(), 0x4c),
            },
        );
        i += 1;
    }
    out
}

/// A run of physical bytes read in one piece is its two halves read one after the other.
proof fn lemma_phys_concat<M: GuestPhysical>(m: &M, a: u64, p: nat, q: nat)
    requires
        a + p + q <= u64::MAX,
    ensures
        phys_bytes(m, a, p) + phys_bytes(m, (a + p) as u64, q) == phys_bytes(m, a, p + q),
{
    assert forall|j: int| 0 <= j < p + q implies #[trigger] (phys_bytes(m, a, p) + phys_bytes(
        m,
        (a + p) as u64,
        q,
    ))[j] == phys_bytes(m, a, p + q)[j] by {
        if j >= p {
            assert(((a + p) as u64).wrapping_add((j - p) as u64) == a.wrapping_add(j as u64));
        }
    }
    assert(phys_bytes(m, a, p) + phys_bytes(m, (a + p) as u64, q) =~= phys_bytes(m, a, p + q));
}

/// Part of a run of physical bytes is the run read from where the part starts.
proof fn lemma_phys_sub<M: GuestPhysical>(m: &M, a: u64, len: nat, o: int, n: int)
    requires
        0 <= o <= o + n <= len,
        a + len <= u64::MAX,
    ensures
        phys_bytes(m, a, len).subrange(o, o + n) == phys_bytes(m, (a + o) as u64, n as nat),
{
    assert forall|j: int| 0 <= j < n implies #[trigger] phys_bytes(m, a, len).subrange(o, o + n)[j]
        == phys_bytes(m, (a + o) as u64, n as nat)[j] by {
        assert(((a + o) as u64).wrapping_add(j as u64) == a.wrapping_add((o + j) as u64));
    }
    assert(phys_bytes(m, a, len).subrange(o, o + n) =~= phys_bytes(m, (a + o) as u64, n as nat));
}

/// Each of `hits` is an address where `needle` lies in `m`, none twice, at most `cap`.
pub open spec fn sound_hits<M: GuestPhysical>(m: &M, needle: Seq<u8>, cap: nat, hits: Seq<u64>) -> bool {
    &&& forall|j: int| 0 <= j < hits.len() ==> phys_bytes(m, #[trigger] hits[j], needle.len()) == needle
    &&& hits.no_duplicates()
    &&& hits.len() <= cap
}

proof fn lemma_needle_hits_sound<M: GuestPhysical>(
    m: &M,
    buf: Seq<u8>,
    base: u64,
    needle: Seq<u8>,
    extra: nat,
    cap: nat,
    hits: Seq<u64>,
    o: int,
)
    requires
        buf == phys_bytes(m, base, buf.len()),
        base + buf.len() <= u64::MAX,
        sound_hits(m, needle, cap, hits),
    ensures
        sound_hits(m, needle, cap, needle_hits(buf, base, needle, extra, cap, hits, o)),
    decreases buf.len() + 1 + extra - o,
{
    if hits.len() >= cap || o < 0 || o + needle.len() > buf.len() {
    } else if buf.subrange(o, o + needle.len()) == needle {
        let abs = (base + o) as u64;
        lemma_phys_sub(m, base, buf.len(), o, needle.len() as int);
        if !hits.contains(abs) {
            let h2 = hits.push(abs);
            assert(h2.no_duplicates()) by {
                assert forall|x: int, y: int| 0 <= x < h2.len() && 0 <= y < h2.len() && x != y implies h2[x]
                    != h2[y] by {
                    if x == hits.len() {
                        assert(h2[y] == hits[y]);
                        if hits[y] == abs {
                            assert(hits.contains(abs));
                        }
                    } else if y == hits.len() {
                        assert(h2[x] == hits[x]);
                        if hits[x] == abs {
                            assert(hits.contains(abs));
                        }
                    } else {
                        assert(h2[x] == hits[x] && h2[y] == hits[y]);
                    }
                }
            }
            assert forall|j: int| 0 <= j < h2.len() implies phys_bytes(m, #[trigger] h2[j], needle.len())
                == needle by {
                if j < hits.len() {
                    assert(h2[j] == hits[j]);
                }
            }
            lemma_needle_hits_sound(m, buf, base, needle, extra, cap, h2, o + 1 + extra);
        } else {
            lemma_needle_hits_sound(m, buf, base, needle, extra, cap, hits, o + 1 + extra);
        }
    } else {
        lemma_needle_hits_sound(m, buf, base, needle, extra, cap, hits, o + 1);
    }
}

proof fn lemma_scan_needles_sound<M: GuestPhysical>(
    m: &M,
    needles: Seq<Seq<u8>>,
    extra: nat,
    cap: nat,
    total: u64,
    keep: nat,
    tail: Seq<u8>,
    hits: Seq<Seq<u64>>,
    k: nat,
)
    requires
        total <= 0x1_0000_0000,
        hits.len() == needles.len(),
        forall|i: int| 0 <= i < hits.len() ==> sound_hits(m, needles[i], cap, #[trigger] hits[i]),
        k * SCAN_CHUNK < total ==> tail.len() <= k * SCAN_CHUNK && tail == phys_bytes(
            m,
            (k * SCAN_CHUNK - tail.len()) as u64,
            tail.len(),
        ),
    ensures
        ({
            let r = scan_needles(m, needles, extra, cap, total, keep, tail, hits, k);
            &&& r.len() == needles.len()
            &&& forall|i: int| 0 <= i < r.len() ==> sound_hits(m, needles[i], cap, #[trigger] r[i])
        }),
    decreases MAX_CHUNKS - k,
{
    if k >= MAX_CHUNKS || k * SCAN_CHUNK >= total {
    } else {
        let addr = (k * SCAN_CHUNK) as u64;
        let len = chunk_len(total, k);
        let buf = tail + phys_bytes(m, addr, len);
        let base = (addr - tail.len()) as u64;
        lemma_phys_concat(m, base, tail.len(), len);
        assert(buf == phys_bytes(m, base, buf.len()));
        let h2 = Seq::new(hits.len(), |i: int| needle_hits(buf, base, needles[i], extra, cap, hits[i], 0));
        assert forall|i: int| 0 <= i < h2.len() implies sound_hits(m, needles[i], cap, #[trigger] h2[i]) by {
            lemma_needle_hits_sound(m, buf, base, needles[i], extra, cap, hits[i], 0);
        }
        let t2 = carry(buf, keep);
        if (k + 1) * SCAN_CHUNK < total {
            assert(len == SCAN_CHUNK);
            assert(base + buf.len() == (k + 1) * SCAN_CHUNK);
            if !(keep > 0 && buf.len() >= keep) {
                assert(t2 =~= phys_bytes(m, ((k + 1) * SCAN_CHUNK) as u64, 0));
            }
            if keep > 0 && buf.len() >= keep {
                lemma_phys_sub(m, base, buf.len(), buf.len() - keep, keep as int);
                assert(t2 == phys_bytes(m, ((k + 1) * SCAN_CHUNK - keep) as u64, keep));
            }
        }
        lemma_scan_needles_sound(m, needles, extra, cap, total, keep, t2, h2, k + 1);
    }
}

/// Every hit a RAM search reports is an address where its needle lies in memory; no
/// address is reported twice for a needle, and no needle has more than its cap of hits.
pub proof fn lemma_search_hits_are_occurrences<M: GuestPhysical>(
    m: &M,
    kind: NeedleKind,
    spec: Seq<char>,
    scan_mb: u64,
    r: Seq<NeedleHits>,
)
    requires
        ram_scan_of(m, kind, spec, scan_mb, r),
    ensures
        forall|i: int| 0 <= i < r.len() ==> sound_hits(m, (#[trigger] r[i]).needle@, hit_cap(kind), r[i].hits@),
{
    let ns = needles_of(kind, spec);
    let bytes = Seq::new(ns.len(), |i: int| ns[i].1);
    let empty = Seq::new(ns.len(), |i: int| Seq::<u64>::empty());
    assert forall|i: int| 0 <= i < empty.len() implies sound_hits(m, bytes[i], hit_cap(kind), #[trigger] empty[i]) by {
        assert(empty[i] =~= Seq::<u64>::empty());
    }
    assert(Seq::<u8>::empty() == phys_bytes(m, 0, 0));
    lemma_scan_needles_sound(
        m,
        bytes,
        match_extra(kind),
        hit_cap(kind),
        scan_limit(scan_mb),
        keep_for(bytes),
        Seq::empty(),
        empty,
        0,
    );
}

/// Each of `hits` is a plausible `SURFOBJ` whose `sizlBitmap` reads 1024x768 (or a needle
/// found below 0x20, reported at 0), none twice, at most 32.
pub open spec fn sound_surfs<M: GuestPhysical>(m: &M, hits: Seq<u64>) -> bool {
    &&& forall|j: int|
        0 <= j < hits.len() ==> surf_plausible(m, #[trigger] hits[j]) && (hits[j] == 0 || phys_bytes(
            m,
            (hits[j] + 0x20) as u64,
            8,
        ) == surf_needle())
    &&& hits.no_duplicates()
    &&& hits.len() <= 32
}

proof fn lemma_surf_hits_sound<M: GuestPhysical>(m: &M, buf: Seq<u8>, base: u64, hits: Seq<u64>, o: int)
    requires
        buf == phys_bytes(m, base, buf.len()),
        base + buf.len() <= u64::MAX,
        sound_surfs(m, hits),
    ensures
        sound_surfs(m, surf_hits(m, buf, base, hits, o)),
    decreases buf.len() + 1 - o,
{
    if hits.len() >= 32 || o < 0 || o + 8 > buf.len() {
    } else if buf.subrange(o, o + 8) == surf_needle() {
        let abs = (base + o) as u64;
        let surf = if abs >= 0x20 {
            (abs - 0x20) as u64
        } else {
            0
        };
        lemma_phys_sub(m, base, buf.len(), o, 8);
        if surf_plausible(m, surf) && !hits.contains(surf) {
            let h2 = hits.push(surf);
            assert(h2.no_duplicates()) by {
                assert forall|x: int, y: int| 0 <= x < h2.len() && 0 <= y < h2.len() && x != y implies h2[x]
                    != h2[y] by {
                    if x == hits.len() {
                        assert(h2[y] == hits[y]);
                        if hits[y] == surf {
                            assert(hits.contains(surf));
                        }
                    } else if y == hits.len() {
                        assert(h2[x] == hits[x]);
                        if hits[x] == surf {
                            assert(hits.contains(surf));
                        }
                    } else {
                        assert(h2[x] == hits[x] && h2[y] == hits[y]);
                    }
                }
            }
            assert forall|j: int| 0 <= j < h2.len() implies surf_plausible(m, #[trigger] h2[j]) && (h2[j]
                == 0 || phys_bytes(m, (h2[j] + 0x20) as u64, 8) == surf_needle()) by {
                if j < hits.len() {
                    assert(h2[j] == hits[j]);
                }
            }
            lemma_surf_hits_sound(m, buf, base, h2, o + 1);
        } else {
            lemma_surf_hits_sound(m, buf, base, hits, o + 1);
        }
    } else {
        lemma_surf_hits_sound(m, buf, base, hits, o + 1);
    }
}

proof fn lemma_surf_chunks_sound<M: GuestPhysical>(m: &M, total: u64, tail: Seq<u8>, hits: Seq<u64>, k: nat)
    requires
        total <= 0x1_0000_0000,
        sound_surfs(m, hits),
        k * SCAN_CHUNK < total ==> tail.len() <= k * SCAN_CHUNK && tail == phys_bytes(
            m,
            (k * SCAN_CHUNK - tail.len()) as u64,
            tail.len(),
        ),
    ensures
        sound_surfs(m, surf_chunks(m, total, tail, hits, k)),
    decreases MAX_CHUNKS - k,
{
    if k >= MAX_CHUNKS || k * SCAN_CHUNK >= total || hits.len() >= 32 {
    } else {
        let addr = (k * SCAN_CHUNK) as u64;
        let len = chunk_len(total, k);
        let buf = tail + phys_bytes(m, addr, len);
        let base = (addr - tail.len()) as u64;
        lemma_phys_concat(m, base, tail.len(), len);
        let h2 = surf_hits(m, buf, base, hits, 0);
        lemma_surf_hits_sound(m, buf, base, hits, 0);
        let t2 = carry(buf, 7);
        if (k + 1) * SCAN_CHUNK < total {
            assert(len == SCAN_CHUNK);
            assert(base + buf.len() == (k + 1) * SCAN_CHUNK);
            lemma_phys_sub(m, base, buf.len(), buf.len() - 7, 7);
        }
        lemma_surf_chunks_sound(m, total, t2, h2, k + 1);
    }
}

/// Every `SURFOBJ` the scan reports is plausible and (unless reported at 0) has a 1024x768
/// `sizlBitmap` in memory; none is reported twice, and at most 32 are.
pub proof fn lemma_surfaces_found_are_plausible<M: GuestPhysical>(m: &M, scan_mb: u64)
    ensures
        sound_surfs(m, surf_chunks(m, scan_limit(scan_mb), Seq::empty(), Seq::empty(), 0)),
{
    assert(Seq::<u8>::empty() =~= phys_bytes(m, 0, 0));
    assert(sound_surfs(m, Seq::<u64>::empty()));
    lemma_surf_chunks_sound(m, scan_limit(scan_mb), Seq::empty(), Seq::empty(), 0);
}

} // verus!
