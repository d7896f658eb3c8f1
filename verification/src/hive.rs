//! In-place editing of a REGF registry hive (the format of a BCD store).
//!
//! Edits start from the original bytes and change as little as possible: new cells are carved
//! out of existing free space (or a new bin appended past the declared bins), new records are
//! linked into their parent, and the base-block checksum is recomputed.
//!
//! Offsets stored inside a hive are relative to the end of the 4 KiB base block, so an absolute
//! file offset is `4096 + relative`. A cell starts with a signed 32-bit length: negative means
//! allocated, positive means free, and the magnitude includes the length field. Cells are 8-byte
//! aligned.
//!
//! Reads of malformed structures that fall outside the hive report `HiveError::OutOfBounds`.

use vstd::prelude::*;
use vstd::bytes::*;
use vstd::slice::slice_subrange;
use vstd::string::StringSliceAdditionalSpecFns;
use vstd::utf8::encode_utf8;

use crate::text::{chars_of, eq_ignore_ascii_case, names_match};

verus! {

pub const BASE_BLOCK: usize = 4096;
pub const HBIN_HEADER: usize = 32;
pub const CELL_ALIGN: usize = 8;

/// Offsets within the base block.
pub const BASE_ROOT_CELL: usize = 36;
pub const BASE_HBINS_SIZE: usize = 40;
pub const BASE_CHECKSUM: usize = 508;

/// Offsets within an `nk` (key node) record, from the start of its cell payload.
pub const NK_SIGNATURE: usize = 0x00;
pub const NK_FLAGS: usize = 0x02;
pub const NK_LAST_WRITTEN: usize = 0x04;
pub const NK_PARENT: usize = 0x10;
pub const NK_SUBKEY_COUNT: usize = 0x14;
pub const NK_SUBKEYS_LIST: usize = 0x1C;
pub const NK_VALUES_COUNT: usize = 0x24;
pub const NK_VALUES_LIST: usize = 0x28;
pub const NK_SECURITY: usize = 0x2C;
pub const NK_CLASSNAME: usize = 0x30;
pub const NK_MAX_SUBKEY_NAME_LEN: usize = 0x34;
pub const NK_MAX_VALUE_NAME_LEN: usize = 0x3C;
pub const NK_MAX_VALUE_DATA_SIZE: usize = 0x40;
pub const NK_NAME_LENGTH: usize = 0x48;
pub const NK_CLASSNAME_LENGTH: usize = 0x4A;
pub const NK_HEADER_LEN: usize = 0x4C;
/// Key name is stored as single-byte characters rather than UTF-16.
pub const NK_FLAG_COMP_NAME: u16 = 0x0020;

/// Offsets within a `vk` (value) record.
pub const VK_SIGNATURE: usize = 0x00;
pub const VK_NAME_LENGTH: usize = 0x02;
pub const VK_DATA_SIZE: usize = 0x04;
pub const VK_DATA_OFFSET: usize = 0x08;
pub const VK_DATA_TYPE: usize = 0x0C;
pub const VK_FLAGS: usize = 0x10;
pub const VK_HEADER_LEN: usize = 0x14;
/// Value name is stored as single-byte characters.
pub const VK_FLAG_COMP_NAME: u16 = 0x0001;
pub const REG_BINARY: u32 = 3;

/// Why a hive operation failed.
#[derive(Debug, Clone, Copy, PartialEq, Eq)]
pub enum HiveError {
    /// Shorter than a base block plus one bin header.
    TooSmall,
    /// The `regf` signature is missing.
    NotRegf,
    /// No free cell is large enough and a new bin of `need` bytes at `offset` does not fit in a
    /// file of `len` bytes.
    NoRoomForBin { need: usize, offset: usize, len: usize },
    /// The parent's subkey list is neither `lf` nor `lh`; editing it in place is refused.
    UnsupportedListType(u8, u8),
    /// Only ASCII key names are supported.
    NonAsciiName,
    /// A record, list or cell that the hive refers to lies outside the file.
    OutOfBounds,
}

/// Why creating a key path failed: the segment being created, the whole path, and the cause.
#[derive(Debug, Clone, PartialEq, Eq)]
pub struct PathError {
    pub segment: Vec<char>,
    pub full_path: Vec<char>,
    pub cause: HiveError,
}

/// `r` reports that creating segment `failure.0` of `path` failed with `failure.1`.
pub open spec fn path_error_is(r: Result<u32, PathError>, path: Seq<char>, failure: (int, HiveError)) -> bool {
    match r {
        Err(pe) => pe.cause == failure.1 && pe.full_path@ == path && pe.segment@ == path_segments(
            path,
        )[failure.0],
        Ok(_) => false,
    }
}

/// The little-endian `u32` at `at`.
pub open spec fn u32_at(d: Seq<u8>, at: int) -> u32 {
    spec_u32_from_le_bytes(d.subrange(at, at + 4))
}

/// The little-endian `u16` at `at`.
pub open spec fn u16_at(d: Seq<u8>, at: int) -> u16 {
    spec_u16_from_le_bytes(d.subrange(at, at + 2))
}

/// `d` with `bytes` written over the range starting at `at` (which lies inside `d`).
pub open spec fn overwrite(d: Seq<u8>, at: int, bytes: Seq<u8>) -> Seq<u8> {
    Seq::new(d.len(), |i: int| if at <= i < at + bytes.len() { bytes[i - at] } else { d[i] })
}

/// Absolute file offset of the payload of the cell at hive-relative offset `rel`.
pub open spec fn payload_of(rel: u32) -> int {
    BASE_BLOCK + rel + 4
}

/// ASCII upper-casing of one byte.
pub open spec fn upper(b: u8) -> u8 {
    if 0x61 <= b <= 0x7A {
        (b - 32) as u8
    } else {
        b
    }
}

/// The `lf` hash: the first four bytes of the name, upper-cased, zero-padded, little-endian.
pub open spec fn spec_lf_hash(bytes: Seq<u8>) -> u32 {
    let b = |i: int| if i < bytes.len() { upper(bytes[i]) } else { 0u8 };
    spec_u32_from_le_bytes(seq![b(0), b(1), b(2), b(3)])
}

/// The `lh` hash: `h = h * 37 + upper(byte)` over the whole name, modulo 2^32.
pub open spec fn spec_lh_hash(bytes: Seq<u8>) -> u32
    decreases bytes.len(),
{
    if bytes.len() == 0 {
        0
    } else {
        ((spec_lh_hash(bytes.drop_last()) as nat * 37 + upper(bytes.last()) as nat)
            % 0x1_0000_0000) as u32
    }
}

/// Round `v` up to a multiple of `to`.
pub open spec fn spec_align_up(v: int, to: int) -> int {
    ((v + to - 1) / to) * to
}

/// XOR of the first `n` little-endian words of `d`.
pub open spec fn xor_words(d: Seq<u8>, n: int) -> u32
    decreases n,
{
    if n <= 0 {
        0
    } else {
        xor_words(d, n - 1) ^ u32_at(d, 4 * (n - 1))
    }
}

/// The base-block checksum: XOR of the 127 words before the checksum field, with the two
/// reserved results 0 and 0xFFFF_FFFF moved to 1 and 0xFFFF_FFFE.
pub open spec fn spec_checksum(d: Seq<u8>) -> u32 {
    let sum = xor_words(d, 127);
    if sum == 0xFFFF_FFFF {
        0xFFFF_FFFE
    } else if sum == 0 {
        1
    } else {
        sum
    }
}

fn to_upper(b: u8) -> (r: u8)
    ensures
        r == upper(b),
{
    if b >= 0x61 && b <= 0x7A {
        b - 32
    } else {
        b
    }
}

/// `lf` lists store the first four characters of the name, uppercased.
pub fn lf_hash(name: &str) -> (h: u32)
    ensures
        h == spec_lf_hash(name.spec_bytes()),
{
    lf_hash_bytes(name.as_bytes())
}

/// `lh` lists store a rolling hash over the uppercased name.
pub fn lh_hash(name: &str) -> (h: u32)
    ensures
        h == spec_lh_hash(name.spec_bytes()),
{
    lh_hash_bytes(name.as_bytes())
}

fn lf_hash_bytes(bytes: &[u8]) -> (h: u32)
    ensures
        h == spec_lf_hash(bytes@),
{
    let mut buf: [u8; 4] = [0u8; 4];
    let mut i: usize = 0;
    while i < 4 && i < bytes.len()
        invariant
            i <= 4,
            i <= bytes@.len(),
            forall|j: int| 0 <= j < i ==> buf@[j] == upper(bytes@[j]),
            forall|j: int| i <= j < 4 ==> buf@[j] == 0u8,
        decreases 4 - i,
    {
        buf[i] = to_upper(bytes[i]);
        i += 1;
    }
    proof {
        let bs = bytes@;
        let b = |j: int| if j < bs.len() { upper(bs[j]) } else { 0u8 };
        assert(buf@ =~= seq![b(0), b(1), b(2), b(3)]);
    }
    u32_from_le_bytes(&buf)
}

fn lh_hash_bytes(bytes: &[u8]) -> (h: u32)
    ensures
        h == spec_lh_hash(bytes@),
{
    let mut hash: u32 = 0;
    let mut i: usize = 0;
    while i < bytes.len()
        invariant
            i <= bytes@.len(),
            hash == spec_lh_hash(bytes@.subrange(0, i as int)),
        decreases bytes@.len() - i,
    {
        assert(bytes@.subrange(0, i + 1).drop_last() =~= bytes@.subrange(0, i as int));
        hash = hash.wrapping_mul(37).wrapping_add(to_upper(bytes[i]) as u32);
        proof {
            let prev = spec_lh_hash(bytes@.subrange(0, i as int));
            assert(((prev as nat * 37) % 0x1_0000_0000 + upper(bytes@[i as int]) as nat)
                % 0x1_0000_0000 == (prev as nat * 37 + upper(bytes@[i as int]) as nat)
                % 0x1_0000_0000) by (nonlinear_arith);
        }
        i += 1;
    }
    assert(bytes@.subrange(0, bytes@.len() as int) =~= bytes@);
    hash
}

/// Round `v` up to the next multiple of `to`.
pub fn align_up(v: usize, to: usize) -> (r: usize)
    requires
        to > 0,
        spec_align_up(v as int, to as int) <= usize::MAX,
    ensures
        r == spec_align_up(v as int, to as int),
{
    let q = v / to;
    let rem = v % to;
    proof {
        vstd::arithmetic::div_mod::lemma_fundamental_div_mod(v as int, to as int);
        let a = v as int;
        let b = to as int;
        assert(b * (a / b) == (a / b) * b) by (nonlinear_arith);
        if a % b == 0 {
            vstd::arithmetic::div_mod::lemma_fundamental_div_mod_converse(
                a + b - 1,
                b,
                a / b,
                b - 1,
            );
        } else {
            assert((a / b + 1) * b == (a / b) * b + b) by (nonlinear_arith);
            vstd::arithmetic::div_mod::lemma_fundamental_div_mod_converse(
                a + b - 1,
                b,
                a / b + 1,
                a % b - 1,
            );
        }
    }
    let blocks = if rem != 0 { q + 1 } else { q };
    assert(blocks as int * to as int == spec_align_up(v as int, to as int));
    blocks * to
}

/// The name matches regardless of ASCII case: case-insensitivity of the `lh` hash.
pub proof fn lemma_lh_hash_ignores_ascii_case(a: Seq<u8>, b: Seq<u8>)
    requires
        a.len() == b.len(),
        forall|i: int| 0 <= i < a.len() ==> upper(#[trigger] a[i]) == upper(b[i]),
    ensures
        spec_lh_hash(a) == spec_lh_hash(b),
    decreases a.len(),
{
    if a.len() > 0 {
        lemma_lh_hash_ignores_ascii_case(a.drop_last(), b.drop_last());
        assert(upper(a[a.len() - 1]) == upper(b[b.len() - 1]));
    }
}

/// The `lf` hash depends on the first four bytes of the name only, and ignores ASCII case.
pub proof fn lemma_lf_hash_uses_first_four(a: Seq<u8>, b: Seq<u8>)
    requires
        a.len() < 4 || b.len() < 4 ==> a.len() == b.len(),
        forall|i: int| 0 <= i < 4 && i < a.len() ==> upper(#[trigger] a[i]) == upper(b[i]),
    ensures
        spec_lf_hash(a) == spec_lf_hash(b),
{
    let fa = |i: int| if i < a.len() { upper(a[i]) } else { 0u8 };
    let fb = |i: int| if i < b.len() { upper(b[i]) } else { 0u8 };
    assert(seq![fa(0), fa(1), fa(2), fa(3)] =~= seq![fb(0), fb(1), fb(2), fb(3)]);
}


/// `xor_words` only reads the first `4 * n` bytes.
proof fn lemma_xor_words_prefix(d1: Seq<u8>, d2: Seq<u8>, n: int)
    requires
        0 <= n,
        4 * n <= d1.len(),
        4 * n <= d2.len(),
        d1.subrange(0, 4 * n) == d2.subrange(0, 4 * n),
    ensures
        xor_words(d1, n) == xor_words(d2, n),
    decreases n,
{
    if n > 0 {
        assert(d1.subrange(0, 4 * (n - 1)) =~= d1.subrange(0, 4 * n).subrange(0, 4 * (n - 1)));
        assert(d2.subrange(0, 4 * (n - 1)) =~= d2.subrange(0, 4 * n).subrange(0, 4 * (n - 1)));
        lemma_xor_words_prefix(d1, d2, n - 1);
        assert(d1.subrange(4 * (n - 1), 4 * n) =~= d1.subrange(0, 4 * n).subrange(4 * (n - 1), 4 * n));
        assert(d2.subrange(4 * (n - 1), 4 * n) =~= d2.subrange(0, 4 * n).subrange(4 * (n - 1), 4 * n));
    }
}

/// What `String::from_utf16_lossy` makes of a sequence of UTF-16 code units.
pub uninterp spec fn spec_utf16_lossy(units: Seq<u16>) -> Seq<char>;

/// Decode UTF-16 code units, replacing unpaired surrogates with U+FFFD.
///
/// Calls `String::from_utf16_lossy`; its result is named `spec_utf16_lossy` and nothing more is
/// claimed about it: the same units always decode to the same characters.
#[verifier::external_body]
fn utf16_lossy(units: &[u16]) -> (s: String)
    ensures
        s@ == spec_utf16_lossy(units@),
{
    String::from_utf16_lossy(units)
}

/// Decode little-endian UTF-16 bytes (an odd last byte is ignored).
pub(crate) fn utf16_string(bytes: &[u8]) -> (s: String)
    ensures
        s@ == spec_utf16_lossy(utf16_units(bytes@)),
{
    let n = bytes.len();
    let half = n / 2;
    let mut units: Vec<u16> = Vec::new();
    let mut i: usize = 0;
    while i < half
        invariant
            n == bytes@.len(),
            i <= half,
            half == bytes@.len() / 2,
            2 * half <= bytes@.len(),
            units@ == utf16_units(bytes@).subrange(0, i as int),
        decreases half - i,
    {
        assert(2 * i + 2 <= bytes@.len());
        units.push(u16_from_le_bytes(slice_subrange(bytes, 2 * i, 2 * i + 2)));
        i += 1;
        assert(units@ =~= utf16_units(bytes@).subrange(0, i as int));
    }
    assert(units@ =~= utf16_units(bytes@));
    utf16_lossy(units.as_slice())
}

/// One byte as a character (Latin-1).
pub open spec fn latin1(bytes: Seq<u8>) -> Seq<char> {
    Seq::new(bytes.len(), |i: int| bytes[i] as char)
}

/// Little-endian UTF-16 code units of `bytes`; an odd trailing byte is ignored.
pub open spec fn utf16_units(bytes: Seq<u8>) -> Seq<u16> {
    Seq::new(bytes.len() / 2, |i: int| u16_at(bytes, 2 * i))
}

/// The name of the key at cell `key`: single-byte characters when the compressed-name flag is
/// set, UTF-16 otherwise.
pub open spec fn spec_key_name(d: Seq<u8>, key: u32) -> Result<Seq<char>, HiveError> {
    let p = payload_of(key);
    if p + NK_HEADER_LEN > d.len() {
        Err(HiveError::OutOfBounds)
    } else {
        let len = u16_at(d, p + NK_NAME_LENGTH);
        let flags = u16_at(d, p + NK_FLAGS);
        if p + NK_HEADER_LEN + len > d.len() {
            Err(HiveError::OutOfBounds)
        } else {
            let bytes = d.subrange(p + NK_HEADER_LEN, p + NK_HEADER_LEN + len);
            if flags & NK_FLAG_COMP_NAME != 0 {
                Ok(latin1(bytes))
            } else {
                Ok(spec_utf16_lossy(utf16_units(bytes)))
            }
        }
    }
}

/// The two signature bytes of the list at `lp` are `s0 s1`.
pub open spec fn sig_is(d: Seq<u8>, lp: int, s0: u8, s1: u8) -> bool {
    d[lp] == s0 && d[lp + 1] == s1
}

/// The offsets held by an `lf`, `lh` or `li` list cell; any other list type holds none here.
pub open spec fn spec_list_entries(d: Seq<u8>, list: u32) -> Result<Seq<u32>, HiveError> {
    let lp = payload_of(list);
    if lp + 4 > d.len() {
        Err(HiveError::OutOfBounds)
    } else {
        let n = u16_at(d, lp + 2) as int;
        if sig_is(d, lp, 0x6C, 0x66) || sig_is(d, lp, 0x6C, 0x68) {
            if n > 0 && lp + 8 * n > d.len() {
                Err(HiveError::OutOfBounds)
            } else {
                Ok(Seq::new(n as nat, |i: int| u32_at(d, lp + 4 + 8 * i)))
            }
        } else if sig_is(d, lp, 0x6C, 0x69) {
            if lp + 4 + 4 * n > d.len() {
                Err(HiveError::OutOfBounds)
            } else {
                Ok(Seq::new(n as nat, |i: int| u32_at(d, lp + 4 + 4 * i)))
            }
        } else {
            Ok(Seq::empty())
        }
    }
}

/// The entries of the first `i` sub-lists of the `ri` list whose payload is at `lp`.
pub open spec fn spec_ri_entries(d: Seq<u8>, lp: int, i: int) -> Result<Seq<u32>, HiveError>
    decreases i,
{
    if i <= 0 {
        Ok(Seq::empty())
    } else {
        match spec_ri_entries(d, lp, i - 1) {
            Err(e) => Err(e),
            Ok(prefix) => match spec_list_entries(d, u32_at(d, lp + 4 + 4 * (i - 1))) {
                Err(e) => Err(e),
                Ok(more) => Ok(prefix + more),
            },
        }
    }
}

/// Once reading the sub-lists of an `ri` list fails, reading more of them fails the same way.
proof fn lemma_ri_error_sticks(d: Seq<u8>, lp: int, i: int, n: int)
    requires
        0 < i <= n,
        spec_ri_entries(d, lp, i) is Err,
    ensures
        spec_ri_entries(d, lp, n) == spec_ri_entries(d, lp, i),
    decreases n - i,
{
    if i < n {
        lemma_ri_error_sticks(d, lp, i, n - 1);
    }
}

/// The cell offsets of the direct subkeys of `parent`, in list order.
pub open spec fn spec_subkey_offsets(d: Seq<u8>, parent: u32) -> Result<Seq<u32>, HiveError> {
    let p = payload_of(parent);
    if p + NK_SUBKEYS_LIST + 4 > d.len() {
        Err(HiveError::OutOfBounds)
    } else {
        let count = u32_at(d, p + NK_SUBKEY_COUNT);
        let list = u32_at(d, p + NK_SUBKEYS_LIST);
        if count == 0 || list == u32::MAX {
            Ok(Seq::empty())
        } else {
            let lp = payload_of(list);
            if lp + 4 > d.len() {
                Err(HiveError::OutOfBounds)
            } else if sig_is(d, lp, 0x72, 0x69) {
                let n = u16_at(d, lp + 2) as int;
                if lp + 4 + 4 * n > d.len() {
                    Err(HiveError::OutOfBounds)
                } else {
                    spec_ri_entries(d, lp, n)
                }
            } else {
                spec_list_entries(d, list)
            }
        }
    }
}

/// The first of `kids[i..]` whose name matches `name` ignoring ASCII case.
pub open spec fn spec_first_match(d: Seq<u8>, kids: Seq<u32>, name: Seq<char>, i: int) -> Result<
    Option<u32>,
    HiveError,
>
    decreases kids.len() - i,
{
    if i < 0 || i >= kids.len() {
        Ok(None)
    } else {
        match spec_key_name(d, kids[i]) {
            Err(e) => Err(e),
            Ok(n) => if eq_ignore_ascii_case(n, name) {
                Ok(Some(kids[i]))
            } else {
                spec_first_match(d, kids, name, i + 1)
            },
        }
    }
}

/// The direct subkey of `parent` named `name` (ignoring ASCII case), if any.
pub open spec fn spec_lookup(d: Seq<u8>, parent: u32, name: Seq<char>) -> Result<Option<u32>, HiveError> {
    match spec_subkey_offsets(d, parent) {
        Err(e) => Err(e),
        Ok(kids) => spec_first_match(d, kids, name, 0),
    }
}

/// The signed cell size field at `at`.
pub open spec fn i32_at(d: Seq<u8>, at: int) -> i32 {
    u32_at(d, at) as i32
}

/// The length in bytes of a cell whose size field is `size`.
pub open spec fn cell_len(size: i32) -> int {
    if size < 0 {
        -(size as int)
    } else {
        size as int
    }
}

/// The size field that marks a cell of `n` bytes allocated: `-n` as a 32-bit word.
pub open spec fn allocated_size(n: u32) -> u32 {
    if n == 0 {
        0
    } else {
        (0x1_0000_0000 - n) as u32
    }
}

/// `n` zero bytes.
pub open spec fn zeros(n: int) -> Seq<u8> {
    Seq::new(n as nat, |i: int| 0u8)
}

/// The bin header signature `hbin` starts at `at`.
pub open spec fn is_hbin(d: Seq<u8>, at: int) -> bool {
    d[at] == 0x68 && d[at + 1] == 0x62 && d[at + 2] == 0x69 && d[at + 3] == 0x6E
}

/// The first free cell of at least `want` bytes among the cells laid end to end from `cur`,
/// stopping at `end` or at a zero size field.
pub open spec fn first_free_cell(d: Seq<u8>, cur: int, end: int, want: int) -> Option<int>
    decreases end - cur,
{
    if cur + 4 > end {
        None
    } else {
        let size = i32_at(d, cur);
        if size == 0 {
            None
        } else if size > 0 && cell_len(size) >= want {
            Some(cur)
        } else if cur + cell_len(size) > end {
            None
        } else {
            first_free_cell(d, cur + cell_len(size), end, want)
        }
    }
}

/// First fit over the bins from `bin` to `bins_end`: the first free cell of at least `want`
/// bytes, scanning bins in file order and stopping at a bin without its signature or with a zero
/// size. A bin header that runs past the end of the file is an error.
pub open spec fn first_fit(d: Seq<u8>, bin: int, bins_end: int, want: int) -> Result<
    Option<int>,
    HiveError,
>
    decreases bins_end - bin,
{
    if bin + HBIN_HEADER > bins_end {
        Ok(None)
    } else if bin + 4 > d.len() {
        Err(HiveError::OutOfBounds)
    } else if !is_hbin(d, bin) {
        Ok(None)
    } else if bin + 12 > d.len() {
        Err(HiveError::OutOfBounds)
    } else {
        let size = u32_at(d, bin + 8) as int;
        if size == 0 {
            Ok(None)
        } else {
            let end = if bin + size < d.len() {
                bin + size
            } else {
                d.len() as int
            };
            match first_free_cell(d, bin + HBIN_HEADER, end, want) {
                Some(c) => Ok(Some(c)),
                None => if bin + size > bins_end {
                    Ok(None)
                } else {
                    first_fit(d, bin + size, bins_end, want)
                },
            }
        }
    }
}

/// Claim the free cell at `c` for `want` bytes: split off the remainder as a free cell when it
/// is at least `CELL_ALIGN` bytes, mark the cell allocated and zero its payload.
pub open spec fn spec_take_cell(d: Seq<u8>, c: int, want: int) -> Result<(Seq<u8>, u32), HiveError> {
    let len = cell_len(i32_at(d, c));
    let rest = len - want;
    if rest >= CELL_ALIGN && c + want + 4 > d.len() {
        Err(HiveError::OutOfBounds)
    } else {
        let marked = if rest >= CELL_ALIGN {
            overwrite(
                overwrite(d, c + want, spec_u32_to_le_bytes(rest as u32)),
                c,
                spec_u32_to_le_bytes(allocated_size(want as u32)),
            )
        } else {
            overwrite(d, c, spec_u32_to_le_bytes(allocated_size(len as u32)))
        };
        let room = if d.len() - c < want {
            d.len() - c
        } else {
            want
        };
        Ok((overwrite(marked, c + 4, zeros(room - 4)), (c - BASE_BLOCK) as u32))
    }
}

/// The 12 leading bytes of a bin header: signature, offset of the bin, size of the bin.
pub open spec fn hbin_header(rel: u32, size: u32) -> Seq<u8> {
    seq![0x68u8, 0x62, 0x69, 0x6E] + spec_u32_to_le_bytes(rel) + spec_u32_to_le_bytes(size)
}

/// Append a new bin past the declared bins holding one allocated cell of `want` bytes, the rest
/// of the bin a free cell, and grow the declared bins size.
pub open spec fn spec_append_bin(d: Seq<u8>, want: int) -> Result<(Seq<u8>, u32), HiveError> {
    let hb = u32_at(d, BASE_HBINS_SIZE as int);
    let bin_size = spec_align_up(want + HBIN_HEADER, 4096);
    let bin_off = BASE_BLOCK + hb;
    if bin_off + bin_size > d.len() {
        Err(
            HiveError::NoRoomForBin {
                need: bin_size as usize,
                offset: bin_off as usize,
                len: d.len() as usize,
            },
        )
    } else {
        let cell = bin_off + HBIN_HEADER;
        let rest = bin_size - HBIN_HEADER - want;
        let d1 = overwrite(
            overwrite(d, bin_off, zeros(bin_size)),
            bin_off,
            hbin_header(hb, bin_size as u32),
        );
        let d2 = overwrite(d1, cell, spec_u32_to_le_bytes(allocated_size(want as u32)));
        let d3 = if rest >= CELL_ALIGN {
            overwrite(d2, cell + want, spec_u32_to_le_bytes(rest as u32))
        } else {
            d2
        };
        Ok(
            (
                overwrite(
                    d3,
                    BASE_HBINS_SIZE as int,
                    spec_u32_to_le_bytes((hb + bin_size) as u32),
                ),
                (cell - BASE_BLOCK) as u32,
            ),
        )
    }
}

/// Allocate a cell with `need` payload bytes: first fit over the free cells of the declared
/// bins, else a new bin. The result is the new bytes and the cell's hive-relative offset.
pub open spec fn spec_alloc(d: Seq<u8>, need: int) -> Result<(Seq<u8>, u32), HiveError> {
    let want = spec_align_up(need + 4, CELL_ALIGN as int);
    match first_fit(d, BASE_BLOCK as int, BASE_BLOCK + u32_at(d, BASE_HBINS_SIZE as int), want) {
        Err(e) => Err(e),
        Ok(Some(c)) => spec_take_cell(d, c, want),
        Ok(None) => spec_append_bin(d, want),
    }
}

/// A free cell found by the scan lies at or after where the scan started and has its size field
/// inside the scanned range.
proof fn lemma_first_free_cell_bounds(d: Seq<u8>, cur: int, end: int, want: int)
    requires
        first_free_cell(d, cur, end, want) is Some,
    ensures
        cur <= first_free_cell(d, cur, end, want)->Some_0,
        first_free_cell(d, cur, end, want)->Some_0 + 4 <= end,
    decreases end - cur,
{
    let size = i32_at(d, cur);
    if cur + 4 <= end && size != 0 && !(size > 0 && cell_len(size) >= want) && cur + cell_len(size) <= end {
        lemma_first_free_cell_bounds(d, cur + cell_len(size), end, want);
    }
}

/// A free cell found by first fit lies past the first bin header, with its size field inside
/// the file.
proof fn lemma_first_fit_bounds(d: Seq<u8>, bin: int, bins_end: int, want: int)
    requires
        first_fit(d, bin, bins_end, want) matches Ok(Some(_)),
    ensures
        bin + HBIN_HEADER <= first_fit(d, bin, bins_end, want)->Ok_0->Some_0,
        first_fit(d, bin, bins_end, want)->Ok_0->Some_0 + 4 <= d.len(),
    decreases bins_end - bin,
{
    let size = u32_at(d, bin + 8) as int;
    let end = if bin + size < d.len() {
        bin + size
    } else {
        d.len() as int
    };
    if first_free_cell(d, bin + HBIN_HEADER, end, want) is Some {
        lemma_first_free_cell_bounds(d, bin + HBIN_HEADER, end, want);
    } else {
        lemma_first_fit_bounds(d, bin + size, bins_end, want);
    }
}

/// The bytes an allocation of `need` payload bytes at cell `rel` may change, besides the bins
/// size in the base block: from the bin header before the cell to a bin's length past it.
pub open spec fn alloc_footprint(rel: u32, need: int) -> (int, int) {
    (
        payload_of(rel) - 36,
        payload_of(rel) + spec_align_up(spec_align_up(need + 4, CELL_ALIGN as int) + 32, 4096),
    )
}

/// `[x, y)` and `[lo, hi)` do not meet.
pub open spec fn apart(x: int, y: int, lo: int, hi: int) -> bool {
    y <= lo || hi <= x
}

/// An allocation changes nothing outside its footprint and the base block's bins size, keeps
/// the file's length, and its cell's payload lies inside the footprint.
pub proof fn lemma_alloc_frame(d: Seq<u8>, need: int, x: int, y: int)
    requires
        0 <= need,
        d.len() <= u32::MAX,
        spec_alloc(d, need) is Ok,
        0 <= x <= y <= d.len(),
        apart(
            x,
            y,
            alloc_footprint(spec_alloc(d, need)->Ok_0.1, need).0,
            alloc_footprint(spec_alloc(d, need)->Ok_0.1, need).1,
        ),
        apart(x, y, BASE_HBINS_SIZE as int, BASE_HBINS_SIZE + 4),
    ensures
        spec_alloc(d, need)->Ok_0.0.len() == d.len(),
        spec_alloc(d, need)->Ok_0.0.subrange(x, y) == d.subrange(x, y),
{
    let want = spec_align_up(need + 4, CELL_ALIGN as int);
    lemma_align_up_bounds(need + 4, CELL_ALIGN as int);
    lemma_align_up_bounds(want + 32, 4096);
    lemma_auto_spec_u32_to_from_le_bytes();
    let (d2, rel) = spec_alloc(d, need)->Ok_0;
    match first_fit(d, BASE_BLOCK as int, BASE_BLOCK + u32_at(d, BASE_HBINS_SIZE as int), want) {
        Ok(Some(c)) => {
            lemma_first_fit_bounds(d, BASE_BLOCK as int, BASE_BLOCK + u32_at(d, BASE_HBINS_SIZE as int), want);
            assert(payload_of(rel) == c + 4);
            assert(d2.subrange(x, y) =~= d.subrange(x, y));
        },
        Ok(None) => {
            assert(d2.subrange(x, y) =~= d.subrange(x, y));
        },
        Err(_) => {},
    }
}

fn neg_size(n: u32) -> (r: u32)
    ensures
        r == allocated_size(n),
{
    if n == 0 {
        0
    } else {
        u32::MAX - n + 1
    }
}

/// `align_up` lands on the least multiple of `to` that is not below `v`.
pub proof fn lemma_align_up_bounds(v: int, to: int)
    requires
        0 <= v,
        0 < to,
    ensures
        v <= spec_align_up(v, to) < v + to,
        spec_align_up(v, to) % to == 0,
{
    vstd::arithmetic::div_mod::lemma_fundamental_div_mod(v + to - 1, to);
    vstd::arithmetic::div_mod::lemma_mod_multiples_basic((v + to - 1) / to, to);
    assert(((v + to - 1) / to) * to == to * ((v + to - 1) / to)) by (nonlinear_arith);
}

/// `s` as little-endian 32-bit words, one after the other.
pub open spec fn le32_words(s: Seq<u32>) -> Seq<u8>
    decreases s.len(),
{
    if s.len() == 0 {
        Seq::empty()
    } else {
        le32_words(s.drop_last()) + spec_u32_to_le_bytes(s.last())
    }
}

/// `lf`/`lh` list entries as stored: each cell offset followed by its name hash.
pub open spec fn le32_pairs(s: Seq<(u32, u32)>) -> Seq<u8>
    decreases s.len(),
{
    if s.len() == 0 {
        Seq::empty()
    } else {
        le32_pairs(s.drop_last()) + spec_u32_to_le_bytes(s.last().0) + spec_u32_to_le_bytes(
            s.last().1,
        )
    }
}

/// `le32_words(s)` has 4 bytes per word, the last word at the end.
pub proof fn lemma_le32_words_last(s: Seq<u32>)
    requires
        s.len() > 0,
    ensures
        le32_words(s).len() == 4 * s.len(),
        le32_words(s).subrange(4 * s.len() - 4, 4 * s.len() as int) == spec_u32_to_le_bytes(s.last()),
{
    lemma_le32_words_len(s.drop_last());
    lemma_auto_spec_u32_to_from_le_bytes();
    assert(le32_words(s).subrange(4 * s.len() - 4, 4 * s.len() as int) =~= spec_u32_to_le_bytes(s.last()));
}

/// `le32_words(s)` has 4 bytes per word.
pub proof fn lemma_le32_words_len(s: Seq<u32>)
    ensures
        le32_words(s).len() == 4 * s.len(),
    decreases s.len(),
{
    lemma_auto_spec_u32_to_from_le_bytes();
    if s.len() > 0 {
        lemma_le32_words_len(s.drop_last());
    }
}

/// Appending value `v` to `key`'s list changes nothing outside the new list's allocation, the
/// base block's bins size and the key's value count and list fields; afterwards those fields
/// name the new list and its length, and its last entry (when not under the key's fields) is `v`.
pub proof fn lemma_append_value_frame(d: Seq<u8>, key: u32, v: u32, x: int, y: int)
    requires
        spec_append_value(d, key, v) is Ok,
        d.len() <= u32::MAX,
        0 <= x <= y <= d.len(),
        ({
            let n = (spec_value_list(d, key)->Ok_0.len() + 1) as int;
            let list = spec_alloc(d, 4 * n)->Ok_0.1;
            let kp = payload_of(key);
            &&& apart(x, y, alloc_footprint(list, 4 * n).0, alloc_footprint(list, 4 * n).1)
            &&& apart(x, y, BASE_HBINS_SIZE as int, BASE_HBINS_SIZE + 4)
            &&& apart(x, y, kp + NK_VALUES_COUNT, kp + NK_VALUES_LIST + 4)
        }),
    ensures
        ({
            let d2 = spec_append_value(d, key, v)->Ok_0;
            let n = (spec_value_list(d, key)->Ok_0.len() + 1) as int;
            let list = spec_alloc(d, 4 * n)->Ok_0.1;
            let kp = payload_of(key);
            let lp = payload_of(list);
            &&& d2.len() == d.len()
            &&& d2.subrange(x, y) == d.subrange(x, y)
            &&& u32_at(d2, kp + NK_VALUES_COUNT) == n
            &&& u32_at(d2, kp + NK_VALUES_LIST) == list
            &&& apart(lp + 4 * n - 4, lp + 4 * n, kp + NK_VALUES_COUNT, kp + NK_VALUES_LIST + 4)
                ==> u32_at(d2, lp + 4 * n - 4) == v
        }),
{
    lemma_auto_spec_u32_to_from_le_bytes();
    let entries = spec_value_list(d, key)->Ok_0.push(v);
    let n = entries.len() as int;
    let (d1, list) = spec_alloc(d, 4 * n)->Ok_0;
    let kp = payload_of(key);
    let lp = payload_of(list);
    lemma_alloc_frame(d, 4 * n, x, y);
    lemma_le32_words_last(entries);
    let w = le32_words(entries);
    let f = spec_u32_to_le_bytes(n as u32) + spec_u32_to_le_bytes(list);
    let e1 = overwrite(d1, lp, w);
    let e2 = overwrite(e1, kp + NK_VALUES_COUNT, f);
    assert(e2 == spec_append_value(d, key, v)->Ok_0);
    lemma_overwrite_subrange(d1, lp, w, x, y);
    lemma_overwrite_subrange(e1, kp + NK_VALUES_COUNT, f, x, y);
    lemma_overwrite_subrange(e1, kp + NK_VALUES_COUNT, f, kp + NK_VALUES_COUNT, kp + NK_VALUES_COUNT + 4);
    lemma_overwrite_subrange(e1, kp + NK_VALUES_COUNT, f, kp + NK_VALUES_LIST, kp + NK_VALUES_LIST + 4);
    assert(f.subrange(0, 4) =~= spec_u32_to_le_bytes(n as u32));
    assert(f.subrange(4, 8) =~= spec_u32_to_le_bytes(list));
    lemma_overwrite_subrange(d1, lp, w, lp + 4 * n - 4, lp + 4 * n);
    if apart(lp + 4 * n - 4, lp + 4 * n, kp + NK_VALUES_COUNT, kp + NK_VALUES_LIST + 4) {
        lemma_overwrite_subrange(e1, kp + NK_VALUES_COUNT, f, lp + 4 * n - 4, lp + 4 * n);
    }
}

/// The name of the value at cell `v`, stored as single-byte characters.
pub open spec fn spec_value_name(d: Seq<u8>, v: u32) -> Result<Seq<char>, HiveError> {
    let vp = payload_of(v);
    if vp + VK_DATA_SIZE > d.len() {
        Err(HiveError::OutOfBounds)
    } else {
        let len = u16_at(d, vp + VK_NAME_LENGTH);
        if vp + VK_HEADER_LEN + len > d.len() {
            Err(HiveError::OutOfBounds)
        } else {
            Ok(latin1(d.subrange(vp + VK_HEADER_LEN, vp + VK_HEADER_LEN + len)))
        }
    }
}

/// The first value, from entry `i` of the value list at `lp` holding `count` entries, whose
/// name matches `name` ignoring ASCII case.
pub open spec fn spec_value_match(d: Seq<u8>, lp: int, count: int, name: Seq<char>, i: int) -> Result<
    Option<u32>,
    HiveError,
>
    decreases count - i,
{
    if i >= count {
        Ok(None)
    } else if lp + 4 * i + 4 > d.len() {
        Err(HiveError::OutOfBounds)
    } else {
        let v = u32_at(d, lp + 4 * i);
        match spec_value_name(d, v) {
            Err(e) => Err(e),
            Ok(n) => if eq_ignore_ascii_case(n, name) {
                Ok(Some(v))
            } else {
                spec_value_match(d, lp, count, name, i + 1)
            },
        }
    }
}

/// The value of key `key` named `name` (ignoring ASCII case), if any.
pub open spec fn spec_find_value(d: Seq<u8>, key: u32, name: Seq<char>) -> Result<
    Option<u32>,
    HiveError,
> {
    let kp = payload_of(key);
    if kp + NK_SECURITY > d.len() {
        Err(HiveError::OutOfBounds)
    } else {
        let count = u32_at(d, kp + NK_VALUES_COUNT);
        let list = u32_at(d, kp + NK_VALUES_LIST);
        if count == 0 || list == u32::MAX {
            Ok(None)
        } else {
            spec_value_match(d, payload_of(list), count as int, name, 0)
        }
    }
}

/// The cell offsets in the value list of key `key`.
pub open spec fn spec_value_list(d: Seq<u8>, key: u32) -> Result<Seq<u32>, HiveError> {
    let kp = payload_of(key);
    if kp + NK_SECURITY > d.len() {
        Err(HiveError::OutOfBounds)
    } else {
        let count = u32_at(d, kp + NK_VALUES_COUNT) as int;
        let list = u32_at(d, kp + NK_VALUES_LIST);
        if count == 0 || list == u32::MAX {
            Ok(Seq::empty())
        } else {
            let lp = payload_of(list);
            if lp + 4 * count > d.len() {
                Err(HiveError::OutOfBounds)
            } else {
                Ok(Seq::new(count as nat, |i: int| u32_at(d, lp + 4 * i)))
            }
        }
    }
}

/// Add `value` to the values of `key`: a new list cell holds the old entries followed by
/// `value`, and the key's value count and list offset point at it.
pub open spec fn spec_append_value(d: Seq<u8>, key: u32, value: u32) -> Result<Seq<u8>, HiveError> {
    match spec_value_list(d, key) {
        Err(e) => Err(e),
        Ok(old_entries) => {
            let entries = old_entries.push(value);
            match spec_alloc(d, 4 * entries.len() as int) {
                Err(e) => Err(e),
                Ok((d1, list)) => {
                    let lp = payload_of(list);
                    if lp + 4 * entries.len() > d1.len() {
                        Err(HiveError::OutOfBounds)
                    } else {
                        Ok(
                            overwrite(
                                overwrite(d1, lp, le32_words(entries)),
                                payload_of(key) + NK_VALUES_COUNT,
                                spec_u32_to_le_bytes(entries.len() as u32) + spec_u32_to_le_bytes(
                                    list,
                                ),
                            ),
                        )
                    }
                },
            }
        },
    }
}

/// Write the fields of a new `nk` record at payload offset `p`; the bytes between the fields
/// keep what the allocation left there.
pub open spec fn write_nk(
    d: Seq<u8>,
    p: int,
    parent: u32,
    security: u32,
    stamp: Seq<u8>,
    name: Seq<u8>,
) -> Seq<u8> {
    let none = spec_u32_to_le_bytes(u32::MAX);
    let zero = spec_u32_to_le_bytes(0);
    let d1 = overwrite(d, p, seq![0x6Eu8, 0x6B] + spec_u16_to_le_bytes(NK_FLAG_COMP_NAME) + stamp);
    let d2 = overwrite(d1, p + NK_PARENT, spec_u32_to_le_bytes(parent) + zero);
    let d3 = overwrite(d2, p + NK_SUBKEYS_LIST, none);
    let d4 = overwrite(
        d3,
        p + NK_VALUES_COUNT,
        zero + none + spec_u32_to_le_bytes(security) + none + zero,
    );
    let d5 = overwrite(d4, p + NK_MAX_VALUE_NAME_LEN, zero + zero);
    overwrite(
        d5,
        p + NK_NAME_LENGTH,
        spec_u16_to_le_bytes(name.len() as u16) + spec_u16_to_le_bytes(0) + name,
    )
}

/// A new key record named `name` under `parent`, inheriting the parent's security cell and
/// timestamp. Only ASCII names are accepted; they are stored one byte per character.
pub open spec fn spec_create_key_record(d: Seq<u8>, parent: u32, name: Seq<char>) -> Result<
    (Seq<u8>, u32),
    HiveError,
> {
    if !ascii_name(name) {
        Err(HiveError::NonAsciiName)
    } else {
        let bytes = encode_utf8(name);
        match spec_alloc(d, NK_HEADER_LEN + bytes.len()) {
            Err(e) => Err(e),
            Ok((d1, rel)) => {
                let p = payload_of(rel);
                let pp = payload_of(parent);
                if pp + NK_CLASSNAME > d1.len() || p + NK_HEADER_LEN + bytes.len() > d1.len() {
                    Err(HiveError::OutOfBounds)
                } else {
                    Ok(
                        (
                            write_nk(
                                d1,
                                p,
                                parent,
                                u32_at(d1, pp + NK_SECURITY),
                                d1.subrange(pp + NK_LAST_WRITTEN, pp + NK_LAST_WRITTEN + 8),
                                bytes,
                            ),
                            rel,
                        ),
                    )
                }
            },
        }
    }
}

/// Every character of `s` is ASCII.
pub open spec fn ascii_name(s: Seq<char>) -> bool {
    forall|i: int| 0 <= i < s.len() ==> (#[trigger] s[i] as u32) < 0x80
}

/// The UTF-8 encoding of an ASCII name is one byte per character, equal to its code point.
pub proof fn lemma_ascii_encoding(s: Seq<char>)
    requires
        ascii_name(s),
    ensures
        encode_utf8(s).len() == s.len(),
        forall|i: int| 0 <= i < s.len() ==> #[trigger] encode_utf8(s)[i] == (s[i] as u32) as u8,
    decreases s.len(),
{
    if s.len() > 0 {
        let c = s[0] as u32;
        assert(c < 0x80);
        assert((c & 0x7F) as u8 == c as u8) by (bit_vector)
            requires
                c < 0x80,
        ;
        lemma_ascii_encoding(s.drop_first());
        assert forall|i: int| 0 <= i < s.len() implies #[trigger] encode_utf8(s)[i] == (s[i] as u32) as u8 by {
            if i > 0 {
                assert(s.drop_first()[i - 1] == s[i]);
            }
        }
    }
}

/// A part of an overwritten sequence lying inside the written bytes reads as those bytes, and
/// one lying outside them reads as before.
pub proof fn lemma_overwrite_subrange(d: Seq<u8>, at: int, b: Seq<u8>, x: int, y: int)
    requires
        0 <= at,
        at + b.len() <= d.len(),
        0 <= x <= y <= d.len(),
    ensures
        at <= x && y <= at + b.len() ==> overwrite(d, at, b).subrange(x, y) == b.subrange(
            x - at,
            y - at,
        ),
        y <= at || at + b.len() <= x ==> overwrite(d, at, b).subrange(x, y) == d.subrange(x, y),
        overwrite(d, at, b).len() == d.len(),
{
    if at <= x && y <= at + b.len() {
        assert(overwrite(d, at, b).subrange(x, y) =~= b.subrange(x - at, y - at));
    }
    if y <= at || at + b.len() <= x {
        assert(overwrite(d, at, b).subrange(x, y) =~= d.subrange(x, y));
    }
}

/// A key record made by `create_key_record` reads back with the name it was given (names of
/// up to 0xFFFF characters, whose length the record can hold).
pub proof fn lemma_created_key_name(d: Seq<u8>, parent: u32, name: Seq<char>)
    requires
        name.len() <= 0xFFFF,
        spec_create_key_record(d, parent, name) is Ok,
    ensures
        spec_key_name(
            spec_create_key_record(d, parent, name)->Ok_0.0,
            spec_create_key_record(d, parent, name)->Ok_0.1,
        ) == Ok::<Seq<char>, HiveError>(name),
{
    let bytes = encode_utf8(name);
    lemma_ascii_encoding(name);
    lemma_auto_spec_u32_to_from_le_bytes();
    lemma_auto_spec_u16_to_from_le_bytes();
    let (d1, rel) = spec_alloc(d, NK_HEADER_LEN + bytes.len())->Ok_0;
    let p = payload_of(rel);
    let pp = payload_of(parent);
    let stamp = d1.subrange(pp + NK_LAST_WRITTEN, pp + NK_LAST_WRITTEN + 8);
    let none = spec_u32_to_le_bytes(u32::MAX);
    let zero = spec_u32_to_le_bytes(0);
    let c1 = seq![0x6Eu8, 0x6B] + spec_u16_to_le_bytes(NK_FLAG_COMP_NAME) + stamp;
    let c2 = spec_u32_to_le_bytes(parent) + zero;
    let c4 = zero + none + spec_u32_to_le_bytes(u32_at(d1, pp + NK_SECURITY)) + none + zero;
    let c5 = zero + zero;
    let c6 = spec_u16_to_le_bytes(bytes.len() as u16) + spec_u16_to_le_bytes(0) + bytes;
    let e1 = overwrite(d1, p, c1);
    let e2 = overwrite(e1, p + NK_PARENT, c2);
    let e3 = overwrite(e2, p + NK_SUBKEYS_LIST, none);
    let e4 = overwrite(e3, p + NK_VALUES_COUNT, c4);
    let e5 = overwrite(e4, p + NK_MAX_VALUE_NAME_LEN, c5);
    let e6 = overwrite(e5, p + NK_NAME_LENGTH, c6);
    assert(e6 == spec_create_key_record(d, parent, name)->Ok_0.0);
    let n = bytes.len() as int;
    // The flags written first survive the later fields.
    lemma_overwrite_subrange(d1, p, c1, p + 2, p + 4);
    assert(c1.subrange(2, 4) =~= spec_u16_to_le_bytes(NK_FLAG_COMP_NAME));
    lemma_overwrite_subrange(e1, p + NK_PARENT, c2, p + 2, p + 4);
    lemma_overwrite_subrange(e2, p + NK_SUBKEYS_LIST, none, p + 2, p + 4);
    lemma_overwrite_subrange(e3, p + NK_VALUES_COUNT, c4, p + 2, p + 4);
    lemma_overwrite_subrange(e4, p + NK_MAX_VALUE_NAME_LEN, c5, p + 2, p + 4);
    lemma_overwrite_subrange(e5, p + NK_NAME_LENGTH, c6, p + 2, p + 4);
    assert(u16_at(e6, p + NK_FLAGS) == NK_FLAG_COMP_NAME);
    // The name length and the name come from the last field written.
    lemma_overwrite_subrange(e5, p + NK_NAME_LENGTH, c6, p + NK_NAME_LENGTH, p + NK_NAME_LENGTH + 2);
    assert(c6.subrange(0, 2) =~= spec_u16_to_le_bytes(bytes.len() as u16));
    assert(u16_at(e6, p + NK_NAME_LENGTH) == n);
    lemma_overwrite_subrange(e5, p + NK_NAME_LENGTH, c6, p + NK_HEADER_LEN, p + NK_HEADER_LEN + n);
    assert(c6.subrange(4, 4 + n) =~= bytes);
    assert(NK_FLAG_COMP_NAME & NK_FLAG_COMP_NAME != 0) by (bit_vector);
    assert forall|i: int| 0 <= i < name.len() implies #[trigger] latin1(bytes)[i] == name[i] by {
        let c = name[i] as u32;
        assert(bytes[i] == c as u8);
        assert(c < 0x80);
        assert((c as u8) as u32 == c);
        vstd::utf8::char_u32_cast(name[i], c);
        assert(bytes[i] as int == c as int);
    }
    assert(latin1(bytes) =~= name);
}

/// A key record made by `create_key_record` names `parent` as its parent, and is an `nk`
/// record flagged as having a single-byte name.
pub proof fn lemma_created_key_parent(d: Seq<u8>, parent: u32, name: Seq<char>)
    requires
        spec_create_key_record(d, parent, name) is Ok,
    ensures
        ({
            let (d2, rel) = spec_create_key_record(d, parent, name)->Ok_0;
            &&& u32_at(d2, payload_of(rel) + NK_PARENT) == parent
            &&& d2[payload_of(rel)] == 0x6E
            &&& d2[payload_of(rel) + 1] == 0x6B
        }),
{
    let bytes = encode_utf8(name);
    lemma_auto_spec_u32_to_from_le_bytes();
    lemma_auto_spec_u16_to_from_le_bytes();
    let (d1, rel) = spec_alloc(d, NK_HEADER_LEN + bytes.len())->Ok_0;
    let p = payload_of(rel);
    let pp = payload_of(parent);
    let stamp = d1.subrange(pp + NK_LAST_WRITTEN, pp + NK_LAST_WRITTEN + 8);
    let none = spec_u32_to_le_bytes(u32::MAX);
    let zero = spec_u32_to_le_bytes(0);
    let c1 = seq![0x6Eu8, 0x6B] + spec_u16_to_le_bytes(NK_FLAG_COMP_NAME) + stamp;
    let parent_field = spec_u32_to_le_bytes(parent) + zero;
    let c4 = zero + none + spec_u32_to_le_bytes(u32_at(d1, pp + NK_SECURITY)) + none + zero;
    let c5 = zero + zero;
    let c6 = spec_u16_to_le_bytes(bytes.len() as u16) + spec_u16_to_le_bytes(0) + bytes;
    let e1 = overwrite(d1, p, c1);
    let e2 = overwrite(e1, p + NK_PARENT, parent_field);
    let e3 = overwrite(e2, p + NK_SUBKEYS_LIST, none);
    let e4 = overwrite(e3, p + NK_VALUES_COUNT, c4);
    let e5 = overwrite(e4, p + NK_MAX_VALUE_NAME_LEN, c5);
    let e6 = overwrite(e5, p + NK_NAME_LENGTH, c6);
    assert(e6 == spec_create_key_record(d, parent, name)->Ok_0.0);
    // The parent field is written by the second field write and no later write reaches it.
    lemma_overwrite_subrange(e1, p + NK_PARENT, parent_field, p + NK_PARENT, p + NK_PARENT + 4);
    assert(parent_field.subrange(0, 4) =~= spec_u32_to_le_bytes(parent));
    lemma_overwrite_subrange(e2, p + NK_SUBKEYS_LIST, none, p + NK_PARENT, p + NK_PARENT + 4);
    lemma_overwrite_subrange(e3, p + NK_VALUES_COUNT, c4, p + NK_PARENT, p + NK_PARENT + 4);
    lemma_overwrite_subrange(e4, p + NK_MAX_VALUE_NAME_LEN, c5, p + NK_PARENT, p + NK_PARENT + 4);
    lemma_overwrite_subrange(e5, p + NK_NAME_LENGTH, c6, p + NK_PARENT, p + NK_PARENT + 4);
    assert(u32_at(e6, p + NK_PARENT) == parent);
    // The signature is written first and no later write reaches it.
    lemma_overwrite_subrange(d1, p, c1, p, p + 2);
    assert(c1.subrange(0, 2) =~= seq![0x6Eu8, 0x6B]);
    lemma_overwrite_subrange(e1, p + NK_PARENT, parent_field, p, p + 2);
    lemma_overwrite_subrange(e2, p + NK_SUBKEYS_LIST, none, p, p + 2);
    lemma_overwrite_subrange(e3, p + NK_VALUES_COUNT, c4, p, p + 2);
    lemma_overwrite_subrange(e4, p + NK_MAX_VALUE_NAME_LEN, c5, p, p + 2);
    lemma_overwrite_subrange(e5, p + NK_NAME_LENGTH, c6, p, p + 2);
    assert(e6.subrange(p, p + 2) == seq![0x6Eu8, 0x6B]);
    assert(e6[p] == e6.subrange(p, p + 2)[0]);
    assert(e6[p + 1] == e6.subrange(p, p + 2)[1]);
}

/// ASCII upper-casing of one code point.
pub open spec fn upper_code(c: u32) -> u32 {
    if 0x61 <= c <= 0x7A {
        (c - 32) as u32
    } else {
        c
    }
}

/// The code points of `s` with ASCII letters upper-cased: the key subkeys are ordered by.
pub open spec fn upper_codes(s: Seq<char>) -> Seq<u32> {
    Seq::new(s.len(), |i: int| upper_code(s[i] as u32))
}

/// `a` sorts strictly before `b`: lexicographic order of code points, a proper prefix first.
pub open spec fn codes_lt(a: Seq<u32>, b: Seq<u32>) -> bool
    decreases a.len(),
{
    if b.len() == 0 {
        false
    } else if a.len() == 0 {
        true
    } else if a[0] != b[0] {
        a[0] < b[0]
    } else {
        codes_lt(a.drop_first(), b.drop_first())
    }
}

/// Where a stable insertion puts an item with key `k` among items with keys `keys`, looking
/// from `i`: before the first strictly greater key.
pub open spec fn insert_pos(keys: Seq<Seq<u32>>, k: Seq<u32>, i: int) -> int
    decreases keys.len() - i,
{
    if i >= keys.len() {
        keys.len() as int
    } else if codes_lt(k, keys[i]) {
        i
    } else {
        insert_pos(keys, k, i + 1)
    }
}

/// Stable sort of `items` by `keys` (one key per item), by insertion: the sorted items and
/// their keys.
pub open spec fn stable_sort(items: Seq<(u32, u32)>, keys: Seq<Seq<u32>>) -> (
    Seq<(u32, u32)>,
    Seq<Seq<u32>>,
)
    decreases items.len(),
{
    if items.len() == 0 {
        (Seq::empty(), Seq::empty())
    } else {
        let n = items.len() - 1;
        let prev = stable_sort(items.drop_last(), keys.subrange(0, n));
        let pos = insert_pos(prev.1, keys[n], 0);
        (prev.0.insert(pos, items[n]), prev.1.insert(pos, keys[n]))
    }
}

/// The order on upper-cased names is transitive.
pub proof fn lemma_codes_lt_transitive(a: Seq<u32>, b: Seq<u32>, c: Seq<u32>)
    requires
        codes_lt(a, b),
        codes_lt(b, c),
    ensures
        codes_lt(a, c),
    decreases a.len(),
{
    if a.len() > 0 && b.len() > 0 && c.len() > 0 && a[0] == b[0] && b[0] == c[0] {
        lemma_codes_lt_transitive(a.drop_first(), b.drop_first(), c.drop_first());
    }
}

/// No key sorts before itself.
pub proof fn lemma_codes_lt_irreflexive(a: Seq<u32>)
    ensures
        !codes_lt(a, a),
    decreases a.len(),
{
    if a.len() > 0 {
        lemma_codes_lt_irreflexive(a.drop_first());
    }
}

/// No key sorts before an earlier one.
pub open spec fn keys_sorted(keys: Seq<Seq<u32>>) -> bool {
    forall|i: int, j: int| 0 <= i < j < keys.len() ==> !codes_lt(#[trigger] keys[j], #[trigger] keys[i])
}

/// `insert_pos` lies within the keys and every key before it is not greater than `k`.
proof fn lemma_insert_pos(keys: Seq<Seq<u32>>, k: Seq<u32>, i: int)
    requires
        0 <= i <= keys.len(),
    ensures
        i <= insert_pos(keys, k, i) <= keys.len(),
        forall|j: int| i <= j < insert_pos(keys, k, i) ==> !codes_lt(k, #[trigger] keys[j]),
        insert_pos(keys, k, i) < keys.len() ==> codes_lt(k, keys[insert_pos(keys, k, i)]),
    decreases keys.len() - i,
{
    if i < keys.len() && !codes_lt(k, keys[i]) {
        lemma_insert_pos(keys, k, i + 1);
    }
}

/// Subkey lists come out in name order: the stable sort yields its items with sorted keys, as
/// many as it was given, and each with the key it came in with.
pub proof fn lemma_stable_sort_sorted(items: Seq<(u32, u32)>, keys: Seq<Seq<u32>>)
    requires
        items.len() == keys.len(),
    ensures
        stable_sort(items, keys).0.len() == items.len(),
        stable_sort(items, keys).1.len() == items.len(),
        keys_sorted(stable_sort(items, keys).1),
    decreases items.len(),
{
    if items.len() > 0 {
        let n = items.len() - 1;
        lemma_stable_sort_sorted(items.drop_last(), keys.subrange(0, n));
        let prev = stable_sort(items.drop_last(), keys.subrange(0, n));
        let k = keys[n];
        let pos = insert_pos(prev.1, k, 0);
        lemma_insert_pos(prev.1, k, 0);
        let out = prev.1.insert(pos, k);
        assert forall|i: int, j: int| 0 <= i < j < out.len() implies !codes_lt(
            #[trigger] out[j],
            #[trigger] out[i],
        ) by {
            if j < pos {
                assert(out[i] == prev.1[i] && out[j] == prev.1[j]);
            } else if j == pos {
                assert(out[i] == prev.1[i]);
            } else if i == pos {
                assert(out[j] == prev.1[j - 1]);
                if codes_lt(out[j], k) {
                    lemma_codes_lt_transitive(prev.1[j - 1], k, prev.1[pos]);
                    if j - 1 > pos {
                        assert(!codes_lt(prev.1[j - 1], prev.1[pos]));
                    } else {
                        lemma_codes_lt_irreflexive(prev.1[pos]);
                    }
                }
            } else if i < pos {
                assert(out[i] == prev.1[i] && out[j] == prev.1[j - 1]);
            } else {
                assert(out[i] == prev.1[i - 1] && out[j] == prev.1[j - 1]);
            }
        }
    }
}

/// The name of the key at cell `key`, or nothing when it cannot be read.
pub open spec fn name_or_empty(d: Seq<u8>, key: u32) -> Seq<char> {
    match spec_key_name(d, key) {
        Ok(n) => n,
        Err(_) => Seq::empty(),
    }
}

/// The sort keys of list entries: their key names, upper-cased.
pub open spec fn sort_keys(d: Seq<u8>, entries: Seq<(u32, u32)>) -> Seq<Seq<u32>> {
    Seq::new(entries.len(), |i: int| upper_codes(name_or_empty(d, entries[i].0)))
}

/// Subkey list entries in name order. Sorting two or more entries reads every entry's name,
/// and fails if one cannot be read.
pub open spec fn spec_sort_entries(d: Seq<u8>, entries: Seq<(u32, u32)>) -> Result<
    Seq<(u32, u32)>,
    HiveError,
> {
    if entries.len() < 2 {
        Ok(entries)
    } else if exists|i: int| 0 <= i < entries.len() && #[trigger] spec_key_name(d, entries[i].0) is Err {
        Err(HiveError::OutOfBounds)
    } else {
        Ok(stable_sort(entries, sort_keys(d, entries)).0)
    }
}

/// The signature and entries of `parent`'s subkey list, given its count and list fields; a
/// parent without subkeys starts an empty `lf` list. Only `lf` and `lh` lists can be edited.
pub open spec fn spec_link_entries(d: Seq<u8>, count: u32, list: u32) -> Result<
    (u8, u8, Seq<(u32, u32)>),
    HiveError,
> {
    if count == 0 || list == u32::MAX {
        Ok((0x6C, 0x66, Seq::empty()))
    } else {
        let lp = payload_of(list);
        if lp + 2 > d.len() {
            Err(HiveError::OutOfBounds)
        } else if !(sig_is(d, lp, 0x6C, 0x66) || sig_is(d, lp, 0x6C, 0x68)) {
            Err(HiveError::UnsupportedListType(d[lp], d[lp + 1]))
        } else if lp + 4 > d.len() {
            Err(HiveError::OutOfBounds)
        } else {
            let n = u16_at(d, lp + 2) as int;
            if lp + 4 + 8 * n > d.len() {
                Err(HiveError::OutOfBounds)
            } else {
                Ok(
                    (
                        d[lp],
                        d[lp + 1],
                        Seq::new(
                            n as nat,
                            |i: int| (u32_at(d, lp + 4 + 8 * i), u32_at(d, lp + 8 + 8 * i)),
                        ),
                    ),
                )
            }
        }
    }
}

/// Add `key`, named `name`, to `parent`'s subkeys: a new list cell of the same type holds the
/// old entries and the new one in name order, with the name hash that list type stores; the
/// parent's count, list offset and longest subkey name follow.
pub open spec fn spec_link_subkey(d: Seq<u8>, parent: u32, key: u32, name: Seq<u8>) -> Result<
    Seq<u8>,
    HiveError,
> {
    let pp = payload_of(parent);
    if pp + NK_SUBKEYS_LIST + 4 > d.len() {
        Err(HiveError::OutOfBounds)
    } else {
        match spec_link_entries(
            d,
            u32_at(d, pp + NK_SUBKEY_COUNT),
            u32_at(d, pp + NK_SUBKEYS_LIST),
        ) {
            Err(e) => Err(e),
            Ok((s0, s1, entries)) => {
                let hash = if s1 == 0x68 {
                    spec_lh_hash(name)
                } else {
                    spec_lf_hash(name)
                };
                match spec_sort_entries(d, entries.push((key, hash))) {
                    Err(e) => Err(e),
                    Ok(merged) => match spec_alloc(d, 4 + 8 * merged.len() as int) {
                        Err(e) => Err(e),
                        Ok((d1, list)) => {
                            let lp = payload_of(list);
                            if lp + 4 + 8 * merged.len() > d1.len() || pp + NK_MAX_SUBKEY_NAME_LEN
                                + 4 > d1.len() {
                                Err(HiveError::OutOfBounds)
                            } else {
                                let d2 = overwrite(
                                    d1,
                                    lp,
                                    seq![s0, s1] + spec_u16_to_le_bytes(merged.len() as u16)
                                        + le32_pairs(merged),
                                );
                                let d3 = overwrite(
                                    d2,
                                    pp + NK_SUBKEY_COUNT,
                                    spec_u32_to_le_bytes(merged.len() as u32),
                                );
                                let d4 = overwrite(
                                    d3,
                                    pp + NK_SUBKEYS_LIST,
                                    spec_u32_to_le_bytes(list),
                                );
                                if name.len() as u32 > u32_at(d4, pp + NK_MAX_SUBKEY_NAME_LEN) {
                                    Ok(
                                        overwrite(
                                            d4,
                                            pp + NK_MAX_SUBKEY_NAME_LEN,
                                            spec_u32_to_le_bytes(name.len() as u32),
                                        ),
                                    )
                                } else {
                                    Ok(d4)
                                }
                            }
                        },
                    },
                }
            },
        }
    }
}

/// The cell offset in entry `i` of the `lf`/`lh` list whose payload is at `lp`.
pub open spec fn list_entry_key(d: Seq<u8>, lp: int, i: int) -> u32 {
    u32_at(d, lp + 4 + 8 * i)
}

/// The name hash in entry `i` of the `lf`/`lh` list whose payload is at `lp`.
pub open spec fn list_entry_hash(d: Seq<u8>, lp: int, i: int) -> u32 {
    u32_at(d, lp + 8 + 8 * i)
}

/// The little-endian pairs read back: `le32_pairs(s)` has 8 bytes per pair, pair `i` at `8 * i`.
pub proof fn lemma_le32_pairs_at(s: Seq<(u32, u32)>, i: int)
    requires
        0 <= i < s.len(),
    ensures
        le32_pairs(s).len() == 8 * s.len(),
        le32_pairs(s).subrange(8 * i, 8 * i + 4) == spec_u32_to_le_bytes(s[i].0),
        le32_pairs(s).subrange(8 * i + 4, 8 * i + 8) == spec_u32_to_le_bytes(s[i].1),
    decreases s.len(),
{
    lemma_auto_spec_u32_to_from_le_bytes();
    lemma_le32_pairs_len(s.drop_last());
    let pre = le32_pairs(s.drop_last());
    let a = spec_u32_to_le_bytes(s.last().0);
    let b = spec_u32_to_le_bytes(s.last().1);
    assert(le32_pairs(s) == pre + a + b);
    if i < s.len() - 1 {
        lemma_le32_pairs_at(s.drop_last(), i);
        assert(le32_pairs(s).subrange(8 * i, 8 * i + 4) =~= pre.subrange(8 * i, 8 * i + 4));
        assert(le32_pairs(s).subrange(8 * i + 4, 8 * i + 8) =~= pre.subrange(8 * i + 4, 8 * i + 8));
    } else {
        assert(le32_pairs(s).subrange(8 * i, 8 * i + 4) =~= a);
        assert(le32_pairs(s).subrange(8 * i + 4, 8 * i + 8) =~= b);
    }
}

/// `le32_pairs(s)` has 8 bytes per pair.
pub proof fn lemma_le32_pairs_len(s: Seq<(u32, u32)>)
    ensures
        le32_pairs(s).len() == 8 * s.len(),
    decreases s.len(),
{
    lemma_auto_spec_u32_to_from_le_bytes();
    if s.len() > 0 {
        lemma_le32_pairs_len(s.drop_last());
    }
}

/// Sorting keeps the entry added last: it stands somewhere in the sorted list.
pub proof fn lemma_sorted_keeps_last(d: Seq<u8>, entries: Seq<(u32, u32)>, x: (u32, u32))
    requires
        spec_sort_entries(d, entries.push(x)) is Ok,
    ensures
        spec_sort_entries(d, entries.push(x))->Ok_0.len() == entries.len() + 1,
        exists|i: int|
            0 <= i < spec_sort_entries(d, entries.push(x))->Ok_0.len() && spec_sort_entries(
                d,
                entries.push(x),
            )->Ok_0[i] == x,
{
    let items = entries.push(x);
    if items.len() < 2 {
        assert(spec_sort_entries(d, items)->Ok_0[0] == x);
    } else {
        let keys = sort_keys(d, items);
        let n = items.len() - 1;
        lemma_stable_sort_sorted(items.drop_last(), keys.subrange(0, n));
        let prev = stable_sort(items.drop_last(), keys.subrange(0, n));
        let pos = insert_pos(prev.1, keys[n], 0);
        lemma_insert_pos(prev.1, keys[n], 0);
        let out = prev.0.insert(pos, items[n]);
        assert(stable_sort(items, keys).0 == out);
        assert(out[pos] == x);
    }
}

/// A subkey linked under `parent` is listed in the parent's new subkey list with the name hash
/// that list's type stores: `lh_hash` of its name in an `lh` list, `lf_hash` in an `lf` list.
/// This holds when the parent had fewer than 0xFFFF subkeys (the list's count is 16 bits) and
/// the new list cell does not overlap the parent's count, list and name-length fields.
#[verifier::rlimit(40)]
pub proof fn lemma_linked_subkey_hash(d: Seq<u8>, parent: u32, key: u32, name: Seq<u8>)
    requires
        spec_link_subkey(d, parent, key, name) is Ok,
        spec_link_entries(
            d,
            u32_at(d, payload_of(parent) + NK_SUBKEY_COUNT),
            u32_at(d, payload_of(parent) + NK_SUBKEYS_LIST),
        )->Ok_0.2.len() < 0xFFFF,
        ({
            let d2 = spec_link_subkey(d, parent, key, name)->Ok_0;
            let pp = payload_of(parent);
            let lp = payload_of(u32_at(d2, pp + NK_SUBKEYS_LIST));
            let m = spec_link_entries(
                d,
                u32_at(d, pp + NK_SUBKEY_COUNT),
                u32_at(d, pp + NK_SUBKEYS_LIST),
            )->Ok_0.2.len() + 1;
            lp + 4 + 8 * m <= pp + NK_SUBKEY_COUNT || pp + NK_MAX_SUBKEY_NAME_LEN + 4 <= lp
        }),
    ensures
        ({
            let d2 = spec_link_subkey(d, parent, key, name)->Ok_0;
            let lp = payload_of(u32_at(d2, payload_of(parent) + NK_SUBKEYS_LIST));
            exists|i: int|
                0 <= i < u16_at(d2, lp + 2) && #[trigger] list_entry_key(d2, lp, i) == key
                    && list_entry_hash(d2, lp, i) == (if d2[lp + 1] == 0x68 { spec_lh_hash(name) } else { spec_lf_hash(name) })
        }),
{
    lemma_auto_spec_u32_to_from_le_bytes();
    lemma_auto_spec_u16_to_from_le_bytes();
    let pp = payload_of(parent);
    let (s0, s1, entries) = spec_link_entries(
        d,
        u32_at(d, pp + NK_SUBKEY_COUNT),
        u32_at(d, pp + NK_SUBKEYS_LIST),
    )->Ok_0;
    let hash = if s1 == 0x68 {
        spec_lh_hash(name)
    } else {
        spec_lf_hash(name)
    };
    let x = (key, hash);
    lemma_sorted_keeps_last(d, entries, x);
    let merged = spec_sort_entries(d, entries.push(x))->Ok_0;
    let pos = choose|i: int| 0 <= i < merged.len() && merged[i] == x;
    let (d1, list) = spec_alloc(d, 4 + 8 * merged.len() as int)->Ok_0;
    let lp = payload_of(list);
    let m = merged.len() as int;
    lemma_le32_pairs_len(merged);
    lemma_le32_pairs_at(merged, pos);
    let w = seq![s0, s1] + spec_u16_to_le_bytes(m as u16) + le32_pairs(merged);
    let d2 = overwrite(d1, lp, w);
    let d3 = overwrite(d2, pp + NK_SUBKEY_COUNT, spec_u32_to_le_bytes(m as u32));
    let d4 = overwrite(d3, pp + NK_SUBKEYS_LIST, spec_u32_to_le_bytes(list));
    let raised = overwrite(d4, pp + NK_MAX_SUBKEY_NAME_LEN, spec_u32_to_le_bytes(name.len() as u32));
    let fin = spec_link_subkey(d, parent, key, name)->Ok_0;
    assert(lp + 4 + 8 * m <= d1.len() && pp + NK_MAX_SUBKEY_NAME_LEN + 4 <= d1.len());
    assert(fin == d4 || fin == raised);
    assert(w.len() == 4 + 8 * m);
    list_field_set(d1, lp, w, pp, m, list, name.len() as u32);
    assert(u32_at(fin, pp + NK_SUBKEYS_LIST) == list);
    assert(m == entries.len() + 1);
    list_region_survives(d1, lp, w, pp, m, list, name.len() as u32);
    assert(fin.subrange(lp, lp + 4 + 8 * m) == w);
    let region = fin.subrange(lp, lp + 4 + 8 * m);
    assert(fin.subrange(lp + 2, lp + 4) =~= region.subrange(2, 4));
    assert(w.subrange(2, 4) =~= spec_u16_to_le_bytes(m as u16));
    assert(u16_at(fin, lp + 2) == m);
    assert(fin[lp + 1] == region[1]);
    assert(fin.subrange(lp + 4 + 8 * pos, lp + 8 + 8 * pos) =~= region.subrange(4 + 8 * pos, 8 + 8 * pos));
    assert(w.subrange(4 + 8 * pos, 8 + 8 * pos) =~= le32_pairs(merged).subrange(8 * pos, 8 * pos + 4));
    assert(fin.subrange(lp + 8 + 8 * pos, lp + 12 + 8 * pos) =~= region.subrange(8 + 8 * pos, 12 + 8 * pos));
    assert(w.subrange(8 + 8 * pos, 12 + 8 * pos) =~= le32_pairs(merged).subrange(8 * pos + 4, 8 * pos + 8));
    assert(list_entry_key(fin, lp, pos) == key);
    assert(list_entry_hash(fin, lp, pos) == hash);
}

/// After the parent's field updates, its list field names the new list.
proof fn list_field_set(d1: Seq<u8>, lp: int, w: Seq<u8>, pp: int, m: int, list: u32, n: u32)
    requires
        0 <= lp,
        0 <= pp,
        lp + w.len() <= d1.len(),
        pp + NK_MAX_SUBKEY_NAME_LEN + 4 <= d1.len(),
    ensures
        ({
            let d2 = overwrite(d1, lp, w);
            let d3 = overwrite(d2, pp + NK_SUBKEY_COUNT, spec_u32_to_le_bytes(m as u32));
            let d4 = overwrite(d3, pp + NK_SUBKEYS_LIST, spec_u32_to_le_bytes(list));
            let raised = overwrite(d4, pp + NK_MAX_SUBKEY_NAME_LEN, spec_u32_to_le_bytes(n));
            &&& u32_at(d4, pp + NK_SUBKEYS_LIST) == list
            &&& u32_at(raised, pp + NK_SUBKEYS_LIST) == list
        }),
{
    lemma_auto_spec_u32_to_from_le_bytes();
    let d2 = overwrite(d1, lp, w);
    let d3 = overwrite(d2, pp + NK_SUBKEY_COUNT, spec_u32_to_le_bytes(m as u32));
    let d4 = overwrite(d3, pp + NK_SUBKEYS_LIST, spec_u32_to_le_bytes(list));
    let b = spec_u32_to_le_bytes(n);
    lemma_overwrite_subrange(d3, pp + NK_SUBKEYS_LIST, spec_u32_to_le_bytes(list), pp + NK_SUBKEYS_LIST, pp + NK_SUBKEYS_LIST + 4);
    lemma_overwrite_subrange(d4, pp + NK_MAX_SUBKEY_NAME_LEN, b, pp + NK_SUBKEYS_LIST, pp + NK_SUBKEYS_LIST + 4);
    assert(spec_u32_to_le_bytes(list).subrange(0, 4) =~= spec_u32_to_le_bytes(list));
}

/// The list cell written at `lp` and the list field survive the parent's field updates that
/// follow, when the cell does not overlap those fields.
proof fn list_region_survives(d1: Seq<u8>, lp: int, w: Seq<u8>, pp: int, m: int, list: u32, n: u32)
    requires
        0 <= lp,
        0 <= pp,
        lp + w.len() <= d1.len(),
        pp + NK_MAX_SUBKEY_NAME_LEN + 4 <= d1.len(),
        w.len() == 4 + 8 * m,
        lp + 4 + 8 * m <= pp + NK_SUBKEY_COUNT || pp + NK_MAX_SUBKEY_NAME_LEN + 4 <= lp,
    ensures
        ({
            let d2 = overwrite(d1, lp, w);
            let d3 = overwrite(d2, pp + NK_SUBKEY_COUNT, spec_u32_to_le_bytes(m as u32));
            let d4 = overwrite(d3, pp + NK_SUBKEYS_LIST, spec_u32_to_le_bytes(list));
            let raised = overwrite(d4, pp + NK_MAX_SUBKEY_NAME_LEN, spec_u32_to_le_bytes(n));
            &&& d4.subrange(lp, lp + w.len()) == w
            &&& raised.subrange(lp, lp + w.len()) == w
        }),
{
    lemma_auto_spec_u32_to_from_le_bytes();
    let d2 = overwrite(d1, lp, w);
    let d3 = overwrite(d2, pp + NK_SUBKEY_COUNT, spec_u32_to_le_bytes(m as u32));
    let d4 = overwrite(d3, pp + NK_SUBKEYS_LIST, spec_u32_to_le_bytes(list));
    let b = spec_u32_to_le_bytes(n);
    lemma_overwrite_subrange(d1, lp, w, lp, lp + w.len());
    lemma_overwrite_subrange(d2, pp + NK_SUBKEY_COUNT, spec_u32_to_le_bytes(m as u32), lp, lp + w.len());
    lemma_overwrite_subrange(d3, pp + NK_SUBKEYS_LIST, spec_u32_to_le_bytes(list), lp, lp + w.len());
    lemma_overwrite_subrange(d4, pp + NK_MAX_SUBKEY_NAME_LEN, b, lp, lp + w.len());
    assert(w.subrange(0, w.len() as int) =~= w);
}

/// The fixed part of a `vk` record up to its flags: signature, name length, data size, data
/// cell, data type and the single-byte-name flag.
pub open spec fn vk_header(name_len: u16, data_len: u32, data_cell: u32) -> Seq<u8> {
    seq![0x76u8, 0x6B] + spec_u16_to_le_bytes(name_len) + spec_u32_to_le_bytes(data_len)
        + spec_u32_to_le_bytes(data_cell) + spec_u32_to_le_bytes(REG_BINARY)
        + spec_u16_to_le_bytes(VK_FLAG_COMP_NAME)
}

/// Raise the 32-bit field at `at` to `v` if it is smaller.
pub open spec fn raise_field(d: Seq<u8>, at: int, v: u32) -> Seq<u8> {
    if v > u32_at(d, at) {
        overwrite(d, at, spec_u32_to_le_bytes(v))
    } else {
        d
    }
}

/// Set the binary value `name` of `key` to `data`: the data goes into a new cell; an existing
/// value of that name (ignoring ASCII case) is rewritten in place, otherwise a new value record
/// is added to the key's value list; the key's longest value name and data size follow.
pub open spec fn spec_set_binary_value(d: Seq<u8>, key: u32, name: Seq<char>, data: Seq<u8>) -> Result<
    Seq<u8>,
    HiveError,
> {
    let bytes = encode_utf8(name);
    match spec_find_value(d, key, name) {
        Err(e) => Err(e),
        Ok(existing) => match spec_alloc(d, data.len() as int) {
            Err(e) => Err(e),
            Ok((d1, data_cell)) => {
                let dp = payload_of(data_cell);
                if dp + data.len() > d1.len() {
                    Err(HiveError::OutOfBounds)
                } else {
                    let d2 = overwrite(d1, dp, data);
                    let placed = match existing {
                        Some(v) => Ok((d2, v)),
                        None => match spec_alloc(d2, VK_HEADER_LEN + bytes.len()) {
                            Err(e) => Err(e),
                            Ok((d3, v)) => match spec_append_value(d3, key, v) {
                                Err(e) => Err(e),
                                Ok(d4) => Ok((d4, v)),
                            },
                        },
                    };
                    match placed {
                        Err(e) => Err(e),
                        Ok((d5, v)) => {
                            let vp = payload_of(v);
                            let kp = payload_of(key);
                            if vp + VK_HEADER_LEN + bytes.len() > d5.len() || kp
                                + NK_MAX_VALUE_DATA_SIZE + 4 > d5.len() {
                                Err(HiveError::OutOfBounds)
                            } else {
                                let d6 = overwrite(
                                    overwrite(
                                        d5,
                                        vp,
                                        vk_header(bytes.len() as u16, data.len() as u32, data_cell),
                                    ),
                                    vp + VK_HEADER_LEN,
                                    bytes,
                                );
                                let d7 = raise_field(
                                    d6,
                                    kp + NK_MAX_VALUE_NAME_LEN,
                                    bytes.len() as u32,
                                );
                                Ok(raise_field(d7, kp + NK_MAX_VALUE_DATA_SIZE, data.len() as u32))
                            }
                        },
                    }
                }
            },
        },
    }
}

/// The value record fields written last: the record at payload `vp` keeps its data size and
/// data cell when the key's name-length and data-size fields at `kp` lie apart from it, and the
/// bytes `[x, y)` keep what they held before the record and those fields were written.
proof fn lemma_value_tail_writes(d5: Seq<u8>, vp: int, kp: int, h: Seq<u8>, bytes: Seq<u8>, nb: u32, len: u32, x: int, y: int)
    requires
        0 <= vp,
        0 <= kp,
        h.len() == 18,
        vp + VK_HEADER_LEN + bytes.len() <= d5.len(),
        kp + NK_MAX_VALUE_DATA_SIZE + 4 <= d5.len(),
        0 <= x <= y <= d5.len(),
        apart(vp, vp + VK_HEADER_LEN + bytes.len(), kp + NK_MAX_VALUE_NAME_LEN, kp + NK_MAX_VALUE_DATA_SIZE + 4),
        apart(x, y, vp, vp + VK_HEADER_LEN + bytes.len()),
        apart(x, y, kp + NK_MAX_VALUE_NAME_LEN, kp + NK_MAX_VALUE_DATA_SIZE + 4),
    ensures
        ({
            let d6 = overwrite(overwrite(d5, vp, h), vp + VK_HEADER_LEN, bytes);
            let d7 = raise_field(d6, kp + NK_MAX_VALUE_NAME_LEN, nb);
            let fin = raise_field(d7, kp + NK_MAX_VALUE_DATA_SIZE, len);
            &&& fin.subrange(vp, vp + 18) == h
            &&& fin.subrange(x, y) == d5.subrange(x, y)
        }),
{
    lemma_auto_spec_u32_to_from_le_bytes();
    let d6a = overwrite(d5, vp, h);
    let d6 = overwrite(d6a, vp + VK_HEADER_LEN, bytes);
    let d7 = raise_field(d6, kp + NK_MAX_VALUE_NAME_LEN, nb);
    lemma_overwrite_subrange(d5, vp, h, vp, vp + 18);
    lemma_overwrite_subrange(d6a, vp + VK_HEADER_LEN, bytes, vp, vp + 18);
    lemma_overwrite_subrange(d5, vp, h, x, y);
    lemma_overwrite_subrange(d6a, vp + VK_HEADER_LEN, bytes, x, y);
    lemma_overwrite_subrange(d6, kp + NK_MAX_VALUE_NAME_LEN, spec_u32_to_le_bytes(nb), vp, vp + 18);
    lemma_overwrite_subrange(d6, kp + NK_MAX_VALUE_NAME_LEN, spec_u32_to_le_bytes(nb), x, y);
    lemma_overwrite_subrange(d7, kp + NK_MAX_VALUE_DATA_SIZE, spec_u32_to_le_bytes(len), vp, vp + 18);
    lemma_overwrite_subrange(d7, kp + NK_MAX_VALUE_DATA_SIZE, spec_u32_to_le_bytes(len), x, y);
    assert(h.subrange(0, 18) =~= h);
}

/// A value record's header names its data size at 4 and its data cell at 8.
proof fn lemma_vk_header_fields(nb: u16, len: u32, c: u32)
    ensures
        vk_header(nb, len, c).len() == 18,
        vk_header(nb, len, c).subrange(4, 8) == spec_u32_to_le_bytes(len),
        vk_header(nb, len, c).subrange(8, 12) == spec_u32_to_le_bytes(c),
{
    lemma_auto_spec_u32_to_from_le_bytes();
    lemma_auto_spec_u16_to_from_le_bytes();
    assert(vk_header(nb, len, c).subrange(4, 8) =~= spec_u32_to_le_bytes(len));
    assert(vk_header(nb, len, c).subrange(8, 12) =~= spec_u32_to_le_bytes(c));
}

/// Rewriting an existing value: after `set_binary_value(key, name, data)` succeeds on a key that
/// already has a value `name`, that value record names a data cell holding exactly `data` and
/// records its length; the cell is a fresh allocation. This holds when the new data cell lies
/// apart from the value record and from the key's longest-name and largest-data fields, and the
/// record lies apart from those fields.
pub proof fn lemma_set_existing_value_holds_data(d: Seq<u8>, key: u32, name: Seq<char>, data: Seq<u8>)
    requires
        d.len() <= u32::MAX,
        spec_set_binary_value(d, key, name, data) is Ok,
        spec_find_value(d, key, name) matches Ok(Some(_)),
        ({
            let v = spec_find_value(d, key, name)->Ok_0->Some_0;
            let vp = payload_of(v);
            let kp = payload_of(key);
            let nb = encode_utf8(name).len();
            let dp = payload_of(spec_alloc(d, data.len() as int)->Ok_0.1);
            &&& apart(vp, vp + VK_HEADER_LEN + nb, kp + NK_MAX_VALUE_NAME_LEN, kp + NK_MAX_VALUE_DATA_SIZE + 4)
            &&& apart(dp, dp + data.len(), vp, vp + VK_HEADER_LEN + nb)
            &&& apart(dp, dp + data.len(), kp + NK_MAX_VALUE_NAME_LEN, kp + NK_MAX_VALUE_DATA_SIZE + 4)
        }),
    ensures
        ({
            let fin = spec_set_binary_value(d, key, name, data)->Ok_0;
            let vp = payload_of(spec_find_value(d, key, name)->Ok_0->Some_0);
            let c = u32_at(fin, vp + VK_DATA_OFFSET);
            &&& c == spec_alloc(d, data.len() as int)->Ok_0.1
            &&& u32_at(fin, vp + VK_DATA_SIZE) == data.len()
            &&& fin.subrange(payload_of(c), payload_of(c) + data.len()) == data
        }),
{
    lemma_auto_spec_u32_to_from_le_bytes();
    let bytes = encode_utf8(name);
    let nb = bytes.len();
    let v = spec_find_value(d, key, name)->Ok_0->Some_0;
    let vp = payload_of(v);
    let kp = payload_of(key);
    let (d1, c) = spec_alloc(d, data.len() as int)->Ok_0;
    let dp = payload_of(c);
    let d2 = overwrite(d1, dp, data);
    let h = vk_header(nb as u16, data.len() as u32, c);
    lemma_vk_header_fields(nb as u16, data.len() as u32, c);
    let fin = spec_set_binary_value(d, key, name, data)->Ok_0;
    assert(data.len() as u32 == data.len()) by {
        assert(dp + data.len() <= d1.len());
    }
    lemma_overwrite_subrange(d1, dp, data, dp, dp + data.len());
    assert(data.subrange(0, data.len() as int) =~= data);
    lemma_value_tail_writes(d2, vp, kp, h, bytes, nb as u32, data.len() as u32, dp, dp + data.len());
    assert(fin.subrange(vp + 4, vp + 8) =~= h.subrange(4, 8));
    assert(fin.subrange(vp + 8, vp + 12) =~= h.subrange(8, 12));
}

/// The cells that `set_binary_value(key, name, data)` allocates, after the data cell, when it
/// adds a new value: the value record, the key's new value list, and that list's length.
pub open spec fn new_value_cells(d: Seq<u8>, key: u32, name: Seq<char>, data: Seq<u8>) -> (u32, u32, int) {
    let (d1, c) = spec_alloc(d, data.len() as int)->Ok_0;
    let (d3, v) = spec_alloc(
        overwrite(d1, payload_of(c), data),
        VK_HEADER_LEN + encode_utf8(name).len(),
    )->Ok_0;
    let n = (spec_value_list(d3, key)->Ok_0.len() + 1) as int;
    (v, spec_alloc(d3, 4 * n)->Ok_0.1, n)
}

/// Adding a new value: after `set_binary_value(key, name, data)` succeeds on a key without a
/// value `name`, the key's value list ends with a new value record, which names a data cell
/// holding exactly `data` and records its length. This holds when the data cell lies apart from
/// everything written after it (the value record and its cell, the new value list's cell, the
/// key's value fields), and the value record and the list's last entry lie apart from each
/// other and from the key's fields.
#[verifier::rlimit(40)]
pub proof fn lemma_set_new_value_holds_data(d: Seq<u8>, key: u32, name: Seq<char>, data: Seq<u8>)
    requires
        d.len() <= u32::MAX,
        spec_set_binary_value(d, key, name, data) is Ok,
        spec_find_value(d, key, name) == Ok::<Option<u32>, HiveError>(None),
        ({
            let (v, list, n) = new_value_cells(d, key, name, data);
            let vp = payload_of(v);
            let lp = payload_of(list);
            let kp = payload_of(key);
            let vend = vp + VK_HEADER_LEN + encode_utf8(name).len();
            let dp = payload_of(spec_alloc(d, data.len() as int)->Ok_0.1);
            let dend = dp + data.len();
            &&& apart(vp, vend, kp + NK_MAX_VALUE_NAME_LEN, kp + NK_MAX_VALUE_DATA_SIZE + 4)
            &&& apart(vp, vend, kp + NK_VALUES_COUNT, kp + NK_VALUES_LIST + 4)
            &&& apart(lp + 4 * n - 4, lp + 4 * n, vp, vend)
            &&& apart(lp + 4 * n - 4, lp + 4 * n, kp + NK_VALUES_COUNT, kp + NK_VALUES_LIST + 4)
            &&& apart(lp + 4 * n - 4, lp + 4 * n, kp + NK_MAX_VALUE_NAME_LEN, kp + NK_MAX_VALUE_DATA_SIZE + 4)
            &&& apart(dp, dend, vp, vend)
            &&& apart(dp, dend, kp + NK_MAX_VALUE_NAME_LEN, kp + NK_MAX_VALUE_DATA_SIZE + 4)
            &&& apart(dp, dend, kp + NK_VALUES_COUNT, kp + NK_VALUES_LIST + 4)
            &&& apart(
                dp,
                dend,
                alloc_footprint(v, VK_HEADER_LEN + encode_utf8(name).len()).0,
                alloc_footprint(v, VK_HEADER_LEN + encode_utf8(name).len()).1,
            )
            &&& apart(dp, dend, alloc_footprint(list, 4 * n).0, alloc_footprint(list, 4 * n).1)
        }),
    ensures
        ({
            let fin = spec_set_binary_value(d, key, name, data)->Ok_0;
            let kp = payload_of(key);
            let count = u32_at(fin, kp + NK_VALUES_COUNT) as int;
            let lp = payload_of(u32_at(fin, kp + NK_VALUES_LIST));
            let v = u32_at(fin, lp + 4 * count - 4);
            let vp = payload_of(v);
            let c = u32_at(fin, vp + VK_DATA_OFFSET);
            &&& count == new_value_cells(d, key, name, data).2
            &&& v == new_value_cells(d, key, name, data).0
            &&& c == spec_alloc(d, data.len() as int)->Ok_0.1
            &&& u32_at(fin, vp + VK_DATA_SIZE) == data.len()
            &&& fin.subrange(payload_of(c), payload_of(c) + data.len()) == data
        }),
{
    lemma_auto_spec_u32_to_from_le_bytes();
    let bytes = encode_utf8(name);
    let nb = bytes.len();
    let kp = payload_of(key);
    let (d1, c) = spec_alloc(d, data.len() as int)->Ok_0;
    let dp = payload_of(c);
    let d2 = overwrite(d1, dp, data);
    let (d3, v) = spec_alloc(d2, VK_HEADER_LEN + nb)->Ok_0;
    let d4 = spec_append_value(d3, key, v)->Ok_0;
    let (v_, list, n) = new_value_cells(d, key, name, data);
    assert(v_ == v);
    let vp = payload_of(v);
    let lp = payload_of(list);
    let h = vk_header(nb as u16, data.len() as u32, c);
    lemma_vk_header_fields(nb as u16, data.len() as u32, c);
    let fin = spec_set_binary_value(d, key, name, data)->Ok_0;
    assert(data.len() as u32 == data.len()) by {
        assert(dp + data.len() <= d1.len());
    }
    // The data lands in its cell.
    lemma_overwrite_subrange(d1, dp, data, dp, dp + data.len());
    assert(data.subrange(0, data.len() as int) =~= data);
    // The value record's allocation and the list's leave it alone.
    lemma_alloc_frame(d2, VK_HEADER_LEN + nb, dp, dp + data.len());
    lemma_append_value_frame(d3, key, v, dp, dp + data.len());
    // The list keeps its new fields and last entry.
    assert(spec_value_list(d3, key)->Ok_0.len() + 1 == n);
    // The last writes keep the data, the key's value fields and the list's last entry.
    lemma_value_tail_writes(d4, vp, kp, h, bytes, nb as u32, data.len() as u32, dp, dp + data.len());
    lemma_value_tail_writes(d4, vp, kp, h, bytes, nb as u32, data.len() as u32, kp + NK_VALUES_COUNT, kp + NK_VALUES_LIST + 4);
    lemma_value_tail_writes(d4, vp, kp, h, bytes, nb as u32, data.len() as u32, lp + 4 * n - 4, lp + 4 * n);
    assert(fin.subrange(kp + NK_VALUES_COUNT, kp + NK_VALUES_COUNT + 4) =~= d4.subrange(kp + NK_VALUES_COUNT, kp + NK_VALUES_COUNT + 4));
    assert(fin.subrange(kp + NK_VALUES_LIST, kp + NK_VALUES_LIST + 4) =~= d4.subrange(kp + NK_VALUES_LIST, kp + NK_VALUES_LIST + 4));
    assert(u32_at(fin, kp + NK_VALUES_COUNT) == n);
    assert(u32_at(fin, kp + NK_VALUES_LIST) == list);
    assert(u32_at(fin, lp + 4 * n - 4) == v);
    assert(fin.subrange(vp + 4, vp + 8) =~= h.subrange(4, 8));
    assert(fin.subrange(vp + 8, vp + 12) =~= h.subrange(8, 12));
}

/// Find the subkey `name` of `parent`, or create it and link it into the parent's list.
pub open spec fn spec_ensure_subkey(d: Seq<u8>, parent: u32, name: Seq<char>) -> Result<
    (Seq<u8>, u32),
    HiveError,
> {
    match spec_lookup(d, parent, name) {
        Err(e) => Err(e),
        Ok(Some(k)) => Ok((d, k)),
        Ok(None) => match spec_create_key_record(d, parent, name) {
            Err(e) => Err(e),
            Ok((d1, key)) => match spec_link_subkey(d1, parent, key, encode_utf8(name)) {
                Err(e) => Err(e),
                Ok(d2) => Ok((d2, key)),
            },
        },
    }
}

/// The non-empty pieces of `s` between backslashes, from position `i` on, `cur` being the
/// piece read so far.
pub open spec fn segments_from(s: Seq<char>, i: int, cur: Seq<char>) -> Seq<Seq<char>>
    decreases s.len() - i,
{
    if i >= s.len() {
        if cur.len() > 0 {
            seq![cur]
        } else {
            Seq::empty()
        }
    } else if s[i] == '\\' {
        (if cur.len() > 0 {
            seq![cur]
        } else {
            Seq::empty()
        }) + segments_from(s, i + 1, Seq::empty())
    } else {
        segments_from(s, i + 1, cur.push(s[i]))
    }
}

/// The non-empty components of a backslash-separated path.
pub open spec fn path_segments(s: Seq<char>) -> Seq<Seq<char>> {
    segments_from(s, 0, Seq::empty())
}

/// Follow `segs[i..]` down from key `cur`, creating nothing.
pub open spec fn spec_walk(d: Seq<u8>, cur: u32, segs: Seq<Seq<char>>, i: int) -> Result<
    Option<u32>,
    HiveError,
>
    decreases segs.len() - i,
{
    if i >= segs.len() {
        Ok(Some(cur))
    } else {
        match spec_lookup(d, cur, segs[i]) {
            Err(e) => Err(e),
            Ok(None) => Ok(None),
            Ok(Some(k)) => spec_walk(d, k, segs, i + 1),
        }
    }
}

/// Follow `segs[i..]` down from key `cur`, creating what is missing.
pub open spec fn spec_ensure_walk(d: Seq<u8>, cur: u32, segs: Seq<Seq<char>>, i: int) -> Result<
    (Seq<u8>, u32),
    (int, HiveError),
>
    decreases segs.len() - i,
{
    if i >= segs.len() {
        Ok((d, cur))
    } else {
        match spec_ensure_subkey(d, cur, segs[i]) {
            Err(e) => Err((i, e)),
            Ok((d1, k)) => spec_ensure_walk(d1, k, segs, i + 1),
        }
    }
}

/// Every character takes at least one byte in UTF-8.
pub proof fn lemma_utf8_len(s: Seq<char>)
    ensures
        encode_utf8(s).len() >= s.len(),
    decreases s.len(),
{
    if s.len() > 0 {
        lemma_utf8_len(s.drop_first());
    }
}

/// A hive held in memory, edited in place.
pub struct InPlaceHive {
    data: Vec<u8>,
}

impl InPlaceHive {
    /// The hive's bytes.
    pub closed spec fn bytes(&self) -> Seq<u8> {
        self.data@
    }

    /// Large enough for a base block and one bin header.
    pub closed spec fn wf(&self) -> bool {
        BASE_BLOCK + HBIN_HEADER <= self.data@.len() <= isize::MAX
    }

    /// Take ownership of a hive image after checking its size and signature.
    pub fn new(data: Vec<u8>) -> (r: Result<Self, HiveError>)
        requires
            data@.len() <= isize::MAX,
        ensures
            data@.len() < BASE_BLOCK + HBIN_HEADER ==> r == Err::<Self, HiveError>(
                HiveError::TooSmall,
            ),
            data@.len() >= BASE_BLOCK + HBIN_HEADER && data@.subrange(0, 4) != seq![
                0x72u8,
                0x65,
                0x67,
                0x66,
            ] ==> r == Err::<Self, HiveError>(HiveError::NotRegf),
            r matches Ok(h) ==> h.wf() && h.bytes() == data@ && data@.subrange(0, 4) == seq![
                0x72u8,
                0x65,
                0x67,
                0x66,
            ],
            data@.len() >= BASE_BLOCK + HBIN_HEADER && data@.subrange(0, 4) == seq![
                0x72u8,
                0x65,
                0x67,
                0x66,
            ] ==> r is Ok,
    {
        if data.len() < BASE_BLOCK + HBIN_HEADER {
            return Err(HiveError::TooSmall);
        }
        if data[0] != 0x72 || data[1] != 0x65 || data[2] != 0x67 || data[3] != 0x66 {
            proof {
                if data@.subrange(0, 4) == seq![0x72u8, 0x65, 0x67, 0x66] {
                    assert(data@[0] == data@.subrange(0, 4)[0]);
                    assert(data@[1] == data@.subrange(0, 4)[1]);
                    assert(data@[2] == data@.subrange(0, 4)[2]);
                    assert(data@[3] == data@.subrange(0, 4)[3]);
                }
            }
            return Err(HiveError::NotRegf);
        }
        assert(data@.subrange(0, 4) =~= seq![0x72u8, 0x65, 0x67, 0x66]);
        Ok(Self { data })
    }

    /// The hive's bytes with a freshly computed base-block checksum.
    pub fn into_bytes(self) -> (r: Vec<u8>)
        requires
            self.wf(),
        ensures
            r@ == overwrite(self.bytes(), BASE_CHECKSUM as int, spec_u32_to_le_bytes(spec_checksum(self.bytes()))),
            u32_at(r@, BASE_CHECKSUM as int) == spec_checksum(r@),
    {
        let mut s = self;
        s.update_checksum();
        proof {
            lemma_auto_spec_u32_to_from_le_bytes();
            let d0 = self.data@;
            let d1 = s.data@;
            assert(d1.subrange(0, 508) =~= d0.subrange(0, 508));
            lemma_xor_words_prefix(d0, d1, 127);
            assert(d1.subrange(508, 512) =~= spec_u32_to_le_bytes(spec_checksum(d0)));
        }
        s.data
    }

    fn read_u32(&self, at: usize) -> (v: u32)
        requires
            at + 4 <= self.bytes().len(),
        ensures
            v == u32_at(self.bytes(), at as int),
    {
        let n = self.data.len();
        u32_from_le_bytes(slice_subrange(self.data.as_slice(), at, at + 4))
    }

    fn read_u16(&self, at: usize) -> (v: u16)
        requires
            at + 2 <= self.bytes().len(),
        ensures
            v == u16_at(self.bytes(), at as int),
    {
        let n = self.data.len();
        u16_from_le_bytes(slice_subrange(self.data.as_slice(), at, at + 2))
    }

    /// Copy `src` over the bytes at `at`.
    fn write_bytes(&mut self, at: usize, src: &[u8])
        requires
            at + src@.len() <= old(self).bytes().len(),
        ensures
            final(self).bytes() == overwrite(old(self).bytes(), at as int, src@),
    {
        let n = self.data.len();
        let mut i: usize = 0;
        while i < src.len()
            invariant
                at + src@.len() <= self.data@.len(),
                self.data@.len() == n,
                i <= src@.len(),
                self.data@.len() == old(self).data@.len(),
                forall|j: int|
                    0 <= j < self.data@.len() && !(at <= j < at + i) ==> self.data@[j] == old(
                        self,
                    ).data@[j],
                forall|j: int| at <= j < at + i ==> self.data@[j] == src@[j - at],
            decreases src@.len() - i,
        {
            self.data.set(at + i, src[i]);
            i += 1;
        }
        assert(self.data@ =~= overwrite(old(self).data@, at as int, src@));
    }

    fn write_u32(&mut self, at: usize, v: u32)
        requires
            at + 4 <= old(self).bytes().len(),
        ensures
            final(self).bytes() == overwrite(old(self).bytes(), at as int, spec_u32_to_le_bytes(v)),
    {
        let b = u32_to_le_bytes(v);
        self.write_bytes(at, b.as_slice());
    }

    fn write_u16(&mut self, at: usize, v: u16)
        requires
            at + 2 <= old(self).bytes().len(),
        ensures
            final(self).bytes() == overwrite(old(self).bytes(), at as int, spec_u16_to_le_bytes(v)),
    {
        let b = u16_to_le_bytes(v);
        self.write_bytes(at, b.as_slice());
    }

    /// Declared size of all bins, from the base block.
    fn hbins_size(&self) -> (n: usize)
        requires
            self.wf(),
        ensures
            n == u32_at(self.bytes(), BASE_HBINS_SIZE as int),
    {
        self.read_u32(BASE_HBINS_SIZE) as usize
    }

    /// Absolute file offset of a cell payload, given a hive-relative cell offset.
    fn cell_payload(&self, rel: u32) -> (p: usize)
        requires
            payload_of(rel) <= usize::MAX,
        ensures
            p == payload_of(rel),
    {
        BASE_BLOCK + rel as usize + 4
    }

    /// The payload offset of cell `rel`, if `extra` bytes of it lie inside the hive.
    fn payload_span(&self, rel: u32, extra: usize) -> (r: Result<usize, HiveError>)
        ensures
            self.bytes().len() <= usize::MAX,
            r matches Ok(p) ==> p == payload_of(rel) && p + extra <= self.bytes().len(),
            payload_of(rel) + extra <= self.bytes().len() ==> r == Ok::<usize, HiveError>(
                payload_of(rel) as usize,
            ),
            payload_of(rel) + extra > self.bytes().len() ==> r == Err::<usize, HiveError>(
                HiveError::OutOfBounds,
            ),
    {
        let len = self.data.len();
        if (rel as usize) > len || len - (rel as usize) < BASE_BLOCK + 4 {
            return Err(HiveError::OutOfBounds);
        }
        let p = BASE_BLOCK + rel as usize + 4;
        if extra > len - p {
            return Err(HiveError::OutOfBounds);
        }
        Ok(p)
    }

    /// The root key's cell offset.
    pub fn root_cell(&self) -> (r: u32)
        requires
            self.wf(),
        ensures
            r == u32_at(self.bytes(), BASE_ROOT_CELL as int),
    {
        self.read_u32(BASE_ROOT_CELL)
    }

    /// Recompute the XOR checksum that bootmgr validates before trusting the base block.
    fn update_checksum(&mut self)
        requires
            old(self).wf(),
        ensures
            final(self).wf(),
            final(self).bytes() == overwrite(
                old(self).bytes(),
                BASE_CHECKSUM as int,
                spec_u32_to_le_bytes(spec_checksum(old(self).bytes())),
            ),
    {
        let mut sum: u32 = 0;
        let mut i: usize = 0;
        while i < 127
            invariant
                i <= 127,
                self.wf(),
                sum == xor_words(self.data@, i as int),
            decreases 127 - i,
        {
            sum = sum ^ self.read_u32(4 * i);
            i += 1;
        }
        if sum == 0xFFFF_FFFF {
            sum = 0xFFFF_FFFE;
        }
        if sum == 0 {
            sum = 1;
        }
        self.write_u32(BASE_CHECKSUM, sum);
    }

    /// Zero the `n` bytes at `at`.
    fn write_zeros(&mut self, at: usize, n: usize)
        requires
            at + n <= old(self).bytes().len(),
        ensures
            final(self).bytes() == overwrite(old(self).bytes(), at as int, zeros(n as int)),
    {
        let len = self.data.len();
        let mut i: usize = 0;
        while i < n
            invariant
                at + n <= self.data@.len(),
                self.data@.len() == len,
                i <= n,
                self.data@.len() == old(self).data@.len(),
                forall|j: int|
                    0 <= j < self.data@.len() && !(at <= j < at + i) ==> self.data@[j] == old(
                        self,
                    ).data@[j],
                forall|j: int| at <= j < at + i ==> self.data@[j] == 0u8,
            decreases n - i,
        {
            self.data.set(at + i, 0);
            i += 1;
        }
        assert(self.data@ =~= overwrite(old(self).data@, at as int, zeros(n as int)));
    }

    /// The first free cell of at least `want` bytes among the cells from `start` to `end`.
    fn scan_cells(&self, start: usize, end: usize, want: usize) -> (r: Option<usize>)
        requires
            end <= self.bytes().len(),
        ensures
            r is None ==> first_free_cell(self.bytes(), start as int, end as int, want as int)
                is None,
            r matches Some(c) ==> {
                &&& first_free_cell(self.bytes(), start as int, end as int, want as int) == Some(
                    c as int,
                )
                &&& start <= c
                &&& c + 4 <= end
                &&& i32_at(self.bytes(), c as int) > 0
                &&& cell_len(i32_at(self.bytes(), c as int)) >= want
            },
    {
        let mut cur = start;
        while cur <= end && end - cur >= 4
            invariant
                end <= self.bytes().len(),
                start <= cur,
                first_free_cell(self.bytes(), start as int, end as int, want as int)
                    == first_free_cell(self.bytes(), cur as int, end as int, want as int),
            decreases end - cur,
        {
            let size = self.read_u32(cur) as i32;
            if size == 0 {
                return None;
            }
            let len: usize = if size < 0 {
                (0i64 - size as i64) as usize
            } else {
                size as usize
            };
            assert(len == cell_len(size));
            if size > 0 && len >= want {
                return Some(cur);
            }
            if len > end - cur {
                return None;
            }
            cur = cur + len;
        }
        None
    }

    /// First fit over the declared bins.
    fn find_free_cell(&self, want: usize) -> (r: Result<Option<usize>, HiveError>)
        requires
            self.wf(),
        ensures
            first_fit(
                self.bytes(),
                BASE_BLOCK as int,
                BASE_BLOCK + u32_at(self.bytes(), BASE_HBINS_SIZE as int),
                want as int,
            ) == match r {
                Ok(Some(c)) => Ok::<Option<int>, HiveError>(Some(c as int)),
                Ok(None) => Ok::<Option<int>, HiveError>(None),
                Err(e) => Err::<Option<int>, HiveError>(e),
            },
            r matches Ok(Some(c)) ==> {
                &&& BASE_BLOCK + HBIN_HEADER <= c
                &&& c + 4 <= self.bytes().len()
                &&& i32_at(self.bytes(), c as int) > 0
                &&& cell_len(i32_at(self.bytes(), c as int)) >= want
            },
    {
        let len = self.data.len() as u64;
        let bins_end: u64 = BASE_BLOCK as u64 + self.read_u32(BASE_HBINS_SIZE) as u64;
        let ghost first = first_fit(self.bytes(), BASE_BLOCK as int, bins_end as int, want as int);
        let mut bin: u64 = BASE_BLOCK as u64;
        while bin + 32 <= bins_end
            invariant
                BASE_BLOCK <= bin <= bins_end + 0x1_0000_0000,
                bins_end == BASE_BLOCK + u32_at(self.bytes(), BASE_HBINS_SIZE as int),
                len == self.bytes().len(),
                self.bytes().len() <= usize::MAX,
                first == first_fit(self.bytes(), bin as int, bins_end as int, want as int),
                first == first_fit(
                    self.bytes(),
                    BASE_BLOCK as int,
                    bins_end as int,
                    want as int,
                ),
            decreases bins_end - bin,
        {
            if bin + 4 > len {
                return Err(HiveError::OutOfBounds);
            }
            let b = bin as usize;
            if !(self.data[b] == 0x68 && self.data[b + 1] == 0x62 && self.data[b + 2] == 0x69
                && self.data[b + 3] == 0x6E) {
                return Ok(None);
            }
            if bin + 12 > len {
                return Err(HiveError::OutOfBounds);
            }
            let size = self.read_u32(b + 8) as u64;
            if size == 0 {
                return Ok(None);
            }
            let end: u64 = if bin + size < len {
                bin + size
            } else {
                len
            };
            if bin + 36 <= end {
                match self.scan_cells(b + 32, end as usize, want) {
                    Some(c) => {
                        return Ok(Some(c));
                    },
                    None => {},
                }
            }
            if bin + size > bins_end {
                return Ok(None);
            }
            bin = bin + size;
        }
        Ok(None)
    }

    /// Claim the free cell at `c` for `want` bytes.
    fn take_cell(&mut self, c: usize, want: usize) -> (r: Result<u32, HiveError>)
        requires
            old(self).wf(),
            BASE_BLOCK + HBIN_HEADER <= c,
            want >= 4,
            c + 4 <= old(self).bytes().len(),
            i32_at(old(self).bytes(), c as int) > 0,
            cell_len(i32_at(old(self).bytes(), c as int)) >= want,
        ensures
            final(self).wf(),
            match spec_take_cell(old(self).bytes(), c as int, want as int) {
                Ok((d, rel)) => r == Ok::<u32, HiveError>(rel) && final(self).bytes() == d,
                Err(e) => r == Err::<u32, HiveError>(e) && final(self).bytes() == old(self).bytes(),
            },
    {
        let size = self.read_u32(c) as i32;
        let len = size as usize;
        let rest = len - want;
        if rest >= CELL_ALIGN {
            if want > self.data.len() - c - 4 {
                return Err(HiveError::OutOfBounds);
            }
            self.write_u32(c + want, rest as u32);
            self.write_u32(c, neg_size(want as u32));
        } else {
            self.write_u32(c, neg_size(len as u32));
        }
        let avail = self.data.len() - c;
        let room = if avail < want {
            avail
        } else {
            want
        };
        self.write_zeros(c + 4, room - 4);
        Ok((c - BASE_BLOCK) as u32)
    }

    /// Add a new bin past the declared bins, if the file has room for it.
    fn append_bin(&mut self, want: usize) -> (r: Result<u32, HiveError>)
        requires
            old(self).wf(),
            want + 0x2000 <= usize::MAX,
        ensures
            final(self).wf(),
            match spec_append_bin(old(self).bytes(), want as int) {
                Ok((d, rel)) => r == Ok::<u32, HiveError>(rel) && final(self).bytes() == d,
                Err(e) => r == Err::<u32, HiveError>(e) && final(self).bytes() == old(self).bytes(),
            },
    {
        let hb = self.read_u32(BASE_HBINS_SIZE);
        proof {
            lemma_align_up_bounds(want + HBIN_HEADER, 4096);
        }
        let bin_size = align_up(want + HBIN_HEADER, 4096);
        let bin_off: u64 = BASE_BLOCK as u64 + hb as u64;
        let len = self.data.len();
        if bin_size > len || bin_off > (len - bin_size) as u64 {
            return Err(HiveError::NoRoomForBin { need: bin_size, offset: bin_off as usize, len });
        }
        let off = bin_off as usize;
        self.write_zeros(off, bin_size);
        let mut header: Vec<u8> = vec![0x68u8, 0x62, 0x69, 0x6E];
        let rel_bytes = u32_to_le_bytes(hb);
        let size_bytes = u32_to_le_bytes(bin_size as u32);
        let mut k: usize = 0;
        while k < 4
            invariant
                k <= 4,
                rel_bytes@.len() == 4,
                size_bytes@.len() == 4,
                header@ == seq![0x68u8, 0x62, 0x69, 0x6E] + rel_bytes@.subrange(0, k as int),
            decreases 4 - k,
        {
            header.push(rel_bytes[k]);
            k += 1;
            assert(header@ =~= seq![0x68u8, 0x62, 0x69, 0x6E] + rel_bytes@.subrange(0, k as int));
        }
        let mut k: usize = 0;
        while k < 4
            invariant
                k <= 4,
                rel_bytes@.len() == 4,
                size_bytes@.len() == 4,
                header@ == seq![0x68u8, 0x62, 0x69, 0x6E] + rel_bytes@ + size_bytes@.subrange(
                    0,
                    k as int,
                ),
            decreases 4 - k,
        {
            header.push(size_bytes[k]);
            k += 1;
            assert(header@ =~= seq![0x68u8, 0x62, 0x69, 0x6E] + rel_bytes@ + size_bytes@.subrange(
                0,
                k as int,
            ));
        }
        assert(rel_bytes@.subrange(0, 4) =~= rel_bytes@);
        assert(size_bytes@.subrange(0, 4) =~= size_bytes@);
        assert(header@ =~= hbin_header(hb, bin_size as u32));
        self.write_bytes(off, header.as_slice());
        let cell = off + HBIN_HEADER;
        self.write_u32(cell, neg_size(want as u32));
        let rest = bin_size - HBIN_HEADER - want;
        if rest >= CELL_ALIGN {
            self.write_u32(cell + want, rest as u32);
        }
        self.write_u32(BASE_HBINS_SIZE, (hb as u64 + bin_size as u64) as u32);
        Ok((cell - BASE_BLOCK) as u32)
    }

    /// Allocate `need` payload bytes, returning a hive-relative cell offset.
    ///
    /// Prefers splitting an existing free cell; falls back to appending a bin when the file has
    /// room beyond the declared bins.
    fn alloc_cell(&mut self, need: usize) -> (r: Result<u32, HiveError>)
        requires
            old(self).wf(),
            need + 0x3000 <= usize::MAX,
        ensures
            final(self).wf(),
            final(self).bytes().len() == old(self).bytes().len(),
            match spec_alloc(old(self).bytes(), need as int) {
                Ok((d, rel)) => r == Ok::<u32, HiveError>(rel) && final(self).bytes() == d,
                Err(e) => r == Err::<u32, HiveError>(e) && final(self).bytes() == old(self).bytes(),
            },
    {
        proof {
            lemma_align_up_bounds(need + 4, CELL_ALIGN as int);
        }
        let want = align_up(need + 4, CELL_ALIGN);
        match self.find_free_cell(want) {
            Err(e) => Err(e),
            Ok(Some(c)) => self.take_cell(c, want),
            Ok(None) => self.append_bin(want),
        }
    }

    /// The name of the value at cell `v`.
    fn value_name(&self, v: u32) -> (r: Result<Vec<char>, HiveError>)
        ensures
            match spec_value_name(self.bytes(), v) {
                Ok(n) => r matches Ok(x) && x@ == n,
                Err(e) => r == Err::<Vec<char>, HiveError>(e),
            },
    {
        let vp = self.payload_span(v, VK_DATA_SIZE)?;
        let len = self.read_u16(vp + VK_NAME_LENGTH) as usize;
        if self.data.len() - vp < VK_HEADER_LEN || len > self.data.len() - vp - VK_HEADER_LEN {
            return Err(HiveError::OutOfBounds);
        }
        let start = vp + VK_HEADER_LEN;
        Ok(latin1_chars(slice_subrange(self.data.as_slice(), start, start + len)))
    }

    fn find_value(&self, key: u32, name: &[char]) -> (r: Result<Option<u32>, HiveError>)
        ensures
            r == spec_find_value(self.bytes(), key, name@),
    {
        let kp = self.payload_span(key, NK_SECURITY)?;
        let count = self.read_u32(kp + NK_VALUES_COUNT);
        let list = self.read_u32(kp + NK_VALUES_LIST);
        if count == 0 || list == u32::MAX {
            return Ok(None);
        }
        let lp: u64 = BASE_BLOCK as u64 + list as u64 + 4;
        let len = self.data.len() as u64;
        let mut i: u64 = 0;
        while i < count as u64
            invariant
                lp == payload_of(list),
                len == self.bytes().len(),
                self.bytes().len() <= usize::MAX,
                i <= count,
                spec_find_value(self.bytes(), key, name@) == spec_value_match(
                    self.bytes(),
                    lp as int,
                    count as int,
                    name@,
                    i as int,
                ),
            decreases count - i,
        {
            if lp + 4 * i + 4 > len {
                return Err(HiveError::OutOfBounds);
            }
            let v = self.read_u32((lp + 4 * i) as usize);
            let n = self.value_name(v)?;
            if names_match(n.as_slice(), name) {
                return Ok(Some(v));
            }
            i += 1;
        }
        Ok(None)
    }

    /// The cell offsets in the value list of `key`.
    fn value_list(&self, key: u32) -> (r: Result<Vec<u32>, HiveError>)
        ensures
            match spec_value_list(self.bytes(), key) {
                Ok(e) => r matches Ok(v) && v@ == e,
                Err(e) => r == Err::<Vec<u32>, HiveError>(e),
            },
            r matches Ok(v) ==> 4 * v@.len() <= self.bytes().len(),
    {
        let kp = self.payload_span(key, NK_SECURITY)?;
        let count = self.read_u32(kp + NK_VALUES_COUNT);
        let list = self.read_u32(kp + NK_VALUES_LIST);
        let mut out: Vec<u32> = Vec::new();
        if count == 0 || list == u32::MAX {
            return Ok(out);
        }
        let lp = self.payload_span(list, 0)?;
        if count as usize > (self.data.len() - lp) / 4 {
            return Err(HiveError::OutOfBounds);
        }
        let n = count as usize;
        let mut i: usize = 0;
        while i < n
            invariant
                i <= n,
                n == count,
                lp == payload_of(list),
                lp + 4 * n <= self.bytes().len(),
                self.bytes().len() <= usize::MAX,
                out@ =~= Seq::new(i as nat, |j: int| u32_at(self.bytes(), lp + 4 * j)),
            decreases n - i,
        {
            out.push(self.read_u32(lp + 4 * i));
            i += 1;
        }
        Ok(out)
    }

    /// Add `value` to the values of `key` through a new list cell.
    fn append_value(&mut self, key: u32, value: u32) -> (r: Result<(), HiveError>)
        requires
            old(self).wf(),
        ensures
            final(self).wf(),
            final(self).bytes().len() == old(self).bytes().len(),
            match spec_append_value(old(self).bytes(), key, value) {
                Ok(d) => r is Ok && final(self).bytes() == d,
                Err(e) => r == Err::<(), HiveError>(e),
            },
    {
        let mut entries = self.value_list(key)?;
        entries.push(value);
        let n = entries.len();
        let new_list = self.alloc_cell(4 * n)?;
        let lp = self.payload_span(new_list, 4 * n)?;
        let words = le_words(entries.as_slice());
        self.write_bytes(lp, words.as_slice());
        let kp = self.cell_payload(key);
        let mut fields = u32_to_le_bytes(n as u32);
        let list_bytes = u32_to_le_bytes(new_list);
        append_bytes(&mut fields, list_bytes.as_slice());
        self.write_bytes(kp + NK_VALUES_COUNT, fields.as_slice());
        Ok(())
    }

    fn create_key_record(&mut self, parent: u32, name: &[char]) -> (r: Result<u32, HiveError>)
        requires
            old(self).wf(),
            name@.len() <= isize::MAX,
        ensures
            final(self).wf(),
            final(self).bytes().len() == old(self).bytes().len(),
            match spec_create_key_record(old(self).bytes(), parent, name@) {
                Ok((d, rel)) => r == Ok::<u32, HiveError>(rel) && final(self).bytes() == d,
                Err(e) => r == Err::<u32, HiveError>(e),
            },
    {
        let bytes = ascii_bytes(name)?;
        let rel = self.alloc_cell(NK_HEADER_LEN + bytes.len())?;
        let pp = self.payload_span(parent, NK_CLASSNAME)?;
        let p = self.payload_span(rel, NK_HEADER_LEN + bytes.len())?;

        // Inherit the parent's security descriptor and timestamp: a BCD store has one
        // descriptor shared by every key, and matching the parent keeps the edit invisible to
        // anything that compares them.
        let security = self.read_u32(pp + NK_SECURITY);
        let stamp = slice_subrange(self.data.as_slice(), pp + NK_LAST_WRITTEN, pp + NK_PARENT - 4);
        let ghost d1 = self.bytes();

        let mut head: Vec<u8> = vec![0x6Eu8, 0x6B];
        let flags = u16_to_le_bytes(NK_FLAG_COMP_NAME);
        append_bytes(&mut head, flags.as_slice());
        append_bytes(&mut head, stamp);
        self.write_bytes(p, head.as_slice());

        let mut links = u32_to_le_bytes(parent);
        let zero = u32_to_le_bytes(0);
        let none = u32_to_le_bytes(u32::MAX);
        append_bytes(&mut links, zero.as_slice());
        self.write_bytes(p + NK_PARENT, links.as_slice());
        self.write_bytes(p + NK_SUBKEYS_LIST, none.as_slice());

        let mut values = u32_to_le_bytes(0);
        let sec = u32_to_le_bytes(security);
        append_bytes(&mut values, none.as_slice());
        append_bytes(&mut values, sec.as_slice());
        append_bytes(&mut values, none.as_slice());
        append_bytes(&mut values, zero.as_slice());
        self.write_bytes(p + NK_VALUES_COUNT, values.as_slice());

        let mut maxima = u32_to_le_bytes(0);
        append_bytes(&mut maxima, zero.as_slice());
        self.write_bytes(p + NK_MAX_VALUE_NAME_LEN, maxima.as_slice());

        let mut tail = u16_to_le_bytes(bytes.len() as u16);
        let class_len = u16_to_le_bytes(0);
        append_bytes(&mut tail, class_len.as_slice());
        append_bytes(&mut tail, bytes.as_slice());
        self.write_bytes(p + NK_NAME_LENGTH, tail.as_slice());
        proof {
            lemma_auto_spec_u32_to_from_le_bytes();
            lemma_auto_spec_u16_to_from_le_bytes();
            assert(stamp@ == d1.subrange(
                pp + NK_LAST_WRITTEN,
                pp + NK_LAST_WRITTEN + 8,
            ));
        }
        Ok(rel)
    }

    /// The signature and entries of a subkey list that can be edited in place.
    fn link_entries(&self, count: u32, list: u32) -> (r: Result<(u8, u8, Vec<(u32, u32)>), HiveError>)
        ensures
            match spec_link_entries(self.bytes(), count, list) {
                Ok((s0, s1, e)) => r matches Ok((a, b, v)) && a == s0 && b == s1 && v@ == e,
                Err(e) => r == Err::<(u8, u8, Vec<(u32, u32)>), HiveError>(e),
            },
            r matches Ok((a, b, v)) ==> v@.len() <= 0xFFFF,
    {
        let mut entries: Vec<(u32, u32)> = Vec::new();
        if count == 0 || list == u32::MAX {
            return Ok((0x6C, 0x66, entries));
        }
        let lp = self.payload_span(list, 2)?;
        let s0 = self.data[lp];
        let s1 = self.data[lp + 1];
        if !(s0 == 0x6C && (s1 == 0x66 || s1 == 0x68)) {
            return Err(HiveError::UnsupportedListType(s0, s1));
        }
        if self.data.len() - lp < 4 {
            return Err(HiveError::OutOfBounds);
        }
        let n = self.read_u16(lp + 2) as usize;
        if 8 * n > self.data.len() - lp - 4 {
            return Err(HiveError::OutOfBounds);
        }
        let mut i: usize = 0;
        while i < n
            invariant
                i <= n,
                n == u16_at(self.bytes(), lp + 2),
                lp == payload_of(list),
                lp + 4 + 8 * n <= self.bytes().len(),
                self.bytes().len() <= usize::MAX,
                entries@ =~= Seq::new(
                    i as nat,
                    |j: int|
                        (u32_at(self.bytes(), lp + 4 + 8 * j), u32_at(self.bytes(), lp + 8 + 8 * j)),
                ),
            decreases n - i,
        {
            entries.push((self.read_u32(lp + 4 + i * 8), self.read_u32(lp + 8 + i * 8)));
            i += 1;
        }
        Ok((s0, s1, entries))
    }

    /// Subkey list entries in name order: a stable sort on the upper-cased key names.
    fn sort_entries(&self, entries: Vec<(u32, u32)>) -> (r: Result<Vec<(u32, u32)>, HiveError>)
        ensures
            match spec_sort_entries(self.bytes(), entries@) {
                Ok(s) => r matches Ok(v) && v@ == s,
                Err(e) => r == Err::<Vec<(u32, u32)>, HiveError>(e),
            },
            r matches Ok(v) ==> v@.len() == entries@.len(),
    {
        if entries.len() < 2 {
            return Ok(entries);
        }
        let ghost keys_spec = sort_keys(self.bytes(), entries@);
        let mut keys: Vec<Vec<u32>> = Vec::new();
        let mut i: usize = 0;
        while i < entries.len()
            invariant
                i <= entries@.len(),
                entries@.len() >= 2,
                keys@.len() == i,
                keys_spec == sort_keys(self.bytes(), entries@),
                forall|j: int| 0 <= j < i ==> #[trigger] keys@[j]@ == keys_spec[j],
                forall|j: int| 0 <= j < i ==> spec_key_name(self.bytes(), #[trigger] entries@[j].0) is Ok,
            decreases entries@.len() - i,
        {
            let name = match self.key_name(entries[i].0) {
                Ok(n) => n,
                Err(e) => {
                    assert(spec_key_name(self.bytes(), entries@[i as int].0) is Err);
                    return Err(e);
                },
            };
            keys.push(upper_code_points(name.as_slice()));
            i += 1;
        }
        assert(forall|j: int| 0 <= j < entries@.len() ==> spec_key_name(self.bytes(), #[trigger] entries@[j].0) is Ok);
        // Insert each entry before the first strictly greater key, which keeps equal names in
        // their original order.
        let mut order: Vec<usize> = Vec::new();
        let mut i: usize = 0;
        while i < entries.len()
            invariant
                i <= entries@.len(),
                keys@.len() == entries@.len(),
                forall|j: int| 0 <= j < entries@.len() ==> #[trigger] keys@[j]@ == keys_spec[j],
                keys_spec.len() == entries@.len(),
                order@.len() == i,
                forall|j: int| 0 <= j < order@.len() ==> #[trigger] order@[j] < i,
                stable_sort(entries@.subrange(0, i as int), keys_spec.subrange(0, i as int)) == (
                    Seq::new(order@.len(), |j: int| entries@[order@[j] as int]),
                    Seq::new(order@.len(), |j: int| keys_spec[order@[j] as int]),
                ),
            decreases entries@.len() - i,
        {
            let ghost prev_keys = Seq::new(order@.len(), |j: int| keys_spec[order@[j] as int]);
            let mut pos: usize = 0;
            while pos < order.len() && !codes_less(keys[i].as_slice(), keys[order[pos]].as_slice())
                invariant
                    pos <= order@.len(),
                    i < entries@.len(),
                    keys@.len() == entries@.len(),
                    forall|j: int| 0 <= j < entries@.len() ==> #[trigger] keys@[j]@ == keys_spec[j],
                    forall|j: int| 0 <= j < order@.len() ==> #[trigger] order@[j] < i,
                    prev_keys == Seq::new(order@.len(), |j: int| keys_spec[order@[j] as int]),
                    insert_pos(prev_keys, keys_spec[i as int], 0) == insert_pos(
                        prev_keys,
                        keys_spec[i as int],
                        pos as int,
                    ),
                decreases order@.len() - pos,
            {
                pos += 1;
            }
            let ghost old_order = order@;
            order.insert(pos, i);
            proof {
                let e = entries@.subrange(0, i + 1);
                let k = keys_spec.subrange(0, i + 1);
                assert(e.drop_last() =~= entries@.subrange(0, i as int));
                assert(k.subrange(0, i as int) =~= keys_spec.subrange(0, i as int));
                assert(insert_pos(prev_keys, keys_spec[i as int], 0) == pos);
                assert(Seq::new(order@.len(), |j: int| entries@[order@[j] as int]) =~= Seq::new(
                    old_order.len(),
                    |j: int| entries@[old_order[j] as int],
                ).insert(pos as int, entries@[i as int]));
                assert(Seq::new(order@.len(), |j: int| keys_spec[order@[j] as int]) =~= prev_keys.insert(
                    pos as int,
                    keys_spec[i as int],
                ));
            }
            i += 1;
        }
        let mut sorted: Vec<(u32, u32)> = Vec::new();
        let mut j: usize = 0;
        while j < order.len()
            invariant
                j <= order@.len(),
                order@.len() == entries@.len(),
                forall|k: int| 0 <= k < order@.len() ==> #[trigger] order@[k] < entries@.len(),
                sorted@ =~= Seq::new(j as nat, |k: int| entries@[order@[k] as int]),
            decreases order@.len() - j,
        {
            sorted.push(entries[order[j]]);
            j += 1;
        }
        assert(entries@.subrange(0, entries@.len() as int) =~= entries@);
        assert(keys_spec.subrange(0, entries@.len() as int) =~= keys_spec);
        Ok(sorted)
    }

    /// Append a subkey to the parent's list, creating the list if absent.
    ///
    /// The list's hash type must match what is already there: an `lh` list stores a rolling
    /// hash of the name and an `lf` list stores its first four characters, and a lookup that
    /// disagrees with the stored hash will not find the key.
    fn link_subkey(&mut self, parent: u32, key: u32, name: &[u8]) -> (r: Result<(), HiveError>)
        requires
            old(self).wf(),
        ensures
            final(self).wf(),
            final(self).bytes().len() == old(self).bytes().len(),
            match spec_link_subkey(old(self).bytes(), parent, key, name@) {
                Ok(d) => r is Ok && final(self).bytes() == d,
                Err(e) => r == Err::<(), HiveError>(e),
            },
    {
        let pp = self.payload_span(parent, NK_SUBKEYS_LIST + 4)?;
        let count = self.read_u32(pp + NK_SUBKEY_COUNT);
        let list = self.read_u32(pp + NK_SUBKEYS_LIST);
        let (s0, s1, mut entries) = self.link_entries(count, list)?;
        let hash = if s1 == 0x68 {
            lh_hash_bytes(name)
        } else {
            lf_hash_bytes(name)
        };
        entries.push((key, hash));

        // Keys are kept in name order; Windows binary-searches the list.
        let merged = self.sort_entries(entries)?;
        let n = merged.len();
        let new_list = self.alloc_cell(4 + 8 * n)?;
        let lp = self.payload_span(new_list, 4 + 8 * n)?;
        if self.data.len() - pp < NK_MAX_SUBKEY_NAME_LEN + 4 {
            return Err(HiveError::OutOfBounds);
        }
        let body = list_bytes(s0, s1, merged.as_slice());
        self.write_bytes(lp, body.as_slice());
        self.write_u32(pp + NK_SUBKEY_COUNT, n as u32);
        self.write_u32(pp + NK_SUBKEYS_LIST, new_list);
        let max_name = self.read_u32(pp + NK_MAX_SUBKEY_NAME_LEN);
        if (name.len() as u32) > max_name {
            self.write_u32(pp + NK_MAX_SUBKEY_NAME_LEN, name.len() as u32);
        }
        Ok(())
    }

    /// Set a binary value on a key, replacing any existing value of that name.
    pub fn set_binary_value(&mut self, key: u32, name: &str, data: &[u8]) -> (r: Result<
        (),
        HiveError,
    >)
        requires
            old(self).wf(),
            name.spec_bytes().len() <= isize::MAX,
            data@.len() <= isize::MAX,
        ensures
            final(self).wf(),
            final(self).bytes().len() == old(self).bytes().len(),
            match spec_set_binary_value(old(self).bytes(), key, name@, data@) {
                Ok(d) => r is Ok && final(self).bytes() == d,
                Err(e) => r == Err::<(), HiveError>(e),
            },
    {
        let chars = chars_of(name);
        let bytes = name.as_bytes();
        let existing = self.find_value(key, chars.as_slice())?;
        let data_cell = self.alloc_cell(data.len())?;
        let dp = self.payload_span(data_cell, data.len())?;
        self.write_bytes(dp, data);

        let value = match existing {
            Some(v) => v,
            None => {
                let v = self.alloc_cell(VK_HEADER_LEN + bytes.len())?;
                self.append_value(key, v)?;
                v
            },
        };

        let vp = self.payload_span(value, VK_HEADER_LEN + bytes.len())?;
        let kp = self.payload_span(key, NK_MAX_VALUE_DATA_SIZE + 4)?;
        let mut header: Vec<u8> = vec![0x76u8, 0x6B];
        let name_len = u16_to_le_bytes(bytes.len() as u16);
        let data_len = u32_to_le_bytes(data.len() as u32);
        let cell = u32_to_le_bytes(data_cell);
        let kind = u32_to_le_bytes(REG_BINARY);
        let flags = u16_to_le_bytes(VK_FLAG_COMP_NAME);
        append_bytes(&mut header, name_len.as_slice());
        append_bytes(&mut header, data_len.as_slice());
        append_bytes(&mut header, cell.as_slice());
        append_bytes(&mut header, kind.as_slice());
        append_bytes(&mut header, flags.as_slice());
        proof {
            lemma_auto_spec_u32_to_from_le_bytes();
            lemma_auto_spec_u16_to_from_le_bytes();
            assert(header@ =~= vk_header(bytes@.len() as u16, data@.len() as u32, data_cell));
        }
        self.write_bytes(vp, header.as_slice());
        self.write_bytes(vp + VK_HEADER_LEN, bytes);

        let max_name = self.read_u32(kp + NK_MAX_VALUE_NAME_LEN);
        if (bytes.len() as u32) > max_name {
            self.write_u32(kp + NK_MAX_VALUE_NAME_LEN, bytes.len() as u32);
        }
        let max_data = self.read_u32(kp + NK_MAX_VALUE_DATA_SIZE);
        if (data.len() as u32) > max_data {
            self.write_u32(kp + NK_MAX_VALUE_DATA_SIZE, data.len() as u32);
        }
        Ok(())
    }

    fn ensure_subkey_chars(&mut self, parent: u32, name: &[char]) -> (r: Result<u32, HiveError>)
        requires
            old(self).wf(),
            name@.len() <= isize::MAX,
        ensures
            final(self).wf(),
            final(self).bytes().len() == old(self).bytes().len(),
            match spec_ensure_subkey(old(self).bytes(), parent, name@) {
                Ok((d, k)) => r == Ok::<u32, HiveError>(k) && final(self).bytes() == d,
                Err(e) => r == Err::<u32, HiveError>(e),
            },
    {
        if let Some(existing) = self.lookup(parent, name)? {
            return Ok(existing);
        }
        let key = self.create_key_record(parent, name)?;
        let bytes = ascii_bytes(name)?;
        self.link_subkey(parent, key, bytes.as_slice())?;
        Ok(key)
    }

    /// Get or create a direct subkey, returning its cell offset.
    pub fn ensure_subkey(&mut self, parent: u32, name: &str) -> (r: Result<u32, HiveError>)
        requires
            old(self).wf(),
            name.spec_bytes().len() <= isize::MAX,
        ensures
            final(self).wf(),
            final(self).bytes().len() == old(self).bytes().len(),
            match spec_ensure_subkey(old(self).bytes(), parent, name@) {
                Ok((d, k)) => r == Ok::<u32, HiveError>(k) && final(self).bytes() == d,
                Err(e) => r == Err::<u32, HiveError>(e),
            },
    {
        proof {
            lemma_utf8_len(name@);
        }
        let chars = chars_of(name);
        self.ensure_subkey_chars(parent, chars.as_slice())
    }

    /// Walk a backslash-separated path from the root, creating nothing.
    pub fn open_path(&self, path: &str) -> (r: Option<u32>)
        requires
            self.wf(),
            spec_walk(
                self.bytes(),
                u32_at(self.bytes(), BASE_ROOT_CELL as int),
                path_segments(path@),
                0,
            ) is Ok,
        ensures
            Ok::<Option<u32>, HiveError>(r) == spec_walk(
                self.bytes(),
                u32_at(self.bytes(), BASE_ROOT_CELL as int),
                path_segments(path@),
                0,
            ),
    {
        let segs = split_path(path);
        let ghost all = path_segments(path@);
        let ghost root = u32_at(self.bytes(), BASE_ROOT_CELL as int);
        let mut cur = self.root_cell();
        let mut i: usize = 0;
        while i < segs.len()
            invariant
                i <= segs@.len(),
                segs@.len() == all.len(),
                forall|j: int| 0 <= j < segs@.len() ==> #[trigger] segs@[j]@ == all[j],
                spec_walk(self.bytes(), root, all, 0) == spec_walk(self.bytes(), cur, all, i as int),
                spec_walk(self.bytes(), root, all, 0) is Ok,
                all == path_segments(path@),
                root == u32_at(self.bytes(), BASE_ROOT_CELL as int),
            decreases segs@.len() - i,
        {
            match self.lookup(cur, segs[i].as_slice()) {
                Ok(Some(k)) => {
                    cur = k;
                },
                Ok(None) => {
                    return None;
                },
                Err(_) => {
                    assert(spec_walk(self.bytes(), cur, all, i as int) is Err);
                    return None;
                },
            }
            i += 1;
        }
        Some(cur)
    }

    /// Walk a backslash-separated path from the root, creating missing keys.
    pub fn ensure_path(&mut self, path: &str) -> (r: Result<u32, PathError>)
        requires
            old(self).wf(),
            path.spec_bytes().len() <= isize::MAX,
        ensures
            final(self).wf(),
            final(self).bytes().len() == old(self).bytes().len(),
            match spec_ensure_walk(
                old(self).bytes(),
                u32_at(old(self).bytes(), BASE_ROOT_CELL as int),
                path_segments(path@),
                0,
            ) {
                Ok((d, k)) => r == Ok::<u32, PathError>(k) && final(self).bytes() == d,
                Err(_) => r is Err,
            },
            spec_ensure_walk(
                old(self).bytes(),
                u32_at(old(self).bytes(), BASE_ROOT_CELL as int),
                path_segments(path@),
                0,
            ) is Err ==> path_error_is(
                r,
                path@,
                spec_ensure_walk(
                    old(self).bytes(),
                    u32_at(old(self).bytes(), BASE_ROOT_CELL as int),
                    path_segments(path@),
                    0,
                )->Err_0,
            ),
    {
        proof {
            lemma_utf8_len(path@);
        }
        let segs = split_path(path);
        let ghost all = path_segments(path@);
        let ghost start = old(self).bytes();
        let ghost root = u32_at(self.bytes(), BASE_ROOT_CELL as int);
        let mut cur = self.root_cell();
        let mut i: usize = 0;
        while i < segs.len()
            invariant
                i <= segs@.len(),
                segs@.len() == all.len(),
                forall|j: int| 0 <= j < segs@.len() ==> #[trigger] segs@[j]@ == all[j],
                forall|j: int| 0 <= j < segs@.len() ==> #[trigger] segs@[j]@.len() <= isize::MAX,
                self.wf(),
                self.bytes().len() == start.len(),
                start == old(self).bytes(),
                all == path_segments(path@),
                root == u32_at(start, BASE_ROOT_CELL as int),
                spec_ensure_walk(start, root, all, 0) == spec_ensure_walk(
                    self.bytes(),
                    cur,
                    all,
                    i as int,
                ),
            decreases segs@.len() - i,
        {
            let ghost before = self.bytes();
            let next = self.ensure_subkey_chars(cur, segs[i].as_slice());
            proof {
                assert(segs@[i as int]@ == all[i as int]);
                assert(spec_ensure_walk(before, cur, all, i as int) == match spec_ensure_subkey(
                    before,
                    cur,
                    all[i as int],
                ) {
                    Err(e) => Err((i as int, e)),
                    Ok((d1, k)) => spec_ensure_walk(d1, k, all, i + 1),
                });
            }
            match next {
                Ok(k) => {
                    cur = k;
                },
                Err(e) => {
                    let segment = segs[i].clone();
                    assert(segment@ =~= segs@[i as int]@);
                    return Err(PathError { segment, full_path: chars_of(path), cause: e });
                },
            }
            i += 1;
        }
        Ok(cur)
    }

    /// The name of the key at cell `key`.
    fn key_name(&self, key: u32) -> (r: Result<Vec<char>, HiveError>)
        ensures
            match spec_key_name(self.bytes(), key) {
                Ok(n) => r matches Ok(v) && v@ == n,
                Err(e) => r == Err::<Vec<char>, HiveError>(e),
            },
    {
        let p = self.payload_span(key, NK_HEADER_LEN)?;
        let len = self.read_u16(p + NK_NAME_LENGTH) as usize;
        let flags = self.read_u16(p + NK_FLAGS);
        if len > self.data.len() - (p + NK_HEADER_LEN) {
            return Err(HiveError::OutOfBounds);
        }
        let start = p + NK_HEADER_LEN;
        let bytes = slice_subrange(self.data.as_slice(), start, start + len);
        if flags & NK_FLAG_COMP_NAME != 0 {
            Ok(latin1_chars(bytes))
        } else {
            let s = utf16_string(bytes);
            Ok(chars_of(s.as_str()))
        }
    }

    /// The offsets held by the list cell `list`.
    fn list_entries(&self, list: u32) -> (r: Result<Vec<u32>, HiveError>)
        ensures
            match spec_list_entries(self.bytes(), list) {
                Ok(e) => r matches Ok(v) && v@ == e,
                Err(e) => r == Err::<Vec<u32>, HiveError>(e),
            },
    {
        let lp = self.payload_span(list, 4)?;
        let n = self.read_u16(lp + 2) as usize;
        let s0 = self.data[lp];
        let s1 = self.data[lp + 1];
        let mut out: Vec<u32> = Vec::new();
        if s0 == 0x6C && (s1 == 0x66 || s1 == 0x68) {
            if n > 0 && 8 * n > self.data.len() - lp {
                return Err(HiveError::OutOfBounds);
            }
            let mut i: usize = 0;
            while i < n
                invariant
                    i <= n,
                    n == u16_at(self.bytes(), lp + 2),
                    lp == payload_of(list),
                    n > 0 ==> lp + 8 * n <= self.bytes().len(),
                    self.bytes().len() <= usize::MAX,
                    out@ =~= Seq::new(i as nat, |j: int| u32_at(self.bytes(), lp + 4 + 8 * j)),
                decreases n - i,
            {
                out.push(self.read_u32(lp + 4 + i * 8));
                i += 1;
            }
        } else if s0 == 0x6C && s1 == 0x69 {
            if 4 * n > self.data.len() - lp - 4 {
                return Err(HiveError::OutOfBounds);
            }
            let mut i: usize = 0;
            while i < n
                invariant
                    i <= n,
                    n == u16_at(self.bytes(), lp + 2),
                    lp == payload_of(list),
                    lp + 4 + 4 * n <= self.bytes().len(),
                    self.bytes().len() <= usize::MAX,
                    out@ =~= Seq::new(i as nat, |j: int| u32_at(self.bytes(), lp + 4 + 4 * j)),
                decreases n - i,
            {
                out.push(self.read_u32(lp + 4 + i * 4));
                i += 1;
            }
        }
        Ok(out)
    }

    /// The cell offsets of `parent`'s direct subkeys, in list order.
    fn subkey_offsets(&self, parent: u32) -> (r: Result<Vec<u32>, HiveError>)
        ensures
            match spec_subkey_offsets(self.bytes(), parent) {
                Ok(e) => r matches Ok(v) && v@ == e,
                Err(e) => r == Err::<Vec<u32>, HiveError>(e),
            },
    {
        let p = self.payload_span(parent, NK_SUBKEYS_LIST + 4)?;
        let count = self.read_u32(p + NK_SUBKEY_COUNT);
        let list = self.read_u32(p + NK_SUBKEYS_LIST);
        if count == 0 || list == u32::MAX {
            return Ok(Vec::new());
        }
        let lp = self.payload_span(list, 4)?;
        if self.data[lp] == 0x72 && self.data[lp + 1] == 0x69 {
            let n = self.read_u16(lp + 2) as usize;
            if 4 * n > self.data.len() - lp - 4 {
                return Err(HiveError::OutOfBounds);
            }
            let mut out: Vec<u32> = Vec::new();
            let mut i: usize = 0;
            while i < n
                invariant
                    i <= n,
                    lp + 4 + 4 * n <= self.bytes().len(),
                    self.bytes().len() <= usize::MAX,
                    n == u16_at(self.bytes(), lp + 2),
                    spec_subkey_offsets(self.bytes(), parent) == spec_ri_entries(
                        self.bytes(),
                        lp as int,
                        n as int,
                    ),
                    spec_ri_entries(self.bytes(), lp as int, i as int) == Ok::<Seq<u32>, HiveError>(out@),
                decreases n - i,
            {
                let sub = self.read_u32(lp + 4 + i * 4);
                let more = match self.list_entries(sub) {
                    Ok(m) => m,
                    Err(e) => {
                        proof {
                            lemma_ri_error_sticks(self.bytes(), lp as int, i + 1, n as int);
                        }
                        return Err(e);
                    },
                };
                let mut k: usize = 0;
                let ghost before = out@;
                while k < more.len()
                    invariant
                        k <= more@.len(),
                        out@ == before + more@.subrange(0, k as int),
                    decreases more@.len() - k,
                {
                    out.push(more[k]);
                    k += 1;
                    assert(out@ =~= before + more@.subrange(0, k as int));
                }
                assert(more@.subrange(0, more@.len() as int) =~= more@);
                i += 1;
            }
            Ok(out)
        } else {
            self.list_entries(list)
        }
    }

    /// The first direct subkey of `parent` named `name`, ignoring ASCII case.
    fn lookup(&self, parent: u32, name: &[char]) -> (r: Result<Option<u32>, HiveError>)
        ensures
            r == spec_lookup(self.bytes(), parent, name@),
    {
        let kids = self.subkey_offsets(parent)?;
        let mut i: usize = 0;
        while i < kids.len()
            invariant
                i <= kids@.len(),
                spec_subkey_offsets(self.bytes(), parent) == Ok::<Seq<u32>, HiveError>(kids@),
                spec_first_match(self.bytes(), kids@, name@, 0) == spec_first_match(
                    self.bytes(),
                    kids@,
                    name@,
                    i as int,
                ),
            decreases kids@.len() - i,
        {
            let n = self.key_name(kids[i])?;
            if names_match(n.as_slice(), name) {
                return Ok(Some(kids[i]));
            }
            i += 1;
        }
        Ok(None)
    }

    /// Find a direct subkey by name, case-insensitively.
    pub fn find_subkey(&self, parent: u32, name: &str) -> (r: Option<u32>)
        requires
            spec_lookup(self.bytes(), parent, name@) is Ok,
        ensures
            Ok::<Option<u32>, HiveError>(r) == spec_lookup(self.bytes(), parent, name@),
    {
        let chars = chars_of(name);
        match self.lookup(parent, chars.as_slice()) {
            Ok(x) => x,
            Err(_) => None,
        }
    }

}


/// Each byte as the character with that code point.
fn latin1_chars(bytes: &[u8]) -> (out: Vec<char>)
    ensures
        out@ == latin1(bytes@),
{
    let mut out: Vec<char> = Vec::new();
    let mut i: usize = 0;
    while i < bytes.len()
        invariant
            i <= bytes@.len(),
            out@ == latin1(bytes@).subrange(0, i as int),
        decreases bytes@.len() - i,
    {
        out.push(bytes[i] as char);
        i += 1;
        assert(out@ =~= latin1(bytes@).subrange(0, i as int));
    }
    assert(out@ =~= latin1(bytes@));
    out
}

/// `out` with `src` appended.
fn append_bytes(out: &mut Vec<u8>, src: &[u8])
    ensures
        final(out)@ == old(out)@ + src@,
{
    let mut i: usize = 0;
    while i < src.len()
        invariant
            i <= src@.len(),
            out@ == old(out)@ + src@.subrange(0, i as int),
        decreases src@.len() - i,
    {
        out.push(src[i]);
        i += 1;
        assert(out@ =~= old(out)@ + src@.subrange(0, i as int));
    }
    assert(src@.subrange(0, src@.len() as int) =~= src@);
}

/// The words of `words` in little-endian order, one after the other.
fn le_words(words: &[u32]) -> (out: Vec<u8>)
    ensures
        out@ == le32_words(words@),
        out@.len() == 4 * words@.len(),
{
    let mut out: Vec<u8> = Vec::new();
    let mut i: usize = 0;
    while i < words.len()
        invariant
            i <= words@.len(),
            out@ == le32_words(words@.subrange(0, i as int)),
            out@.len() == 4 * i,
        decreases words@.len() - i,
    {
        let b = u32_to_le_bytes(words[i]);
        append_bytes(&mut out, b.as_slice());
        assert(words@.subrange(0, i + 1).drop_last() =~= words@.subrange(0, i as int));
        i += 1;
    }
    assert(words@.subrange(0, words@.len() as int) =~= words@);
    out
}

/// The bytes of an ASCII name, one per character.
fn ascii_bytes(name: &[char]) -> (r: Result<Vec<u8>, HiveError>)
    ensures
        !ascii_name(name@) ==> r == Err::<Vec<u8>, HiveError>(HiveError::NonAsciiName),
        ascii_name(name@) ==> (r matches Ok(b) && b@ == encode_utf8(name@) && b@.len()
            == name@.len()),
{
    let mut out: Vec<u8> = Vec::new();
    let mut i: usize = 0;
    while i < name.len()
        invariant
            i <= name@.len(),
            out@.len() == i,
            forall|j: int| 0 <= j < i ==> (#[trigger] name@[j] as u32) < 0x80,
            forall|j: int| 0 <= j < i ==> #[trigger] out@[j] == (name@[j] as u32) as u8,
        decreases name@.len() - i,
    {
        let c = name[i] as u32;
        if c >= 0x80 {
            return Err(HiveError::NonAsciiName);
        }
        out.push(c as u8);
        i += 1;
    }
    proof {
        lemma_ascii_encoding(name@);
        assert(out@ =~= encode_utf8(name@));
    }
    Ok(out)
}

/// The code points of `s`, ASCII letters upper-cased.
fn upper_code_points(s: &[char]) -> (out: Vec<u32>)
    ensures
        out@ == upper_codes(s@),
{
    let mut out: Vec<u32> = Vec::new();
    let mut i: usize = 0;
    while i < s.len()
        invariant
            i <= s@.len(),
            out@ == upper_codes(s@).subrange(0, i as int),
        decreases s@.len() - i,
    {
        let c = s[i] as u32;
        out.push(if c >= 0x61 && c <= 0x7A {
            c - 32
        } else {
            c
        });
        i += 1;
        assert(out@ =~= upper_codes(s@).subrange(0, i as int));
    }
    assert(out@ =~= upper_codes(s@));
    out
}

/// `a` sorts strictly before `b`.
fn codes_less(a: &[u32], b: &[u32]) -> (r: bool)
    ensures
        r == codes_lt(a@, b@),
{
    let mut i: usize = 0;
    assert(a@.subrange(0, a@.len() as int) =~= a@);
    assert(b@.subrange(0, b@.len() as int) =~= b@);
    while i < a.len() && i < b.len() && a[i] == b[i]
        invariant
            i <= a@.len(),
            i <= b@.len(),
            codes_lt(a@, b@) == codes_lt(
                a@.subrange(i as int, a@.len() as int),
                b@.subrange(i as int, b@.len() as int),
            ),
        decreases a@.len() - i,
    {
        assert(a@.subrange(i as int, a@.len() as int).drop_first() =~= a@.subrange(
            i + 1,
            a@.len() as int,
        ));
        assert(b@.subrange(i as int, b@.len() as int).drop_first() =~= b@.subrange(
            i + 1,
            b@.len() as int,
        ));
        i += 1;
    }
    if i >= b.len() {
        false
    } else if i >= a.len() {
        true
    } else {
        a[i] < b[i]
    }
}

/// The stored form of an `lf`/`lh` list: signature, entry count, then the entries.
fn list_bytes(s0: u8, s1: u8, entries: &[(u32, u32)]) -> (out: Vec<u8>)
    ensures
        out@ == seq![s0, s1] + spec_u16_to_le_bytes(entries@.len() as u16) + le32_pairs(entries@),
        out@.len() == 4 + 8 * entries@.len(),
{
    let mut out: Vec<u8> = vec![s0, s1];
    let count = u16_to_le_bytes(entries.len() as u16);
    append_bytes(&mut out, count.as_slice());
    let ghost head = out@;
    let mut i: usize = 0;
    while i < entries.len()
        invariant
            i <= entries@.len(),
            head.len() == 4,
            out@ == head + le32_pairs(entries@.subrange(0, i as int)),
            out@.len() == 4 + 8 * i,
        decreases entries@.len() - i,
    {
        let (off, h) = entries[i];
        let a = u32_to_le_bytes(off);
        let b = u32_to_le_bytes(h);
        append_bytes(&mut out, a.as_slice());
        append_bytes(&mut out, b.as_slice());
        assert(entries@.subrange(0, i + 1).drop_last() =~= entries@.subrange(0, i as int));
        i += 1;
        assert(out@ =~= head + le32_pairs(entries@.subrange(0, i as int)));
    }
    assert(entries@.subrange(0, entries@.len() as int) =~= entries@);
    out
}

/// The non-empty components of a backslash-separated path, in order.
fn split_path(path: &str) -> (r: Vec<Vec<char>>)
    ensures
        r@.len() == path_segments(path@).len(),
        forall|i: int| 0 <= i < r@.len() ==> #[trigger] r@[i]@ == path_segments(path@)[i],
        forall|i: int| 0 <= i < r@.len() ==> #[trigger] r@[i]@.len() <= path@.len(),
{
    let chars = chars_of(path);
    let mut out: Vec<Vec<char>> = Vec::new();
    let mut cur: Vec<char> = Vec::new();
    let mut i: usize = 0;
    while i < chars.len()
        invariant
            i <= chars@.len(),
            chars@ == path@,
            cur@.len() <= i,
            forall|j: int| 0 <= j < out@.len() ==> #[trigger] out@[j]@.len() <= chars@.len(),
            path_segments(chars@) == Seq::new(out@.len(), |j: int| out@[j]@) + segments_from(
                chars@,
                i as int,
                cur@,
            ),
        decreases chars@.len() - i,
    {
        let ghost done = Seq::new(out@.len(), |j: int| out@[j]@);
        if chars[i] == '\\' {
            if cur.len() > 0 {
                let ghost piece = cur@;
                out.push(cur);
                assert(Seq::new(out@.len(), |j: int| out@[j]@) =~= done + seq![piece]);
            }
            cur = Vec::new();
        } else {
            cur.push(chars[i]);
        }
        i += 1;
    }
    let ghost done = Seq::new(out@.len(), |j: int| out@[j]@);
    if cur.len() > 0 {
        let ghost piece = cur@;
        out.push(cur);
        assert(Seq::new(out@.len(), |j: int| out@[j]@) =~= done + seq![piece]);
    }
    assert(path_segments(path@) =~= Seq::new(out@.len(), |j: int| out@[j]@));
    out
}

} // verus!
