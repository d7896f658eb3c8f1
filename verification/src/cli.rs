//! Pure decisions of the machine runner: key injection, process-name and thread filters,
//! handle-table repair, hex parsing, byte search, and reads of guest memory through the
//! guest's own page tables.

use vstd::prelude::*;
use vstd::bytes::*;
use vstd::slice::slice_subrange;

use crate::text::{chars_of, eq_ignore_ascii_case, names_match};

verus! {

/// The classic INT 16h word (scan code in AH, ASCII in AL) of a browser key code, for the
/// bring-up keys the runner can inject.
pub open spec fn bios_key(code: Seq<char>) -> Option<u16> {
    if code == seq!['E', 'n', 't', 'e', 'r'] {
        Some(0x1c0d)
    } else if code == seq!['S', 'p', 'a', 'c', 'e'] {
        Some(0x3920)
    } else if code == seq!['E', 's', 'c', 'a', 'p', 'e'] {
        Some(0x011b)
    } else if code == seq!['T', 'a', 'b'] {
        Some(0x0f09)
    } else {
        None
    }
}

/// `a` and `b` hold the same characters.
pub fn chars_equal(a: &[char], b: &[char]) -> (r: bool)
    ensures
        r == (a@ == b@),
{
    if a.len() != b.len() {
        return false;
    }
    let mut i: usize = 0;
    while i < a.len()
        invariant
            a@.len() == b@.len(),
            i <= a@.len(),
            forall|j: int| 0 <= j < i ==> a@[j] == b@[j],
        decreases a@.len() - i,
    {
        if a[i] != b[i] {
            return false;
        }
        i += 1;
    }
    assert(a@ =~= b@);
    true
}

/// Map a browser `KeyboardEvent.code` to its INT 16h word.
pub fn browser_code_to_bios_key(code: &str) -> (r: Option<u16>)
    ensures
        r == bios_key(code@),
{
    let c = chars_of(code);
    let enter: [char; 5] = ['E', 'n', 't', 'e', 'r'];
    let space: [char; 5] = ['S', 'p', 'a', 'c', 'e'];
    let escape: [char; 6] = ['E', 's', 'c', 'a', 'p', 'e'];
    let tab: [char; 3] = ['T', 'a', 'b'];
    assert(enter@ =~= seq!['E', 'n', 't', 'e', 'r']);
    assert(space@ =~= seq!['S', 'p', 'a', 'c', 'e']);
    assert(escape@ =~= seq!['E', 's', 'c', 'a', 'p', 'e']);
    assert(tab@ =~= seq!['T', 'a', 'b']);
    if chars_equal(c.as_slice(), enter.as_slice()) {
        Some(0x1c0d)
    } else if chars_equal(c.as_slice(), space.as_slice()) {
        Some(0x3920)
    } else if chars_equal(c.as_slice(), escape.as_slice()) {
        Some(0x011b)
    } else if chars_equal(c.as_slice(), tab.as_slice()) {
        Some(0x0f09)
    } else {
        None
    }
}

/// Periodic re-injection is for a live Setup dialog; an injection asked for once is not
/// repeated on every slice.
pub fn inject_key_repeats_each_slice(once: bool) -> (r: bool)
    ensures
        r == !once,
{
    !once
}

/// The pieces of `s` between occurrences of `sep`, from position `i` on, `cur` being the piece
/// read so far; empty pieces included.
pub open spec fn pieces_from(s: Seq<char>, sep: char, i: int, cur: Seq<char>) -> Seq<Seq<char>>
    decreases s.len() - i,
{
    if i >= s.len() {
        seq![cur]
    } else if s[i] == sep {
        seq![cur] + pieces_from(s, sep, i + 1, Seq::empty())
    } else {
        pieces_from(s, sep, i + 1, cur.push(s[i]))
    }
}

/// The pieces of `s` between occurrences of `sep` (what `str::split` yields), empty ones
/// included.
pub open spec fn pieces(s: Seq<char>, sep: char) -> Seq<Seq<char>> {
    pieces_from(s, sep, 0, Seq::empty())
}

/// Splitting from position `i` with `cur` read so far yields at least one piece.
pub proof fn lemma_pieces_from_nonempty(s: Seq<char>, sep: char, i: int, cur: Seq<char>)
    ensures
        pieces_from(s, sep, i, cur).len() >= 1,
    decreases s.len() - i,
{
    if i < s.len() {
        if s[i] == sep {
            lemma_pieces_from_nonempty(s, sep, i + 1, Seq::empty());
        } else {
            lemma_pieces_from_nonempty(s, sep, i + 1, cur.push(s[i]));
        }
    }
}

/// Splitting yields at least one piece.
pub proof fn lemma_pieces_nonempty(s: Seq<char>, sep: char)
    ensures
        pieces(s, sep).len() >= 1,
{
    lemma_pieces_from_nonempty(s, sep, 0, Seq::empty());
}

/// The comma-separated pieces of `s`, empty ones included.
pub open spec fn comma_pieces(s: Seq<char>) -> Seq<Seq<char>> {
    pieces(s, ',')
}

/// Split `s` at every `sep`.
pub fn split_on(s: &[char], sep: char) -> (r: Vec<Vec<char>>)
    ensures
        r@.len() == pieces(s@, sep).len(),
        forall|k: int| 0 <= k < r@.len() ==> #[trigger] r@[k]@ == pieces(s@, sep)[k],
{
    let mut out: Vec<Vec<char>> = Vec::new();
    let mut cur: Vec<char> = Vec::new();
    let mut i: usize = 0;
    while i < s.len()
        invariant
            i <= s@.len(),
            pieces(s@, sep) == Seq::new(out@.len(), |k: int| out@[k]@) + pieces_from(
                s@,
                sep,
                i as int,
                cur@,
            ),
        decreases s@.len() - i,
    {
        if s[i] == sep {
            let ghost done = Seq::new(out@.len(), |k: int| out@[k]@);
            let ghost piece = cur@;
            out.push(cur);
            assert(Seq::new(out@.len(), |k: int| out@[k]@) =~= done + seq![piece]);
            cur = Vec::new();
        } else {
            cur.push(s[i]);
        }
        i += 1;
    }
    let ghost done = Seq::new(out@.len(), |k: int| out@[k]@);
    let ghost piece = cur@;
    out.push(cur);
    assert(Seq::new(out@.len(), |k: int| out@[k]@) =~= done + seq![piece]);
    assert(pieces(s@, sep) =~= Seq::new(out@.len(), |k: int| out@[k]@));
    out
}

/// A thread filter selects an image: `*` selects all, otherwise one of its comma-separated
/// names matches ignoring ASCII case.
pub open spec fn filter_selects(filter: Seq<char>, image: Seq<char>) -> bool {
    ||| filter == seq!['*']
    ||| exists|k: int|
        0 <= k < comma_pieces(filter).len() && eq_ignore_ascii_case(
            #[trigger] comma_pieces(filter)[k],
            image,
        )
}

/// `AERO_DUMP_THREADS=*`, a single name, or a comma list.
pub fn thread_filter_matches(filter: &str, image_name: &str) -> (r: bool)
    ensures
        r == filter_selects(filter@, image_name@),
{
    let f = chars_of(filter);
    let image = chars_of(image_name);
    filter_matches_chars(f.as_slice(), image.as_slice())
}

/// `thread_filter_matches` on runs of characters.
pub fn filter_matches_chars(f: &[char], image: &[char]) -> (r: bool)
    ensures
        r == filter_selects(f@, image@),
{
    let star: [char; 1] = ['*'];
    assert(star@ =~= seq!['*']);
    if chars_equal(f, star.as_slice()) {
        return true;
    }
    let ghost pieces = comma_pieces(f@);
    let ghost mut done: Seq<Seq<char>> = Seq::empty();
    let mut cur: Vec<char> = Vec::new();
    let mut i: usize = 0;
    while i < f.len()
        invariant
            i <= f@.len(),
            pieces == comma_pieces(f@),
            pieces == done + pieces_from(f@, ',', i as int, cur@),
            forall|k: int| 0 <= k < done.len() ==> !eq_ignore_ascii_case(#[trigger] done[k], image@),
        decreases f@.len() - i,
    {
        if f[i] == ',' {
            if names_match(cur.as_slice(), image) {
                assert(pieces[done.len() as int] == cur@);
                return true;
            }
            proof {
                done = done.push(cur@);
            }
            cur = Vec::new();
        } else {
            cur.push(f[i]);
        }
        i += 1;
    }
    if names_match(cur.as_slice(), image) {
        assert(pieces[done.len() as int] == cur@);
        return true;
    }
    assert forall|k: int| 0 <= k < pieces.len() implies !eq_ignore_ascii_case(
        #[trigger] pieces[k],
        image@,
    ) by {
        if k == done.len() {
            assert(pieces[k] == cur@);
        }
    }
    false
}

/// An object field of a type-5 (HOOK) handle-table entry that would livelock the window
/// manager's Find walk: a null object (attribute bits masked), an unreadable `HEAD.h`, or a
/// null one.
pub open spec fn hook_entry_is_bad(obj_raw: u64, head_h: Option<u64>) -> bool {
    ||| obj_raw & !7u64 == 0
    ||| head_h is None
    ||| head_h == Some(0u64)
}

/// Whether a type-5 (HOOK) handle-table entry should be freed to break the Find(0) restart
/// livelock. `obj_raw` is the 8-byte object field (its low 3 bits may be attributes) and
/// `head_h` the pointed-to object's `HEAD.h`, or `None` if unreadable.
pub fn type5_hook_entry_is_bad(obj_raw: u64, head_h: Option<u64>) -> (r: bool)
    ensures
        r == hook_entry_is_bad(obj_raw, head_h),
{
    let obj = obj_raw & !0x7u64;
    if obj == 0 {
        return true;
    }
    match head_h {
        None => true,
        Some(0) => true,
        Some(_) => false,
    }
}

/// An ASCII letter.
pub open spec fn is_alpha(b: u8) -> bool {
    (0x41 <= b <= 0x5A) || (0x61 <= b <= 0x7A)
}

/// An ASCII digit.
pub open spec fn is_digit(b: u8) -> bool {
    0x30 <= b <= 0x39
}

/// A printable ASCII character other than space.
pub open spec fn is_graphic(b: u8) -> bool {
    0x21 <= b <= 0x7E
}

/// ASCII lower-casing of one byte.
pub open spec fn lower_byte(b: u8) -> u8 {
    if 0x41 <= b <= 0x5A {
        (b + 32) as u8
    } else {
        b
    }
}

/// `s` with ASCII letters lower-cased.
pub open spec fn lower_bytes(s: Seq<u8>) -> Seq<u8> {
    Seq::new(s.len(), |i: int| lower_byte(s[i]))
}

/// Index of the first NUL byte of `s` at or after `i`, or the length of `s`.
pub open spec fn first_nul_from(s: Seq<u8>, i: int) -> int
    decreases s.len() - i,
{
    if i >= s.len() {
        s.len() as int
    } else if s[i] == 0 {
        i
    } else {
        first_nul_from(s, i + 1)
    }
}

/// Index of the last `.` of `s` before position `i`, or -1.
pub open spec fn last_dot_before(s: Seq<u8>, i: int) -> int
    decreases i,
{
    if i <= 0 {
        -1
    } else if s[i - 1] == 0x2E {
        i - 1
    } else {
        last_dot_before(s, i - 1)
    }
}

/// Characters that never occur in an image name but fill path and package strings.
pub open spec fn is_separator_like(b: u8) -> bool {
    b == 0x5C || b == 0x2F || b == 0x7C || b == 0x7E || b == 0x20 || b == 0x23 || b == 0x7B
        || b == 0x7D || b == 0x2B || b == 0x28 || b == 0x29 || b == 0x5B || b == 0x5D || b
        == 0x2C || b == 0x3A || b == 0x2A || b == 0x3F
}

/// A byte allowed in the stem of an image name.
pub open spec fn is_stem_byte(b: u8) -> bool {
    is_alpha(b) || is_digit(b) || b == 0x5F || b == 0x2D
}

/// `e` is a prefix of `x`.
pub open spec fn is_prefix(e: Seq<u8>, x: Seq<u8>) -> bool {
    e.len() <= x.len() && x.subrange(0, e.len() as int) == e
}

/// `.exe`, `.com`, `.scr` (lower case, without the dot).
pub open spec fn ext_exe() -> Seq<u8> {
    seq![0x65u8, 0x78, 0x65]
}

pub open spec fn ext_com() -> Seq<u8> {
    seq![0x63u8, 0x6F, 0x6D]
}

pub open spec fn ext_scr() -> Seq<u8> {
    seq![0x73u8, 0x63, 0x72]
}

/// The name in an image-name field is plausible as a Win32 image: a single `stem.ext` with an
/// executable extension, or a 15-byte truncation of one with a long stem.
pub open spec fn plausible_file_name(name: Seq<u8>) -> bool {
    let dot = last_dot_before(name, name.len() as int);
    let stem = name.subrange(0, dot);
    let ext = lower_bytes(name.subrange(dot + 1, name.len() as int));
    &&& forall|i: int| 0 <= i < name.len() ==> !is_separator_like(#[trigger] name[i])
    &&& dot >= 0
    &&& stem.len() >= 2
    &&& forall|i: int| 0 <= i < stem.len() ==> is_stem_byte(#[trigger] stem[i])
    &&& {
        ||| ext == ext_exe()
        ||| ext == ext_com()
        ||| ext == ext_scr()
        ||| stem.len() >= 8 && (ext.len() == 0 || is_prefix(ext, ext_exe()) || is_prefix(
            ext,
            ext_com(),
        ) || is_prefix(ext, ext_scr()))
    }
}

/// A 15-byte `EPROCESS.ImageFileName` field plausibly holds a process image name: a letter
/// first, printable ASCII then NUL padding, and either `Idle`, `System` or a plausible file
/// name, ignoring ASCII case.
pub open spec fn plausible_image_name(image: Seq<u8>) -> bool {
    let end = first_nul_from(image, 0);
    let name = image.subrange(0, end);
    &&& image.len() == 15
    &&& is_alpha(image[0])
    &&& forall|i: int| 0 <= i < 15 ==> #[trigger] image[i] == 0 || is_graphic(image[i])
    &&& forall|i: int| end <= i < 15 ==> #[trigger] image[i] == 0
    &&& {
        ||| lower_bytes(name) == seq![0x69u8, 0x64, 0x6C, 0x65]
        ||| lower_bytes(name) == seq![0x73u8, 0x79, 0x73, 0x74, 0x65, 0x6D]
        ||| plausible_file_name(name)
    }
}

pub(crate) fn lower_vec(s: &[u8]) -> (out: Vec<u8>)
    ensures
        out@ == lower_bytes(s@),
{
    let mut out: Vec<u8> = Vec::new();
    let mut i: usize = 0;
    while i < s.len()
        invariant
            i <= s@.len(),
            out@ == lower_bytes(s@).subrange(0, i as int),
        decreases s@.len() - i,
    {
        let b = s[i];
        out.push(if b >= 0x41 && b <= 0x5A {
            b + 32
        } else {
            b
        });
        i += 1;
        assert(out@ =~= lower_bytes(s@).subrange(0, i as int));
    }
    assert(out@ =~= lower_bytes(s@));
    out
}

fn bytes_equal(a: &[u8], b: &[u8]) -> (r: bool)
    ensures
        r == (a@ == b@),
{
    if a.len() != b.len() {
        return false;
    }
    let mut i: usize = 0;
    while i < a.len()
        invariant
            a@.len() == b@.len(),
            i <= a@.len(),
            forall|j: int| 0 <= j < i ==> a@[j] == b@[j],
        decreases a@.len() - i,
    {
        if a[i] != b[i] {
            return false;
        }
        i += 1;
    }
    assert(a@ =~= b@);
    true
}

fn prefix_of(e: &[u8], x: &[u8]) -> (r: bool)
    ensures
        r == is_prefix(e@, x@),
{
    if e.len() > x.len() {
        return false;
    }
    let r = bytes_equal(e, slice_subrange(x, 0, e.len()));
    r
}

fn file_name_is_plausible(name: &[u8]) -> (r: bool)
    ensures
        r == plausible_file_name(name@),
{
    let mut i: usize = 0;
    while i < name.len()
        invariant
            i <= name@.len(),
            forall|j: int| 0 <= j < i ==> !is_separator_like(#[trigger] name@[j]),
        decreases name@.len() - i,
    {
        let b = name[i];
        if b == 0x5C || b == 0x2F || b == 0x7C || b == 0x7E || b == 0x20 || b == 0x23 || b
            == 0x7B || b == 0x7D || b == 0x2B || b == 0x28 || b == 0x29 || b == 0x5B || b == 0x5D
            || b == 0x2C || b == 0x3A || b == 0x2A || b == 0x3F {
            return false;
        }
        i += 1;
    }
    let mut k: usize = name.len();
    while k > 0 && name[k - 1] != 0x2E
        invariant
            k <= name@.len(),
            last_dot_before(name@, name@.len() as int) == last_dot_before(name@, k as int),
        decreases k,
    {
        k -= 1;
    }
    if k == 0 {
        return false;
    }
    let dot = k - 1;
    let stem = slice_subrange(name, 0, dot);
    let ext = lower_vec(slice_subrange(name, dot + 1, name.len()));
    if stem.len() < 2 {
        return false;
    }
    let mut j: usize = 0;
    while j < stem.len()
        invariant
            j <= stem@.len(),
            dot + 1 <= name@.len(),
            dot == last_dot_before(name@, name@.len() as int),
            stem@ == name@.subrange(0, dot as int),
            forall|i: int| 0 <= i < name@.len() ==> !is_separator_like(#[trigger] name@[i]),
            forall|m: int| 0 <= m < j ==> is_stem_byte(#[trigger] stem@[m]),
        decreases stem@.len() - j,
    {
        let b = stem[j];
        if !((b >= 0x41 && b <= 0x5A) || (b >= 0x61 && b <= 0x7A) || (b >= 0x30 && b <= 0x39)
            || b == 0x5F || b == 0x2D) {
            return false;
        }
        j += 1;
    }
    let exe: [u8; 3] = [0x65, 0x78, 0x65];
    let com: [u8; 3] = [0x63, 0x6F, 0x6D];
    let scr: [u8; 3] = [0x73, 0x63, 0x72];
    assert(exe@ =~= ext_exe());
    assert(com@ =~= ext_com());
    assert(scr@ =~= ext_scr());
    let e = ext.as_slice();
    bytes_equal(e, exe.as_slice()) || bytes_equal(e, com.as_slice()) || bytes_equal(
        e,
        scr.as_slice(),
    ) || (stem.len() >= 8 && (e.len() == 0 || prefix_of(e, exe.as_slice()) || prefix_of(
        e,
        com.as_slice(),
    ) || prefix_of(e, scr.as_slice())))
}

/// Whether a 15-byte `EPROCESS.ImageFileName` field names a process image. The test ignores
/// case (first-boot specialize runs `Setup.exe`) and admits helpers such as `windeploy`,
/// `drvinst`, `WerFault` and the truncated `SearchIndexer.`.
pub fn is_known_eprocess_image_name(image: &[u8]) -> (r: bool)
    ensures
        r == plausible_image_name(image@),
{
    is_plausible_eprocess_image_name(image)
}

pub fn is_plausible_eprocess_image_name(image: &[u8]) -> (r: bool)
    ensures
        r == plausible_image_name(image@),
{
    if image.len() != 15 {
        return false;
    }
    let b0 = image[0];
    if !((b0 >= 0x41 && b0 <= 0x5A) || (b0 >= 0x61 && b0 <= 0x7A)) {
        return false;
    }
    let mut i: usize = 0;
    while i < 15
        invariant
            i <= 15,
            image@.len() == 15,
            forall|j: int| 0 <= j < i ==> #[trigger] image@[j] == 0 || is_graphic(image@[j]),
        decreases 15 - i,
    {
        let b = image[i];
        if !(b == 0 || (b >= 0x21 && b <= 0x7E)) {
            return false;
        }
        i += 1;
    }
    let mut end: usize = 0;
    while end < 15 && image[end] != 0
        invariant
            end <= 15,
            image@.len() == 15,
            first_nul_from(image@, 0) == first_nul_from(image@, end as int),
        decreases 15 - end,
    {
        end += 1;
    }
    let mut t: usize = end;
    while t < 15
        invariant
            end <= t <= 15,
            image@.len() == 15,
            end == first_nul_from(image@, 0),
            is_alpha(image@[0]),
            forall|j: int| 0 <= j < 15 ==> #[trigger] image@[j] == 0 || is_graphic(image@[j]),
            forall|j: int| end <= j < t ==> #[trigger] image@[j] == 0,
        decreases 15 - t,
    {
        if image[t] != 0 {
            return false;
        }
        t += 1;
    }
    let name = slice_subrange(image, 0, end);
    let lower = lower_vec(name);
    let idle: [u8; 4] = [0x69, 0x64, 0x6C, 0x65];
    let system: [u8; 6] = [0x73, 0x79, 0x73, 0x74, 0x65, 0x6D];
    assert(idle@ =~= seq![0x69u8, 0x64, 0x6C, 0x65]);
    assert(system@ =~= seq![0x73u8, 0x79, 0x73, 0x74, 0x65, 0x6D]);
    if bytes_equal(lower.as_slice(), idle.as_slice()) || bytes_equal(
        lower.as_slice(),
        system.as_slice(),
    ) {
        return true;
    }
    file_name_is_plausible(name)
}

/// Index of the first occurrence of `needle` in `hay` at or after `i`.
pub open spec fn first_occurrence_from(hay: Seq<u8>, needle: Seq<u8>, i: int) -> Option<int>
    decreases hay.len() - i,
{
    if i + needle.len() > hay.len() {
        None
    } else if hay.subrange(i, i + needle.len()) == needle {
        Some(i)
    } else if i >= hay.len() {
        None
    } else {
        first_occurrence_from(hay, needle, i + 1)
    }
}

/// The first position of `needle` in `hay`.
pub fn find_bytes(hay: &[u8], needle: &[u8]) -> (r: Option<usize>)
    requires
        needle@.len() > 0,
    ensures
        match first_occurrence_from(hay@, needle@, 0) {
            Some(i) => r == Some(i as usize),
            None => r is None,
        },
{
    let n = needle.len();
    if n > hay.len() {
        return None;
    }
    let mut i: usize = 0;
    while i <= hay.len() - n
        invariant
            n == needle@.len(),
            n > 0,
            n <= hay@.len(),
            i <= hay@.len() - n + 1,
            first_occurrence_from(hay@, needle@, 0) == first_occurrence_from(hay@, needle@, i as int),
        decreases hay@.len() - n + 1 - i,
    {
        if bytes_equal(slice_subrange(hay, i, i + n), needle) {
            return Some(i);
        }
        i += 1;
    }
    None
}

/// A character with the Unicode `White_Space` property (what `char::is_whitespace` tests).
pub open spec fn is_white_space(c: char) -> bool {
    let v = c as u32;
    ||| 0x09 <= v <= 0x0D
    ||| v == 0x20
    ||| v == 0x85
    ||| v == 0xA0
    ||| v == 0x1680
    ||| 0x2000 <= v <= 0x200A
    ||| v == 0x2028
    ||| v == 0x2029
    ||| v == 0x202F
    ||| v == 0x205F
    ||| v == 0x3000
}

/// `s` without leading white space.
pub open spec fn trim_start(s: Seq<char>) -> Seq<char>
    decreases s.len(),
{
    if s.len() > 0 && is_white_space(s[0]) {
        trim_start(s.drop_first())
    } else {
        s
    }
}

/// `s` without trailing white space.
pub open spec fn trim_end(s: Seq<char>) -> Seq<char>
    decreases s.len(),
{
    if s.len() > 0 && is_white_space(s.last()) {
        trim_end(s.drop_last())
    } else {
        s
    }
}

/// `s` without leading and trailing white space.
pub open spec fn trim(s: Seq<char>) -> Seq<char> {
    trim_end(trim_start(s))
}

/// `s` with every leading repetition of the two-character prefix `p` removed.
pub open spec fn strip_all(s: Seq<char>, p: Seq<char>) -> Seq<char>
    recommends
        p.len() == 2,
    decreases s.len(),
{
    if p.len() == 2 && s.len() >= 2 && s[0] == p[0] && s[1] == p[1] {
        strip_all(s.subrange(2, s.len() as int), p)
    } else {
        s
    }
}

/// The value of a hexadecimal digit.
pub open spec fn hex_digit(c: char) -> Option<nat> {
    let v = c as u32;
    if 0x30 <= v <= 0x39 {
        Some((v - 0x30) as nat)
    } else if 0x61 <= v <= 0x66 {
        Some((v - 0x61 + 10) as nat)
    } else if 0x41 <= v <= 0x46 {
        Some((v - 0x41 + 10) as nat)
    } else {
        None
    }
}

/// The value of a string of hexadecimal digits.
pub open spec fn hex_value(s: Seq<char>) -> nat
    decreases s.len(),
{
    if s.len() == 0 {
        0
    } else {
        hex_value(s.drop_last()) * 16 + match hex_digit(s.last()) {
            Some(d) => d,
            None => 0,
        }
    }
}

/// The digits of a number with an optional leading `+`.
pub open spec fn unsigned_digits(t: Seq<char>) -> Seq<char> {
    if t.len() > 0 && t[0] == '+' {
        t.drop_first()
    } else {
        t
    }
}

/// Some character of `d` is not a hexadecimal digit.
pub open spec fn has_non_hex_digit(d: Seq<char>) -> bool {
    exists|i: int| 0 <= i < d.len() && hex_digit(#[trigger] d[i]) is None
}

/// Radix-16 parsing of an unsigned integer no larger than `max`: an optional `+`, then one or
/// more hexadecimal digits and nothing else.
pub open spec fn parse_hex(t: Seq<char>, max: nat) -> Option<nat> {
    let d = unsigned_digits(t);
    if d.len() == 0 || has_non_hex_digit(d) {
        None
    } else if hex_value(d) > max {
        None
    } else {
        Some(hex_value(d))
    }
}

/// The text `parse_hex_u64` reads as digits: trimmed, then any leading `0x`, then any leading
/// `0X`, removed.
pub open spec fn hex_text(s: Seq<char>) -> Seq<char> {
    strip_all(strip_all(trim(s), seq!['0', 'x']), seq!['0', 'X'])
}

/// A value that is not hexadecimal; `text` is what was read as digits.
#[derive(Debug, Clone, PartialEq, Eq)]
pub struct BadHex {
    pub text: Vec<char>,
}

/// Parse `chars[start..end]` in radix 16 as a value no larger than `max`.
pub(crate) fn parse_hex_range(chars: &[char], start: usize, end: usize, max: u64) -> (r: Option<u64>)
    requires
        start <= end <= chars@.len(),
    ensures
        match parse_hex(chars@.subrange(start as int, end as int), max as nat) {
            Some(v) => r == Some(v as u64),
            None => r is None,
        },
{
    let ghost t = chars@.subrange(start as int, end as int);
    let mut i = start;
    if i < end && chars[i] == '+' {
        i += 1;
    }
    let ghost d = chars@.subrange(i as int, end as int);
    proof {
        if t.len() > 0 && t[0] == '+' {
            assert(d =~= t.drop_first());
        } else {
            assert(d =~= t);
        }
    }
    if i == end {
        return None;
    }
    let mut acc: u64 = 0;
    let mut k = i;
    let mut overflow = false;
    while k < end
        invariant
            i <= k <= end <= chars@.len(),
            t == chars@.subrange(start as int, end as int),
            d == unsigned_digits(t),
            d == chars@.subrange(i as int, end as int),
            !overflow ==> acc <= max,
            forall|j: int| i <= j < k ==> hex_digit(#[trigger] chars@[j]) is Some,
            !overflow ==> acc == hex_value(chars@.subrange(i as int, k as int)),
            overflow ==> hex_value(chars@.subrange(i as int, k as int)) > max,
        decreases end - k,
    {
        let v = chars[k] as u32;
        let digit: u64 = if v >= 0x30 && v <= 0x39 {
            (v - 0x30) as u64
        } else if v >= 0x61 && v <= 0x66 {
            (v - 0x61 + 10) as u64
        } else if v >= 0x41 && v <= 0x46 {
            (v - 0x41 + 10) as u64
        } else {
            assert(d[k - i] == chars@[k as int]);
            assert(hex_digit(chars@[k as int]) is None);
            assert(hex_digit(d[k - i]) is None);
            assert(0 <= k - i < d.len());
            return None;
        };
        let ghost prev = chars@.subrange(i as int, k as int);
        assert(chars@.subrange(i as int, k + 1).drop_last() =~= prev);
        if !overflow {
            let next: u128 = acc as u128 * 16 + digit as u128;
            if next > max as u128 {
                overflow = true;
            } else {
                acc = next as u64;
            }
        } else {
            proof {
                assert(hex_value(prev) * 16 >= hex_value(prev)) by (nonlinear_arith);
            }
        }
        k += 1;
    }
    if overflow {
        return None;
    }
    Some(acc)
}

/// Parse a hexadecimal `u64`, allowing surrounding white space and `0x`/`0X` prefixes.
pub fn parse_hex_u64(s: &str) -> (r: Result<u64, BadHex>)
    ensures
        match parse_hex(hex_text(s@), u64::MAX as nat) {
            Some(v) => r == Ok::<u64, BadHex>(v as u64),
            None => r matches Err(e) && e.text@ == hex_text(s@),
        },
{
    let chars = chars_of(s);
    parse_hex_chars(chars.as_slice())
}

/// How the runner reads a hexadecimal environment value: trimmed, any leading `0x` removed,
/// then radix 16.
pub open spec fn env_hex(s: Seq<char>) -> Option<nat> {
    parse_hex(strip_all(trim(s), seq!['0', 'x']), u64::MAX as nat)
}

/// Read a hexadecimal environment value (`AERO_DUMP_CR3` and the like).
pub fn parse_env_hex(s: &str) -> (r: Option<u64>)
    ensures
        match env_hex(s@) {
            Some(v) => r == Some(v as u64),
            None => r is None,
        },
{
    let chars = chars_of(s);
    let t = crate::resume::trimmed(chars.as_slice(), 0, chars.len());
    assert(chars@.subrange(0, chars@.len() as int) =~= chars@);
    let start = strip_hex_prefix(t.as_slice());
    parse_hex_range(t.as_slice(), start, t.len(), u64::MAX)
}

/// `parse_hex_u64` on a run of characters.
pub fn parse_hex_chars(chars: &[char]) -> (r: Result<u64, BadHex>)
    ensures
        match parse_hex(hex_text(chars@), u64::MAX as nat) {
            Some(v) => r == Ok::<u64, BadHex>(v as u64),
            None => r matches Err(e) && e.text@ == hex_text(chars@),
        },
{
    let n = chars.len();
    let mut a: usize = 0;
    assert(chars@.subrange(0, n as int) =~= chars@);
    while a < n && is_space(chars[a])
        invariant
            a <= n == chars@.len(),
            trim_start(chars@) == trim_start(chars@.subrange(a as int, n as int)),
        decreases n - a,
    {
        assert(chars@.subrange(a as int, n as int).drop_first() =~= chars@.subrange(
            a + 1,
            n as int,
        ));
        a += 1;
    }
    assert(chars@.subrange(0, n as int) =~= chars@);
    let mut b: usize = n;
    while b > a && is_space(chars[b - 1])
        invariant
            a <= b <= n == chars@.len(),
            trim_start(chars@) == chars@.subrange(a as int, n as int),
            trim(chars@) == trim_end(chars@.subrange(a as int, b as int)),
        decreases b - a,
    {
        assert(chars@.subrange(a as int, b as int).drop_last() =~= chars@.subrange(
            a as int,
            b - 1,
        ));
        b -= 1;
    }
    assert(trim(chars@) == chars@.subrange(a as int, b as int));
    while b - a >= 2 && chars[a] == '0' && chars[a + 1] == 'x'
        invariant
            a <= b <= n == chars@.len(),
            strip_all(trim(chars@), seq!['0', 'x']) == strip_all(
                chars@.subrange(a as int, b as int),
                seq!['0', 'x'],
            ),
        decreases b - a,
    {
        assert(chars@.subrange(a as int, b as int).subrange(2, b - a) =~= chars@.subrange(
            a + 2,
            b as int,
        ));
        a += 2;
    }
    assert(strip_all(trim(chars@), seq!['0', 'x']) == chars@.subrange(a as int, b as int));
    while b - a >= 2 && chars[a] == '0' && chars[a + 1] == 'X'
        invariant
            a <= b <= n == chars@.len(),
            hex_text(chars@) == strip_all(chars@.subrange(a as int, b as int), seq!['0', 'X']),
        decreases b - a,
    {
        assert(chars@.subrange(a as int, b as int).subrange(2, b - a) =~= chars@.subrange(
            a + 2,
            b as int,
        ));
        a += 2;
    }
    assert(hex_text(chars@) == chars@.subrange(a as int, b as int));
    match parse_hex_range(chars, a, b, u64::MAX) {
        Some(v) => Ok(v),
        None => {
            let mut text: Vec<char> = Vec::new();
            let mut k = a;
            while k < b
                invariant
                    a <= k <= b <= chars@.len(),
                    text@ == chars@.subrange(a as int, k as int),
                decreases b - k,
            {
                text.push(chars[k]);
                k += 1;
                assert(text@ =~= chars@.subrange(a as int, k as int));
            }
            Err(BadHex { text })
        },
    }
}

/// `char::is_whitespace`.
pub(crate) fn is_space(c: char) -> (r: bool)
    ensures
        r == is_white_space(c),
{
    let v = c as u32;
    (v >= 0x09 && v <= 0x0D) || v == 0x20 || v == 0x85 || v == 0xA0 || v == 0x1680 || (v
        >= 0x2000 && v <= 0x200A) || v == 0x2028 || v == 0x2029 || v == 0x202F || v == 0x205F
        || v == 0x3000
}

/// Guest physical memory as the runner reads and writes it, a byte at a time.
pub trait GuestPhysical: Sized {
    /// The byte a read of physical address `pa` returns.
    spec fn phys_byte(&self, pa: u64) -> u8;

    /// A write to `pa` is stored (it is backed by RAM) rather than dropped.
    spec fn is_ram(&self, pa: u64) -> bool;

    fn read_physical_u8(&mut self, pa: u64) -> (b: u8)
        ensures
            b == old(self).phys_byte(pa),
            forall|a: u64| #[trigger] final(self).phys_byte(a) == old(self).phys_byte(a),
            forall|a: u64| #[trigger] final(self).is_ram(a) == old(self).is_ram(a),
    ;

    fn write_physical_u8(&mut self, pa: u64, v: u8)
        ensures
            forall|a: u64|
                #[trigger] final(self).phys_byte(a) == if a == pa && old(self).is_ram(pa) {
                    v
                } else {
                    old(self).phys_byte(a)
                },
            forall|a: u64| #[trigger] final(self).is_ram(a) == old(self).is_ram(a),
    ;
}

/// `a` and `b` read and store alike everywhere.
pub open spec fn same_memory<M: GuestPhysical>(a: &M, b: &M) -> bool {
    &&& forall|x: u64| #[trigger] a.phys_byte(x) == b.phys_byte(x)
    &&& forall|x: u64| #[trigger] a.is_ram(x) == b.is_ram(x)
}

/// Guest RAM starting at physical address `base`; reads elsewhere return the open-bus value
/// `0xFF` and writes elsewhere are dropped.
pub struct GuestRam {
    pub base: u64,
    pub bytes: Vec<u8>,
}

impl GuestPhysical for GuestRam {
    open spec fn phys_byte(&self, pa: u64) -> u8 {
        if self.is_ram(pa) {
            self.bytes@[pa - self.base]
        } else {
            0xFF
        }
    }

    open spec fn is_ram(&self, pa: u64) -> bool {
        self.base <= pa && pa - self.base < self.bytes@.len()
    }

    fn read_physical_u8(&mut self, pa: u64) -> (b: u8) {
        if pa >= self.base && pa - self.base < self.bytes.len() as u64 {
            self.bytes[(pa - self.base) as usize]
        } else {
            0xFF
        }
    }

    fn write_physical_u8(&mut self, pa: u64, v: u8) {
        if pa >= self.base && pa - self.base < self.bytes.len() as u64 {
            self.bytes.set((pa - self.base) as usize, v);
        }
    }
}

/// Physical-address bits of a page-table entry.
pub open spec fn pte_frame(pte: u64) -> u64 {
    pte & 0x000F_FFFF_FFFF_F000
}

/// The 9-bit index of `va` into the page table of level `level` (0 = PML4 … 3 = PT).
pub open spec fn pt_index(va: u64, level: int) -> u64 {
    (va >> ((39 - 9 * level) as u64)) & 0x1FF
}

/// The little-endian `u64` at physical address `pa` (addresses wrap).
pub open spec fn phys_u64<M: GuestPhysical>(m: &M, pa: u64) -> u64 {
    spec_u64_from_le_bytes(Seq::new(8, |j: int| m.phys_byte(pa.wrapping_add(j as u64))))
}

/// The entry for `va` in the table at `table` of level `level`.
pub open spec fn pt_entry<M: GuestPhysical>(m: &M, table: u64, va: u64, level: int) -> u64 {
    phys_u64(m, table.wrapping_add((pt_index(va, level) * 8) as u64))
}

/// Long-mode translation of `va` from the table at `table` of level `level`: a non-present
/// entry fails, a large entry maps 1 GiB (level 1) or 2 MiB (level 2), a PT entry maps 4 KiB.
pub open spec fn translate_from<M: GuestPhysical>(m: &M, table: u64, va: u64, level: int) -> Option<
    u64,
>
    decreases 4 - level,
{
    if level < 0 || level >= 4 {
        None
    } else {
        let pte = pt_entry(m, table, va, level);
        if pte & 1 == 0 {
            None
        } else if pte & 0x80 != 0 && level == 1 {
            Some((pte & 0x000F_FFFF_C000_0000) | (va & 0x3FFF_FFFF))
        } else if pte & 0x80 != 0 && level == 2 {
            Some((pte & 0x000F_FFFF_FFE0_0000) | (va & 0x001F_FFFF))
        } else if level == 3 {
            Some(pte_frame(pte) | (va & 0xFFF))
        } else {
            translate_from(m, pte_frame(pte), va, level + 1)
        }
    }
}

/// Long-mode translation of `va` through the page tables rooted at `cr3`.
pub open spec fn translate<M: GuestPhysical>(m: &M, cr3: u64, va: u64) -> Option<u64> {
    translate_from(m, pte_frame(cr3), va, 0)
}

/// The (index, entry) pairs a page walk for `va` visits from level `level`, ending at a
/// non-present entry, a large page, or the PT entry.
pub open spec fn walk_from<M: GuestPhysical>(m: &M, table: u64, va: u64, level: int) -> Seq<
    (u64, u64),
>
    decreases 4 - level,
{
    if level < 0 || level >= 4 {
        Seq::empty()
    } else {
        let pte = pt_entry(m, table, va, level);
        let step = seq![(pt_index(va, level), pte)];
        if pte & 1 == 0 || (pte & 0x80 != 0 && level >= 1) || level == 3 {
            step
        } else {
            step + walk_from(m, pte_frame(pte), va, level + 1)
        }
    }
}

/// Memories that read alike give the same words.
pub proof fn lemma_same_memory_u64<M: GuestPhysical>(a: &M, b: &M, pa: u64)
    requires
        same_memory(a, b),
    ensures
        phys_u64(a, pa) == phys_u64(b, pa),
{
    assert(Seq::new(8, |j: int| a.phys_byte(pa.wrapping_add(j as u64))) =~= Seq::new(
        8,
        |j: int| b.phys_byte(pa.wrapping_add(j as u64)),
    ));
}

/// Read the little-endian `u64` at physical address `pa`.
pub fn rd64_phys<M: GuestPhysical>(m: &mut M, pa: u64) -> (v: u64)
    ensures
        v == phys_u64(old(m), pa),
        same_memory(final(m), old(m)),
{
    let mut bytes: Vec<u8> = Vec::new();
    let mut j: u64 = 0;
    while j < 8
        invariant
            j <= 8,
            same_memory(m, old(m)),
            bytes@ =~= Seq::new(j as nat, |k: int| old(m).phys_byte(pa.wrapping_add(k as u64))),
        decreases 8 - j,
    {
        let b = m.read_physical_u8(pa.wrapping_add(j));
        bytes.push(b);
        j += 1;
    }
    u64_from_le_bytes(bytes.as_slice())
}

/// Translate a long-mode canonical VA via the guest's own page tables; `None` if an entry on
/// the way is not present. Large pages (1 GiB, 2 MiB) are handled.
pub fn translate_long<M: GuestPhysical>(m: &mut M, cr3: u64, va: u64) -> (r: Option<u64>)
    ensures
        r == translate(old(m), cr3, va),
        same_memory(final(m), old(m)),
{
    let mut table = cr3 & 0x000F_FFFF_FFFF_F000;
    let mut level: u64 = 0;
    while level < 4
        invariant
            level <= 4,
            same_memory(m, old(m)),
            translate(old(m), cr3, va) == translate_from(old(m), table, va, level as int),
        decreases 4 - level,
    {
        let shift: u64 = 39 - level * 9;
        let idx = (va >> shift) & 0x1FF;
        assert(idx <= 0x1FF) by (bit_vector)
            requires
                idx == (va >> shift) & 0x1FF,
        ;
        let ghost before = *m;
        let at = table.wrapping_add(idx * 8);
        let pte = rd64_phys(m, at);
        proof {
            lemma_same_memory_u64(&before, old(m), at);
        }
        if pte & 1 == 0 {
            return None;
        }
        let huge = pte & 0x80 != 0;
        if huge && level == 1 {
            return Some((pte & 0x000F_FFFF_C000_0000) | (va & 0x3FFF_FFFF));
        }
        if huge && level == 2 {
            return Some((pte & 0x000F_FFFF_FFE0_0000) | (va & 0x001F_FFFF));
        }
        if level == 3 {
            return Some((pte & 0x000F_FFFF_FFFF_F000) | (va & 0xFFF));
        }
        table = pte & 0x000F_FFFF_FFFF_F000;
        level += 1;
    }
    None
}

/// The entries a 4-level long-mode walk for `va` from `cr3` visits: each level's index and
/// entry, up to where the walk stops.
pub fn walk_pt<M: GuestPhysical>(m: &mut M, cr3: u64, va: u64) -> (r: Vec<(u64, u64)>)
    ensures
        r@ == walk_from(old(m), pte_frame(cr3), va, 0),
        same_memory(final(m), old(m)),
{
    let mut out: Vec<(u64, u64)> = Vec::new();
    let mut table = cr3 & 0x000F_FFFF_FFFF_F000;
    let mut level: u64 = 0;
    while level < 4
        invariant
            level <= 4,
            same_memory(m, old(m)),
            walk_from(old(m), pte_frame(cr3), va, 0) == out@ + walk_from(
                old(m),
                table,
                va,
                level as int,
            ),
        decreases 4 - level,
    {
        let shift: u64 = 39 - level * 9;
        let idx = (va >> shift) & 0x1FF;
        assert(idx <= 0x1FF) by (bit_vector)
            requires
                idx == (va >> shift) & 0x1FF,
        ;
        let ghost before = *m;
        let at = table.wrapping_add(idx * 8);
        let pte = rd64_phys(m, at);
        proof {
            lemma_same_memory_u64(&before, old(m), at);
        }
        let present = pte & 1 != 0;
        let huge = pte & 0x80 != 0;
        out.push((idx, pte));
        if !present || (huge && level >= 1) || level == 3 {
            return out;
        }
        table = pte & 0x000F_FFFF_FFFF_F000;
        level += 1;
    }
    out
}

/// Memories that read alike translate alike.
pub proof fn lemma_same_memory_translate<M: GuestPhysical>(
    a: &M,
    b: &M,
    table: u64,
    va: u64,
    level: int,
)
    requires
        same_memory(a, b),
    ensures
        translate_from(a, table, va, level) == translate_from(b, table, va, level),
    decreases 4 - level,
{
    if 0 <= level < 4 {
        lemma_same_memory_u64(a, b, table.wrapping_add((pt_index(va, level) * 8) as u64));
        let pte = pt_entry(a, table, va, level);
        lemma_same_memory_translate(a, b, pte_frame(pte), va, level + 1);
    }
}

/// Within one 4 KiB page the walk reads the same entries, and the translation moves with the
/// address.
pub proof fn lemma_translate_same_page<M: GuestPhysical>(
    m: &M,
    table: u64,
    va: u64,
    j: u64,
    level: int,
)
    requires
        0 <= level <= 3,
        (va & 0xFFF) + j < 0x1000,
    ensures
        va + j <= u64::MAX,
        match translate_from(m, table, va, level) {
            Some(pa) => (pa & 0xFFF) == (va & 0xFFF) && pa + j <= u64::MAX && translate_from(
                m,
                table,
                (va + j) as u64,
                level,
            ) == Some((pa + j) as u64),
            None => translate_from(m, table, (va + j) as u64, level) is None,
        },
    decreases 4 - level,
{
    assert(va + j <= 0xFFFF_FFFF_FFFF_FFFF) by (bit_vector)
        requires
            (va & 0xFFF) + j < 0x1000,
    ;
    let vj = (va + j) as u64;
    assert(vj >> 12u64 == va >> 12u64) by (bit_vector)
        requires
            (va & 0xFFF) + j < 0x1000,
            vj == va + j,
    ;
    assert((vj >> 39u64) & 0x1FF == (va >> 39u64) & 0x1FF && (vj >> 30u64) & 0x1FF == (va
        >> 30u64) & 0x1FF && (vj >> 21u64) & 0x1FF == (va >> 21u64) & 0x1FF && (vj >> 12u64)
        & 0x1FF == (va >> 12u64) & 0x1FF) by (bit_vector)
        requires
            vj >> 12u64 == va >> 12u64,
    ;
    assert(pt_index(vj, level) == pt_index(va, level));
    let pte = pt_entry(m, table, va, level);
    assert(pt_entry(m, table, vj, level) == pte);
    if pte & 1 == 0 {
    } else if pte & 0x80 != 0 && level == 1 {
        let pa = (pte & 0x000F_FFFF_C000_0000) | (va & 0x3FFF_FFFF);
        assert((pa & 0xFFF) == (va & 0xFFF) && pa + j <= 0xFFFF_FFFF_FFFF_FFFF && (pte
            & 0x000F_FFFF_C000_0000) | (vj & 0x3FFF_FFFF) == pa + j) by (bit_vector)
            requires
                pa == (pte & 0x000F_FFFF_C000_0000) | (va & 0x3FFF_FFFF),
                (va & 0xFFF) + j < 0x1000,
                vj == va + j,
        ;
    } else if pte & 0x80 != 0 && level == 2 {
        let pa = (pte & 0x000F_FFFF_FFE0_0000) | (va & 0x001F_FFFF);
        assert((pa & 0xFFF) == (va & 0xFFF) && pa + j <= 0xFFFF_FFFF_FFFF_FFFF && (pte
            & 0x000F_FFFF_FFE0_0000) | (vj & 0x001F_FFFF) == pa + j) by (bit_vector)
            requires
                pa == (pte & 0x000F_FFFF_FFE0_0000) | (va & 0x001F_FFFF),
                (va & 0xFFF) + j < 0x1000,
                vj == va + j,
        ;
    } else if level == 3 {
        let pa = pte_frame(pte) | (va & 0xFFF);
        assert((pa & 0xFFF) == (va & 0xFFF) && pa + j <= 0xFFFF_FFFF_FFFF_FFFF && (pte
            & 0x000F_FFFF_FFFF_F000) | (vj & 0xFFF) == pa + j) by (bit_vector)
            requires
                pa == (pte & 0x000F_FFFF_FFFF_F000) | (va & 0xFFF),
                (va & 0xFFF) + j < 0x1000,
                vj == va + j,
        ;
    } else {
        lemma_translate_same_page(m, pte_frame(pte), va, j, level + 1);
    }
}

/// The byte a read of linear address `va` gives: the physical byte when paging is off; with
/// long-mode paging the byte it translates to, or `0xFE` (distinct from open-bus `0xFF`) when
/// it does not translate.
pub open spec fn linear_byte<M: GuestPhysical>(m: &M, va: u64, long_mode: bool, cr3: u64) -> u8 {
    if !long_mode {
        m.phys_byte(va)
    } else {
        match translate(m, cr3, va) {
            Some(pa) => m.phys_byte(pa),
            None => 0xFE,
        }
    }
}

/// Read `len` bytes at a guest linear address: through the page tables rooted at `cr3` in
/// long mode, as physical addresses otherwise. Reads may cross pages; bytes that do not
/// translate read as `0xFE`.
pub fn read_linear_bytes_cr3<M: GuestPhysical>(
    m: &mut M,
    linear: u64,
    len: usize,
    long_mode: bool,
    cr3: u64,
) -> (out: Vec<u8>)
    ensures
        out@.len() == len,
        forall|i: int|
            0 <= i < len ==> #[trigger] out@[i] == linear_byte(
                old(m),
                linear.wrapping_add(i as u64),
                long_mode,
                cr3,
            ),
        same_memory(final(m), old(m)),
{
    let mut out: Vec<u8> = Vec::new();
    if !long_mode {
        let mut i: usize = 0;
        while i < len
            invariant
                i <= len,
                !long_mode,
                out@.len() == i,
                same_memory(m, old(m)),
                forall|k: int|
                    0 <= k < i ==> #[trigger] out@[k] == linear_byte(
                        old(m),
                        linear.wrapping_add(k as u64),
                        long_mode,
                        cr3,
                    ),
            decreases len - i,
        {
            let b = m.read_physical_u8(linear.wrapping_add(i as u64));
            out.push(b);
            i += 1;
        }
        return out;
    }
    let mut i: usize = 0;
    while i < len
        invariant
            i <= len,
            long_mode,
            out@.len() == i,
            same_memory(m, old(m)),
            forall|k: int|
                0 <= k < i ==> #[trigger] out@[k] == linear_byte(
                    old(m),
                    linear.wrapping_add(k as u64),
                    long_mode,
                    cr3,
                ),
        decreases len - i,
    {
        let va = linear.wrapping_add(i as u64);
        let ghost before = *m;
        let t = translate_long(m, cr3, va);
        proof {
            lemma_same_memory_translate(&before, old(m), pte_frame(cr3), va, 0);
        }
        match t {
            Some(pa) => {
                assert(va & 0xFFF < 0x1000) by (bit_vector);
                assert(pa & 0xFFF <= 0xFFF) by (bit_vector);
                proof {
                    lemma_translate_same_page(old(m), pte_frame(cr3), va, 0, 0);
                }
                // Consume what remains of this 4 KiB page; large pages advance the same way.
                let page_rem = 0x1000 - (pa & 0xFFF) as usize;
                let chunk = if page_rem < len - i {
                    page_rem
                } else {
                    len - i
                };
                let mut j: usize = 0;
                while j < chunk
                    invariant
                        j <= chunk,
                        i + chunk <= len,
                        chunk + (va & 0xFFF) <= 0x1000,
                        va == linear.wrapping_add(i as u64),
                        translate(old(m), cr3, va) == Some(pa),
                        long_mode,
                        out@.len() == i + j,
                        same_memory(m, old(m)),
                        forall|k: int|
                            0 <= k < i + j ==> #[trigger] out@[k] == linear_byte(
                                old(m),
                                linear.wrapping_add(k as u64),
                                long_mode,
                                cr3,
                            ),
                    decreases chunk - j,
                {
                    let b = m.read_physical_u8(pa.wrapping_add(j as u64));
                    proof {
                        lemma_translate_same_page(old(m), pte_frame(cr3), va, j as u64, 0);
                        assert(linear.wrapping_add((i + j) as u64) == (va + j) as u64);
                    }
                    out.push(b);
                    j += 1;
                }
                i += chunk;
            },
            None => {
                out.push(0xFE);
                i += 1;
            },
        }
    }
    out
}

/// What a region of a dump request asks for: `addr:len` in hexadecimal, each with optional
/// `0x` prefixes; the length is capped at 0x400 bytes. Regions that do not parse ask for
/// nothing.
pub open spec fn dump_region(region: Seq<char>) -> Option<(u64, nat)> {
    let parts = pieces(region, ':');
    if parts.len() < 2 {
        None
    } else {
        match (
            parse_hex(strip_all(parts[0], seq!['0', 'x']), u64::MAX as nat),
            parse_hex(strip_all(parts[1], seq!['0', 'x']), usize::MAX as nat),
        ) {
            (Some(addr), Some(len)) => Some(
                (
                    addr as u64,
                    if len < 0x400 {
                        len
                    } else {
                        0x400
                    },
                ),
            ),
            _ => None,
        }
    }
}

/// The regions that parse, in order.
pub open spec fn dump_regions(regions: Seq<Seq<char>>) -> Seq<(u64, nat)>
    decreases regions.len(),
{
    if regions.len() == 0 {
        Seq::empty()
    } else {
        let rest = dump_regions(regions.drop_last());
        match dump_region(regions.last()) {
            Some(r) => rest.push(r),
            None => rest,
        }
    }
}

/// The physical bytes `[addr, addr + len)` (addresses wrap).
pub open spec fn phys_bytes<M: GuestPhysical>(m: &M, addr: u64, len: nat) -> Seq<u8> {
    Seq::new(len, |i: int| m.phys_byte(addr.wrapping_add(i as u64)))
}

/// `s` with every leading `0x` removed.
pub(crate) fn strip_hex_prefix(s: &[char]) -> (r: usize)
    ensures
        r <= s@.len(),
        strip_all(s@, seq!['0', 'x']) == s@.subrange(r as int, s@.len() as int),
{
    let mut a: usize = 0;
    assert(s@.subrange(0, s@.len() as int) =~= s@);
    while s.len() - a >= 2 && s[a] == '0' && s[a + 1] == 'x'
        invariant
            a <= s@.len(),
            strip_all(s@, seq!['0', 'x']) == strip_all(
                s@.subrange(a as int, s@.len() as int),
                seq!['0', 'x'],
            ),
        decreases s@.len() - a,
    {
        assert(s@.subrange(a as int, s@.len() as int).subrange(2, s@.len() - a) =~= s@.subrange(
            a + 2,
            s@.len() as int,
        ));
        a += 2;
    }
    a
}

/// The regions of a dump request `addr:len[,addr:len...]` that parse, with lengths capped at
/// 0x400.
pub(crate) fn dump_request(spec: &str) -> (r: Vec<(u64, usize)>)
    ensures
        r@.len() == dump_regions(pieces(spec@, ',')).len(),
        forall|k: int|
            0 <= k < r@.len() ==> (#[trigger] r@[k]).0 == dump_regions(pieces(spec@, ','))[k].0
                && r@[k].1 == dump_regions(pieces(spec@, ','))[k].1,
{
    let chars = chars_of(spec);
    let regions = split_on(chars.as_slice(), ',');
    let ghost all = pieces(spec@, ',');
    let mut out: Vec<(u64, usize)> = Vec::new();
    let mut k: usize = 0;
    while k < regions.len()
        invariant
            k <= regions@.len(),
            regions@.len() == all.len(),
            all == pieces(spec@, ','),
            forall|q: int| 0 <= q < regions@.len() ==> #[trigger] regions@[q]@ == all[q],
            out@.len() == dump_regions(all.subrange(0, k as int)).len(),
            forall|q: int|
                0 <= q < out@.len() ==> (#[trigger] out@[q]).0 == dump_regions(
                    all.subrange(0, k as int),
                )[q].0 && out@[q].1 == dump_regions(all.subrange(0, k as int))[q].1,
        decreases regions@.len() - k,
    {
        assert(all.subrange(0, k + 1).drop_last() =~= all.subrange(0, k as int));
        let parts = split_on(regions[k].as_slice(), ':');
        if parts.len() >= 2 {
            let a0 = strip_hex_prefix(parts[0].as_slice());
            let a1 = strip_hex_prefix(parts[1].as_slice());
            let addr = parse_hex_range(parts[0].as_slice(), a0, parts[0].len(), u64::MAX);
            let len = parse_hex_range(parts[1].as_slice(), a1, parts[1].len(), usize::MAX as u64);
            match (addr, len) {
                (Some(addr), Some(len)) => {
                    let len = if len < 0x400 {
                        len as usize
                    } else {
                        0x400usize
                    };
                    out.push((addr, len));
                },
                _ => {},
            }
        }
        k += 1;
    }
    assert(all.subrange(0, all.len() as int) =~= all);
    out
}

/// The memory a dump request `addr:len[,addr:len...]` names: for each region that parses, its
/// address and bytes.
pub fn dump_mem_regions<M: GuestPhysical>(m: &mut M, spec: &str) -> (r: Vec<(u64, Vec<u8>)>)
    ensures
        r@.len() == dump_regions(pieces(spec@, ',')).len(),
        forall|k: int|
            0 <= k < r@.len() ==> (#[trigger] r@[k]).0 == dump_regions(pieces(spec@, ','))[k].0
                && r@[k].1@ == phys_bytes(
                old(m),
                dump_regions(pieces(spec@, ','))[k].0,
                dump_regions(pieces(spec@, ','))[k].1,
            ),
        same_memory(final(m), old(m)),
{
    let regions = dump_request(spec);
    let ghost rs = dump_regions(pieces(spec@, ','));
    let mut out: Vec<(u64, Vec<u8>)> = Vec::new();
    let mut k: usize = 0;
    while k < regions.len()
        invariant
            k <= regions@.len(),
            regions@.len() == rs.len(),
            forall|q: int| 0 <= q < rs.len() ==> #[trigger] regions@[q].0 == rs[q].0 && regions@[q].1 == rs[q].1,
            same_memory(m, old(m)),
            out@.len() == k,
            forall|q: int|
                0 <= q < k ==> (#[trigger] out@[q]).0 == rs[q].0 && out@[q].1@ == phys_bytes(
                    old(m),
                    rs[q].0,
                    rs[q].1,
                ),
        decreases regions@.len() - k,
    {
        let (addr, len) = regions[k];
        let mut bytes: Vec<u8> = Vec::new();
        let mut i: usize = 0;
        while i < len
            invariant
                i <= len,
                same_memory(m, old(m)),
                bytes@ =~= Seq::new(i as nat, |j: int| old(m).phys_byte(addr.wrapping_add(j as u64))),
            decreases len - i,
        {
            let b = m.read_physical_u8(addr.wrapping_add(i as u64));
            bytes.push(b);
            i += 1;
        }
        out.push((addr, bytes));
        k += 1;
    }
    out
}

/// BIOS boot selection policy.
#[derive(Debug, Clone, Copy, PartialEq, Eq, Structural)]
pub enum BootMode {
    /// Boot from the primary HDD (`DL=0x80`).
    Hdd,
    /// Boot from the install-media CD-ROM (`DL=0xE0`).
    Cdrom,
    /// Try the CD first when install media is present, otherwise fall back to the HDD.
    CdFirst,
}

/// The runner's command line.
#[derive(Debug, Clone)]
pub struct Args {
    /// Disk image to attach (raw/qcow2/vhd/aerospar; auto-detected).
    pub disk: Option<String>,
    /// Open the disk image read-only.
    pub disk_ro: bool,
    /// Optional copy-on-write overlay image (AEROSPAR).
    pub disk_overlay: Option<String>,
    /// Allocation unit used when creating a new overlay (bytes).
    pub disk_overlay_block_size: u32,
    /// Guest RAM size in MiB.
    pub ram: u64,
    /// Stop after executing at most this many guest instructions.
    pub max_insts: Option<u64>,
    /// Stop after running for at most this many milliseconds of host time.
    pub max_ms: Option<u64>,
    /// Where COM1 output goes (`stdout` or a file path).
    pub serial_out: String,
    /// Where DebugCon output goes (`none`, `stdout` or a file path).
    pub debugcon_out: String,
    /// Dump the last VGA framebuffer to this PNG file on exit.
    pub vga_png: Option<String>,
    /// Re-dump the VGA framebuffer every this many milliseconds.
    pub vga_png_interval: Option<u64>,
    /// Print progress to stderr every this many milliseconds.
    pub progress_interval: Option<u64>,
    /// Enable IR-block JIT acceleration.
    pub jit: bool,
    /// Save a snapshot on exit.
    pub snapshot_save: Option<String>,
    /// Load a snapshot before running.
    pub snapshot_load: Option<String>,
    /// Optional install/recovery ISO attached as an ATAPI CD-ROM.
    pub install_iso: Option<String>,
    /// BIOS boot selection policy.
    pub boot: Option<BootMode>,
}

/// A boot policy that the attached media cannot serve.
#[derive(Debug, Clone, Copy, PartialEq, Eq, Structural)]
pub enum BootModeError {
    /// The policy boots from CD but no install ISO is attached.
    NeedsInstallIso(BootMode),
    /// The policy boots from the HDD but no disk is attached.
    NeedsDisk(BootMode),
}

/// The boot policy in effect: the one asked for, else CD-first when both install media and
/// a disk are attached, CD-ROM with install media alone, HDD otherwise.
pub open spec fn effective_boot_mode(boot: Option<BootMode>, has_disk: bool, has_iso: bool) -> BootMode {
    match boot {
        Some(b) => b,
        None => if has_iso && has_disk {
            BootMode::CdFirst
        } else if has_iso {
            BootMode::Cdrom
        } else {
            BootMode::Hdd
        },
    }
}

/// Choose the boot policy and check that the attached media can serve it.
pub fn resolve_boot_mode(boot: Option<BootMode>, has_disk: bool, has_iso: bool) -> (r: Result<
    BootMode,
    BootModeError,
>)
    ensures
        ({
            let b = effective_boot_mode(boot, has_disk, has_iso);
            if (b == BootMode::Cdrom || b == BootMode::CdFirst) && !has_iso {
                r == Err::<BootMode, BootModeError>(BootModeError::NeedsInstallIso(b))
            } else if (b == BootMode::Hdd || b == BootMode::CdFirst) && !has_disk {
                r == Err::<BootMode, BootModeError>(BootModeError::NeedsDisk(b))
            } else {
                r == Ok::<BootMode, BootModeError>(b)
            }
        }),
{
    let b = match boot {
        Some(b) => b,
        None => if has_iso && has_disk {
            BootMode::CdFirst
        } else if has_iso {
            BootMode::Cdrom
        } else {
            BootMode::Hdd
        },
    };
    if matches!(b, BootMode::Cdrom | BootMode::CdFirst) && !has_iso {
        return Err(BootModeError::NeedsInstallIso(b));
    }
    if matches!(b, BootMode::Hdd | BootMode::CdFirst) && !has_disk {
        return Err(BootModeError::NeedsDisk(b));
    }
    Ok(b)
}

/// Guest RAM in bytes for a size in MiB, if it fits in 64 bits.
pub fn ram_bytes(ram_mib: u64) -> (r: Option<u64>)
    ensures
        ram_mib * 0x10_0000 <= u64::MAX ==> r == Some((ram_mib * 0x10_0000) as u64),
        ram_mib * 0x10_0000 > u64::MAX ==> r is None,
{
    ram_mib.checked_mul(1024 * 1024)
}

} // verus!
