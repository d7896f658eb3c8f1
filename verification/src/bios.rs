//! The 64 KiB system BIOS image: reset vector, build date, interrupt stubs, the real-mode VBE
//! handler and its data, the classic parameter tables and the CP437 ROM fonts.

use vstd::prelude::*;
use vstd::bytes::*;

use font8x8::{UnicodeFonts, BASIC_FONTS};

use crate::cli::GuestPhysical;
use crate::text::chars_of;

verus! {

pub const VBE_ROM_CODE_OFFSET: u16 = 0xA000;
pub const VBE_ROM_OEM_STRING_OFFSET: u16 = 0xA700;
pub const VBE_ROM_VENDOR_STRING_OFFSET: u16 = 0xA720;
pub const VBE_ROM_PRODUCT_STRING_OFFSET: u16 = 0xA740;
pub const VBE_ROM_REV_STRING_OFFSET: u16 = 0xA760;
pub const VBE_ROM_MODE_LIST_OFFSET: u16 = 0xA780;
pub const VBE_ROM_MODE_INFO_OFFSET: u16 = 0xA800;
pub const VBE_ROM_EDID_OFFSET: u16 = 0xB800;
pub const BIOS_BUILD_DATE_OFFSET: usize = 0xFFF5;

// The interpreter-safe ROM handler keeps a small writable state block in a reserved part of the
// EBDA, after the INT 15h AH=C0h system-configuration table (0x20..0x2f) and before the ACPI
// RSDP (0x100). PhysBasePtr cannot live only in the immutable ROM mode-info blocks: the machine
// learns the final linear framebuffer address during POST, after the ROM mapping is installed,
// and updates this EBDA value before any guest code executes.
pub const VBE_EBDA_LFB_BASE_OFFSET: u16 = 0x0040;
pub const VBE_EBDA_CURRENT_MODE_OFFSET: u16 = 0x0044;
pub const VBE_EBDA_WIDTH_OFFSET: u16 = 0x0046;
pub const VBE_EBDA_PITCH_OFFSET: u16 = 0x0048;
pub const VBE_EBDA_BPP_OFFSET: u16 = 0x004A;
pub const VBE_EBDA_VIRTUAL_WIDTH_OFFSET: u16 = 0x004C;
pub const VBE_EBDA_X_OFFSET: u16 = 0x004E;
pub const VBE_EBDA_Y_OFFSET: u16 = 0x0050;
pub const VBE_EBDA_BANK_OFFSET: u16 = 0x0052;
pub const VBE_EBDA_DAC_WIDTH_OFFSET: u16 = 0x0054;

/// The MM/DD/YY build date published right after the reset vector: `06/23/99`.
pub open spec fn bios_build_date() -> Seq<u8> {
    seq![0x30u8, 0x36, 0x2F, 0x32, 0x33, 0x2F, 0x39, 0x39]
}

/// `d` with `b` written over the range starting at `at` (which lies inside `d`).
pub open spec fn overwrite(d: Seq<u8>, at: int, b: Seq<u8>) -> Seq<u8> {
    Seq::new(d.len(), |i: int| if at <= i < at + b.len() { b[i - at] } else { d[i] })
}

/// The value of a near jump's 16-bit displacement from `next` to `target`.
pub open spec fn rel16(target: int, next: int) -> u16 {
    ((target - next) % 0x10000) as u16
}

/// The position of the label `name` among `labels` (the first definition), if defined.
pub open spec fn label_pos(labels: Seq<(Seq<char>, int)>, name: Seq<char>) -> Option<int>
    decreases labels.len(),
{
    if labels.len() == 0 {
        None
    } else {
        match label_pos(labels.drop_last(), name) {
            Some(p) => Some(p),
            None => if labels.last().0 == name {
                Some(labels.last().1)
            } else {
                None
            },
        }
    }
}

/// The fixup `fixups[k]` has a defined target within a signed 16-bit displacement.
pub open spec fn fixup_ok(labels: Seq<(Seq<char>, int)>, fixups: Seq<(int, Seq<char>)>, k: int) -> bool {
    match label_pos(labels, fixups[k].1) {
        Some(t) => -0x8000 <= t - (fixups[k].0 + 2) <= 0x7FFF,
        None => false,
    }
}

/// `code` with the displacements of the first `k` fixups filled in.
pub open spec fn resolved(code: Seq<u8>, labels: Seq<(Seq<char>, int)>, fixups: Seq<(int, Seq<char>)>, k: int) -> Seq<u8>
    decreases k,
{
    if k <= 0 {
        code
    } else {
        let (pos, target) = fixups[k - 1];
        let t = match label_pos(labels, target) {
            Some(t) => t,
            None => 0,
        };
        overwrite(resolved(code, labels, fixups, k - 1), pos, spec_u16_to_le_bytes(rel16(t, pos + 2)))
    }
}

/// The index of the first fixup that cannot be resolved, from `k` on.
pub open spec fn first_bad_fixup(labels: Seq<(Seq<char>, int)>, fixups: Seq<(int, Seq<char>)>, k: int) -> Option<int>
    decreases fixups.len() - k,
{
    if k < 0 || k >= fixups.len() {
        None
    } else if !fixup_ok(labels, fixups, k) {
        Some(k)
    } else {
        first_bad_fixup(labels, fixups, k + 1)
    }
}

/// Why an assembled real-mode program cannot be used.
#[derive(Debug, Clone, PartialEq, Eq)]
pub enum AsmError {
    /// A label was defined twice.
    DuplicateLabel(Vec<char>),
    /// A jump targets a label that was never defined.
    MissingLabel(Vec<char>),
    /// The jump whose displacement is at this offset cannot reach its target.
    JumpTooFar(usize),
    /// The handler overlaps the ROM data that follows it.
    OverlapsRomData,
}

/// What an assembler holds: where its code will be placed, the code so far (jump displacements still zero), the labels with
/// the positions they name, the pending jumps, and the first label defined twice.
pub struct AsmState {
    pub origin: u16,
    pub code: Seq<u8>,
    pub labels: Seq<(Seq<char>, int)>,
    pub fixups: Seq<(int, Seq<char>)>,
    pub duplicate: Option<Seq<char>>,
}

/// One step of an assembly listing.
pub enum AsmOp {
    /// Raw bytes.
    Bytes(Seq<u8>),
    /// Name the current position.
    Label(Seq<char>),
    /// The instruction bytes `head`, then a 16-bit displacement to the label, resolved later.
    Jump(Seq<u8>, Seq<char>),
}

/// The effect of one listing step.
pub open spec fn asm_step(s: AsmState, op: AsmOp) -> AsmState {
    match op {
        AsmOp::Bytes(b) => AsmState {
            origin: s.origin,
            code: s.code + b,
            labels: s.labels,
            fixups: s.fixups,
            duplicate: s.duplicate,
        },
        AsmOp::Label(name) => if label_pos(s.labels, name) is Some {
            AsmState {
                origin: s.origin,
                code: s.code,
                labels: s.labels,
                fixups: s.fixups,
                duplicate: if s.duplicate is Some { s.duplicate } else { Some(name) },
            }
        } else {
            AsmState {
                origin: s.origin,
                code: s.code,
                labels: s.labels.push((name, s.code.len() as int)),
                fixups: s.fixups,
                duplicate: s.duplicate,
            }
        },
        AsmOp::Jump(head, target) => AsmState {
            origin: s.origin,
            code: s.code + head + seq![0u8, 0u8],
            labels: s.labels,
            fixups: s.fixups.push(((s.code.len() + head.len()) as int, target)),
            duplicate: s.duplicate,
        },
    }
}

/// The effect of a whole listing, step by step.
pub open spec fn asm_run(s: AsmState, ops: Seq<AsmOp>) -> AsmState
    decreases ops.len(),
{
    if ops.len() == 0 {
        s
    } else {
        asm_step(asm_run(s, ops.drop_last()), ops.last())
    }
}

/// Running a listing with one more step is running the listing, then that step.
pub broadcast proof fn lemma_asm_run_push(s: AsmState, ops: Seq<AsmOp>, op: AsmOp)
    ensures
        #[trigger] asm_run(s, ops.push(op)) == asm_step(asm_run(s, ops), op),
{
    assert(ops.push(op).drop_last() =~= ops);
}

/// Running two listings one after the other is running their concatenation.
pub proof fn lemma_asm_run_append(s: AsmState, a: Seq<AsmOp>, b: Seq<AsmOp>)
    ensures
        asm_run(s, a + b) == asm_run(asm_run(s, a), b),
    decreases b.len(),
{
    if b.len() == 0 {
        assert(a + b =~= a);
    } else {
        lemma_asm_run_append(s, a, b.drop_last());
        assert((a + b).drop_last() =~= a + b.drop_last());
        assert((a + b).last() == b.last());
    }
}

/// An assembler that has just been created for code placed at `origin`.
pub open spec fn asm_start(origin: u16) -> AsmState {
    AsmState {
        origin,
        code: Seq::empty(),
        labels: Seq::empty(),
        fixups: Seq::empty(),
        duplicate: None,
    }
}

/// The assembled code can be used: no label is defined twice, every jump reaches a defined
/// label within a signed 16-bit displacement, and the code ends before the ROM data.
pub open spec fn asm_ok(s: AsmState) -> bool {
    &&& s.duplicate is None
    &&& first_bad_fixup(s.labels, s.fixups, 0) is None
    &&& s.origin + s.code.len() <= VBE_ROM_OEM_STRING_OFFSET
}

/// The assembled code with every jump displacement filled in.
pub open spec fn asm_output(s: AsmState) -> Seq<u8> {
    resolved(s.code, s.labels, s.fixups, s.fixups.len() as int)
}

/// A listing step of raw bytes.
pub open spec fn asm_bytes(b: Seq<u8>) -> AsmOp {
    AsmOp::Bytes(b)
}

/// A listing step of one little-endian 16-bit word.
pub open spec fn asm_word(v: u16) -> AsmOp {
    AsmOp::Bytes(spec_u16_to_le_bytes(v))
}

/// A listing step naming the current position.
pub open spec fn asm_label(name: Seq<char>) -> AsmOp {
    AsmOp::Label(name)
}

/// `JMP rel16` to a label.
pub open spec fn asm_jmp(target: Seq<char>) -> AsmOp {
    AsmOp::Jump(seq![0xE9u8], target)
}

/// Jump when equal (`JNE +3; JMP rel16`).
pub open spec fn asm_je(target: Seq<char>) -> AsmOp {
    AsmOp::Jump(seq![0x75u8, 0x03, 0xE9], target)
}

/// Jump when not equal (`JE +3; JMP rel16`).
pub open spec fn asm_jne(target: Seq<char>) -> AsmOp {
    AsmOp::Jump(seq![0x74u8, 0x03, 0xE9], target)
}

/// Jump when above or equal (`JB +3; JMP rel16`).
pub open spec fn asm_jae(target: Seq<char>) -> AsmOp {
    AsmOp::Jump(seq![0x72u8, 0x03, 0xE9], target)
}

/// Jump when below or equal (`JA +3; JMP rel16`).
pub open spec fn asm_jbe(target: Seq<char>) -> AsmOp {
    AsmOp::Jump(seq![0x77u8, 0x03, 0xE9], target)
}

/// A tiny assembler for the real-mode VBE handler: bytes, labels, and near jumps whose 16-bit
/// displacements are filled in at the end.
pub struct RomAssembler {
    origin: u16,
    bytes: Vec<u8>,
    labels: Vec<(Vec<char>, usize)>,
    fixups: Vec<(usize, Vec<char>)>,
    duplicate: Option<Vec<char>>,
}

impl RomAssembler {
    /// Where the code will be placed in the ROM.
    pub closed spec fn origin(&self) -> u16 {
        self.origin
    }

    /// The code emitted so far, with jump displacements still zero.
    pub closed spec fn code(&self) -> Seq<u8> {
        self.bytes@
    }

    /// The labels defined so far and the code positions they name.
    pub closed spec fn label_list(&self) -> Seq<(Seq<char>, int)> {
        Seq::new(self.labels@.len(), |i: int| (self.labels@[i].0@, self.labels@[i].1 as int))
    }

    /// The jumps emitted so far: where each displacement goes and the label it targets.
    pub closed spec fn fixup_list(&self) -> Seq<(int, Seq<char>)> {
        Seq::new(self.fixups@.len(), |i: int| (self.fixups@[i].0 as int, self.fixups@[i].1@))
    }

    /// The first label defined twice, if any.
    pub closed spec fn duplicate(&self) -> Option<Seq<char>> {
        match self.duplicate {
            Some(n) => Some(n@),
            None => None,
        }
    }

    /// Everything assembled so far.
    pub open spec fn state(&self) -> AsmState {
        AsmState {
            origin: self.origin(),
            code: self.code(),
            labels: self.label_list(),
            fixups: self.fixup_list(),
            duplicate: self.duplicate(),
        }
    }

    /// Every jump displacement lies inside the code.
    pub closed spec fn wf(&self) -> bool {
        forall|i: int| 0 <= i < self.fixups@.len() ==> #[trigger] self.fixups@[i].0 + 2 <= self.bytes@.len()
    }

    pub fn new(origin: u16) -> (r: Self)
        ensures
            r.wf(),
            r.origin() == origin,
            r.code() == Seq::<u8>::empty(),
            r.label_list() == Seq::<(Seq<char>, int)>::empty(),
            r.fixup_list() == Seq::<(int, Seq<char>)>::empty(),
            r.duplicate() is None,
            r.state() == asm_start(origin),
    {
        let r = Self {
            origin,
            bytes: Vec::new(),
            labels: Vec::new(),
            fixups: Vec::new(),
            duplicate: None,
        };
        assert(r.label_list() =~= Seq::<(Seq<char>, int)>::empty());
        assert(r.fixup_list() =~= Seq::<(int, Seq<char>)>::empty());
        r
    }

    /// Append raw bytes.
    pub fn emit(&mut self, bytes: &[u8])
        requires
            old(self).wf(),
        ensures
            final(self).wf(),
            final(self).code() == old(self).code() + bytes@,
            final(self).origin() == old(self).origin(),
            final(self).label_list() == old(self).label_list(),
            final(self).fixup_list() == old(self).fixup_list(),
            final(self).duplicate() == old(self).duplicate(),
            final(self).state() == asm_step(old(self).state(), AsmOp::Bytes(bytes@)),
    {
        let mut i: usize = 0;
        while i < bytes.len()
            invariant
                i <= bytes@.len(),
                self.bytes@ == old(self).bytes@ + bytes@.subrange(0, i as int),
                self.labels@ == old(self).labels@,
                self.fixups@ == old(self).fixups@,
                self.origin == old(self).origin,
                self.duplicate == old(self).duplicate,
                old(self).wf(),
            decreases bytes@.len() - i,
        {
            self.bytes.push(bytes[i]);
            i += 1;
            assert(self.bytes@ =~= old(self).bytes@ + bytes@.subrange(0, i as int));
        }
        assert(bytes@.subrange(0, bytes@.len() as int) =~= bytes@);
        assert(self.label_list() =~= old(self).label_list());
        assert(self.fixup_list() =~= old(self).fixup_list());
    }

    /// Append a little-endian 16-bit word.
    pub fn emit_word(&mut self, value: u16)
        requires
            old(self).wf(),
        ensures
            final(self).wf(),
            final(self).code() == old(self).code() + spec_u16_to_le_bytes(value),
            final(self).origin() == old(self).origin(),
            final(self).label_list() == old(self).label_list(),
            final(self).fixup_list() == old(self).fixup_list(),
            final(self).duplicate() == old(self).duplicate(),
            final(self).state() == asm_step(
                old(self).state(),
                AsmOp::Bytes(spec_u16_to_le_bytes(value)),
            ),
    {
        let b = u16_to_le_bytes(value);
        self.emit(b.as_slice());
    }

    /// Name the current position. A name defined twice is reported by `finish`.
    pub fn label(&mut self, name: Vec<char>)
        requires
            old(self).wf(),
        ensures
            final(self).wf(),
            final(self).code() == old(self).code(),
            final(self).origin() == old(self).origin(),
            final(self).fixup_list() == old(self).fixup_list(),
            label_pos(old(self).label_list(), name@) is Some ==> final(self).label_list() == old(
                self,
            ).label_list() && final(self).duplicate() == (match old(self).duplicate() {
                Some(d) => Some(d),
                None => Some(name@),
            }),
            label_pos(old(self).label_list(), name@) is None ==> final(self).label_list() == old(
                self,
            ).label_list().push((name@, old(self).code().len() as int)) && final(self).duplicate()
                == old(self).duplicate(),
            final(self).state() == asm_step(old(self).state(), AsmOp::Label(name@)),
    {
        let ghost before = self.label_list();
        let mut k: usize = 0;
        while k < self.labels.len()
            invariant
                k <= self.labels@.len(),
                before == self.label_list(),
                self.bytes@ == old(self).bytes@,
                self.labels@ == old(self).labels@,
                self.fixups@ == old(self).fixups@,
                self.origin == old(self).origin,
                self.duplicate == old(self).duplicate,
                old(self).wf(),
                forall|j: int| 0 <= j < k ==> #[trigger] before[j].0 != name@,
            decreases self.labels@.len() - k,
        {
            if chars_same(self.labels[k].0.as_slice(), name.as_slice()) {
                proof {
                    lemma_label_pos_some(before, name@, k as int);
                }
                if self.duplicate.is_none() {
                    self.duplicate = Some(name);
                }
                return;
            }
            k += 1;
        }
        proof {
            lemma_label_pos_none(before, name@);
        }
        let at = self.bytes.len();
        self.labels.push((name, at));
        assert(self.label_list() =~= before.push((name@, at as int)));
    }

    /// Emit `opcode rel16` with the displacement to `target` filled in by `finish`.
    pub fn near_jump(&mut self, opcode: u8, target: Vec<char>)
        requires
            old(self).wf(),
        ensures
            final(self).wf(),
            final(self).code() == old(self).code() + seq![opcode, 0u8, 0u8],
            final(self).origin() == old(self).origin(),
            final(self).label_list() == old(self).label_list(),
            final(self).fixup_list() == old(self).fixup_list().push(
                (old(self).code().len() + 1 as int, target@),
            ),
            final(self).duplicate() == old(self).duplicate(),
            final(self).state() == asm_step(old(self).state(), AsmOp::Jump(seq![opcode], target@)),
    {
        self.emit(&[opcode, 0, 0]);
        let ghost before = self.fixup_list();
        let at = self.bytes.len() - 2;
        self.fixups.push((at, target));
        assert(self.fixup_list() =~= before.push((at as int, self.fixups@[self.fixups@.len() - 1].1@)));
        assert(self.code() =~= old(self).code() + seq![opcode] + seq![0u8, 0u8]);
    }

    /// `JMP rel16`.
    pub fn jump(&mut self, target: Vec<char>)
        requires
            old(self).wf(),
        ensures
            final(self).wf(),
            final(self).code() == old(self).code() + seq![0xE9u8, 0u8, 0u8],
            final(self).origin() == old(self).origin(),
            final(self).label_list() == old(self).label_list(),
            final(self).fixup_list() == old(self).fixup_list().push(
                (old(self).code().len() + 1 as int, target@),
            ),
            final(self).duplicate() == old(self).duplicate(),
            final(self).state() == asm_step(old(self).state(), AsmOp::Jump(seq![0xE9u8], target@)),
    {
        self.near_jump(0xE9, target);
    }

    /// Jump when equal: `JNE +3; JMP rel16`. This works on an 8086, whose conditional
    /// branches only have an 8-bit displacement, without constraining the handler's layout.
    pub fn jump_if_equal(&mut self, target: Vec<char>)
        requires
            old(self).wf(),
        ensures
            final(self).wf(),
            final(self).code() == old(self).code() + seq![0x75u8, 0x03, 0xE9, 0, 0],
            final(self).origin() == old(self).origin(),
            final(self).label_list() == old(self).label_list(),
            final(self).fixup_list() == old(self).fixup_list().push(
                (old(self).code().len() + 3 as int, target@),
            ),
            final(self).duplicate() == old(self).duplicate(),
            final(self).state() == asm_step(
                old(self).state(),
                AsmOp::Jump(seq![0x75u8, 0x03, 0xE9], target@),
            ),
    {
        self.emit(&[0x75, 0x03]);
        self.near_jump(0xE9, target);
        assert(self.code() =~= old(self).code() + seq![0x75u8, 0x03, 0xE9, 0, 0]);
        assert(self.code() =~= old(self).code() + seq![0x75u8, 0x03, 0xE9] + seq![0u8, 0u8]);
    }

    /// Jump when not equal: `JE +3; JMP rel16`.
    pub fn jump_if_not_equal(&mut self, target: Vec<char>)
        requires
            old(self).wf(),
        ensures
            final(self).wf(),
            final(self).code() == old(self).code() + seq![0x74u8, 0x03, 0xE9, 0, 0],
            final(self).origin() == old(self).origin(),
            final(self).label_list() == old(self).label_list(),
            final(self).fixup_list() == old(self).fixup_list().push(
                (old(self).code().len() + 3 as int, target@),
            ),
            final(self).duplicate() == old(self).duplicate(),
            final(self).state() == asm_step(
                old(self).state(),
                AsmOp::Jump(seq![0x74u8, 0x03, 0xE9], target@),
            ),
    {
        self.emit(&[0x74, 0x03]);
        self.near_jump(0xE9, target);
        assert(self.code() =~= old(self).code() + seq![0x74u8, 0x03, 0xE9, 0, 0]);
        assert(self.code() =~= old(self).code() + seq![0x74u8, 0x03, 0xE9] + seq![0u8, 0u8]);
    }

    /// Jump when above or equal (unsigned): `JB +3; JMP rel16`.
    pub fn jump_if_above_or_equal(&mut self, target: Vec<char>)
        requires
            old(self).wf(),
        ensures
            final(self).wf(),
            final(self).code() == old(self).code() + seq![0x72u8, 0x03, 0xE9, 0, 0],
            final(self).origin() == old(self).origin(),
            final(self).label_list() == old(self).label_list(),
            final(self).fixup_list() == old(self).fixup_list().push(
                (old(self).code().len() + 3 as int, target@),
            ),
            final(self).duplicate() == old(self).duplicate(),
            final(self).state() == asm_step(
                old(self).state(),
                AsmOp::Jump(seq![0x72u8, 0x03, 0xE9], target@),
            ),
    {
        self.emit(&[0x72, 0x03]);
        self.near_jump(0xE9, target);
        assert(self.code() =~= old(self).code() + seq![0x72u8, 0x03, 0xE9, 0, 0]);
        assert(self.code() =~= old(self).code() + seq![0x72u8, 0x03, 0xE9] + seq![0u8, 0u8]);
    }

    /// Jump when below or equal (unsigned): `JA +3; JMP rel16`.
    pub fn jump_if_below_or_equal(&mut self, target: Vec<char>)
        requires
            old(self).wf(),
        ensures
            final(self).wf(),
            final(self).code() == old(self).code() + seq![0x77u8, 0x03, 0xE9, 0, 0],
            final(self).origin() == old(self).origin(),
            final(self).label_list() == old(self).label_list(),
            final(self).fixup_list() == old(self).fixup_list().push(
                (old(self).code().len() + 3 as int, target@),
            ),
            final(self).duplicate() == old(self).duplicate(),
            final(self).state() == asm_step(
                old(self).state(),
                AsmOp::Jump(seq![0x77u8, 0x03, 0xE9], target@),
            ),
    {
        self.emit(&[0x77, 0x03]);
        self.near_jump(0xE9, target);
        assert(self.code() =~= old(self).code() + seq![0x77u8, 0x03, 0xE9, 0, 0]);
        assert(self.code() =~= old(self).code() + seq![0x77u8, 0x03, 0xE9] + seq![0u8, 0u8]);
    }

    /// The finished code: every jump displacement filled in. Fails on a label defined twice, a
    /// jump to an undefined label or out of 16-bit reach, or code that runs into the ROM data
    /// at the OEM string.
    #[verifier::rlimit(40)]
    pub fn finish(self) -> (r: Result<Vec<u8>, AsmError>)
        requires
            self.wf(),
        ensures
            r is Ok <==> asm_ok(self.state()),
            r matches Ok(v) ==> v@ == asm_output(self.state()),
            r matches Ok(v) ==> self.origin() + v@.len() <= VBE_ROM_OEM_STRING_OFFSET,
            self.duplicate() matches Some(d) ==> (r matches Err(AsmError::DuplicateLabel(n))
                && n@ == d),
            self.duplicate() is None ==> match first_bad_fixup(
                self.label_list(),
                self.fixup_list(),
                0,
            ) {
                Some(k) => match label_pos(self.label_list(), self.fixup_list()[k].1) {
                    Some(_) => r matches Err(AsmError::JumpTooFar(p)) && p == self.fixup_list()[k].0,
                    None => r matches Err(AsmError::MissingLabel(n)) && n@ == self.fixup_list()[k].1,
                },
                None => if self.origin() + self.code().len() > VBE_ROM_OEM_STRING_OFFSET {
                    r matches Err(AsmError::OverlapsRomData)
                } else {
                    r matches Ok(v) && v@ == resolved(
                        self.code(),
                        self.label_list(),
                        self.fixup_list(),
                        self.fixup_list().len() as int,
                    )
                },
            },
    {
        let RomAssembler { origin, bytes, labels, fixups, duplicate } = self;
        if let Some(d) = duplicate {
            return Err(AsmError::DuplicateLabel(d));
        }
        let ghost ls = self.label_list();
        let ghost fs = self.fixup_list();
        let mut bytes = bytes;
        let n = bytes.len();
        let mut k: usize = 0;
        while k < fixups.len()
            invariant
                k <= fixups@.len(),
                bytes@.len() == n,
                self.duplicate() is None,
                fs == self.fixup_list(),
                ls == self.label_list(),
                fs.len() == fixups@.len(),
                forall|i: int| 0 <= i < fixups@.len() ==> (#[trigger] fixups@[i]).0 + 2 <= self.bytes@.len(),
                forall|i: int| 0 <= i < fixups@.len() ==> (#[trigger] fs[i]) == (fixups@[i].0 as int, fixups@[i].1@),
                labels@ == self.labels@,
                fixups@ == self.fixups@,
                bytes@.len() == self.bytes@.len(),
                bytes@ == resolved(self.bytes@, ls, fs, k as int),
                first_bad_fixup(ls, fs, 0) == first_bad_fixup(ls, fs, k as int),
            decreases fixups@.len() - k,
        {
            let pos = fixups[k].0;
            let target = match find_label(&labels, fixups[k].1.as_slice()) {
                Some(t) => t,
                None => {
                    proof {
                        lemma_find_label(ls, labels@, fixups@[k as int].1@);
                    }
                    let mut name: Vec<char> = Vec::new();
                    let src = fixups[k].1.as_slice();
                    let mut j: usize = 0;
                    while j < src.len()
                        invariant
                            j <= src@.len(),
                            name@ == src@.subrange(0, j as int),
                        decreases src@.len() - j,
                    {
                        name.push(src[j]);
                        j += 1;
                        assert(name@ =~= src@.subrange(0, j as int));
                    }
                    assert(src@.subrange(0, src@.len() as int) =~= src@);
                    return Err(AsmError::MissingLabel(name));
                },
            };
            proof {
                lemma_find_label(ls, labels@, fixups@[k as int].1@);
            }
            let next = pos + 2;
            let bits: u16 = if target >= next {
                if target - next > 0x7FFF {
                    return Err(AsmError::JumpTooFar(pos));
                }
                (target - next) as u16
            } else {
                if next - target > 0x8000 {
                    return Err(AsmError::JumpTooFar(pos));
                }
                (0x10000 - (next - target)) as u16
            };
            assert(bits == rel16(target as int, next as int));
            let b = u16_to_le_bytes(bits);
            let mut i: usize = 0;
            let ghost prev = bytes@;
            while i < 2
                invariant
                    i <= 2,
                    bytes@.len() == n,
                    b@.len() == 2,
                    pos + 2 <= bytes@.len(),
                    prev.len() == bytes@.len(),
                    bytes@ == overwrite(prev, pos as int, b@.subrange(0, i as int)),
                decreases 2 - i,
            {
                bytes.set(pos + i, b[i]);
                i += 1;
                assert(bytes@ =~= overwrite(prev, pos as int, b@.subrange(0, i as int)));
            }
            assert(b@.subrange(0, 2) =~= b@);
            k += 1;
        }
        if origin > VBE_ROM_OEM_STRING_OFFSET || bytes.len() > (VBE_ROM_OEM_STRING_OFFSET
            - origin) as usize {
            return Err(AsmError::OverlapsRomData);
        }
        Ok(bytes)
    }
}

/// `a` and `b` hold the same characters.
fn chars_same(a: &[char], b: &[char]) -> (r: bool)
    ensures
        r == (a@ == b@),
{
    if a.len() != b.len() {
        return false;
    }
    let mut i: usize = 0;
    while i < a.len()
        invariant
            a@.len() == b@.len(),
            i <= a@.len(),
            forall|j: int| 0 <= j < i ==> a@[j] == b@[j],
        decreases a@.len() - i,
    {
        if a[i] != b[i] {
            return false;
        }
        i += 1;
    }
    assert(a@ =~= b@);
    true
}

/// The position of the first label named `name`.
fn find_label(labels: &Vec<(Vec<char>, usize)>, name: &[char]) -> (r: Option<usize>)
    ensures
        forall|i: int|
            0 <= i < labels@.len() ==> #[trigger] labels@[i].0@ == name@ ==> r is Some,
        r matches Some(p) ==> exists|i: int|
            0 <= i < labels@.len() && #[trigger] labels@[i].0@ == name@ && labels@[i].1 == p && forall|
                j: int,
            |
                0 <= j < i ==> labels@[j].0@ != name@,
{
    let mut k: usize = 0;
    while k < labels.len()
        invariant
            k <= labels@.len(),
            forall|j: int| 0 <= j < k ==> labels@[j].0@ != name@,
        decreases labels@.len() - k,
    {
        if chars_same(labels[k].0.as_slice(), name) {
            return Some(labels[k].1);
        }
        k += 1;
    }
    None
}

proof fn lemma_label_pos_some(labels: Seq<(Seq<char>, int)>, name: Seq<char>, k: int)
    requires
        0 <= k < labels.len(),
        labels[k].0 == name,
        forall|j: int| 0 <= j < k ==> labels[j].0 != name,
    ensures
        label_pos(labels, name) == Some(labels[k].1),
    decreases labels.len(),
{
    if k < labels.len() - 1 {
        lemma_label_pos_some(labels.drop_last(), name, k);
    } else {
        lemma_label_pos_none(labels.drop_last(), name);
    }
}

proof fn lemma_label_pos_none(labels: Seq<(Seq<char>, int)>, name: Seq<char>)
    requires
        forall|j: int| 0 <= j < labels.len() ==> labels[j].0 != name,
    ensures
        label_pos(labels, name) is None,
    decreases labels.len(),
{
    if labels.len() > 0 {
        lemma_label_pos_none(labels.drop_last(), name);
    }
}

proof fn lemma_find_label(ls: Seq<(Seq<char>, int)>, labels: Seq<(Vec<char>, usize)>, name: Seq<char>)
    requires
        ls == Seq::new(labels.len(), |i: int| (labels[i].0@, labels[i].1 as int)),
    ensures
        (forall|j: int| 0 <= j < labels.len() ==> labels[j].0@ != name) ==> label_pos(ls, name) is None,
        forall|k: int|
            0 <= k < labels.len() && labels[k].0@ == name && (forall|j: int| 0 <= j < k ==> labels[j].0@ != name)
                ==> label_pos(ls, name) == Some(labels[k].1 as int),
{
    if forall|j: int| 0 <= j < labels.len() ==> labels[j].0@ != name {
        assert forall|j: int| 0 <= j < ls.len() implies ls[j].0 != name by {
            assert(ls[j].0 == labels[j].0@);
        }
        lemma_label_pos_none(ls, name);
    }
    assert forall|k: int|
        0 <= k < labels.len() && labels[k].0@ == name && (forall|j: int| 0 <= j < k ==> labels[j].0@ != name)
            implies label_pos(ls, name) == Some(labels[k].1 as int) by {
        assert forall|j: int| 0 <= j < k implies ls[j].0 != name by {
            assert(ls[j].0 == labels[j].0@);
        }
        lemma_label_pos_some(ls, name, k);
    }
}

/// `MOV word ES:[DI+displacement], value`.
pub open spec fn es_di_word(displacement: u8, value: u16) -> Seq<u8> {
    (if displacement == 0 {
        seq![0x26u8, 0xC7, 0x05]
    } else {
        seq![0x26u8, 0xC7, 0x45, displacement]
    }) + spec_u16_to_le_bytes(value)
}

/// The far pointer `F000:offset` stored at `ES:[DI+displacement]`, offset word first.
pub open spec fn es_di_far_ptr(displacement: u8, offset: u16) -> Seq<u8> {
    es_di_word(displacement, offset) + es_di_word((displacement + 2) as u8, 0xF000)
}

/// `MOV [offset], reg` for the register that `direct_modrm` selects.
pub open spec fn ds_word_from_reg(offset: u16, direct_modrm: u8) -> Seq<u8> {
    seq![0x89u8, direct_modrm] + spec_u16_to_le_bytes(offset)
}

/// `MOV word ES:[DI+displacement], value`.
fn emit_store_es_di_word(prog: &mut RomAssembler, displacement: u8, value: u16)
    requires
        old(prog).wf(),
    ensures
        final(prog).wf(),
        final(prog).origin() == old(prog).origin(),
        final(prog).code() == old(prog).code() + (if displacement == 0 {
            seq![0x26u8, 0xC7, 0x05]
        } else {
            seq![0x26u8, 0xC7, 0x45, displacement]
        }) + spec_u16_to_le_bytes(value),
        final(prog).state() == asm_step(old(prog).state(), asm_bytes(es_di_word(displacement, value))),
{
    if displacement == 0 {
        prog.emit(&[0x26, 0xC7, 0x05]);
    } else {
        prog.emit(&[0x26, 0xC7, 0x45, displacement]);
    }
    prog.emit_word(value);
    assert(prog.code() =~= old(prog).code() + es_di_word(displacement, value));
}

/// Store the far pointer `F000:offset` at `ES:[DI+displacement]`.
fn emit_store_es_di_far_ptr(prog: &mut RomAssembler, displacement: u8, offset: u16)
    requires
        old(prog).wf(),
        displacement <= 0xFD,
    ensures
        final(prog).wf(),
        final(prog).origin() == old(prog).origin(),
        final(prog).state() == asm_step(
            old(prog).state(),
            asm_bytes(es_di_far_ptr(displacement, offset)),
        ),
{
    emit_store_es_di_word(prog, displacement, offset);
    emit_store_es_di_word(prog, displacement + 2, 0xF000);
    assert(prog.code() =~= old(prog).code() + es_di_far_ptr(displacement, offset));
}

/// `MOV [offset], reg` for the register that `direct_modrm` selects.
fn emit_store_ds_word_from_reg(prog: &mut RomAssembler, offset: u16, direct_modrm: u8)
    requires
        old(prog).wf(),
    ensures
        final(prog).wf(),
        final(prog).origin() == old(prog).origin(),
        final(prog).code() == old(prog).code() + seq![0x89u8, direct_modrm] + spec_u16_to_le_bytes(
            offset,
        ),
        final(prog).state() == asm_step(
            old(prog).state(),
            asm_bytes(ds_word_from_reg(offset, direct_modrm)),
        ),
{
    prog.emit(&[0x89, direct_modrm]);
    prog.emit_word(offset);
    assert(prog.code() =~= old(prog).code() + ds_word_from_reg(offset, direct_modrm));
}

/// `SHR BP,1`, eight times.
pub open spec fn shr_bp_8() -> Seq<u8> {
    Seq::new(16, |k: int| if k % 2 == 0 { 0xD1u8 } else { 0xEDu8 })
}

/// The DISPI programming sequence, up to the eight shifts of the saved no-clear flag.
pub open spec fn dispi_setup() -> Seq<u8> {
    seq![0xBAu8, 0xCE, 0x01] + seq![0xB8u8, 0x04, 0x00, 0xEF, 0x42, 0x31, 0xC0, 0xEF, 0x4A]
        + seq![0xB8u8, 0x03, 0x00, 0xEF, 0x42, 0x31, 0xC0, 0x88, 0xC8, 0xEF, 0x4A]
        + seq![0xB8u8, 0x01, 0x00, 0xEF, 0x42, 0x89, 0xF0, 0xEF, 0x4A]
        + seq![0xB8u8, 0x02, 0x00, 0xEF, 0x42, 0x89, 0xE8, 0xEF, 0x4A]
        + seq![0xB8u8, 0x05, 0x00, 0xEF, 0x42, 0x31, 0xC0, 0xEF, 0x4A]
        + seq![0xB8u8, 0x04, 0x00, 0xEF, 0x42] + seq![0x58u8, 0x89, 0xC5]
}

/// Disable DISPI, load bpp, width, height and bank 0, then enable it with the linear
/// framebuffer and the no-clear flag moved from VBE bit 15 to DISPI bit 7.
pub open spec fn dispi_mode_programming() -> Seq<u8> {
    dispi_setup() + shr_bp_8() + seq![0xB8u8, 0x41, 0x00, 0x09, 0xE8, 0xEF]
}

/// Program the Bochs DISPI registers from SI (width), BP (height) and CL (bpp), with the VBE
/// no-clear flag the caller left on the stack.
fn emit_dispi_mode_programming(prog: &mut RomAssembler)
    requires
        old(prog).wf(),
    ensures
        final(prog).wf(),
        final(prog).origin() == old(prog).origin(),
        final(prog).state() == asm_step(old(prog).state(), asm_bytes(dispi_mode_programming())),
{
    prog.emit(&[0xBA, 0xCE, 0x01]); // mov dx,01ceh

    prog.emit(&[0xB8, 0x04, 0x00, 0xEF, 0x42, 0x31, 0xC0, 0xEF, 0x4A]); // disable

    prog.emit(&[0xB8, 0x03, 0x00, 0xEF, 0x42, 0x31, 0xC0, 0x88, 0xC8, 0xEF, 0x4A]); // bpp
    prog.emit(&[0xB8, 0x01, 0x00, 0xEF, 0x42, 0x89, 0xF0, 0xEF, 0x4A]); // xres
    prog.emit(&[0xB8, 0x02, 0x00, 0xEF, 0x42, 0x89, 0xE8, 0xEF, 0x4A]); // yres
    prog.emit(&[0xB8, 0x05, 0x00, 0xEF, 0x42, 0x31, 0xC0, 0xEF, 0x4A]); // bank zero
    prog.emit(&[0xB8, 0x04, 0x00, 0xEF, 0x42]); // select ENABLE
    // The caller left the original VBE NOCLEARMEM flag on the stack. YRES has already been
    // written, so BP is now available as scratch. Shift VBE bit 15 down to DISPI ENABLE bit 7
    // and combine it with ENABLED|LFB_ENABLED.
    prog.emit(&[0x58, 0x89, 0xC5]); // pop ax; mov bp,ax
    assert(prog.code() =~= old(prog).code() + dispi_setup());
    let mut i: usize = 0;
    while i < 8
        invariant
            i <= 8,
            prog.wf(),
            prog.origin() == old(prog).origin(),
            prog.state() == asm_step(
                old(prog).state(),
                asm_bytes(dispi_setup() + shr_bp_8().subrange(0, 2 * i as int)),
            ),
        decreases 8 - i,
    {
        prog.emit(&[0xD1, 0xED]); // shr bp,1
        i += 1;
        assert(prog.code() =~= old(prog).code() + (dispi_setup() + shr_bp_8().subrange(
            0,
            2 * i as int,
        )));
    }
    assert(shr_bp_8().subrange(0, 16) =~= shr_bp_8());
    prog.emit(&[0xB8, 0x41, 0x00, 0x09, 0xE8, 0xEF]); // mov ax,41h; or ax,bp; out dx,ax
    assert(prog.code() =~= old(prog).code() + dispi_mode_programming());
}

/// The decimal digits of `n`.
pub open spec fn decimal(n: nat) -> Seq<char>
    decreases n,
{
    if n < 10 {
        seq![(0x30 + n) as u8 as char]
    } else {
        decimal(n / 10).push((0x30 + n % 10) as u8 as char)
    }
}

/// `prefix` followed by the decimal digits of `index`: the label of one mode's entry.
fn indexed_label(prefix: &str, index: usize) -> (r: Vec<char>)
    ensures
        r@ == prefix@ + decimal(index as nat),
{
    let mut digits: Vec<char> = Vec::new();
    let mut n = index;
    let ghost mut tail: Seq<char> = Seq::empty();
    // Collect the digits least significant first, then append them in order.
    let mut rev: Vec<u8> = Vec::new();
    while n >= 10
        invariant
            decimal(index as nat) == decimal(n as nat) + Seq::new(
                rev@.len(),
                |i: int| (0x30 + rev@[rev@.len() - 1 - i]) as u8 as char,
            ),
            forall|i: int| 0 <= i < rev@.len() ==> #[trigger] rev@[i] < 10,
        decreases n,
    {
        let ghost before = rev@;
        rev.push((n % 10) as u8);
        proof {
            let f = |s: Seq<u8>| Seq::new(s.len(), |i: int| (0x30 + s[s.len() - 1 - i]) as u8 as char);
            assert(Seq::new(rev@.len(), |i: int| (0x30 + rev@[rev@.len() - 1 - i]) as u8 as char)
                =~= seq![(0x30 + n % 10) as u8 as char] + Seq::new(
                before.len(),
                |i: int| (0x30 + before[before.len() - 1 - i]) as u8 as char,
            ));
            assert(decimal(n as nat) == decimal((n / 10) as nat).push((0x30 + n % 10) as u8 as char));
            assert(decimal((n / 10) as nat).push((0x30 + n % 10) as u8 as char) =~= decimal(
                (n / 10) as nat,
            ) + seq![(0x30 + n % 10) as u8 as char]);
        }
        n = n / 10;
    }
    let mut out = chars_of(prefix);
    let ghost head = out@;
    out.push(((0x30 + n) as u8) as char);
    let mut k: usize = rev.len();
    while k > 0
        invariant
            k <= rev@.len(),
            forall|i: int| 0 <= i < rev@.len() ==> #[trigger] rev@[i] < 10,
            n < 10,
            out@ == head + decimal(n as nat) + Seq::new(
                (rev@.len() - k) as nat,
                |i: int| (0x30 + rev@[rev@.len() - 1 - i]) as u8 as char,
            ),
        decreases k,
    {
        k -= 1;
        out.push(((0x30 + rev[k]) as u8) as char);
        assert(out@ =~= head + decimal(n as nat) + Seq::new(
            (rev@.len() - k) as nat,
            |i: int| (0x30 + rev@[rev@.len() - 1 - i]) as u8 as char,
        ));
    }
    assert(out@ =~= head + decimal(index as nat));
    out
}

/// Row `y` of a single-line box-drawing glyph with strokes toward the given sides: the
/// vertical stroke is column 3, the horizontal stroke row 3.
pub open spec fn box_row(up: bool, down: bool, left: bool, right: bool, y: int) -> u8 {
    let v: u8 = if (up && y <= 3) || (down && y >= 3) {
        0x10
    } else {
        0
    };
    let l: u8 = if y == 3 && left {
        0xF0
    } else {
        0
    };
    let r: u8 = if y == 3 && right {
        0x1F
    } else {
        0
    };
    v | l | r
}

/// A single-line box-drawing glyph.
pub open spec fn box_glyph(up: bool, down: bool, left: bool, right: bool) -> Seq<u8> {
    Seq::new(8, |y: int| box_row(up, down, left, right, y))
}

/// A glyph whose even rows are `even` and odd rows `odd`.
pub open spec fn striped(even: u8, odd: u8) -> Seq<u8> {
    Seq::new(8, |y: int| if y % 2 == 0 { even } else { odd })
}

/// A glyph whose first four rows are `top` and last four `bottom`.
pub open spec fn halves(top: u8, bottom: u8) -> Seq<u8> {
    Seq::new(8, |y: int| if y < 4 { top } else { bottom })
}

fn box_row_bits(up: bool, down: bool, left: bool, right: bool, y: usize) -> (r: u8)
    ensures
        r == box_row(up, down, left, right, y as int),
{
    let h_row = 3usize;
    let v_col = 3u8;
    let shift = 7 - v_col;
    let v_bit = 1u8 << shift;
    let left_mask = 0xFFu8 << shift;
    let right_mask = 0xFFu8 >> v_col;
    assert(v_bit == 0x10 && left_mask == 0xF0 && right_mask == 0x1F) by (bit_vector)
        requires
            v_col == 3,
            shift == 4,
            v_bit == 1u8 << shift,
            left_mask == 0xFFu8 << shift,
            right_mask == 0xFFu8 >> v_col,
    ;
    let v: u8 = if (up && y <= h_row) || (down && y >= h_row) {
        v_bit
    } else {
        0
    };
    let l: u8 = if y == h_row && left {
        left_mask
    } else {
        0
    };
    let r: u8 = if y == h_row && right {
        right_mask
    } else {
        0
    };
    v | l | r
}

pub fn glyph_box_single(up: bool, down: bool, left: bool, right: bool) -> (g: [u8; 8])
    ensures
        g@ == box_glyph(up, down, left, right),
{
    let g = [
        box_row_bits(up, down, left, right, 0),
        box_row_bits(up, down, left, right, 1),
        box_row_bits(up, down, left, right, 2),
        box_row_bits(up, down, left, right, 3),
        box_row_bits(up, down, left, right, 4),
        box_row_bits(up, down, left, right, 5),
        box_row_bits(up, down, left, right, 6),
        box_row_bits(up, down, left, right, 7),
    ];
    assert(g@ =~= box_glyph(up, down, left, right));
    g
}

pub fn glyph_box_double_vertical() -> (g: [u8; 8])
    ensures
        g@ == halves(0x18, 0x18),
{
    let v_bits = 0x18u8;  // columns 3 and 4
    let g = [v_bits, v_bits, v_bits, v_bits, v_bits, v_bits, v_bits, v_bits];
    assert(g@ =~= halves(0x18, 0x18));
    g
}

pub fn glyph_block_upper_half() -> (g: [u8; 8])
    ensures
        g@ == halves(0xFF, 0x00),
{
    let g = [0xFFu8, 0xFF, 0xFF, 0xFF, 0, 0, 0, 0];
    assert(g@ =~= halves(0xFF, 0x00));
    g
}

pub fn glyph_block_lower_half() -> (g: [u8; 8])
    ensures
        g@ == halves(0x00, 0xFF),
{
    let g = [0u8, 0, 0, 0, 0xFF, 0xFF, 0xFF, 0xFF];
    assert(g@ =~= halves(0x00, 0xFF));
    g
}

pub fn glyph_block_left_half() -> (g: [u8; 8])
    ensures
        g@ == halves(0xF0, 0xF0),
{
    let g = [0xF0u8; 8];  // left 4 pixels
    assert(g@ =~= halves(0xF0, 0xF0));
    g
}

pub fn glyph_block_right_half() -> (g: [u8; 8])
    ensures
        g@ == halves(0x0F, 0x0F),
{
    let g = [0x0Fu8; 8];  // right 4 pixels
    assert(g@ =~= halves(0x0F, 0x0F));
    g
}

pub fn glyph_shade_light() -> (g: [u8; 8])
    ensures
        g@ == striped(0x00, 0x55),
{
    let g = [0x00u8, 0x55, 0x00, 0x55, 0x00, 0x55, 0x00, 0x55];
    assert(g@ =~= striped(0x00, 0x55));
    g
}

pub fn glyph_shade_medium() -> (g: [u8; 8])
    ensures
        g@ == striped(0x55, 0xAA),
{
    let g = [0x55u8, 0xAA, 0x55, 0xAA, 0x55, 0xAA, 0x55, 0xAA];
    assert(g@ =~= striped(0x55, 0xAA));
    g
}

pub fn glyph_shade_dark() -> (g: [u8; 8])
    ensures
        g@ == striped(0xFF, 0xAA),
{
    let g = [0xFFu8, 0xAA, 0xFF, 0xAA, 0xFF, 0xAA, 0xFF, 0xAA];
    assert(g@ =~= striped(0xFF, 0xAA));
    g
}

/// The 8x8 glyph of Basic Latin character `c` in the `font8x8` crate's `BASIC_FONTS`.
pub uninterp spec fn basic_glyph(c: u8) -> Seq<u8>;

/// Calls `BASIC_FONTS.get` of the `font8x8` crate. Its table holds an entry for every code
/// point U+0000..U+007F, so the lookup of such a character finds one; the glyph's bitmap is
/// named `basic_glyph` and nothing more is claimed about it.
#[verifier::external_body]
fn basic_font_glyph(c: u8) -> (g: Option<[u8; 8]>)
    requires
        c < 0x80,
    ensures
        g is Some,
        g->0@ == basic_glyph(c),
{
    BASIC_FONTS.get(c as char)
}

/// The glyph of code page 437 character `ch` in the ROM's 8x8 font: Basic Latin from
/// `font8x8`, shades, box drawing (double lines approximated by single ones) and block
/// elements; every other character is blank.
pub open spec fn cp437_glyph(ch: int) -> Seq<u8> {
    if ch < 0x80 {
        Seq::new(8, |i: int| basic_glyph(ch as u8)[i])
    } else if ch == 0xB0 {
        striped(0x00, 0x55)
    } else if ch == 0xB1 {
        striped(0x55, 0xAA)
    } else if ch == 0xB2 {
        striped(0xFF, 0xAA)
    } else if ch == 0xB3 {
        box_glyph(true, true, false, false)
    } else if ch == 0xB4 || ch == 0xB5 || ch == 0xB6 || ch == 0xB9 {
        box_glyph(true, true, true, false)
    } else if ch == 0xB7 || ch == 0xB8 || ch == 0xBB || ch == 0xBF {
        box_glyph(false, true, true, false)
    } else if ch == 0xBA {
        halves(0x18, 0x18)
    } else if ch == 0xBC || ch == 0xBD || ch == 0xBE || ch == 0xD9 {
        box_glyph(true, false, true, false)
    } else if ch == 0xC0 || ch == 0xC8 || ch == 0xD3 || ch == 0xD4 {
        box_glyph(true, false, false, true)
    } else if ch == 0xC1 || ch == 0xCA || ch == 0xCF || ch == 0xD0 {
        box_glyph(true, false, true, true)
    } else if ch == 0xC2 || ch == 0xCB || ch == 0xD1 || ch == 0xD2 {
        box_glyph(false, true, true, true)
    } else if ch == 0xC3 || ch == 0xC6 || ch == 0xC7 || ch == 0xCC {
        box_glyph(true, true, false, true)
    } else if ch == 0xC4 || ch == 0xCD {
        box_glyph(false, false, true, true)
    } else if ch == 0xC5 || ch == 0xCE || ch == 0xD7 || ch == 0xD8 {
        box_glyph(true, true, true, true)
    } else if ch == 0xC9 || ch == 0xD5 || ch == 0xD6 || ch == 0xDA {
        box_glyph(false, true, false, true)
    } else if ch == 0xDB {
        halves(0xFF, 0xFF)
    } else if ch == 0xDC {
        halves(0x00, 0xFF)
    } else if ch == 0xDD {
        halves(0xF0, 0xF0)
    } else if ch == 0xDE {
        halves(0x0F, 0x0F)
    } else if ch == 0xDF {
        halves(0xFF, 0x00)
    } else {
        halves(0x00, 0x00)
    }
}

/// The glyphs of characters `0..n`, one after the other.
pub open spec fn font8x8_upto(n: int) -> Seq<u8>
    decreases n,
{
    if n <= 0 {
        Seq::empty()
    } else {
        font8x8_upto(n - 1) + cp437_glyph(n - 1)
    }
}

/// The 8x16 glyph of `ch`: each row of the 8x8 glyph twice.
pub open spec fn cp437_glyph16(ch: int) -> Seq<u8> {
    Seq::new(16, |i: int| cp437_glyph(ch)[i / 2])
}

/// The 8x16 glyphs of characters `0..n`, one after the other.
pub open spec fn font8x16_upto(n: int) -> Seq<u8>
    decreases n,
{
    if n <= 0 {
        Seq::empty()
    } else {
        font8x16_upto(n - 1) + cp437_glyph16(n - 1)
    }
}

/// The 8x8 glyph of `ch` in the ROM font.
fn glyph8_cp437(ch: u8) -> (g: [u8; 8])
    ensures
        g@ == cp437_glyph(ch as int),
{
    if ch < 0x80 {
        // Preserve the original 0x00..=0x7F glyphs.
        let g = match basic_font_glyph(ch) {
            Some(g) => g,
            None => [0u8; 8],
        };
        assert(g@ =~= Seq::new(8, |i: int| basic_glyph(ch)[i]));
        g
    } else if ch == 0xB0 {
        glyph_shade_light()  // ░
    } else if ch == 0xB1 {
        glyph_shade_medium()  // ▒
    } else if ch == 0xB2 {
        glyph_shade_dark()  // ▓
    } else if ch == 0xB3 {
        glyph_box_single(true, true, false, false)  // │
    } else if ch == 0xB4 || ch == 0xB5 || ch == 0xB6 || ch == 0xB9 {
        glyph_box_single(true, true, true, false)  // ┤ ╡ ╢ ╣
    } else if ch == 0xB7 || ch == 0xB8 || ch == 0xBB || ch == 0xBF {
        glyph_box_single(false, true, true, false)  // ╖ ╕ ╗ ┐
    } else if ch == 0xBA {
        glyph_box_double_vertical()  // ║
    } else if ch == 0xBC || ch == 0xBD || ch == 0xBE || ch == 0xD9 {
        glyph_box_single(true, false, true, false)  // ╝ ╜ ╛ ┘
    } else if ch == 0xC0 || ch == 0xC8 || ch == 0xD3 || ch == 0xD4 {
        glyph_box_single(true, false, false, true)  // └ ╚ ╙ ╘
    } else if ch == 0xC1 || ch == 0xCA || ch == 0xCF || ch == 0xD0 {
        glyph_box_single(true, false, true, true)  // ┴ ╩ ╧ ╨
    } else if ch == 0xC2 || ch == 0xCB || ch == 0xD1 || ch == 0xD2 {
        glyph_box_single(false, true, true, true)  // ┬ ╦ ╤ ╥
    } else if ch == 0xC3 || ch == 0xC6 || ch == 0xC7 || ch == 0xCC {
        glyph_box_single(true, true, false, true)  // ├ ╞ ╟ ╠
    } else if ch == 0xC4 || ch == 0xCD {
        glyph_box_single(false, false, true, true)  // ─ ═
    } else if ch == 0xC5 || ch == 0xCE || ch == 0xD7 || ch == 0xD8 {
        glyph_box_single(true, true, true, true)  // ┼ ╬ ╫ ╪
    } else if ch == 0xC9 || ch == 0xD5 || ch == 0xD6 || ch == 0xDA {
        glyph_box_single(false, true, false, true)  // ╔ ╒ ╓ ┌
    } else if ch == 0xDB {
        let g = [0xFFu8; 8];  // █
        assert(g@ =~= halves(0xFF, 0xFF));
        g
    } else if ch == 0xDC {
        glyph_block_lower_half()  // ▄
    } else if ch == 0xDD {
        glyph_block_left_half()  // ▌
    } else if ch == 0xDE {
        glyph_block_right_half()  // ▐
    } else if ch == 0xDF {
        glyph_block_upper_half()  // ▀
    } else {
        let g = [0u8; 8];
        assert(g@ =~= halves(0x00, 0x00));
        g
    }
}

/// Append the glyph of `ch` to the font being built.
fn set_glyph8(font: &mut Vec<u8>, glyph: [u8; 8])
    ensures
        final(font)@ == old(font)@ + glyph@,
{
    let mut i: usize = 0;
    while i < 8
        invariant
            i <= 8,
            font@ == old(font)@ + glyph@.subrange(0, i as int),
        decreases 8 - i,
    {
        font.push(glyph[i]);
        i += 1;
        assert(font@ =~= old(font)@ + glyph@.subrange(0, i as int));
    }
    assert(glyph@.subrange(0, 8) =~= glyph@);
}

/// The ROM's 8x8 font: 256 glyphs of 8 rows, code page 437 order.
pub fn build_font8x8_cp437() -> (font: Vec<u8>)
    ensures
        font@ == font8x8_upto(256),
        font@.len() == 256 * 8,
{
    let mut font: Vec<u8> = Vec::new();
    let mut ch: u16 = 0;
    while ch < 256
        invariant
            ch <= 256,
            font@ == font8x8_upto(ch as int),
            font@.len() == 8 * ch,
        decreases 256 - ch,
    {
        let g = glyph8_cp437(ch as u8);
        set_glyph8(&mut font, g);
        ch += 1;
    }
    font
}

/// The ROM's 8x16 font: the 8x8 font scaled vertically, each scanline twice.
///
/// INT 10h AH=11h AL=30h returns a pointer to this table, and DOS-era software indexes it by
/// code page 437 code point, box-drawing range included.
pub fn build_font8x16_cp437() -> (font: Vec<u8>)
    ensures
        font@ == font8x16_upto(256),
        font@.len() == 256 * 16,
{
    let mut font16: Vec<u8> = Vec::new();
    let mut ch: u16 = 0;
    while ch < 256
        invariant
            ch <= 256,
            font16@ == font8x16_upto(ch as int),
            font16@.len() == 16 * ch,
        decreases 256 - ch,
    {
        let g = glyph8_cp437(ch as u8);
        let ghost before = font16@;
        let mut row: usize = 0;
        while row < 8
            invariant
                row <= 8,
                g@ == cp437_glyph(ch as int),
                font16@ == before + Seq::new(2 * row as nat, |i: int| g@[i / 2]),
            decreases 8 - row,
        {
            let bits = g[row];
            font16.push(bits);
            font16.push(bits);
            row += 1;
            assert(font16@ =~= before + Seq::new(2 * row as nat, |i: int| g@[i / 2]));
        }
        assert(Seq::new(16, |i: int| g@[i / 2]) =~= cp437_glyph16(ch as int));
        ch += 1;
    }
    font16
}

/// Copy `stub` into the ROM at `offset`.
fn write_stub(rom: &mut Vec<u8>, offset: u16, stub: &[u8])
    requires
        offset + stub@.len() <= old(rom)@.len(),
    ensures
        final(rom)@ == overwrite(old(rom)@, offset as int, stub@),
{
    let off = offset as usize;
    let n = rom.len();
    let mut i: usize = 0;
    while i < stub.len()
        invariant
            off == offset,
            rom@.len() == n,
            i <= stub@.len(),
            off + stub@.len() <= rom@.len(),
            rom@.len() == old(rom)@.len(),
            rom@ == overwrite(old(rom)@, off as int, stub@.subrange(0, i as int)),
        decreases stub@.len() - i,
    {
        rom.set(off + i, stub[i]);
        i += 1;
        assert(rom@ =~= overwrite(old(rom)@, off as int, stub@.subrange(0, i as int)));
    }
    assert(stub@.subrange(0, stub@.len() as int) =~= stub@);
}

/// One advertised VBE mode.
#[derive(Debug, Clone, Copy, PartialEq, Eq, Structural)]
pub struct VbeMode {
    pub mode: u16,
    pub width: u16,
    pub height: u16,
    pub bpp: u8,
    pub bytes_per_scan_line: u16,
}

/// What the ROM publishes of the VBE device: its advertised modes, the mode-info block of
/// each (same order), the size of video memory, and the display's base EDID.
#[derive(Debug, Clone)]
pub struct VbeConfig {
    pub modes: Vec<VbeMode>,
    pub mode_info_blocks: Vec<Vec<u8>>,
    pub total_memory_64kb_blocks: u16,
    pub edid: Vec<u8>,
}

/// Where the firmware places its interrupt stubs and tables in the image.
#[derive(Debug, Clone, Copy, PartialEq, Eq, Structural)]
pub struct BiosLayout {
    pub bios_size: usize,
    pub ebda_base: u64,
    pub default_int_stub: u16,
    pub int10_stub: u16,
    pub int13_stub: u16,
    pub int15_stub: u16,
    pub int16_stub: u16,
    pub int1a_stub: u16,
    pub diskette_param_table: u16,
    pub fixed_disk_param_table: u16,
    pub video_param_table: u16,
    pub vga_font_8x16: u16,
    pub vga_font_8x8: u16,
}

/// The image is at least 64 KiB and every stub and table fits in it.
pub open spec fn layout_fits(l: BiosLayout) -> bool {
    &&& l.bios_size >= 0x10000
    &&& l.default_int_stub + 2 <= l.bios_size
    &&& l.int10_stub + 10 <= l.bios_size
    &&& l.int13_stub + 2 <= l.bios_size
    &&& l.int15_stub + 2 <= l.bios_size
    &&& l.int16_stub + 2 <= l.bios_size
    &&& l.int1a_stub + 2 <= l.bios_size
    &&& l.diskette_param_table + 11 <= l.bios_size
    &&& l.fixed_disk_param_table + 16 <= l.bios_size
    &&& l.video_param_table + 16 <= l.bios_size
    &&& l.vga_font_8x16 + 4096 <= l.bios_size
    &&& l.vga_font_8x8 + 2048 <= l.bios_size
}

/// Why the BIOS image cannot be built.
#[derive(Debug, Clone, PartialEq, Eq)]
pub enum BiosError {
    /// The real-mode VBE handler does not assemble.
    Asm(AsmError),
    /// A mode-info block would lie past the 16-bit ROM offsets.
    ModeInfoOffset,
    /// The mode-info blocks overlap the EDID.
    ModeInfoOverlapsEdid,
    /// The EDID overlaps the VGA font.
    EdidOverlapsFont,
}

/// The INT 10h entry stub: VBE calls (AH=4Fh) jump to the handler, everything else halts for
/// the host to serve and returns.
pub open spec fn int10_entry(int10_offset: u16) -> Seq<u8> {
    seq![0x80u8, 0xFC, 0x4F, 0x75, 0x03, 0xE9] + spec_u16_to_le_bytes(
        VBE_ROM_CODE_OFFSET.wrapping_sub(int10_offset.wrapping_add(8)),
    ) + seq![0xF4u8, 0xCF]
}

/// The VBE mode list: each mode number, then the 0xFFFF terminator.
pub open spec fn mode_list(modes: Seq<VbeMode>) -> Seq<u8>
    decreases modes.len(),
{
    if modes.len() == 0 {
        spec_u16_to_le_bytes(0xFFFF)
    } else {
        spec_u16_to_le_bytes(modes[0].mode) + mode_list(modes.drop_first())
    }
}

/// `rom` with the first `k` mode-info blocks written, block `i` at `0xA800 + i * len`.
pub open spec fn with_mode_blocks(rom: Seq<u8>, blocks: Seq<Seq<u8>>, k: int) -> Seq<u8>
    decreases k,
{
    if k <= 0 {
        rom
    } else {
        let b = blocks[k - 1];
        overwrite(
            with_mode_blocks(rom, blocks, k - 1),
            VBE_ROM_MODE_INFO_OFFSET + (k - 1) * b.len(),
            b,
        )
    }
}

/// The mode-info blocks all end at or before the EDID.
pub open spec fn mode_blocks_fit(blocks: Seq<Seq<u8>>) -> bool {
    forall|i: int|
        0 <= i < blocks.len() ==> VBE_ROM_MODE_INFO_OFFSET + i * (#[trigger] blocks[i]).len() + blocks[i].len()
            <= VBE_ROM_EDID_OFFSET
}

/// The ROM after the VBE handler `code` and its data are installed.
pub open spec fn vbe_image(rom: Seq<u8>, code: Seq<u8>, int10_offset: u16, vbe: VbeConfig) -> Seq<u8> {
    let r1 = overwrite(rom, VBE_ROM_CODE_OFFSET as int, code);
    let r2 = overwrite(r1, int10_offset as int, int10_entry(int10_offset));
    let r3 = overwrite(r2, VBE_ROM_OEM_STRING_OFFSET as int, oem_string());
    let r4 = overwrite(r3, VBE_ROM_VENDOR_STRING_OFFSET as int, vendor_string());
    let r5 = overwrite(r4, VBE_ROM_PRODUCT_STRING_OFFSET as int, product_string());
    let r6 = overwrite(r5, VBE_ROM_REV_STRING_OFFSET as int, revision_string());
    let r7 = overwrite(r6, VBE_ROM_MODE_LIST_OFFSET as int, mode_list(vbe.modes@));
    let blocks = Seq::new(vbe.mode_info_blocks@.len(), |i: int| vbe.mode_info_blocks@[i]@);
    let r8 = with_mode_blocks(r7, blocks, blocks.len() as int);
    overwrite(r8, VBE_ROM_EDID_OFFSET as int, vbe.edid@)
}

/// `Aero VBE BIOS`, `Aero`, `Aero SVGA`, `0.1`, each NUL-terminated.
pub open spec fn oem_string() -> Seq<u8> {
    seq![0x41u8, 0x65, 0x72, 0x6F, 0x20, 0x56, 0x42, 0x45, 0x20, 0x42, 0x49, 0x4F, 0x53, 0x00]
}

pub open spec fn vendor_string() -> Seq<u8> {
    seq![0x41u8, 0x65, 0x72, 0x6F, 0x00]
}

pub open spec fn product_string() -> Seq<u8> {
    seq![0x41u8, 0x65, 0x72, 0x6F, 0x20, 0x53, 0x56, 0x47, 0x41, 0x00]
}

pub open spec fn revision_string() -> Seq<u8> {
    seq![0x30u8, 0x2E, 0x31, 0x00]
}

/// VBE function 00h: fill the controller-info block at ES:DI.
pub open spec fn controller_info_ops(total_memory_64kb_blocks: u16) -> Seq<AsmOp> {
    Seq::empty()
        .push(asm_label("controller_info"@))
        .push(asm_bytes(seq![0x53u8, 0x51, 0x52, 0x56, 0x57, 0x1E, 0x06]))
        .push(asm_bytes(seq![0x57u8, 0x31, 0xC0, 0xB9, 0x00, 0x01, 0xFC, 0xF3, 0xAB, 0x5F]))
        .push(asm_bytes(es_di_word(0, 0x4556)))
        .push(asm_bytes(es_di_word(2, 0x4153)))
        .push(asm_bytes(es_di_word(4, 0x0300)))
        .push(asm_bytes(es_di_far_ptr(6, VBE_ROM_OEM_STRING_OFFSET)))
        .push(asm_bytes(es_di_word(10, 1)))
        .push(asm_bytes(es_di_word(12, 0)))
        .push(asm_bytes(es_di_far_ptr(14, VBE_ROM_MODE_LIST_OFFSET)))
        .push(asm_bytes(es_di_word(18, total_memory_64kb_blocks)))
        .push(asm_bytes(es_di_word(20, 1)))
        .push(asm_bytes(es_di_far_ptr(22, VBE_ROM_VENDOR_STRING_OFFSET)))
        .push(asm_bytes(es_di_far_ptr(26, VBE_ROM_PRODUCT_STRING_OFFSET)))
        .push(asm_bytes(es_di_far_ptr(30, VBE_ROM_REV_STRING_OFFSET)))
        .push(asm_bytes(seq![0x07u8, 0x1F, 0x5F, 0x5E, 0x5A, 0x59, 0x5B]))
        .push(asm_jmp("success"@))
}

fn emit_controller_info(prog: &mut RomAssembler, total_memory_64kb_blocks: u16)
    requires
        old(prog).wf(),
    ensures
        final(prog).wf(),
        final(prog).origin() == old(prog).origin(),
        final(prog).state() == asm_run(old(prog).state(), controller_info_ops(total_memory_64kb_blocks)),
{
    broadcast use lemma_asm_run_push;

    prog.label(chars_of("controller_info"));
    prog.emit(&[0x53, 0x51, 0x52, 0x56, 0x57, 0x1E, 0x06]); // push bx,cx,dx,si,di,ds,es
    prog.emit(&[0x57, 0x31, 0xC0, 0xB9, 0x00, 0x01, 0xFC, 0xF3, 0xAB, 0x5F]);
    emit_store_es_di_word(prog, 0, 0x4556); // "VE"
    emit_store_es_di_word(prog, 2, 0x4153); // "SA"
    emit_store_es_di_word(prog, 4, 0x0300);
    emit_store_es_di_far_ptr(prog, 6, VBE_ROM_OEM_STRING_OFFSET);
    emit_store_es_di_word(prog, 10, 1);
    emit_store_es_di_word(prog, 12, 0);
    emit_store_es_di_far_ptr(prog, 14, VBE_ROM_MODE_LIST_OFFSET);
    emit_store_es_di_word(prog, 18, total_memory_64kb_blocks);
    emit_store_es_di_word(prog, 20, 1);
    emit_store_es_di_far_ptr(prog, 22, VBE_ROM_VENDOR_STRING_OFFSET);
    emit_store_es_di_far_ptr(prog, 26, VBE_ROM_PRODUCT_STRING_OFFSET);
    emit_store_es_di_far_ptr(prog, 30, VBE_ROM_REV_STRING_OFFSET);
    prog.emit(&[0x07, 0x1F, 0x5F, 0x5E, 0x5A, 0x59, 0x5B]); // pop es,ds,di,si,dx,cx,bx
    prog.jump(chars_of("success"));
}

/// VBE function 01h, shared part: copy the selected mode-info block and patch its PhysBasePtr from the EBDA.
pub open spec fn copy_mode_ops(ebda_segment: u16) -> Seq<AsmOp> {
    Seq::empty()
        .push(asm_label("copy_mode"@))
        .push(asm_bytes(seq![0x0Eu8, 0x1F, 0xB9, 0x80, 0x00, 0xFC, 0xF3, 0xA5]))
        .push(asm_bytes([0xB8u8]@))
        .push(asm_word(ebda_segment))
        .push(asm_bytes(seq![0x8Eu8, 0xD8]))
        .push(asm_bytes(seq![0x81u8, 0xEF, 0xD8, 0x00]))
        .push(asm_bytes([0xA1u8]@))
        .push(asm_word(VBE_EBDA_LFB_BASE_OFFSET))
        .push(asm_bytes(seq![0x26u8, 0x89, 0x05]))
        .push(asm_bytes([0xA1u8]@))
        .push(asm_word((VBE_EBDA_LFB_BASE_OFFSET + 2) as u16))
        .push(asm_bytes(seq![0x26u8, 0x89, 0x45, 0x02]))
        .push(asm_bytes(seq![0x1Fu8, 0x5F, 0x5E, 0x5A, 0x59, 0x5B]))
        .push(asm_jmp("success"@))
}

fn emit_copy_mode(prog: &mut RomAssembler, ebda_segment: u16)
    requires
        old(prog).wf(),
    ensures
        final(prog).wf(),
        final(prog).origin() == old(prog).origin(),
        final(prog).state() == asm_run(old(prog).state(), copy_mode_ops(ebda_segment)),
{
    broadcast use lemma_asm_run_push;

    prog.label(chars_of("copy_mode"));
    // push cs; pop ds; mov cx,128; cld; rep movsw
    prog.emit(&[0x0E, 0x1F, 0xB9, 0x80, 0x00, 0xFC, 0xF3, 0xA5]);
    // REP MOVSW advanced DI by 256 bytes. Rewind it to PhysBasePtr
    // (mode-info offset 40) and replace the immutable template value with the
    // final, post-PCI LFB address from Aero's EBDA state block.
    prog.emit(&[0xB8]);
    prog.emit_word(ebda_segment); // mov ax, ebda_segment
    prog.emit(&[0x8E, 0xD8]); // mov ds,ax
    prog.emit(&[0x81, 0xEF, 0xD8, 0x00]); // sub di,216
    prog.emit(&[0xA1]);
    prog.emit_word(VBE_EBDA_LFB_BASE_OFFSET); // mov ax,[lfb]
    prog.emit(&[0x26, 0x89, 0x05]); // mov es:[di],ax
    prog.emit(&[0xA1]);
    prog.emit_word(VBE_EBDA_LFB_BASE_OFFSET + 2); // mov ax,[lfb+2]
    prog.emit(&[0x26, 0x89, 0x45, 0x02]); // mov es:[di+2],ax
    prog.emit(&[0x1F, 0x5F, 0x5E, 0x5A, 0x59, 0x5B]);
    prog.jump(chars_of("success"));
}

/// VBE functions 02h (after the mode is matched) and 03h: program DISPI and record the mode in the EBDA; report the current mode.
pub open spec fn program_mode_ops(ebda_segment: u16) -> Seq<AsmOp> {
    Seq::empty()
        .push(asm_label("program_mode"@))
        .push(asm_bytes(dispi_mode_programming()))
        .push(asm_bytes([0xB8u8]@))
        .push(asm_word(ebda_segment))
        .push(asm_bytes(seq![0x8Eu8, 0xD8]))
        .push(asm_bytes(seq![0x81u8, 0xCF, 0x00, 0x40]))
        .push(asm_bytes(ds_word_from_reg(VBE_EBDA_CURRENT_MODE_OFFSET, 0x3E)))
        .push(asm_bytes(ds_word_from_reg(VBE_EBDA_WIDTH_OFFSET, 0x36)))
        .push(asm_bytes(ds_word_from_reg(VBE_EBDA_PITCH_OFFSET, 0x1E)))
        .push(asm_bytes(ds_word_from_reg(VBE_EBDA_VIRTUAL_WIDTH_OFFSET, 0x36)))
        .push(asm_bytes(seq![0x31u8, 0xC0, 0x88, 0xC8, 0xA3]))
        .push(asm_word(VBE_EBDA_BPP_OFFSET))
        .push(asm_bytes(seq![0xB8u8, 0x06, 0x00, 0xA3]))
        .push(asm_word(VBE_EBDA_DAC_WIDTH_OFFSET))
        .push(asm_bytes(seq![0x31u8, 0xC0, 0xA3]))
        .push(asm_word(VBE_EBDA_X_OFFSET))
        .push(asm_bytes([0xA3u8]@))
        .push(asm_word(VBE_EBDA_Y_OFFSET))
        .push(asm_bytes([0xA3u8]@))
        .push(asm_word(VBE_EBDA_BANK_OFFSET))
        .push(asm_bytes(seq![0xB8u8, 0x40, 0x00, 0x8E, 0xD8]))
        .push(asm_bytes(seq![0xC6u8, 0x06, 0x49, 0x00, 0x6F]))
        .push(asm_bytes(seq![0x1Fu8, 0x5D, 0x5F, 0x5E, 0x5A, 0x59, 0x5B]))
        .push(asm_jmp("success"@))
        .push(asm_label("get_mode"@))
        .push(asm_bytes(seq![0x1Eu8, 0xB8]))
        .push(asm_word(ebda_segment))
        .push(asm_bytes(seq![0x8Eu8, 0xD8, 0x8B, 0x1E]))
        .push(asm_word(VBE_EBDA_CURRENT_MODE_OFFSET))
        .push(asm_bytes([0x1Fu8]@))
        .push(asm_jmp("success"@))
}

fn emit_program_mode(prog: &mut RomAssembler, ebda_segment: u16)
    requires
        old(prog).wf(),
    ensures
        final(prog).wf(),
        final(prog).origin() == old(prog).origin(),
        final(prog).state() == asm_run(old(prog).state(), program_mode_ops(ebda_segment)),
{
    broadcast use lemma_asm_run_push;

    prog.label(chars_of("program_mode"));
    emit_dispi_mode_programming(prog);
    prog.emit(&[0xB8]);
    prog.emit_word(ebda_segment);
    prog.emit(&[0x8E, 0xD8]); // mov ds,ebda_segment
    prog.emit(&[0x81, 0xCF, 0x00, 0x40]); // or di,4000h
    emit_store_ds_word_from_reg(prog, VBE_EBDA_CURRENT_MODE_OFFSET, 0x3E); // di
    emit_store_ds_word_from_reg(prog, VBE_EBDA_WIDTH_OFFSET, 0x36); // si
    emit_store_ds_word_from_reg(prog, VBE_EBDA_PITCH_OFFSET, 0x1E); // bx
    emit_store_ds_word_from_reg(prog, VBE_EBDA_VIRTUAL_WIDTH_OFFSET, 0x36); // si
    prog.emit(&[0x31, 0xC0, 0x88, 0xC8, 0xA3]); // xor ax,ax; mov al,cl; mov [bpp],ax
    prog.emit_word(VBE_EBDA_BPP_OFFSET);
    prog.emit(&[0xB8, 0x06, 0x00, 0xA3]); // mov ax,6; mov [dac_width],ax
    prog.emit_word(VBE_EBDA_DAC_WIDTH_OFFSET);
    prog.emit(&[0x31, 0xC0, 0xA3]); // xor ax,ax; mov [x_offset],ax
    prog.emit_word(VBE_EBDA_X_OFFSET);
    prog.emit(&[0xA3]); // mov [y_offset],ax
    prog.emit_word(VBE_EBDA_Y_OFFSET);
    prog.emit(&[0xA3]); // mov [bank],ax
    prog.emit_word(VBE_EBDA_BANK_OFFSET);
    prog.emit(&[0xB8, 0x40, 0x00, 0x8E, 0xD8]); // mov ax,40h; mov ds,ax
    prog.emit(&[0xC6, 0x06, 0x49, 0x00, 0x6F]); // BDA video mode = VESA active
    prog.emit(&[0x1F, 0x5D, 0x5F, 0x5E, 0x5A, 0x59, 0x5B]);
    prog.jump(chars_of("success"));

    prog.label(chars_of("get_mode"));
    prog.emit(&[0x1E, 0xB8]);
    prog.emit_word(ebda_segment);
    prog.emit(&[0x8E, 0xD8, 0x8B, 0x1E]); // mov ds,ax; mov bx,[current_mode]
    prog.emit_word(VBE_EBDA_CURRENT_MODE_OFFSET);
    prog.emit(&[0x1F]);
    prog.jump(chars_of("success"));
}

/// VBE function 05h: set or get the bank of window A.
pub open spec fn window_control_ops(ebda_segment: u16) -> Seq<AsmOp> {
    Seq::empty()
        .push(asm_label("window_control"@))
        .push(asm_bytes(seq![0x56u8, 0x1E]))
        .push(asm_bytes(seq![0x80u8, 0xFF, 0x00]))
        .push(asm_je("window_control_decode"@))
        .push(asm_jmp("window_control_failure"@))
        .push(asm_label("window_control_decode"@))
        .push(asm_bytes(seq![0x89u8, 0xDE, 0x81, 0xE6, 0xFF, 0x00]))
        .push(asm_bytes([0xB8u8]@))
        .push(asm_word(ebda_segment))
        .push(asm_bytes(seq![0x8Eu8, 0xD8]))
        .push(asm_bytes(seq![0x81u8, 0xFE, 0x00, 0x00]))
        .push(asm_je("window_control_set"@))
        .push(asm_bytes(seq![0x81u8, 0xFE, 0x01, 0x00]))
        .push(asm_je("window_control_get"@))
        .push(asm_jmp("window_control_failure_with_ds"@))
        .push(asm_label("window_control_set"@))
        .push(asm_bytes(ds_word_from_reg(VBE_EBDA_BANK_OFFSET, 0x16)))
        .push(asm_bytes(seq![0x89u8, 0xD6]))
        .push(asm_bytes(seq![0xBAu8, 0xCE, 0x01, 0xB8, 0x05, 0x00, 0xEF, 0x42, 0x89, 0xF0, 0xEF]))
        .push(asm_jmp("window_control_success"@))
        .push(asm_label("window_control_get"@))
        .push(asm_bytes(seq![0x8Bu8, 0x16]))
        .push(asm_word(VBE_EBDA_BANK_OFFSET))
        .push(asm_label("window_control_success"@))
        .push(asm_bytes(seq![0x1Fu8, 0x5E]))
        .push(asm_jmp("success"@))
        .push(asm_label("window_control_failure_with_ds"@))
        .push(asm_bytes([0x1Fu8]@))
        .push(asm_bytes([0x5Eu8]@))
        .push(asm_jmp("failure"@))
        .push(asm_label("window_control_failure"@))
        .push(asm_bytes(seq![0x1Fu8, 0x5E]))
        .push(asm_jmp("failure"@))
}

fn emit_window_control(prog: &mut RomAssembler, ebda_segment: u16)
    requires
        old(prog).wf(),
    ensures
        final(prog).wf(),
        final(prog).origin() == old(prog).origin(),
        final(prog).state() == asm_run(old(prog).state(), window_control_ops(ebda_segment)),
{
    broadcast use lemma_asm_run_push;

    prog.label(chars_of("window_control"));
    prog.emit(&[0x56, 0x1E]); // push si,ds
    prog.emit(&[0x80, 0xFF, 0x00]); // cmp bh,0 (only window A exists)
    prog.jump_if_equal(chars_of("window_control_decode"));
    prog.jump(chars_of("window_control_failure"));

    prog.label(chars_of("window_control_decode"));
    prog.emit(&[0x89, 0xDE, 0x81, 0xE6, 0xFF, 0x00]); // mov si,bx; and si,00ffh
    prog.emit(&[0xB8]);
    prog.emit_word(ebda_segment);
    prog.emit(&[0x8E, 0xD8]); // mov ds,ax
    prog.emit(&[0x81, 0xFE, 0x00, 0x00]); // cmp si,0 (set)
    prog.jump_if_equal(chars_of("window_control_set"));
    prog.emit(&[0x81, 0xFE, 0x01, 0x00]); // cmp si,1 (get)
    prog.jump_if_equal(chars_of("window_control_get"));
    prog.jump(chars_of("window_control_failure_with_ds"));

    prog.label(chars_of("window_control_set"));
    emit_store_ds_word_from_reg(prog, VBE_EBDA_BANK_OFFSET, 0x16); // dx
    prog.emit(&[0x89, 0xD6]); // mov si,dx
                             // VBE_DISPI_INDEX_BANK = si.
    prog.emit(&[
        0xBA, 0xCE, 0x01, 0xB8, 0x05, 0x00, 0xEF, 0x42, 0x89, 0xF0, 0xEF,
    ]);
    prog.jump(chars_of("window_control_success"));

    prog.label(chars_of("window_control_get"));
    prog.emit(&[0x8B, 0x16]); // mov dx,[bank]
    prog.emit_word(VBE_EBDA_BANK_OFFSET);

    prog.label(chars_of("window_control_success"));
    prog.emit(&[0x1F, 0x5E]); // pop ds,si
    prog.jump(chars_of("success"));

    prog.label(chars_of("window_control_failure_with_ds"));
    prog.emit(&[0x1F]); // pop ds
    prog.emit(&[0x5E]); // pop si
    prog.jump(chars_of("failure"));

    prog.label(chars_of("window_control_failure"));
    prog.emit(&[0x1F, 0x5E]); // pop ds,si
    prog.jump(chars_of("failure"));
}

/// VBE function 06h: set or get the logical scan-line length.
pub open spec fn scan_line_ops(ebda_segment: u16) -> Seq<AsmOp> {
    Seq::empty()
        .push(asm_label("scan_line"@))
        .push(asm_bytes(seq![0x56u8, 0x57, 0x1E]))
        .push(asm_bytes(seq![0x89u8, 0xDE, 0x81, 0xE6, 0xFF, 0x00]))
        .push(asm_bytes([0xB8u8]@))
        .push(asm_word(ebda_segment))
        .push(asm_bytes(seq![0x8Eu8, 0xD8]))
        .push(asm_bytes(seq![0x8Bu8, 0x3E]))
        .push(asm_word(VBE_EBDA_BPP_OFFSET))
        .push(asm_bytes(seq![0xD1u8, 0xEF, 0xD1, 0xEF, 0xD1, 0xEF]))
        .push(asm_bytes(seq![0x09u8, 0xFF]))
        .push(asm_je("scan_line_failure"@))
        .push(asm_bytes(seq![0x81u8, 0xFE, 0x01, 0x00]))
        .push(asm_je("scan_line_report"@))
        .push(asm_bytes(seq![0x81u8, 0xFE, 0x03, 0x00]))
        .push(asm_je("scan_line_report"@))
        .push(asm_bytes(seq![0x81u8, 0xFE, 0x00, 0x00]))
        .push(asm_je("scan_line_set_pixels"@))
        .push(asm_bytes(seq![0x81u8, 0xFE, 0x02, 0x00]))
        .push(asm_je("scan_line_set_bytes"@))
        .push(asm_jmp("scan_line_failure"@))
        .push(asm_label("scan_line_set_pixels"@))
        .push(asm_bytes(seq![0x89u8, 0xCE]))
        .push(asm_bytes(seq![0xB8u8, 0xFF, 0xFF, 0x31, 0xD2, 0xF7, 0xF7]))
        .push(asm_bytes(seq![0x39u8, 0xC6]))
        .push(asm_jbe("scan_line_clamp_minimum"@))
        .push(asm_bytes(seq![0x89u8, 0xC6]))
        .push(asm_jmp("scan_line_clamp_minimum"@))
        .push(asm_label("scan_line_set_bytes"@))
        .push(asm_bytes(seq![0x89u8, 0xC8, 0x31, 0xD2, 0xF7, 0xF7, 0x89, 0xC6]))
        .push(asm_label("scan_line_clamp_minimum"@))
        .push(asm_bytes(seq![0x3Bu8, 0x36]))
        .push(asm_word(VBE_EBDA_WIDTH_OFFSET))
        .push(asm_jae("scan_line_program"@))
        .push(asm_bytes(seq![0x8Bu8, 0x36]))
        .push(asm_word(VBE_EBDA_WIDTH_OFFSET))
        .push(asm_label("scan_line_program"@))
        .push(asm_bytes(seq![0x89u8, 0xF0, 0xF7, 0xE7]))
        .push(asm_bytes([0xA3u8]@))
        .push(asm_word(VBE_EBDA_PITCH_OFFSET))
        .push(asm_bytes(ds_word_from_reg(VBE_EBDA_VIRTUAL_WIDTH_OFFSET, 0x36)))
        .push(asm_bytes(seq![0xBAu8, 0xCE, 0x01, 0xB8, 0x06, 0x00, 0xEF, 0x42, 0x89, 0xF0, 0xEF]))
        .push(asm_label("scan_line_report"@))
        .push(asm_bytes(seq![0x8Bu8, 0x1E]))
        .push(asm_word(VBE_EBDA_PITCH_OFFSET))
        .push(asm_bytes(seq![0x8Bu8, 0x0E]))
        .push(asm_word(VBE_EBDA_VIRTUAL_WIDTH_OFFSET))
        .push(asm_bytes(seq![0xBAu8, 0xFF, 0xFF]))
        .push(asm_bytes(seq![0x1Fu8, 0x5F, 0x5E]))
        .push(asm_jmp("success"@))
        .push(asm_label("scan_line_failure"@))
        .push(asm_bytes(seq![0x1Fu8, 0x5F, 0x5E]))
        .push(asm_jmp("failure"@))
}

fn emit_scan_line(prog: &mut RomAssembler, ebda_segment: u16)
    requires
        old(prog).wf(),
    ensures
        final(prog).wf(),
        final(prog).origin() == old(prog).origin(),
        final(prog).state() == asm_run(old(prog).state(), scan_line_ops(ebda_segment)),
{
    broadcast use lemma_asm_run_push;

    prog.label(chars_of("scan_line"));
    prog.emit(&[0x56, 0x57, 0x1E]); // push si,di,ds
    prog.emit(&[0x89, 0xDE, 0x81, 0xE6, 0xFF, 0x00]); // mov si,bx; and si,00ffh
    prog.emit(&[0xB8]);
    prog.emit_word(ebda_segment);
    prog.emit(&[0x8E, 0xD8]); // mov ds,ax
    prog.emit(&[0x8B, 0x3E]); // mov di,[bpp]
    prog.emit_word(VBE_EBDA_BPP_OFFSET);
    // Convert bits per pixel to bytes per pixel. All advertised direct-color modes are byte
    // aligned, so three 8086-compatible single-bit shifts avoid relying on an 80186 immediate
    // shift instruction in guest ROM interpreters.
    prog.emit(&[0xD1, 0xEF, 0xD1, 0xEF, 0xD1, 0xEF]); // shr di,1 (x3)
    prog.emit(&[0x09, 0xFF]); // or di,di
    prog.jump_if_equal(chars_of("scan_line_failure"));

    prog.emit(&[0x81, 0xFE, 0x01, 0x00]); // cmp si,1 (get)
    prog.jump_if_equal(chars_of("scan_line_report"));
    prog.emit(&[0x81, 0xFE, 0x03, 0x00]); // cmp si,3 (get maximum)
    prog.jump_if_equal(chars_of("scan_line_report"));
    prog.emit(&[0x81, 0xFE, 0x00, 0x00]); // cmp si,0 (set pixels)
    prog.jump_if_equal(chars_of("scan_line_set_pixels"));
    prog.emit(&[0x81, 0xFE, 0x02, 0x00]); // cmp si,2 (set bytes)
    prog.jump_if_equal(chars_of("scan_line_set_bytes"));
    prog.jump(chars_of("scan_line_failure"));

    prog.label(chars_of("scan_line_set_pixels"));
    prog.emit(&[0x89, 0xCE]); // mov si,cx
                             // Clamp the requested pixel count so `pixels * bytes_per_pixel` remains representable in the
                             // VBE 16-bit BytesPerScanLine result.
    prog.emit(&[0xB8, 0xFF, 0xFF, 0x31, 0xD2, 0xF7, 0xF7]); // ax=ffffh; xor dx,dx; div di
    prog.emit(&[0x39, 0xC6]); // cmp si,ax
    prog.jump_if_below_or_equal(chars_of("scan_line_clamp_minimum"));
    prog.emit(&[0x89, 0xC6]); // mov si,ax
    prog.jump(chars_of("scan_line_clamp_minimum"));

    prog.label(chars_of("scan_line_set_bytes"));
    // Bochs/QEMU represents line length as VIRT_WIDTH pixels. Match SeaBIOS by rounding a
    // byte-granular request down to the nearest whole pixel.
    prog.emit(&[0x89, 0xC8, 0x31, 0xD2, 0xF7, 0xF7, 0x89, 0xC6]); // ax=cx; dx=0; div di; si=ax

    prog.label(chars_of("scan_line_clamp_minimum"));
    prog.emit(&[0x3B, 0x36]); // cmp si,[physical_width]
    prog.emit_word(VBE_EBDA_WIDTH_OFFSET);
    prog.jump_if_above_or_equal(chars_of("scan_line_program"));
    prog.emit(&[0x8B, 0x36]); // mov si,[physical_width]
    prog.emit_word(VBE_EBDA_WIDTH_OFFSET);

    prog.label(chars_of("scan_line_program"));
    prog.emit(&[0x89, 0xF0, 0xF7, 0xE7]); // mov ax,si; mul di
    prog.emit(&[0xA3]); // mov [pitch],ax
    prog.emit_word(VBE_EBDA_PITCH_OFFSET);
    emit_store_ds_word_from_reg(prog, VBE_EBDA_VIRTUAL_WIDTH_OFFSET, 0x36); // si

    // VBE_DISPI_INDEX_VIRT_WIDTH = si.
    prog.emit(&[
        0xBA, 0xCE, 0x01, 0xB8, 0x06, 0x00, 0xEF, 0x42, 0x89, 0xF0, 0xEF,
    ]);

    prog.label(chars_of("scan_line_report"));
    prog.emit(&[0x8B, 0x1E]); // mov bx,[pitch]
    prog.emit_word(VBE_EBDA_PITCH_OFFSET);
    prog.emit(&[0x8B, 0x0E]); // mov cx,[virtual_width]
    prog.emit_word(VBE_EBDA_VIRTUAL_WIDTH_OFFSET);
    prog.emit(&[0xBA, 0xFF, 0xFF]); // conservative maximum scan-line count
    prog.emit(&[0x1F, 0x5F, 0x5E]);
    prog.jump(chars_of("success"));

    prog.label(chars_of("scan_line_failure"));
    prog.emit(&[0x1F, 0x5F, 0x5E]);
    prog.jump(chars_of("failure"));
}

/// VBE function 07h: set or get the display start.
pub open spec fn display_start_ops(ebda_segment: u16) -> Seq<AsmOp> {
    Seq::empty()
        .push(asm_label("display_start"@))
        .push(asm_bytes(seq![0x56u8, 0x57, 0x1E]))
        .push(asm_bytes(seq![0x89u8, 0xDE, 0x81, 0xE6, 0x7F, 0x00]))
        .push(asm_bytes([0xB8u8]@))
        .push(asm_word(ebda_segment))
        .push(asm_bytes(seq![0x8Eu8, 0xD8]))
        .push(asm_bytes(seq![0x81u8, 0xFE, 0x00, 0x00]))
        .push(asm_je("display_start_set"@))
        .push(asm_bytes(seq![0x81u8, 0xFE, 0x01, 0x00]))
        .push(asm_je("display_start_get"@))
        .push(asm_jmp("display_start_failure"@))
        .push(asm_label("display_start_set"@))
        .push(asm_bytes(seq![0x89u8, 0xCE, 0x89, 0xD7]))
        .push(asm_bytes(ds_word_from_reg(VBE_EBDA_X_OFFSET, 0x36)))
        .push(asm_bytes(ds_word_from_reg(VBE_EBDA_Y_OFFSET, 0x3E)))
        .push(asm_bytes(seq![0xBAu8, 0xCE, 0x01, 0xB8, 0x08, 0x00, 0xEF, 0x42, 0x89, 0xF0, 0xEF]))
        .push(asm_bytes(seq![0xBAu8, 0xCE, 0x01, 0xB8, 0x09, 0x00, 0xEF, 0x42, 0x89, 0xF8, 0xEF]))
        .push(asm_jmp("display_start_success"@))
        .push(asm_label("display_start_get"@))
        .push(asm_bytes(seq![0x8Bu8, 0x0E]))
        .push(asm_word(VBE_EBDA_X_OFFSET))
        .push(asm_bytes(seq![0x8Bu8, 0x16]))
        .push(asm_word(VBE_EBDA_Y_OFFSET))
        .push(asm_label("display_start_success"@))
        .push(asm_bytes(seq![0x1Fu8, 0x5F, 0x5E]))
        .push(asm_jmp("success"@))
        .push(asm_label("display_start_failure"@))
        .push(asm_bytes(seq![0x1Fu8, 0x5F, 0x5E]))
        .push(asm_jmp("failure"@))
}

fn emit_display_start(prog: &mut RomAssembler, ebda_segment: u16)
    requires
        old(prog).wf(),
    ensures
        final(prog).wf(),
        final(prog).origin() == old(prog).origin(),
        final(prog).state() == asm_run(old(prog).state(), display_start_ops(ebda_segment)),
{
    broadcast use lemma_asm_run_push;

    prog.label(chars_of("display_start"));
    prog.emit(&[0x56, 0x57, 0x1E]); // push si,di,ds
    prog.emit(&[0x89, 0xDE, 0x81, 0xE6, 0x7F, 0x00]); // mov si,bx; and si,007fh
    prog.emit(&[0xB8]);
    prog.emit_word(ebda_segment);
    prog.emit(&[0x8E, 0xD8]); // mov ds,ax
    prog.emit(&[0x81, 0xFE, 0x00, 0x00]); // cmp si,0 (set)
    prog.jump_if_equal(chars_of("display_start_set"));
    prog.emit(&[0x81, 0xFE, 0x01, 0x00]); // cmp si,1 (get)
    prog.jump_if_equal(chars_of("display_start_get"));
    prog.jump(chars_of("display_start_failure"));

    prog.label(chars_of("display_start_set"));
    prog.emit(&[0x89, 0xCE, 0x89, 0xD7]); // mov si,cx; mov di,dx
    emit_store_ds_word_from_reg(prog, VBE_EBDA_X_OFFSET, 0x36); // si
    emit_store_ds_word_from_reg(prog, VBE_EBDA_Y_OFFSET, 0x3E); // di
                                                                    // VBE_DISPI_INDEX_X_OFFSET = si.
    prog.emit(&[
        0xBA, 0xCE, 0x01, 0xB8, 0x08, 0x00, 0xEF, 0x42, 0x89, 0xF0, 0xEF,
    ]);
    // VBE_DISPI_INDEX_Y_OFFSET = di.
    prog.emit(&[
        0xBA, 0xCE, 0x01, 0xB8, 0x09, 0x00, 0xEF, 0x42, 0x89, 0xF8, 0xEF,
    ]);
    prog.jump(chars_of("display_start_success"));

    prog.label(chars_of("display_start_get"));
    prog.emit(&[0x8B, 0x0E]); // mov cx,[x_offset]
    prog.emit_word(VBE_EBDA_X_OFFSET);
    prog.emit(&[0x8B, 0x16]); // mov dx,[y_offset]
    prog.emit_word(VBE_EBDA_Y_OFFSET);

    prog.label(chars_of("display_start_success"));
    prog.emit(&[0x1F, 0x5F, 0x5E]);
    prog.jump(chars_of("success"));

    prog.label(chars_of("display_start_failure"));
    prog.emit(&[0x1F, 0x5F, 0x5E]);
    prog.jump(chars_of("failure"));
}

/// VBE function 08h: set or get the DAC width.
pub open spec fn dac_format_ops(ebda_segment: u16) -> Seq<AsmOp> {
    Seq::empty()
        .push(asm_label("dac_format"@))
        .push(asm_bytes(seq![0x56u8, 0x1E]))
        .push(asm_bytes(seq![0x89u8, 0xDE, 0x81, 0xE6, 0xFF, 0x00]))
        .push(asm_bytes([0xB8u8]@))
        .push(asm_word(ebda_segment))
        .push(asm_bytes(seq![0x8Eu8, 0xD8]))
        .push(asm_bytes(seq![0x81u8, 0xFE, 0x00, 0x00]))
        .push(asm_je("dac_format_set"@))
        .push(asm_bytes(seq![0x81u8, 0xFE, 0x01, 0x00]))
        .push(asm_je("dac_format_get"@))
        .push(asm_jmp("dac_format_failure"@))
        .push(asm_label("dac_format_set"@))
        .push(asm_bytes(seq![0x88u8, 0xF8]))
        .push(asm_bytes(seq![0x3Cu8, 0x06]))
        .push(asm_je("dac_format_store"@))
        .push(asm_bytes(seq![0x3Cu8, 0x08]))
        .push(asm_je("dac_format_store"@))
        .push(asm_jmp("dac_format_failure"@))
        .push(asm_label("dac_format_store"@))
        .push(asm_bytes(seq![0x30u8, 0xE4, 0xA3]))
        .push(asm_word(VBE_EBDA_DAC_WIDTH_OFFSET))
        .push(asm_label("dac_format_get"@))
        .push(asm_bytes([0xA0u8]@))
        .push(asm_word(VBE_EBDA_DAC_WIDTH_OFFSET))
        .push(asm_bytes(seq![0x88u8, 0xC7]))
        .push(asm_bytes(seq![0x1Fu8, 0x5E]))
        .push(asm_jmp("success"@))
        .push(asm_label("dac_format_failure"@))
        .push(asm_bytes(seq![0x1Fu8, 0x5E]))
        .push(asm_jmp("failure"@))
}

fn emit_dac_format(prog: &mut RomAssembler, ebda_segment: u16)
    requires
        old(prog).wf(),
    ensures
        final(prog).wf(),
        final(prog).origin() == old(prog).origin(),
        final(prog).state() == asm_run(old(prog).state(), dac_format_ops(ebda_segment)),
{
    broadcast use lemma_asm_run_push;

    prog.label(chars_of("dac_format"));
    prog.emit(&[0x56, 0x1E]); // push si,ds
    prog.emit(&[0x89, 0xDE, 0x81, 0xE6, 0xFF, 0x00]); // mov si,bx; and si,00ffh
    prog.emit(&[0xB8]);
    prog.emit_word(ebda_segment);
    prog.emit(&[0x8E, 0xD8]); // mov ds,ax
    prog.emit(&[0x81, 0xFE, 0x00, 0x00]); // cmp si,0 (set)
    prog.jump_if_equal(chars_of("dac_format_set"));
    prog.emit(&[0x81, 0xFE, 0x01, 0x00]); // cmp si,1 (get)
    prog.jump_if_equal(chars_of("dac_format_get"));
    prog.jump(chars_of("dac_format_failure"));

    prog.label(chars_of("dac_format_set"));
    prog.emit(&[0x88, 0xF8]); // mov al,bh
    prog.emit(&[0x3C, 0x06]); // cmp al,6
    prog.jump_if_equal(chars_of("dac_format_store"));
    prog.emit(&[0x3C, 0x08]); // cmp al,8
    prog.jump_if_equal(chars_of("dac_format_store"));
    prog.jump(chars_of("dac_format_failure"));

    prog.label(chars_of("dac_format_store"));
    prog.emit(&[0x30, 0xE4, 0xA3]); // xor ah,ah; mov [dac_width],ax
    prog.emit_word(VBE_EBDA_DAC_WIDTH_OFFSET);

    prog.label(chars_of("dac_format_get"));
    prog.emit(&[0xA0]); // mov al,[dac_width]
    prog.emit_word(VBE_EBDA_DAC_WIDTH_OFFSET);
    prog.emit(&[0x88, 0xC7]); // mov bh,al
    prog.emit(&[0x1F, 0x5E]); // pop ds,si
    prog.jump(chars_of("success"));

    prog.label(chars_of("dac_format_failure"));
    prog.emit(&[0x1F, 0x5E]); // pop ds,si
    prog.jump(chars_of("failure"));
}

/// VBE function 09h: load or read palette entries through the VGA DAC.
pub open spec fn palette_data_ops(ebda_segment: u16) -> Seq<AsmOp> {
    Seq::empty()
        .push(asm_label("palette_data"@))
        .push(asm_bytes(seq![0x53u8, 0x51, 0x52, 0x56, 0x57, 0x55, 0x1E]))
        .push(asm_bytes(seq![0x81u8, 0xE3, 0x7F, 0x00]))
        .push(asm_bytes(seq![0x81u8, 0xFB, 0x00, 0x00]))
        .push(asm_je("palette_validate"@))
        .push(asm_bytes(seq![0x81u8, 0xFB, 0x01, 0x00]))
        .push(asm_je("palette_validate"@))
        .push(asm_jmp("palette_failure"@))
        .push(asm_label("palette_validate"@))
        .push(asm_bytes(seq![0x80u8, 0xFE, 0x00]))
        .push(asm_je("palette_validate_count"@))
        .push(asm_jmp("palette_failure"@))
        .push(asm_label("palette_validate_count"@))
        .push(asm_bytes(seq![0x89u8, 0xD6, 0x81, 0xE6, 0xFF, 0x00, 0x89, 0xCD]))
        .push(asm_bytes(seq![0x81u8, 0xFD, 0x00, 0x01]))
        .push(asm_jbe("palette_validate_end"@))
        .push(asm_jmp("palette_failure"@))
        .push(asm_label("palette_validate_end"@))
        .push(asm_bytes(seq![0x89u8, 0xF0, 0x01, 0xE8, 0x3D, 0x00, 0x01]))
        .push(asm_jbe("palette_load_dac_state"@))
        .push(asm_jmp("palette_failure"@))
        .push(asm_label("palette_load_dac_state"@))
        .push(asm_bytes([0xB8u8]@))
        .push(asm_word(ebda_segment))
        .push(asm_bytes(seq![0x8Eu8, 0xD8]))
        .push(asm_bytes(seq![0x81u8, 0xFB, 0x00, 0x00]))
        .push(asm_je("palette_set_begin"@))
        .push(asm_jmp("palette_get_begin"@))
        .push(asm_label("palette_set_begin"@))
        .push(asm_bytes(seq![0xBAu8, 0xC8, 0x03, 0x89, 0xF0, 0xEE, 0x42]))
        .push(asm_label("palette_set_check"@))
        .push(asm_bytes(seq![0x09u8, 0xED]))
        .push(asm_je("palette_success"@))
        .push(asm_bytes(seq![0x26u8, 0x8A, 0x45, 0x02, 0x80, 0x3E]))
        .push(asm_word(VBE_EBDA_DAC_WIDTH_OFFSET))
        .push(asm_bytes([0x08u8]@))
        .push(asm_jne("palette_set_r_write"@))
        .push(asm_bytes(seq![0xD0u8, 0xE8, 0xD0, 0xE8]))
        .push(asm_label("palette_set_r_write"@))
        .push(asm_bytes([0xEEu8]@))
        .push(asm_bytes(seq![0x26u8, 0x8A, 0x45, 0x01, 0x80, 0x3E]))
        .push(asm_word(VBE_EBDA_DAC_WIDTH_OFFSET))
        .push(asm_bytes([0x08u8]@))
        .push(asm_jne("palette_set_g_write"@))
        .push(asm_bytes(seq![0xD0u8, 0xE8, 0xD0, 0xE8]))
        .push(asm_label("palette_set_g_write"@))
        .push(asm_bytes([0xEEu8]@))
        .push(asm_bytes(seq![0x26u8, 0x8A, 0x05, 0x80, 0x3E]))
        .push(asm_word(VBE_EBDA_DAC_WIDTH_OFFSET))
        .push(asm_bytes([0x08u8]@))
        .push(asm_jne("palette_set_b_write"@))
        .push(asm_bytes(seq![0xD0u8, 0xE8, 0xD0, 0xE8]))
        .push(asm_label("palette_set_b_write"@))
        .push(asm_bytes(seq![0xEEu8, 0x83, 0xC7, 0x04, 0x4D]))
        .push(asm_jmp("palette_set_check"@))
        .push(asm_label("palette_get_begin"@))
        .push(asm_bytes(seq![0xBAu8, 0xC7, 0x03, 0x89, 0xF0, 0xEE]))
        .push(asm_bytes(seq![0xBAu8, 0xC9, 0x03]))
        .push(asm_label("palette_get_check"@))
        .push(asm_bytes(seq![0x09u8, 0xED]))
        .push(asm_je("palette_success"@))
        .push(asm_bytes(seq![0xECu8, 0x80, 0x3E]))
        .push(asm_word(VBE_EBDA_DAC_WIDTH_OFFSET))
        .push(asm_bytes([0x08u8]@))
        .push(asm_jne("palette_get_r_store"@))
        .push(asm_bytes(seq![0xD0u8, 0xE0, 0xD0, 0xE0]))
        .push(asm_label("palette_get_r_store"@))
        .push(asm_bytes(seq![0x26u8, 0x88, 0x45, 0x02]))
        .push(asm_bytes(seq![0xECu8, 0x80, 0x3E]))
        .push(asm_word(VBE_EBDA_DAC_WIDTH_OFFSET))
        .push(asm_bytes([0x08u8]@))
        .push(asm_jne("palette_get_g_store"@))
        .push(asm_bytes(seq![0xD0u8, 0xE0, 0xD0, 0xE0]))
        .push(asm_label("palette_get_g_store"@))
        .push(asm_bytes(seq![0x26u8, 0x88, 0x45, 0x01]))
        .push(asm_bytes(seq![0xECu8, 0x80, 0x3E]))
        .push(asm_word(VBE_EBDA_DAC_WIDTH_OFFSET))
        .push(asm_bytes([0x08u8]@))
        .push(asm_jne("palette_get_b_store"@))
        .push(asm_bytes(seq![0xD0u8, 0xE0, 0xD0, 0xE0]))
        .push(asm_label("palette_get_b_store"@))
        .push(asm_bytes(seq![0x26u8, 0x88, 0x05, 0x30, 0xC0, 0x26, 0x88, 0x45, 0x03]))
        .push(asm_bytes(seq![0x83u8, 0xC7, 0x04, 0x4D]))
        .push(asm_jmp("palette_get_check"@))
        .push(asm_label("palette_success"@))
        .push(asm_bytes(seq![0x1Fu8, 0x5D, 0x5F, 0x5E, 0x5A, 0x59, 0x5B]))
        .push(asm_jmp("success"@))
        .push(asm_label("palette_failure"@))
        .push(asm_bytes(seq![0x1Fu8, 0x5D, 0x5F, 0x5E, 0x5A, 0x59, 0x5B]))
        .push(asm_jmp("failure"@))
}

#[verifier::rlimit(80)]
#[verifier::spinoff_prover]
fn emit_palette_data(prog: &mut RomAssembler, ebda_segment: u16)
    requires
        old(prog).wf(),
    ensures
        final(prog).wf(),
        final(prog).origin() == old(prog).origin(),
        final(prog).state() == asm_run(old(prog).state(), palette_data_ops(ebda_segment)),
{
    broadcast use lemma_asm_run_push;

    prog.label(chars_of("palette_data"));
    // Preserve all caller-visible operands; only AX is the VBE status result.
    prog.emit(&[0x53, 0x51, 0x52, 0x56, 0x57, 0x55, 0x1E]); // push bx,cx,dx,si,di,bp,ds
    prog.emit(&[0x81, 0xE3, 0x7F, 0x00]); // and bx,007fh (accept set-during-retrace)
    prog.emit(&[0x81, 0xFB, 0x00, 0x00]); // cmp bx,0 (set)
    prog.jump_if_equal(chars_of("palette_validate"));
    prog.emit(&[0x81, 0xFB, 0x01, 0x00]); // cmp bx,1 (get)
    prog.jump_if_equal(chars_of("palette_validate"));
    prog.jump(chars_of("palette_failure"));

    prog.label(chars_of("palette_validate"));
    prog.emit(&[0x80, 0xFE, 0x00]); // cmp dh,0
    prog.jump_if_equal(chars_of("palette_validate_count"));
    prog.jump(chars_of("palette_failure"));

    prog.label(chars_of("palette_validate_count"));
    prog.emit(&[0x89, 0xD6, 0x81, 0xE6, 0xFF, 0x00, 0x89, 0xCD]); // si=dx&ffh; bp=cx
    prog.emit(&[0x81, 0xFD, 0x00, 0x01]); // cmp bp,256
    prog.jump_if_below_or_equal(chars_of("palette_validate_end"));
    prog.jump(chars_of("palette_failure"));

    prog.label(chars_of("palette_validate_end"));
    prog.emit(&[0x89, 0xF0, 0x01, 0xE8, 0x3D, 0x00, 0x01]); // ax=si; add ax,bp; cmp ax,256
    prog.jump_if_below_or_equal(chars_of("palette_load_dac_state"));
    prog.jump(chars_of("palette_failure"));

    prog.label(chars_of("palette_load_dac_state"));
    prog.emit(&[0xB8]);
    prog.emit_word(ebda_segment);
    prog.emit(&[0x8E, 0xD8]); // mov ds,ax
    prog.emit(&[0x81, 0xFB, 0x00, 0x00]); // cmp bx,0
    prog.jump_if_equal(chars_of("palette_set_begin"));
    prog.jump(chars_of("palette_get_begin"));

    prog.label(chars_of("palette_set_begin"));
    prog.emit(&[0xBA, 0xC8, 0x03, 0x89, 0xF0, 0xEE, 0x42]); // dx=3c8h; ax=si; out dx,al; inc dx
    prog.label(chars_of("palette_set_check"));
    prog.emit(&[0x09, 0xED]); // or bp,bp
    prog.jump_if_equal(chars_of("palette_success"));

    // VBE palette entries are B,G,R,0. VGA DAC writes are R,G,B. When the guest selected the
    // VBE 8-bit DAC format, downscale to the emulated VGA DAC's native six bits before writing.
    prog.emit(&[0x26, 0x8A, 0x45, 0x02, 0x80, 0x3E]); // mov al,es:[di+2]; cmp byte [dac_width],8
    prog.emit_word(VBE_EBDA_DAC_WIDTH_OFFSET);
    prog.emit(&[0x08]);
    prog.jump_if_not_equal(chars_of("palette_set_r_write"));
    prog.emit(&[0xD0, 0xE8, 0xD0, 0xE8]); // shr al,1 (x2)
    prog.label(chars_of("palette_set_r_write"));
    prog.emit(&[0xEE]); // out dx,al

    prog.emit(&[0x26, 0x8A, 0x45, 0x01, 0x80, 0x3E]); // mov al,es:[di+1]; cmp byte [dac_width],8
    prog.emit_word(VBE_EBDA_DAC_WIDTH_OFFSET);
    prog.emit(&[0x08]);
    prog.jump_if_not_equal(chars_of("palette_set_g_write"));
    prog.emit(&[0xD0, 0xE8, 0xD0, 0xE8]); // shr al,1 (x2)
    prog.label(chars_of("palette_set_g_write"));
    prog.emit(&[0xEE]); // out dx,al

    prog.emit(&[0x26, 0x8A, 0x05, 0x80, 0x3E]); // mov al,es:[di]; cmp byte [dac_width],8
    prog.emit_word(VBE_EBDA_DAC_WIDTH_OFFSET);
    prog.emit(&[0x08]);
    prog.jump_if_not_equal(chars_of("palette_set_b_write"));
    prog.emit(&[0xD0, 0xE8, 0xD0, 0xE8]); // shr al,1 (x2)
    prog.label(chars_of("palette_set_b_write"));
    prog.emit(&[0xEE, 0x83, 0xC7, 0x04, 0x4D]); // out dx,al; add di,4; dec bp
    prog.jump(chars_of("palette_set_check"));

    prog.label(chars_of("palette_get_begin"));
    prog.emit(&[0xBA, 0xC7, 0x03, 0x89, 0xF0, 0xEE]); // dx=3c7h; ax=si; out dx,al
    prog.emit(&[0xBA, 0xC9, 0x03]); // mov dx,3c9h
    prog.label(chars_of("palette_get_check"));
    prog.emit(&[0x09, 0xED]); // or bp,bp
    prog.jump_if_equal(chars_of("palette_success"));
    // Read R,G,B and store B,G,R,0. Expand the emulated six-bit DAC values for VBE 8-bit mode.
    prog.emit(&[0xEC, 0x80, 0x3E]); // in al,dx; cmp byte [dac_width],8
    prog.emit_word(VBE_EBDA_DAC_WIDTH_OFFSET);
    prog.emit(&[0x08]);
    prog.jump_if_not_equal(chars_of("palette_get_r_store"));
    prog.emit(&[0xD0, 0xE0, 0xD0, 0xE0]); // shl al,1 (x2)
    prog.label(chars_of("palette_get_r_store"));
    prog.emit(&[0x26, 0x88, 0x45, 0x02]);

    prog.emit(&[0xEC, 0x80, 0x3E]); // in al,dx; cmp byte [dac_width],8
    prog.emit_word(VBE_EBDA_DAC_WIDTH_OFFSET);
    prog.emit(&[0x08]);
    prog.jump_if_not_equal(chars_of("palette_get_g_store"));
    prog.emit(&[0xD0, 0xE0, 0xD0, 0xE0]); // shl al,1 (x2)
    prog.label(chars_of("palette_get_g_store"));
    prog.emit(&[0x26, 0x88, 0x45, 0x01]);

    prog.emit(&[0xEC, 0x80, 0x3E]); // in al,dx; cmp byte [dac_width],8
    prog.emit_word(VBE_EBDA_DAC_WIDTH_OFFSET);
    prog.emit(&[0x08]);
    prog.jump_if_not_equal(chars_of("palette_get_b_store"));
    prog.emit(&[0xD0, 0xE0, 0xD0, 0xE0]); // shl al,1 (x2)
    prog.label(chars_of("palette_get_b_store"));
    prog.emit(&[0x26, 0x88, 0x05, 0x30, 0xC0, 0x26, 0x88, 0x45, 0x03]); // store B; zero/store reserved
    prog.emit(&[0x83, 0xC7, 0x04, 0x4D]); // add di,4; dec bp
    prog.jump(chars_of("palette_get_check"));

    prog.label(chars_of("palette_success"));
    prog.emit(&[0x1F, 0x5D, 0x5F, 0x5E, 0x5A, 0x59, 0x5B]); // pop ds,bp,di,si,dx,cx,bx
    prog.jump(chars_of("success"));

    prog.label(chars_of("palette_failure"));
    prog.emit(&[0x1F, 0x5D, 0x5F, 0x5E, 0x5A, 0x59, 0x5B]); // pop ds,bp,di,si,dx,cx,bx
    prog.jump(chars_of("failure"));
}

/// VBE functions 10h and 15h, and the shared success and failure exits.
pub open spec fn ddc_and_exits_ops() -> Seq<AsmOp> {
    Seq::empty()
        .push(asm_label("dpms"@))
        .push(asm_jmp("success"@))
        .push(asm_label("ddc"@))
        .push(asm_bytes(seq![0x80u8, 0xFB, 0x00]))
        .push(asm_je("ddc_capabilities"@))
        .push(asm_bytes(seq![0x80u8, 0xFB, 0x01]))
        .push(asm_jne("failure"@))
        .push(asm_bytes(seq![0x09u8, 0xD2]))
        .push(asm_jne("failure"@))
        .push(asm_bytes(seq![0x51u8, 0x56, 0x57, 0x1E]))
        .push(asm_bytes(seq![0x0Eu8, 0x1F]))
        .push(asm_bytes([0xBEu8]@))
        .push(asm_word(VBE_ROM_EDID_OFFSET))
        .push(asm_bytes(seq![0xB9u8, 0x40, 0x00, 0xFC, 0xF3, 0xA5]))
        .push(asm_bytes(seq![0x1Fu8, 0x5F, 0x5E, 0x59]))
        .push(asm_jmp("success"@))
        .push(asm_label("ddc_capabilities"@))
        .push(asm_bytes(seq![0xBBu8, 0x00, 0x02]))
        .push(asm_jmp("success"@))
        .push(asm_label("failure"@))
        .push(asm_bytes(seq![0xB8u8, 0x4F, 0x01, 0xF9, 0xCF]))
        .push(asm_label("success"@))
        .push(asm_bytes(seq![0xB8u8, 0x4F, 0x00, 0xF8, 0xCF]))
}

fn emit_ddc_and_exits(prog: &mut RomAssembler)
    requires
        old(prog).wf(),
    ensures
        final(prog).wf(),
        final(prog).origin() == old(prog).origin(),
        final(prog).state() == asm_run(old(prog).state(), ddc_and_exits_ops()),
{
    broadcast use lemma_asm_run_push;

    prog.label(chars_of("dpms"));
    prog.jump(chars_of("success"));

    prog.label(chars_of("ddc"));
    prog.emit(&[0x80, 0xFB, 0x00]); // cmp bl,0
    prog.jump_if_equal(chars_of("ddc_capabilities"));
    prog.emit(&[0x80, 0xFB, 0x01]); // cmp bl,1
    prog.jump_if_not_equal(chars_of("failure"));
    prog.emit(&[0x09, 0xD2]); // or dx,dx
    prog.jump_if_not_equal(chars_of("failure"));
    prog.emit(&[0x51, 0x56, 0x57, 0x1E]); // push cx,si,di,ds
    prog.emit(&[0x0E, 0x1F]); // push cs; pop ds
    prog.emit(&[0xBE]);
    prog.emit_word(VBE_ROM_EDID_OFFSET); // mov si,EDID
    prog.emit(&[0xB9, 0x40, 0x00, 0xFC, 0xF3, 0xA5]); // mov cx,64; cld; rep movsw
    prog.emit(&[0x1F, 0x5F, 0x5E, 0x59]); // pop ds,di,si,cx
    prog.jump(chars_of("success"));

    prog.label(chars_of("ddc_capabilities"));
    prog.emit(&[0xBB, 0x00, 0x02]); // mov bx,0200h: DDC2 + EDID
    prog.jump(chars_of("success"));

    prog.label(chars_of("failure"));
    prog.emit(&[0xB8, 0x4F, 0x01, 0xF9, 0xCF]); // ax=014fh; stc; iret
    prog.label(chars_of("success"));
    prog.emit(&[0xB8, 0x4F, 0x00, 0xF8, 0xCF]); // ax=004fh; clc; iret
}

/// Compare AX with `function` and jump to `label` on a match.
pub open spec fn dispatch_ops(function: u16, label: Seq<char>) -> Seq<AsmOp> {
    Seq::empty()
        .push(asm_bytes([0x3Du8]@))
        .push(asm_word(function))
        .push(asm_je(label))
}

fn emit_dispatch(prog: &mut RomAssembler, function: u16, label: &str)
    requires
        old(prog).wf(),
    ensures
        final(prog).wf(),
        final(prog).origin() == old(prog).origin(),
        final(prog).state() == asm_run(old(prog).state(), dispatch_ops(function, label@)),
{
    broadcast use lemma_asm_run_push;

    prog.emit(&[0x3D]);
    prog.emit_word(function);  // cmp ax, imm16
    prog.jump_if_equal(chars_of(label));
}

/// VBE function 01h, entry: save the registers and take the mode number from CX.
pub open spec fn mode_info_head() -> Seq<AsmOp> {
    Seq::empty()
        .push(asm_label("mode_info"@))
        .push(asm_bytes(seq![0x53u8, 0x51, 0x52, 0x56, 0x57, 0x1E]))
        .push(asm_bytes(seq![0x89u8, 0xCB, 0x81, 0xE3, 0xFF, 0x3F]))
}

/// VBE function 01h: compare the requested mode with each of the first `n` modes and jump to
/// that mode's copier on a match.
pub open spec fn mode_info_matches(modes: Seq<VbeMode>, n: int) -> Seq<AsmOp>
    decreases n,
{
    if n <= 0 {
        Seq::empty()
    } else {
        mode_info_matches(modes, n - 1)
            .push(asm_bytes(seq![0x81u8, 0xFB]))
            .push(asm_word(modes[n - 1].mode))
            .push(asm_je("copy_mode_"@ + decimal((n - 1) as nat)))
    }
}

/// VBE function 01h, no match: restore the registers and fail.
pub open spec fn mode_info_unknown() -> Seq<AsmOp> {
    Seq::empty()
        .push(asm_bytes(seq![0x1Fu8, 0x5F, 0x5E, 0x5A, 0x59, 0x5B]))
        .push(asm_jmp("failure"@))
}

/// VBE function 01h: for each of the first `n` modes, point SI at its mode-info block in the
/// ROM and go copy it.
pub open spec fn mode_info_loads(n: int) -> Seq<AsmOp>
    decreases n,
{
    if n <= 0 {
        Seq::empty()
    } else {
        mode_info_loads(n - 1)
            .push(asm_label("copy_mode_"@ + decimal((n - 1) as nat)))
            .push(asm_bytes([0xBEu8]@))
            .push(asm_word((VBE_ROM_MODE_INFO_OFFSET + (n - 1) * 0x100) as u16))
            .push(asm_jmp("copy_mode"@))
    }
}

/// VBE function 01h: copy the mode-info block of the mode in CX.
pub open spec fn mode_info_ops(modes: Seq<VbeMode>) -> Seq<AsmOp> {
    mode_info_head() + mode_info_matches(modes, modes.len() as int) + mode_info_unknown()
        + mode_info_loads(modes.len() as int)
}

/// VBE function 01h: copy the mode-info block of the mode in CX.
fn emit_mode_info(prog: &mut RomAssembler, modes: &[VbeMode]) -> (r: Result<(), BiosError>)
    requires
        old(prog).wf(),
    ensures
        final(prog).wf(),
        final(prog).origin() == old(prog).origin(),
        r is Err <==> modes@.len() > 0x58,
        r is Err ==> r == Err::<(), BiosError>(BiosError::ModeInfoOffset),
        r is Ok ==> final(prog).state() == asm_run(old(prog).state(), mode_info_ops(modes@)),
{
    broadcast use lemma_asm_run_push;

    let ghost s0 = prog.state();
    prog.label(chars_of("mode_info"));
    prog.emit(&[0x53, 0x51, 0x52, 0x56, 0x57, 0x1E]);  // push bx,cx,dx,si,di,ds
    prog.emit(&[0x89, 0xCB, 0x81, 0xE3, 0xFF, 0x3F]);  // mov bx,cx; and bx,3fffh
    let ghost s1 = asm_run(s0, mode_info_head());
    assert(prog.state() == s1);
    let mut index: usize = 0;
    while index < modes.len()
        invariant
            index <= modes@.len(),
            prog.wf(),
            prog.origin() == old(prog).origin(),
            prog.state() == asm_run(s1, mode_info_matches(modes@, index as int)),
        decreases modes@.len() - index,
    {
        prog.emit(&[0x81, 0xFB]);  // cmp bx, imm16
        prog.emit_word(modes[index].mode);
        prog.jump_if_equal(indexed_label("copy_mode_", index));
        proof {
            let m = mode_info_matches(modes@, index as int);
            let a = asm_bytes(seq![0x81u8, 0xFB]);
            let b = asm_word(modes@[index as int].mode);
            let c = asm_je("copy_mode_"@ + decimal(index as nat));
            lemma_asm_run_push(s1, m, a);
            lemma_asm_run_push(s1, m.push(a), b);
            lemma_asm_run_push(s1, m.push(a).push(b), c);
            assert(mode_info_matches(modes@, index + 1) == m.push(a).push(b).push(c));
        }
        index += 1;
    }
    let ghost s2 = asm_run(s1, mode_info_matches(modes@, modes@.len() as int));
    prog.emit(&[0x1F, 0x5F, 0x5E, 0x5A, 0x59, 0x5B]);
    prog.jump(chars_of("failure"));
    let ghost s3 = asm_run(s2, mode_info_unknown());
    assert(prog.state() == s3);
    let mut index: usize = 0;
    while index < modes.len()
        invariant
            index <= modes@.len(),
            index <= 0x58,
            prog.wf(),
            prog.origin() == old(prog).origin(),
            prog.state() == asm_run(s3, mode_info_loads(index as int)),
        decreases modes@.len() - index,
    {
        let ghost l0 = mode_info_loads(index as int);
        prog.label(indexed_label("copy_mode_", index));
        if index > 0x57 {
            return Err(BiosError::ModeInfoOffset);
        }
        let offset: u16 = VBE_ROM_MODE_INFO_OFFSET + (index * 0x100) as u16;
        prog.emit(&[0xBE]);  // mov si, imm16
        prog.emit_word(offset);
        prog.jump(chars_of("copy_mode"));
        proof {
            let o0 = asm_label("copy_mode_"@ + decimal(index as nat));
            let o1 = asm_bytes([0xBEu8]@);
            let o2 = asm_word((VBE_ROM_MODE_INFO_OFFSET + index * 0x100) as u16);
            let o3 = asm_jmp("copy_mode"@);
            assert(offset == (VBE_ROM_MODE_INFO_OFFSET + index * 0x100) as u16);
            lemma_asm_run_push(s3, l0, o0);
            lemma_asm_run_push(s3, l0.push(o0), o1);
            lemma_asm_run_push(s3, l0.push(o0).push(o1), o2);
            lemma_asm_run_push(s3, l0.push(o0).push(o1).push(o2), o3);
            assert(mode_info_loads(index + 1) == l0.push(o0).push(o1).push(o2).push(o3));
        }
        index += 1;
    }
    proof {
        let n = modes@.len() as int;
        let head = mode_info_head();
        let m = mode_info_matches(modes@, n);
        let u = mode_info_unknown();
        let l = mode_info_loads(n);
        lemma_asm_run_append(s0, head + m + u, l);
        lemma_asm_run_append(s0, head + m, u);
        lemma_asm_run_append(s0, head, m);
    }
    Ok(())
}

/// VBE function 02h, entry: save the registers and the no-clear flag, and take the mode
/// number from BX.
pub open spec fn set_mode_head() -> Seq<AsmOp> {
    Seq::empty()
        .push(asm_label("set_mode"@))
        .push(asm_bytes(seq![0x53u8, 0x51, 0x52, 0x56, 0x57, 0x55, 0x1E]))
        .push(asm_bytes(seq![0x89u8, 0xD8, 0x25, 0x00, 0x80, 0x50]))
        .push(asm_bytes(seq![0x89u8, 0xDF, 0x81, 0xE7, 0xFF, 0x3F]))
}

/// VBE function 02h: compare the requested mode with each of the first `n` modes and jump to
/// that mode's loader on a match.
pub open spec fn set_mode_matches(modes: Seq<VbeMode>, n: int) -> Seq<AsmOp>
    decreases n,
{
    if n <= 0 {
        Seq::empty()
    } else {
        set_mode_matches(modes, n - 1)
            .push(asm_bytes(seq![0x81u8, 0xFF]))
            .push(asm_word(modes[n - 1].mode))
            .push(asm_je("set_mode_"@ + decimal((n - 1) as nat)))
    }
}

/// VBE function 02h, no match: restore the registers and fail.
pub open spec fn set_mode_unknown() -> Seq<AsmOp> {
    Seq::empty()
        .push(asm_bytes(seq![0x58u8, 0x1F, 0x5D, 0x5F, 0x5E, 0x5A, 0x59, 0x5B]))
        .push(asm_jmp("failure"@))
}

/// VBE function 02h: for each of the first `n` modes, load its width, height, bpp and pitch
/// and go program it.
pub open spec fn set_mode_loads(modes: Seq<VbeMode>, n: int) -> Seq<AsmOp>
    decreases n,
{
    if n <= 0 {
        Seq::empty()
    } else {
        set_mode_loads(modes, n - 1)
            .push(asm_label("set_mode_"@ + decimal((n - 1) as nat)))
            .push(asm_bytes([0xBEu8]@))
            .push(asm_word(modes[n - 1].width))
            .push(asm_bytes([0xBDu8]@))
            .push(asm_word(modes[n - 1].height))
            .push(asm_bytes(seq![0xB1u8, modes[n - 1].bpp]))
            .push(asm_bytes([0xBBu8]@))
            .push(asm_word(modes[n - 1].bytes_per_scan_line))
            .push(asm_jmp("program_mode"@))
    }
}

/// VBE function 02h: match the mode in BX and load its geometry.
pub open spec fn set_mode_ops(modes: Seq<VbeMode>) -> Seq<AsmOp> {
    set_mode_head() + set_mode_matches(modes, modes.len() as int) + set_mode_unknown()
        + set_mode_loads(modes, modes.len() as int)
}

/// VBE function 02h: match the mode in BX and load its geometry.
fn emit_set_mode(prog: &mut RomAssembler, modes: &[VbeMode])
    requires
        old(prog).wf(),
    ensures
        final(prog).wf(),
        final(prog).origin() == old(prog).origin(),
        final(prog).state() == asm_run(old(prog).state(), set_mode_ops(modes@)),
{
    broadcast use lemma_asm_run_push;

    let ghost s0 = prog.state();
    prog.label(chars_of("set_mode"));
    prog.emit(&[0x53, 0x51, 0x52, 0x56, 0x57, 0x55, 0x1E]);
    // Preserve VBE mode flag bit 15 until the mode has been validated and all resolution
    // registers have been consumed. DISPI expresses the same contract as bit 7 of ENABLE
    // (NOCLEARMEM).
    prog.emit(&[0x89, 0xD8, 0x25, 0x00, 0x80, 0x50]);  // mov ax,bx; and ax,8000h; push ax
    prog.emit(&[0x89, 0xDF, 0x81, 0xE7, 0xFF, 0x3F]);  // mov di,bx; and di,3fffh
    let ghost s1 = asm_run(s0, set_mode_head());
    assert(prog.state() == s1);
    let mut index: usize = 0;
    while index < modes.len()
        invariant
            index <= modes@.len(),
            prog.wf(),
            prog.origin() == old(prog).origin(),
            s1 == asm_run(s0, set_mode_head()),
            prog.state() == asm_run(s1, set_mode_matches(modes@, index as int)),
        decreases modes@.len() - index,
    {
        prog.emit(&[0x81, 0xFF]);  // cmp di, imm16
        prog.emit_word(modes[index].mode);
        prog.jump_if_equal(indexed_label("set_mode_", index));
        proof {
            let m = set_mode_matches(modes@, index as int);
            let a = asm_bytes(seq![0x81u8, 0xFF]);
            let b = asm_word(modes@[index as int].mode);
            let c = asm_je("set_mode_"@ + decimal(index as nat));
            lemma_asm_run_push(s1, m, a);
            lemma_asm_run_push(s1, m.push(a), b);
            lemma_asm_run_push(s1, m.push(a).push(b), c);
            assert(set_mode_matches(modes@, index + 1) == m.push(a).push(b).push(c));
        }
        index += 1;
    }
    let ghost s2 = asm_run(s1, set_mode_matches(modes@, modes@.len() as int));
    prog.emit(&[0x58, 0x1F, 0x5D, 0x5F, 0x5E, 0x5A, 0x59, 0x5B]);
    prog.jump(chars_of("failure"));
    let ghost s3 = asm_run(s2, set_mode_unknown());
    assert(prog.state() == s3);
    let mut index: usize = 0;
    while index < modes.len()
        invariant
            index <= modes@.len(),
            prog.wf(),
            prog.origin() == old(prog).origin(),
            prog.state() == asm_run(s3, set_mode_loads(modes@, index as int)),
        decreases modes@.len() - index,
    {
        let mode = modes[index];
        let ghost l0 = set_mode_loads(modes@, index as int);
        prog.label(indexed_label("set_mode_", index));
        prog.emit(&[0xBE]);  // mov si, width
        prog.emit_word(mode.width);
        prog.emit(&[0xBD]);  // mov bp, height
        prog.emit_word(mode.height);
        prog.emit(&[0xB1, mode.bpp]);  // mov cl, bpp
        prog.emit(&[0xBB]);  // mov bx, pitch
        prog.emit_word(mode.bytes_per_scan_line);
        prog.jump(chars_of("program_mode"));
        proof {
            let o = seq![
                asm_label("set_mode_"@ + decimal(index as nat)),
                asm_bytes([0xBEu8]@),
                asm_word(mode.width),
                asm_bytes([0xBDu8]@),
                asm_word(mode.height),
                asm_bytes(seq![0xB1u8, mode.bpp]),
                asm_bytes([0xBBu8]@),
                asm_word(mode.bytes_per_scan_line),
                asm_jmp("program_mode"@),
            ];
            let p1 = l0.push(o[0]);
            let p2 = p1.push(o[1]);
            let p3 = p2.push(o[2]);
            let p4 = p3.push(o[3]);
            let p5 = p4.push(o[4]);
            let p6 = p5.push(o[5]);
            let p7 = p6.push(o[6]);
            let p8 = p7.push(o[7]);
            lemma_asm_run_push(s3, l0, o[0]);
            lemma_asm_run_push(s3, p1, o[1]);
            lemma_asm_run_push(s3, p2, o[2]);
            lemma_asm_run_push(s3, p3, o[3]);
            lemma_asm_run_push(s3, p4, o[4]);
            lemma_asm_run_push(s3, p5, o[5]);
            lemma_asm_run_push(s3, p6, o[6]);
            lemma_asm_run_push(s3, p7, o[7]);
            lemma_asm_run_push(s3, p8, o[8]);
            assert(set_mode_loads(modes@, index + 1) == p8.push(o[8]));
        }
        index += 1;
    }
    proof {
        let n = modes@.len() as int;
        let head = set_mode_head();
        let m = set_mode_matches(modes@, n);
        let u = set_mode_unknown();
        let l = set_mode_loads(modes@, n);
        lemma_asm_run_append(s0, head + m + u, l);
        lemma_asm_run_append(s0, head + m, u);
        lemma_asm_run_append(s0, head, m);
    }
}

/// The whole INT 10h AX=4Fxxh handler: the function dispatch, then each function's code.
pub open spec fn vbe_handler_ops(modes: Seq<VbeMode>, total_memory_64kb_blocks: u16, ebda_segment: u16) -> Seq<AsmOp> {
    dispatch_ops(0x4F00, "controller_info"@)
        + dispatch_ops(0x4F01, "mode_info"@)
        + dispatch_ops(0x4F02, "set_mode"@)
        + dispatch_ops(0x4F03, "get_mode"@)
        + dispatch_ops(0x4F05, "window_control"@)
        + dispatch_ops(0x4F06, "scan_line"@)
        + dispatch_ops(0x4F07, "display_start"@)
        + dispatch_ops(0x4F08, "dac_format"@)
        + dispatch_ops(0x4F09, "palette_data"@)
        + dispatch_ops(0x4F10, "dpms"@)
        + dispatch_ops(0x4F15, "ddc"@)
        + Seq::empty().push(asm_jmp("failure"@))
        + controller_info_ops(total_memory_64kb_blocks)
        + mode_info_ops(modes)
        + copy_mode_ops(ebda_segment)
        + set_mode_ops(modes)
        + program_mode_ops(ebda_segment)
        + window_control_ops(ebda_segment)
        + scan_line_ops(ebda_segment)
        + display_start_ops(ebda_segment)
        + dac_format_ops(ebda_segment)
        + palette_data_ops(ebda_segment)
        + ddc_and_exits_ops()
}

/// The handler as assembled for the ROM at `VBE_ROM_CODE_OFFSET`, before jumps are resolved.
#[verifier::opaque]
pub open spec fn vbe_handler(vbe: VbeConfig, ebda_segment: u16) -> AsmState {
    asm_run(
        asm_start(VBE_ROM_CODE_OFFSET),
        vbe_handler_ops(vbe.modes@, vbe.total_memory_64kb_blocks, ebda_segment),
    )
}

/// The real-mode INT 10h AX=4Fxxh handler, assembled for the ROM at `VBE_ROM_CODE_OFFSET`.
fn assemble_vbe_handler(vbe: &VbeConfig, ebda_segment: u16) -> (r: Result<Vec<u8>, BiosError>)
    ensures
        vbe.modes@.len() > 0x58 ==> r == Err::<Vec<u8>, BiosError>(BiosError::ModeInfoOffset),
        vbe.modes@.len() <= 0x58 ==> (r is Ok <==> asm_ok(vbe_handler(*vbe, ebda_segment))),
        r matches Ok(code) ==> code@ == asm_output(vbe_handler(*vbe, ebda_segment)),
        r matches Ok(code) ==> VBE_ROM_CODE_OFFSET + code@.len() <= VBE_ROM_OEM_STRING_OFFSET,
        r matches Err(e) ==> (e is Asm || e == BiosError::ModeInfoOffset),
{
    broadcast use lemma_asm_run_push;

    let mut prog = RomAssembler::new(VBE_ROM_CODE_OFFSET);
    let ghost s0 = prog.state();
    emit_dispatch(&mut prog, 0x4F00, "controller_info");
    emit_dispatch(&mut prog, 0x4F01, "mode_info");
    emit_dispatch(&mut prog, 0x4F02, "set_mode");
    emit_dispatch(&mut prog, 0x4F03, "get_mode");
    emit_dispatch(&mut prog, 0x4F05, "window_control");
    emit_dispatch(&mut prog, 0x4F06, "scan_line");
    emit_dispatch(&mut prog, 0x4F07, "display_start");
    emit_dispatch(&mut prog, 0x4F08, "dac_format");
    emit_dispatch(&mut prog, 0x4F09, "palette_data");
    emit_dispatch(&mut prog, 0x4F10, "dpms");
    emit_dispatch(&mut prog, 0x4F15, "ddc");
    prog.jump(chars_of("failure"));

    emit_controller_info(&mut prog, vbe.total_memory_64kb_blocks);
    emit_mode_info(&mut prog, vbe.modes.as_slice())?;
    emit_copy_mode(&mut prog, ebda_segment);
    emit_set_mode(&mut prog, vbe.modes.as_slice());
    emit_program_mode(&mut prog, ebda_segment);
    emit_window_control(&mut prog, ebda_segment);
    emit_scan_line(&mut prog, ebda_segment);
    emit_display_start(&mut prog, ebda_segment);
    emit_dac_format(&mut prog, ebda_segment);
    emit_palette_data(&mut prog, ebda_segment);
    emit_ddc_and_exits(&mut prog);
    proof {
        lemma_asm_run_append(s0, dispatch_ops(0x4F00, "controller_info"@) + dispatch_ops(0x4F01, "mode_info"@) + dispatch_ops(0x4F02, "set_mode"@) + dispatch_ops(0x4F03, "get_mode"@) + dispatch_ops(0x4F05, "window_control"@) + dispatch_ops(0x4F06, "scan_line"@) + dispatch_ops(0x4F07, "display_start"@) + dispatch_ops(0x4F08, "dac_format"@) + dispatch_ops(0x4F09, "palette_data"@) + dispatch_ops(0x4F10, "dpms"@) + dispatch_ops(0x4F15, "ddc"@) + Seq::empty().push(asm_jmp("failure"@)) + controller_info_ops(vbe.total_memory_64kb_blocks) + mode_info_ops(vbe.modes@) + copy_mode_ops(ebda_segment) + set_mode_ops(vbe.modes@) + program_mode_ops(ebda_segment) + window_control_ops(ebda_segment) + scan_line_ops(ebda_segment) + display_start_ops(ebda_segment) + dac_format_ops(ebda_segment) + palette_data_ops(ebda_segment), ddc_and_exits_ops());
        lemma_asm_run_append(s0, dispatch_ops(0x4F00, "controller_info"@) + dispatch_ops(0x4F01, "mode_info"@) + dispatch_ops(0x4F02, "set_mode"@) + dispatch_ops(0x4F03, "get_mode"@) + dispatch_ops(0x4F05, "window_control"@) + dispatch_ops(0x4F06, "scan_line"@) + dispatch_ops(0x4F07, "display_start"@) + dispatch_ops(0x4F08, "dac_format"@) + dispatch_ops(0x4F09, "palette_data"@) + dispatch_ops(0x4F10, "dpms"@) + dispatch_ops(0x4F15, "ddc"@) + Seq::empty().push(asm_jmp("failure"@)) + controller_info_ops(vbe.total_memory_64kb_blocks) + mode_info_ops(vbe.modes@) + copy_mode_ops(ebda_segment) + set_mode_ops(vbe.modes@) + program_mode_ops(ebda_segment) + window_control_ops(ebda_segment) + scan_line_ops(ebda_segment) + display_start_ops(ebda_segment) + dac_format_ops(ebda_segment), palette_data_ops(ebda_segment));
        lemma_asm_run_append(s0, dispatch_ops(0x4F00, "controller_info"@) + dispatch_ops(0x4F01, "mode_info"@) + dispatch_ops(0x4F02, "set_mode"@) + dispatch_ops(0x4F03, "get_mode"@) + dispatch_ops(0x4F05, "window_control"@) + dispatch_ops(0x4F06, "scan_line"@) + dispatch_ops(0x4F07, "display_start"@) + dispatch_ops(0x4F08, "dac_format"@) + dispatch_ops(0x4F09, "palette_data"@) + dispatch_ops(0x4F10, "dpms"@) + dispatch_ops(0x4F15, "ddc"@) + Seq::empty().push(asm_jmp("failure"@)) + controller_info_ops(vbe.total_memory_64kb_blocks) + mode_info_ops(vbe.modes@) + copy_mode_ops(ebda_segment) + set_mode_ops(vbe.modes@) + program_mode_ops(ebda_segment) + window_control_ops(ebda_segment) + scan_line_ops(ebda_segment) + display_start_ops(ebda_segment), dac_format_ops(ebda_segment));
        lemma_asm_run_append(s0, dispatch_ops(0x4F00, "controller_info"@) + dispatch_ops(0x4F01, "mode_info"@) + dispatch_ops(0x4F02, "set_mode"@) + dispatch_ops(0x4F03, "get_mode"@) + dispatch_ops(0x4F05, "window_control"@) + dispatch_ops(0x4F06, "scan_line"@) + dispatch_ops(0x4F07, "display_start"@) + dispatch_ops(0x4F08, "dac_format"@) + dispatch_ops(0x4F09, "palette_data"@) + dispatch_ops(0x4F10, "dpms"@) + dispatch_ops(0x4F15, "ddc"@) + Seq::empty().push(asm_jmp("failure"@)) + controller_info_ops(vbe.total_memory_64kb_blocks) + mode_info_ops(vbe.modes@) + copy_mode_ops(ebda_segment) + set_mode_ops(vbe.modes@) + program_mode_ops(ebda_segment) + window_control_ops(ebda_segment) + scan_line_ops(ebda_segment), display_start_ops(ebda_segment));
        lemma_asm_run_append(s0, dispatch_ops(0x4F00, "controller_info"@) + dispatch_ops(0x4F01, "mode_info"@) + dispatch_ops(0x4F02, "set_mode"@) + dispatch_ops(0x4F03, "get_mode"@) + dispatch_ops(0x4F05, "window_control"@) + dispatch_ops(0x4F06, "scan_line"@) + dispatch_ops(0x4F07, "display_start"@) + dispatch_ops(0x4F08, "dac_format"@) + dispatch_ops(0x4F09, "palette_data"@) + dispatch_ops(0x4F10, "dpms"@) + dispatch_ops(0x4F15, "ddc"@) + Seq::empty().push(asm_jmp("failure"@)) + controller_info_ops(vbe.total_memory_64kb_blocks) + mode_info_ops(vbe.modes@) + copy_mode_ops(ebda_segment) + set_mode_ops(vbe.modes@) + program_mode_ops(ebda_segment) + window_control_ops(ebda_segment), scan_line_ops(ebda_segment));
        lemma_asm_run_append(s0, dispatch_ops(0x4F00, "controller_info"@) + dispatch_ops(0x4F01, "mode_info"@) + dispatch_ops(0x4F02, "set_mode"@) + dispatch_ops(0x4F03, "get_mode"@) + dispatch_ops(0x4F05, "window_control"@) + dispatch_ops(0x4F06, "scan_line"@) + dispatch_ops(0x4F07, "display_start"@) + dispatch_ops(0x4F08, "dac_format"@) + dispatch_ops(0x4F09, "palette_data"@) + dispatch_ops(0x4F10, "dpms"@) + dispatch_ops(0x4F15, "ddc"@) + Seq::empty().push(asm_jmp("failure"@)) + controller_info_ops(vbe.total_memory_64kb_blocks) + mode_info_ops(vbe.modes@) + copy_mode_ops(ebda_segment) + set_mode_ops(vbe.modes@) + program_mode_ops(ebda_segment), window_control_ops(ebda_segment));
        lemma_asm_run_append(s0, dispatch_ops(0x4F00, "controller_info"@) + dispatch_ops(0x4F01, "mode_info"@) + dispatch_ops(0x4F02, "set_mode"@) + dispatch_ops(0x4F03, "get_mode"@) + dispatch_ops(0x4F05, "window_control"@) + dispatch_ops(0x4F06, "scan_line"@) + dispatch_ops(0x4F07, "display_start"@) + dispatch_ops(0x4F08, "dac_format"@) + dispatch_ops(0x4F09, "palette_data"@) + dispatch_ops(0x4F10, "dpms"@) + dispatch_ops(0x4F15, "ddc"@) + Seq::empty().push(asm_jmp("failure"@)) + controller_info_ops(vbe.total_memory_64kb_blocks) + mode_info_ops(vbe.modes@) + copy_mode_ops(ebda_segment) + set_mode_ops(vbe.modes@), program_mode_ops(ebda_segment));
        lemma_asm_run_append(s0, dispatch_ops(0x4F00, "controller_info"@) + dispatch_ops(0x4F01, "mode_info"@) + dispatch_ops(0x4F02, "set_mode"@) + dispatch_ops(0x4F03, "get_mode"@) + dispatch_ops(0x4F05, "window_control"@) + dispatch_ops(0x4F06, "scan_line"@) + dispatch_ops(0x4F07, "display_start"@) + dispatch_ops(0x4F08, "dac_format"@) + dispatch_ops(0x4F09, "palette_data"@) + dispatch_ops(0x4F10, "dpms"@) + dispatch_ops(0x4F15, "ddc"@) + Seq::empty().push(asm_jmp("failure"@)) + controller_info_ops(vbe.total_memory_64kb_blocks) + mode_info_ops(vbe.modes@) + copy_mode_ops(ebda_segment), set_mode_ops(vbe.modes@));
        lemma_asm_run_append(s0, dispatch_ops(0x4F00, "controller_info"@) + dispatch_ops(0x4F01, "mode_info"@) + dispatch_ops(0x4F02, "set_mode"@) + dispatch_ops(0x4F03, "get_mode"@) + dispatch_ops(0x4F05, "window_control"@) + dispatch_ops(0x4F06, "scan_line"@) + dispatch_ops(0x4F07, "display_start"@) + dispatch_ops(0x4F08, "dac_format"@) + dispatch_ops(0x4F09, "palette_data"@) + dispatch_ops(0x4F10, "dpms"@) + dispatch_ops(0x4F15, "ddc"@) + Seq::empty().push(asm_jmp("failure"@)) + controller_info_ops(vbe.total_memory_64kb_blocks) + mode_info_ops(vbe.modes@), copy_mode_ops(ebda_segment));
        lemma_asm_run_append(s0, dispatch_ops(0x4F00, "controller_info"@) + dispatch_ops(0x4F01, "mode_info"@) + dispatch_ops(0x4F02, "set_mode"@) + dispatch_ops(0x4F03, "get_mode"@) + dispatch_ops(0x4F05, "window_control"@) + dispatch_ops(0x4F06, "scan_line"@) + dispatch_ops(0x4F07, "display_start"@) + dispatch_ops(0x4F08, "dac_format"@) + dispatch_ops(0x4F09, "palette_data"@) + dispatch_ops(0x4F10, "dpms"@) + dispatch_ops(0x4F15, "ddc"@) + Seq::empty().push(asm_jmp("failure"@)) + controller_info_ops(vbe.total_memory_64kb_blocks), mode_info_ops(vbe.modes@));
        lemma_asm_run_append(s0, dispatch_ops(0x4F00, "controller_info"@) + dispatch_ops(0x4F01, "mode_info"@) + dispatch_ops(0x4F02, "set_mode"@) + dispatch_ops(0x4F03, "get_mode"@) + dispatch_ops(0x4F05, "window_control"@) + dispatch_ops(0x4F06, "scan_line"@) + dispatch_ops(0x4F07, "display_start"@) + dispatch_ops(0x4F08, "dac_format"@) + dispatch_ops(0x4F09, "palette_data"@) + dispatch_ops(0x4F10, "dpms"@) + dispatch_ops(0x4F15, "ddc"@) + Seq::empty().push(asm_jmp("failure"@)), controller_info_ops(vbe.total_memory_64kb_blocks));
        lemma_asm_run_append(s0, dispatch_ops(0x4F00, "controller_info"@) + dispatch_ops(0x4F01, "mode_info"@) + dispatch_ops(0x4F02, "set_mode"@) + dispatch_ops(0x4F03, "get_mode"@) + dispatch_ops(0x4F05, "window_control"@) + dispatch_ops(0x4F06, "scan_line"@) + dispatch_ops(0x4F07, "display_start"@) + dispatch_ops(0x4F08, "dac_format"@) + dispatch_ops(0x4F09, "palette_data"@) + dispatch_ops(0x4F10, "dpms"@) + dispatch_ops(0x4F15, "ddc"@), Seq::empty().push(asm_jmp("failure"@)));
        lemma_asm_run_append(s0, dispatch_ops(0x4F00, "controller_info"@) + dispatch_ops(0x4F01, "mode_info"@) + dispatch_ops(0x4F02, "set_mode"@) + dispatch_ops(0x4F03, "get_mode"@) + dispatch_ops(0x4F05, "window_control"@) + dispatch_ops(0x4F06, "scan_line"@) + dispatch_ops(0x4F07, "display_start"@) + dispatch_ops(0x4F08, "dac_format"@) + dispatch_ops(0x4F09, "palette_data"@) + dispatch_ops(0x4F10, "dpms"@), dispatch_ops(0x4F15, "ddc"@));
        lemma_asm_run_append(s0, dispatch_ops(0x4F00, "controller_info"@) + dispatch_ops(0x4F01, "mode_info"@) + dispatch_ops(0x4F02, "set_mode"@) + dispatch_ops(0x4F03, "get_mode"@) + dispatch_ops(0x4F05, "window_control"@) + dispatch_ops(0x4F06, "scan_line"@) + dispatch_ops(0x4F07, "display_start"@) + dispatch_ops(0x4F08, "dac_format"@) + dispatch_ops(0x4F09, "palette_data"@), dispatch_ops(0x4F10, "dpms"@));
        lemma_asm_run_append(s0, dispatch_ops(0x4F00, "controller_info"@) + dispatch_ops(0x4F01, "mode_info"@) + dispatch_ops(0x4F02, "set_mode"@) + dispatch_ops(0x4F03, "get_mode"@) + dispatch_ops(0x4F05, "window_control"@) + dispatch_ops(0x4F06, "scan_line"@) + dispatch_ops(0x4F07, "display_start"@) + dispatch_ops(0x4F08, "dac_format"@), dispatch_ops(0x4F09, "palette_data"@));
        lemma_asm_run_append(s0, dispatch_ops(0x4F00, "controller_info"@) + dispatch_ops(0x4F01, "mode_info"@) + dispatch_ops(0x4F02, "set_mode"@) + dispatch_ops(0x4F03, "get_mode"@) + dispatch_ops(0x4F05, "window_control"@) + dispatch_ops(0x4F06, "scan_line"@) + dispatch_ops(0x4F07, "display_start"@), dispatch_ops(0x4F08, "dac_format"@));
        lemma_asm_run_append(s0, dispatch_ops(0x4F00, "controller_info"@) + dispatch_ops(0x4F01, "mode_info"@) + dispatch_ops(0x4F02, "set_mode"@) + dispatch_ops(0x4F03, "get_mode"@) + dispatch_ops(0x4F05, "window_control"@) + dispatch_ops(0x4F06, "scan_line"@), dispatch_ops(0x4F07, "display_start"@));
        lemma_asm_run_append(s0, dispatch_ops(0x4F00, "controller_info"@) + dispatch_ops(0x4F01, "mode_info"@) + dispatch_ops(0x4F02, "set_mode"@) + dispatch_ops(0x4F03, "get_mode"@) + dispatch_ops(0x4F05, "window_control"@), dispatch_ops(0x4F06, "scan_line"@));
        lemma_asm_run_append(s0, dispatch_ops(0x4F00, "controller_info"@) + dispatch_ops(0x4F01, "mode_info"@) + dispatch_ops(0x4F02, "set_mode"@) + dispatch_ops(0x4F03, "get_mode"@), dispatch_ops(0x4F05, "window_control"@));
        lemma_asm_run_append(s0, dispatch_ops(0x4F00, "controller_info"@) + dispatch_ops(0x4F01, "mode_info"@) + dispatch_ops(0x4F02, "set_mode"@), dispatch_ops(0x4F03, "get_mode"@));
        lemma_asm_run_append(s0, dispatch_ops(0x4F00, "controller_info"@) + dispatch_ops(0x4F01, "mode_info"@), dispatch_ops(0x4F02, "set_mode"@));
        lemma_asm_run_append(s0, dispatch_ops(0x4F00, "controller_info"@), dispatch_ops(0x4F01, "mode_info"@));
        reveal(vbe_handler);
        assert(prog.state() == vbe_handler(*vbe, ebda_segment));
    }
    match prog.finish() {
        Ok(code) => Ok(code),
        Err(e) => Err(BiosError::Asm(e)),
    }
}

/// Install the VBE handler and its data: the INT 10h entry stub, the controller strings, the
/// mode list, the mode-info blocks and the EDID. Returns the handler's code.
fn install_vbe_rom(rom: &mut Vec<u8>, vbe: &VbeConfig, int10_stub_offset: u16, ebda_segment: u16, data_end: u16) -> (r: Result<Vec<u8>, BiosError>)
    requires
        old(rom)@.len() >= 0x10000,
        int10_stub_offset + 10 <= old(rom)@.len(),
        data_end <= old(rom)@.len(),
        vbe.mode_info_blocks@.len() == vbe.modes@.len(),
    ensures
        final(rom)@.len() == old(rom)@.len(),
        vbe.modes@.len() > 0x58 ==> r == Err::<Vec<u8>, BiosError>(BiosError::ModeInfoOffset),
        r matches Ok(code) ==> {
            &&& VBE_ROM_CODE_OFFSET + code@.len() <= VBE_ROM_OEM_STRING_OFFSET
            &&& final(rom)@ == vbe_image(old(rom)@, code@, int10_stub_offset, *vbe)
            &&& mode_blocks_fit(Seq::new(vbe.mode_info_blocks@.len(), |i: int| vbe.mode_info_blocks@[i]@))
            &&& VBE_ROM_EDID_OFFSET + vbe.edid@.len() <= data_end
        },
        r == Err::<Vec<u8>, BiosError>(BiosError::ModeInfoOverlapsEdid) ==> !mode_blocks_fit(
            Seq::new(vbe.mode_info_blocks@.len(), |i: int| vbe.mode_info_blocks@[i]@),
        ),
        r == Err::<Vec<u8>, BiosError>(BiosError::EdidOverlapsFont) ==> VBE_ROM_EDID_OFFSET
            + vbe.edid@.len() > data_end,
        r is Ok <==> vbe.modes@.len() <= 0x58 && asm_ok(vbe_handler(*vbe, ebda_segment))
            && mode_blocks_fit(Seq::new(vbe.mode_info_blocks@.len(), |i: int| vbe.mode_info_blocks@[i]@))
            && VBE_ROM_EDID_OFFSET + vbe.edid@.len() <= data_end,
        r matches Ok(code) ==> code@ == asm_output(vbe_handler(*vbe, ebda_segment)),
{
    let code = assemble_vbe_handler(vbe, ebda_segment)?;
    write_stub(rom, VBE_ROM_CODE_OFFSET, code.as_slice());

    let jump_next = int10_stub_offset.wrapping_add(8);
    let displacement = VBE_ROM_CODE_OFFSET.wrapping_sub(jump_next);
    let mut int10_entry_bytes: Vec<u8> = vec![
        0x80, 0xFC, 0x4F,  // cmp ah,4fh
        0x75, 0x03,  // jne HLT/IRET
        0xE9,  // jmp VBE_ROM_CODE_OFFSET
    ];
    let disp = u16_to_le_bytes(displacement);
    int10_entry_bytes.push(disp[0]);
    int10_entry_bytes.push(disp[1]);
    int10_entry_bytes.push(0xF4);  // HLT; IRET for host-served non-VBE services
    int10_entry_bytes.push(0xCF);
    proof {
        lemma_auto_spec_u16_to_from_le_bytes();
        assert(int10_entry_bytes@ =~= int10_entry(int10_stub_offset));
    }
    write_stub(rom, int10_stub_offset, int10_entry_bytes.as_slice());

    let oem: [u8; 14] = [0x41, 0x65, 0x72, 0x6F, 0x20, 0x56, 0x42, 0x45, 0x20, 0x42, 0x49, 0x4F, 0x53, 0x00];
    let vendor: [u8; 5] = [0x41, 0x65, 0x72, 0x6F, 0x00];
    let product: [u8; 10] = [0x41, 0x65, 0x72, 0x6F, 0x20, 0x53, 0x56, 0x47, 0x41, 0x00];
    let revision: [u8; 4] = [0x30, 0x2E, 0x31, 0x00];
    assert(oem@ =~= oem_string());
    assert(vendor@ =~= vendor_string());
    assert(product@ =~= product_string());
    assert(revision@ =~= revision_string());
    write_stub(rom, VBE_ROM_OEM_STRING_OFFSET, &oem);
    write_stub(rom, VBE_ROM_VENDOR_STRING_OFFSET, &vendor);
    write_stub(rom, VBE_ROM_PRODUCT_STRING_OFFSET, &product);
    write_stub(rom, VBE_ROM_REV_STRING_OFFSET, &revision);

    let modes = vbe.modes.as_slice();
    let mut list: Vec<u8> = Vec::new();
    let mut k: usize = modes.len();
    let end_mark = u16_to_le_bytes(0xFFFF);
    list.push(end_mark[0]);
    list.push(end_mark[1]);
    proof {
        lemma_auto_spec_u16_to_from_le_bytes();
        assert(list@ =~= mode_list(modes@.subrange(k as int, modes@.len() as int)));
    }
    while k > 0
        invariant
            k <= modes@.len() <= 0x58,
            list@ == mode_list(modes@.subrange(k as int, modes@.len() as int)),
            list@.len() == 2 * (modes@.len() - k + 1),
        decreases k,
    {
        k -= 1;
        let w = u16_to_le_bytes(modes[k].mode);
        let mut next: Vec<u8> = Vec::new();
        next.push(w[0]);
        next.push(w[1]);
        let mut j: usize = 0;
        while j < list.len()
            invariant
                j <= list@.len(),
                next@ == w@ + list@.subrange(0, j as int),
                w@.len() == 2,
            decreases list@.len() - j,
        {
            next.push(list[j]);
            j += 1;
            assert(next@ =~= w@ + list@.subrange(0, j as int));
        }
        proof {
            lemma_auto_spec_u16_to_from_le_bytes();
            assert(list@.subrange(0, list@.len() as int) =~= list@);
            assert(modes@.subrange(k as int, modes@.len() as int).drop_first() =~= modes@.subrange(k + 1, modes@.len() as int));
            assert(w@ =~= seq![w@[0], w@[1]]);
        }
        list = next;
    }
    assert(modes@.subrange(0, modes@.len() as int) =~= modes@);
    write_stub(rom, VBE_ROM_MODE_LIST_OFFSET, list.as_slice());

    let ghost blocks = Seq::new(vbe.mode_info_blocks@.len(), |i: int| vbe.mode_info_blocks@[i]@);
    let ghost before = rom@;
    let mut index: usize = 0;
    while index < vbe.mode_info_blocks.len()
        invariant
            index <= blocks.len(),
            blocks == Seq::new(vbe.mode_info_blocks@.len(), |i: int| vbe.mode_info_blocks@[i]@),
            rom@.len() == old(rom)@.len(),
            old(rom)@.len() >= 0x10000,
            rom@ == with_mode_blocks(before, blocks, index as int),
            vbe.modes@.len() <= 0x58,
            forall|i: int|
                0 <= i < index ==> VBE_ROM_MODE_INFO_OFFSET + i * (#[trigger] blocks[i]).len()
                    + blocks[i].len() <= VBE_ROM_EDID_OFFSET,
        decreases blocks.len() - index,
    {
        let block = &vbe.mode_info_blocks[index];
        let n = block.len();
        let limit = VBE_ROM_EDID_OFFSET as usize;
        if n > 0 && index > limit / n {
            proof {
                assert(index * n > limit) by (nonlinear_arith)
                    requires
                        n > 0,
                        index > limit / n,
                ;
            }
            assert(blocks[index as int] == block@);
            return Err(BiosError::ModeInfoOverlapsEdid);
        }
        proof {
            if n > 0 {
                assert(index * n <= limit) by (nonlinear_arith)
                    requires
                        n > 0,
                        index <= limit / n,
                ;
            }
        }
        let offset = VBE_ROM_MODE_INFO_OFFSET as usize + if n == 0 {
            0
        } else {
            index * n
        };
        if offset > limit || n > limit - offset {
            assert(blocks[index as int] == block@);
            return Err(BiosError::ModeInfoOverlapsEdid);
        }
        write_stub(rom, offset as u16, block.as_slice());
        index += 1;
    }

    if vbe.edid.len() > (data_end as usize) || VBE_ROM_EDID_OFFSET as usize > data_end as usize - vbe.edid.len() {
        return Err(BiosError::EdidOverlapsFont);
    }
    write_stub(rom, VBE_ROM_EDID_OFFSET, vbe.edid.as_slice());
    Ok(code)
}

/// The Diskette Parameter Table (IVT vector 0x1E): common 1.44 MiB defaults, 512 bytes per
/// sector and 18 sectors per track.
pub open spec fn diskette_param_table() -> Seq<u8> {
    seq![0xAFu8, 0x02, 0x25, 0x02, 0x12, 0x1B, 0xFF, 0x6C, 0xF6, 0x0F, 0x08]
}

/// The Fixed Disk Parameter Table (IVT vectors 0x41/0x46): 1024 cylinders, 16 heads, 63
/// sectors per track, matching the fixed-disk INT 13h geometry.
pub open spec fn fixed_disk_param_table() -> Seq<u8> {
    seq![0x00u8, 0x04, 0x10, 0x00, 0x00, 0x00, 0x00, 0x00, 0x3F, 0x00, 0x00, 0x00, 0x00, 0x00, 0x00, 0x00]
}

/// The video parameter table (IVT vector 0x1D): VGA-compatible text-mode CRTC defaults.
pub open spec fn video_param_table() -> Seq<u8> {
    seq![0x5Fu8, 0x4F, 0x50, 0x82, 0x55, 0x81, 0xBF, 0x1F, 0x00, 0x4F, 0x0D, 0x0E, 0x00, 0x00, 0x00, 0x00]
}

/// The image before the VBE handler is installed: all 0xFF, a far jump to F000:E000 at the
/// reset vector, the build date, a `cli; hlt; jmp $-2` fallback at F000:E000, and `hlt; iret`
/// stubs for the host-served interrupts.
pub open spec fn base_image(l: BiosLayout) -> Seq<u8> {
    let stub = seq![0xF4u8, 0xCF];
    let r0 = Seq::new(l.bios_size as nat, |i: int| 0xFFu8);
    let r1 = overwrite(r0, 0xFFF0, seq![0xEAu8, 0x00, 0xE0, 0x00, 0xF0]);
    let r2 = overwrite(r1, BIOS_BUILD_DATE_OFFSET as int, bios_build_date());
    let r3 = overwrite(r2, 0xE000, seq![0xFAu8, 0xF4, 0xEB, 0xFE]);
    let r4 = overwrite(r3, l.default_int_stub as int, stub);
    let r5 = overwrite(r4, l.int13_stub as int, stub);
    let r6 = overwrite(r5, l.int15_stub as int, stub);
    let r7 = overwrite(r6, l.int16_stub as int, stub);
    overwrite(r7, l.int1a_stub as int, stub)
}

/// The whole image, given the assembled VBE handler `code`: the base image, the VBE handler
/// and data, the parameter tables, both fonts and the `55 AA` signature in the last two bytes.
pub open spec fn bios_image(l: BiosLayout, vbe: VbeConfig, code: Seq<u8>) -> Seq<u8> {
    let r0 = vbe_image(base_image(l), code, l.int10_stub, vbe);
    let r1 = overwrite(r0, l.diskette_param_table as int, diskette_param_table());
    let r2 = overwrite(r1, l.fixed_disk_param_table as int, fixed_disk_param_table());
    let r3 = overwrite(r2, l.video_param_table as int, video_param_table());
    let r4 = overwrite(r3, l.vga_font_8x16 as int, font8x16_upto(256));
    let r5 = overwrite(r4, l.vga_font_8x8 as int, font8x8_upto(256));
    overwrite(r5, l.bios_size - 2, seq![0x55u8, 0xAA])
}

/// Build the BIOS image for `layout` with the VBE device `vbe`.
pub fn build_bios_rom_with_vbe(layout: &BiosLayout, vbe: &VbeConfig) -> (r: Result<Vec<u8>, BiosError>)
    requires
        layout_fits(*layout),
        vbe.mode_info_blocks@.len() == vbe.modes@.len(),
    ensures
        vbe.modes@.len() > 0x58 ==> r == Err::<Vec<u8>, BiosError>(BiosError::ModeInfoOffset),
        r is Ok <==> vbe.modes@.len() <= 0x58 && asm_ok(
            vbe_handler(*vbe, (layout.ebda_base / 16) as u16),
        ) && mode_blocks_fit(Seq::new(vbe.mode_info_blocks@.len(), |i: int| vbe.mode_info_blocks@[i]@))
            && VBE_ROM_EDID_OFFSET + vbe.edid@.len() <= layout.vga_font_8x8,
        r matches Ok(rom) ==> rom@ == bios_image(
            *layout,
            *vbe,
            asm_output(vbe_handler(*vbe, (layout.ebda_base / 16) as u16)),
        ),
        r matches Ok(rom) ==> mode_blocks_fit(
            Seq::new(vbe.mode_info_blocks@.len(), |i: int| vbe.mode_info_blocks@[i]@),
        ) && VBE_ROM_EDID_OFFSET + vbe.edid@.len() <= layout.vga_font_8x8,
        r == Err::<Vec<u8>, BiosError>(BiosError::ModeInfoOverlapsEdid) ==> !mode_blocks_fit(
            Seq::new(vbe.mode_info_blocks@.len(), |i: int| vbe.mode_info_blocks@[i]@),
        ),
        r == Err::<Vec<u8>, BiosError>(BiosError::EdidOverlapsFont) ==> VBE_ROM_EDID_OFFSET
            + vbe.edid@.len() > layout.vga_font_8x8,
{
    let size = layout.bios_size;
    let mut rom: Vec<u8> = Vec::new();
    let mut i: usize = 0;
    while i < size
        invariant
            i <= size,
            rom@ == Seq::new(i as nat, |k: int| 0xFFu8),
        decreases size - i,
    {
        rom.push(0xFF);
        i += 1;
        assert(rom@ =~= Seq::new(i as nat, |k: int| 0xFFu8));
    }

    // A conventional reset vector at F000:FFF0: JMP FAR F000:E000. POST runs in host code,
    // but guests and tooling may still expect the vector to hold a far jump.
    write_stub(&mut rom, 0xFFF0, &[0xEA, 0x00, 0xE0, 0x00, 0xF0]);

    // IBM-compatible firmware publishes an MM/DD/YY build date right after the reset vector;
    // operating systems probe F000:FFF5 before scanning the whole system BIOS.
    let date: [u8; 8] = [0x30, 0x36, 0x2F, 0x32, 0x33, 0x2F, 0x39, 0x39];
    assert(date@ =~= bios_build_date());
    write_stub(&mut rom, BIOS_BUILD_DATE_OFFSET as u16, &date);

    // A deterministic fallback at F000:E000 if it is ever reached: `cli; hlt; jmp $-2`.
    write_stub(&mut rom, 0xE000, &[0xFA, 0xF4, 0xEB, 0xFE]);

    let stub = [0xF4u8, 0xCF];  // HLT; IRET
    assert(stub@ =~= seq![0xF4u8, 0xCF]);
    write_stub(&mut rom, layout.default_int_stub, &stub);
    write_stub(&mut rom, layout.int13_stub, &stub);
    write_stub(&mut rom, layout.int15_stub, &stub);
    write_stub(&mut rom, layout.int16_stub, &stub);
    write_stub(&mut rom, layout.int1a_stub, &stub);
    let ghost base = rom@;
    proof {
        assert(seq![0xEAu8, 0x00, 0xE0, 0x00, 0xF0] =~= [0xEAu8, 0x00, 0xE0, 0x00, 0xF0]@);
        assert(seq![0xFAu8, 0xF4, 0xEB, 0xFE] =~= [0xFAu8, 0xF4, 0xEB, 0xFE]@);
        assert(base == base_image(*layout));
    }

    let ebda_segment = (layout.ebda_base / 16) as u16;
    let code = install_vbe_rom(&mut rom, vbe, layout.int10_stub, ebda_segment, layout.vga_font_8x8)?;

    let diskette: [u8; 11] = [0xAF, 0x02, 0x25, 0x02, 0x12, 0x1B, 0xFF, 0x6C, 0xF6, 0x0F, 0x08];
    assert(diskette@ =~= diskette_param_table());
    write_stub(&mut rom, layout.diskette_param_table, &diskette);

    // Word cylinders, byte heads, word write-precompensation cylinder, byte control, word
    // landing zone, byte sectors per track, then reserved zeros (IBM PC/AT format).
    let fixed_disk: [u8; 16] = [
        0x00, 0x04,  // cylinders = 1024
        0x10,  // heads = 16
        0x00, 0x00,  // write precomp = 0
        0x00,  // control
        0x00, 0x00,  // landing zone = 0
        0x3F,  // sectors/track = 63
        0x00, 0x00, 0x00, 0x00, 0x00, 0x00, 0x00,  // reserved
    ];
    assert(fixed_disk@ =~= fixed_disk_param_table());
    write_stub(&mut rom, layout.fixed_disk_param_table, &fixed_disk);

    let video: [u8; 16] = [
        0x5F, 0x4F, 0x50, 0x82, 0x55, 0x81, 0xBF, 0x1F, 0x00, 0x4F, 0x0D, 0x0E, 0x00, 0x00, 0x00, 0x00,
    ];
    assert(video@ =~= video_param_table());
    write_stub(&mut rom, layout.video_param_table, &video);

    // DOS-era software retrieves the ROM font (INT 10h AH=11h AL=30h) and expects the CP437
    // line-graphics range to be populated.
    let font_8x16 = build_font8x16_cp437();
    write_stub(&mut rom, layout.vga_font_8x16, font_8x16.as_slice());
    // IVT vector 0x1F historically points at an 8x8 graphics character table.
    let font_8x8 = build_font8x8_cp437();
    write_stub(&mut rom, layout.vga_font_8x8, font_8x8.as_slice());

    // Optional ROM signature.
    rom.set(size - 2, 0x55);
    rom.set(size - 1, 0xAA);
    proof {
        assert(rom@ =~= bios_image(*layout, *vbe, code@));
    }
    Ok(rom)
}

/// Build the 64 KiB BIOS image.
pub fn build_bios_rom(layout: &BiosLayout, vbe: &VbeConfig) -> (r: Result<Vec<u8>, BiosError>)
    requires
        layout_fits(*layout),
        vbe.mode_info_blocks@.len() == vbe.modes@.len(),
    ensures
        vbe.modes@.len() > 0x58 ==> r == Err::<Vec<u8>, BiosError>(BiosError::ModeInfoOffset),
        r is Ok <==> vbe.modes@.len() <= 0x58 && asm_ok(
            vbe_handler(*vbe, (layout.ebda_base / 16) as u16),
        ) && mode_blocks_fit(Seq::new(vbe.mode_info_blocks@.len(), |i: int| vbe.mode_info_blocks@[i]@))
            && VBE_ROM_EDID_OFFSET + vbe.edid@.len() <= layout.vga_font_8x8,
        r matches Ok(rom) ==> rom@ == bios_image(
            *layout,
            *vbe,
            asm_output(vbe_handler(*vbe, (layout.ebda_base / 16) as u16)),
        ),
{
    build_bios_rom_with_vbe(layout, vbe)
}

/// Every glyph has 8 rows, so the fonts hold 2048 and 4096 bytes.
proof fn lemma_font_lens()
    ensures
        font8x8_upto(256).len() == 2048,
        font8x16_upto(256).len() == 4096,
{
    lemma_font_lens_upto(256);
}

proof fn lemma_font_lens_upto(n: int)
    requires
        0 <= n,
    ensures
        font8x8_upto(n).len() == 8 * n,
        font8x16_upto(n).len() == 16 * n,
    decreases n,
{
    if n > 0 {
        lemma_font_lens_upto(n - 1);
    }
}

/// A write of `len` bytes at `off` stays clear of the build date.
pub open spec fn clear_of_date(off: int, len: int) -> bool {
    off + len <= BIOS_BUILD_DATE_OFFSET || BIOS_BUILD_DATE_OFFSET + 8 <= off
}

/// A write that does not touch `[x, y)` leaves it as it was.
proof fn lemma_overwrite_keeps(d: Seq<u8>, at: int, b: Seq<u8>, x: int, y: int)
    requires
        0 <= x <= y <= d.len(),
        at + b.len() <= x || y <= at,
    ensures
        overwrite(d, at, b).subrange(x, y) == d.subrange(x, y),
        overwrite(d, at, b).len() == d.len(),
{
    assert(overwrite(d, at, b).subrange(x, y) =~= d.subrange(x, y));
}

/// The mode list holds two bytes per mode and the terminator.
proof fn lemma_mode_list_len(modes: Seq<VbeMode>)
    ensures
        mode_list(modes).len() == 2 * (modes.len() + 1),
    decreases modes.len(),
{
    lemma_auto_spec_u16_to_from_le_bytes();
    if modes.len() > 0 {
        lemma_mode_list_len(modes.drop_first());
    }
}

/// Mode-info blocks leave everything below the mode-info area untouched.
proof fn lemma_mode_blocks_keep_below(rom: Seq<u8>, blocks: Seq<Seq<u8>>, k: int, x: int, y: int)
    requires
        0 <= k <= blocks.len(),
        0 <= x <= y <= rom.len(),
        y <= VBE_ROM_MODE_INFO_OFFSET,
    ensures
        with_mode_blocks(rom, blocks, k).subrange(x, y) == rom.subrange(x, y),
        with_mode_blocks(rom, blocks, k).len() == rom.len(),
    decreases k,
{
    if k > 0 {
        lemma_mode_blocks_keep_below(rom, blocks, k - 1, x, y);
        let b = blocks[k - 1];
        assert((k - 1) * b.len() >= 0) by (nonlinear_arith)
            requires
                k >= 1,
        ;
        lemma_overwrite_keeps(
            with_mode_blocks(rom, blocks, k - 1),
            VBE_ROM_MODE_INFO_OFFSET + (k - 1) * b.len(),
            b,
            x,
            y,
        );
    }
}

/// The two bytes at `s` lie outside the `len` bytes at `off`.
pub open spec fn stub_clear_of(s: int, off: int, len: int) -> bool {
    off + len <= s || s + 2 <= off
}

/// One stub write: writing the stub at `s` puts it there, and a write elsewhere keeps it.
proof fn lemma_stub_step(d: Seq<u8>, t: int, s: int)
    requires
        0 <= s,
        s + 2 <= d.len(),
        0 <= t,
        t + 2 <= d.len(),
    ensures
        t == s ==> overwrite(d, t, seq![0xF4u8, 0xCF]).subrange(s, s + 2) == seq![0xF4u8, 0xCF],
        stub_clear_of(s, t, 2) && d.subrange(s, s + 2) == seq![0xF4u8, 0xCF] ==> overwrite(
            d,
            t,
            seq![0xF4u8, 0xCF],
        ).subrange(s, s + 2) == seq![0xF4u8, 0xCF],
        overwrite(d, t, seq![0xF4u8, 0xCF]).len() == d.len(),
{
    if t == s {
        assert(overwrite(d, t, seq![0xF4u8, 0xCF]).subrange(s, s + 2) =~= seq![0xF4u8, 0xCF]);
    }
    if stub_clear_of(s, t, 2) {
        lemma_overwrite_keeps(d, t, seq![0xF4u8, 0xCF], s, s + 2);
    }
}

/// Every host-served interrupt stub of the layout (the default one and those of INT 13h, 15h,
/// 16h and 1Ah) holds `HLT; IRET` in the built image, provided the stubs are each either at the
/// same place or apart, and nothing written after them (the VBE handler and its data, the
/// INT 10h entry, the parameter tables, the fonts and the signature) lands on that stub.
pub proof fn lemma_bios_serves_interrupt_stubs(l: BiosLayout, vbe: VbeConfig, code: Seq<u8>, s: int)
    requires
        layout_fits(l),
        VBE_ROM_CODE_OFFSET + code.len() <= VBE_ROM_OEM_STRING_OFFSET,
        vbe.modes@.len() <= 0x58,
        mode_blocks_fit(Seq::new(vbe.mode_info_blocks@.len(), |i: int| vbe.mode_info_blocks@[i]@)),
        VBE_ROM_EDID_OFFSET + vbe.edid@.len() <= l.bios_size,
        s == l.default_int_stub || s == l.int13_stub || s == l.int15_stub || s == l.int16_stub
            || s == l.int1a_stub,
        l.default_int_stub == s || stub_clear_of(s, l.default_int_stub as int, 2),
        l.int13_stub == s || stub_clear_of(s, l.int13_stub as int, 2),
        l.int15_stub == s || stub_clear_of(s, l.int15_stub as int, 2),
        l.int16_stub == s || stub_clear_of(s, l.int16_stub as int, 2),
        l.int1a_stub == s || stub_clear_of(s, l.int1a_stub as int, 2),
        stub_clear_of(s, VBE_ROM_CODE_OFFSET as int, code.len() as int),
        stub_clear_of(s, l.int10_stub as int, 10),
        stub_clear_of(s, VBE_ROM_OEM_STRING_OFFSET as int, 14),
        stub_clear_of(s, VBE_ROM_VENDOR_STRING_OFFSET as int, 5),
        stub_clear_of(s, VBE_ROM_PRODUCT_STRING_OFFSET as int, 10),
        stub_clear_of(s, VBE_ROM_REV_STRING_OFFSET as int, 4),
        stub_clear_of(s, VBE_ROM_MODE_LIST_OFFSET as int, 2 * (vbe.modes@.len() + 1) as int),
        stub_clear_of(
            s,
            VBE_ROM_MODE_INFO_OFFSET as int,
            VBE_ROM_EDID_OFFSET - VBE_ROM_MODE_INFO_OFFSET,
        ),
        stub_clear_of(s, VBE_ROM_EDID_OFFSET as int, vbe.edid@.len() as int),
        stub_clear_of(s, l.diskette_param_table as int, 11),
        stub_clear_of(s, l.fixed_disk_param_table as int, 16),
        stub_clear_of(s, l.video_param_table as int, 16),
        stub_clear_of(s, l.vga_font_8x16 as int, 4096),
        stub_clear_of(s, l.vga_font_8x8 as int, 2048),
        stub_clear_of(s, l.bios_size - 2, 2),
    ensures
        bios_image(l, vbe, code).subrange(s, s + 2) == seq![0xF4u8, 0xCF],
{
    lemma_auto_spec_u16_to_from_le_bytes();
    let x = s;
    let y = s + 2;
    let stub = seq![0xF4u8, 0xCF];
    let r0 = Seq::new(l.bios_size as nat, |i: int| 0xFFu8);
    let r1 = overwrite(r0, 0xFFF0, seq![0xEAu8, 0x00, 0xE0, 0x00, 0xF0]);
    let r2 = overwrite(r1, BIOS_BUILD_DATE_OFFSET as int, bios_build_date());
    let r3 = overwrite(r2, 0xE000, seq![0xFAu8, 0xF4, 0xEB, 0xFE]);
    let r4 = overwrite(r3, l.default_int_stub as int, stub);
    lemma_stub_step(r3, l.default_int_stub as int, s);
    let r5 = overwrite(r4, l.int13_stub as int, stub);
    lemma_stub_step(r4, l.int13_stub as int, s);
    let r6 = overwrite(r5, l.int15_stub as int, stub);
    lemma_stub_step(r5, l.int15_stub as int, s);
    let r7 = overwrite(r6, l.int16_stub as int, stub);
    lemma_stub_step(r6, l.int16_stub as int, s);
    let base = overwrite(r7, l.int1a_stub as int, stub);
    lemma_stub_step(r7, l.int1a_stub as int, s);
    assert(base == base_image(l));
    assert(base.subrange(x, y) == stub);

    let v1 = overwrite(base, VBE_ROM_CODE_OFFSET as int, code);
    lemma_overwrite_keeps(base, VBE_ROM_CODE_OFFSET as int, code, x, y);
    let v2 = overwrite(v1, l.int10_stub as int, int10_entry(l.int10_stub));
    lemma_overwrite_keeps(v1, l.int10_stub as int, int10_entry(l.int10_stub), x, y);
    let v3 = overwrite(v2, VBE_ROM_OEM_STRING_OFFSET as int, oem_string());
    lemma_overwrite_keeps(v2, VBE_ROM_OEM_STRING_OFFSET as int, oem_string(), x, y);
    let v4 = overwrite(v3, VBE_ROM_VENDOR_STRING_OFFSET as int, vendor_string());
    lemma_overwrite_keeps(v3, VBE_ROM_VENDOR_STRING_OFFSET as int, vendor_string(), x, y);
    let v5 = overwrite(v4, VBE_ROM_PRODUCT_STRING_OFFSET as int, product_string());
    lemma_overwrite_keeps(v4, VBE_ROM_PRODUCT_STRING_OFFSET as int, product_string(), x, y);
    let v6 = overwrite(v5, VBE_ROM_REV_STRING_OFFSET as int, revision_string());
    lemma_overwrite_keeps(v5, VBE_ROM_REV_STRING_OFFSET as int, revision_string(), x, y);
    lemma_mode_list_len(vbe.modes@);
    let v7 = overwrite(v6, VBE_ROM_MODE_LIST_OFFSET as int, mode_list(vbe.modes@));
    lemma_overwrite_keeps(v6, VBE_ROM_MODE_LIST_OFFSET as int, mode_list(vbe.modes@), x, y);
    let blocks = Seq::new(vbe.mode_info_blocks@.len(), |i: int| vbe.mode_info_blocks@[i]@);
    let v8 = with_mode_blocks(v7, blocks, blocks.len() as int);
    if y <= VBE_ROM_MODE_INFO_OFFSET {
        lemma_mode_blocks_keep_below(v7, blocks, blocks.len() as int, x, y);
    } else {
        lemma_mode_blocks_keep(v7, blocks, blocks.len() as int, x, y);
    }
    let v9 = overwrite(v8, VBE_ROM_EDID_OFFSET as int, vbe.edid@);
    lemma_overwrite_keeps(v8, VBE_ROM_EDID_OFFSET as int, vbe.edid@, x, y);
    assert(v9 == vbe_image(base_image(l), code, l.int10_stub, vbe));

    let t1 = overwrite(v9, l.diskette_param_table as int, diskette_param_table());
    lemma_overwrite_keeps(v9, l.diskette_param_table as int, diskette_param_table(), x, y);
    let t2 = overwrite(t1, l.fixed_disk_param_table as int, fixed_disk_param_table());
    lemma_overwrite_keeps(t1, l.fixed_disk_param_table as int, fixed_disk_param_table(), x, y);
    let t3 = overwrite(t2, l.video_param_table as int, video_param_table());
    lemma_overwrite_keeps(t2, l.video_param_table as int, video_param_table(), x, y);
    lemma_font_lens();
    let t4 = overwrite(t3, l.vga_font_8x16 as int, font8x16_upto(256));
    lemma_overwrite_keeps(t3, l.vga_font_8x16 as int, font8x16_upto(256), x, y);
    let t5 = overwrite(t4, l.vga_font_8x8 as int, font8x8_upto(256));
    lemma_overwrite_keeps(t4, l.vga_font_8x8 as int, font8x8_upto(256), x, y);
    lemma_overwrite_keeps(t5, l.bios_size - 2, seq![0x55u8, 0xAA], x, y);
}

/// Mode-info blocks that fit below the EDID leave everything from the EDID on untouched.
proof fn lemma_mode_blocks_keep(rom: Seq<u8>, blocks: Seq<Seq<u8>>, k: int, x: int, y: int)
    requires
        0 <= k <= blocks.len(),
        mode_blocks_fit(blocks),
        VBE_ROM_EDID_OFFSET <= x <= y <= rom.len(),
    ensures
        with_mode_blocks(rom, blocks, k).subrange(x, y) == rom.subrange(x, y),
        with_mode_blocks(rom, blocks, k).len() == rom.len(),
    decreases k,
{
    if k > 0 {
        lemma_mode_blocks_keep(rom, blocks, k - 1, x, y);
        let b = blocks[k - 1];
        lemma_overwrite_keeps(
            with_mode_blocks(rom, blocks, k - 1),
            VBE_ROM_MODE_INFO_OFFSET + (k - 1) * b.len(),
            b,
            x,
            y,
        );
    }
}

/// The image publishes the conventional build date at F000:FFF5 whenever nothing written after
/// it lands there: the stubs, tables and fonts of the layout, and the VBE data.
pub proof fn lemma_bios_publishes_build_date(l: BiosLayout, vbe: VbeConfig, code: Seq<u8>)
    requires
        layout_fits(l),
        VBE_ROM_CODE_OFFSET + code.len() <= VBE_ROM_OEM_STRING_OFFSET,
        vbe.modes@.len() <= 0x58,
        mode_blocks_fit(Seq::new(vbe.mode_info_blocks@.len(), |i: int| vbe.mode_info_blocks@[i]@)),
        VBE_ROM_EDID_OFFSET + vbe.edid@.len() <= BIOS_BUILD_DATE_OFFSET,
        clear_of_date(l.default_int_stub as int, 2),
        clear_of_date(l.int10_stub as int, 10),
        clear_of_date(l.int13_stub as int, 2),
        clear_of_date(l.int15_stub as int, 2),
        clear_of_date(l.int16_stub as int, 2),
        clear_of_date(l.int1a_stub as int, 2),
        clear_of_date(l.diskette_param_table as int, 11),
        clear_of_date(l.fixed_disk_param_table as int, 16),
        clear_of_date(l.video_param_table as int, 16),
        clear_of_date(l.vga_font_8x16 as int, 4096),
        clear_of_date(l.vga_font_8x8 as int, 2048),
    ensures
        bios_image(l, vbe, code).subrange(0xFFF5, 0xFFFD) == bios_build_date(),
{
    lemma_auto_spec_u16_to_from_le_bytes();
    let x = 0xFFF5int;
    let y = 0xFFFDint;
    let stub = seq![0xF4u8, 0xCF];
    let r0 = Seq::new(l.bios_size as nat, |i: int| 0xFFu8);
    let r1 = overwrite(r0, 0xFFF0, seq![0xEAu8, 0x00, 0xE0, 0x00, 0xF0]);
    let r2 = overwrite(r1, BIOS_BUILD_DATE_OFFSET as int, bios_build_date());
    assert(r2.subrange(x, y) =~= bios_build_date());
    let r3 = overwrite(r2, 0xE000, seq![0xFAu8, 0xF4, 0xEB, 0xFE]);
    lemma_overwrite_keeps(r2, 0xE000, seq![0xFAu8, 0xF4, 0xEB, 0xFE], x, y);
    let r4 = overwrite(r3, l.default_int_stub as int, stub);
    lemma_overwrite_keeps(r3, l.default_int_stub as int, stub, x, y);
    let r5 = overwrite(r4, l.int13_stub as int, stub);
    lemma_overwrite_keeps(r4, l.int13_stub as int, stub, x, y);
    let r6 = overwrite(r5, l.int15_stub as int, stub);
    lemma_overwrite_keeps(r5, l.int15_stub as int, stub, x, y);
    let r7 = overwrite(r6, l.int16_stub as int, stub);
    lemma_overwrite_keeps(r6, l.int16_stub as int, stub, x, y);
    let base = overwrite(r7, l.int1a_stub as int, stub);
    lemma_overwrite_keeps(r7, l.int1a_stub as int, stub, x, y);
    assert(base == base_image(l));

    let v1 = overwrite(base, VBE_ROM_CODE_OFFSET as int, code);
    lemma_overwrite_keeps(base, VBE_ROM_CODE_OFFSET as int, code, x, y);
    let v2 = overwrite(v1, l.int10_stub as int, int10_entry(l.int10_stub));
    lemma_overwrite_keeps(v1, l.int10_stub as int, int10_entry(l.int10_stub), x, y);
    let v3 = overwrite(v2, VBE_ROM_OEM_STRING_OFFSET as int, oem_string());
    lemma_overwrite_keeps(v2, VBE_ROM_OEM_STRING_OFFSET as int, oem_string(), x, y);
    let v4 = overwrite(v3, VBE_ROM_VENDOR_STRING_OFFSET as int, vendor_string());
    lemma_overwrite_keeps(v3, VBE_ROM_VENDOR_STRING_OFFSET as int, vendor_string(), x, y);
    let v5 = overwrite(v4, VBE_ROM_PRODUCT_STRING_OFFSET as int, product_string());
    lemma_overwrite_keeps(v4, VBE_ROM_PRODUCT_STRING_OFFSET as int, product_string(), x, y);
    let v6 = overwrite(v5, VBE_ROM_REV_STRING_OFFSET as int, revision_string());
    lemma_overwrite_keeps(v5, VBE_ROM_REV_STRING_OFFSET as int, revision_string(), x, y);
    lemma_mode_list_len(vbe.modes@);
    let v7 = overwrite(v6, VBE_ROM_MODE_LIST_OFFSET as int, mode_list(vbe.modes@));
    lemma_overwrite_keeps(v6, VBE_ROM_MODE_LIST_OFFSET as int, mode_list(vbe.modes@), x, y);
    let blocks = Seq::new(vbe.mode_info_blocks@.len(), |i: int| vbe.mode_info_blocks@[i]@);
    let v8 = with_mode_blocks(v7, blocks, blocks.len() as int);
    lemma_mode_blocks_keep(v7, blocks, blocks.len() as int, x, y);
    let v9 = overwrite(v8, VBE_ROM_EDID_OFFSET as int, vbe.edid@);
    lemma_overwrite_keeps(v8, VBE_ROM_EDID_OFFSET as int, vbe.edid@, x, y);
    assert(v9 == vbe_image(base_image(l), code, l.int10_stub, vbe));

    let t1 = overwrite(v9, l.diskette_param_table as int, diskette_param_table());
    lemma_overwrite_keeps(v9, l.diskette_param_table as int, diskette_param_table(), x, y);
    let t2 = overwrite(t1, l.fixed_disk_param_table as int, fixed_disk_param_table());
    lemma_overwrite_keeps(t1, l.fixed_disk_param_table as int, fixed_disk_param_table(), x, y);
    let t3 = overwrite(t2, l.video_param_table as int, video_param_table());
    lemma_overwrite_keeps(t2, l.video_param_table as int, video_param_table(), x, y);
    lemma_font_lens();
    let t4 = overwrite(t3, l.vga_font_8x16 as int, font8x16_upto(256));
    lemma_overwrite_keeps(t3, l.vga_font_8x16 as int, font8x16_upto(256), x, y);
    let t5 = overwrite(t4, l.vga_font_8x8 as int, font8x8_upto(256));
    lemma_overwrite_keeps(t4, l.vga_font_8x8 as int, font8x8_upto(256), x, y);
    lemma_overwrite_keeps(t5, l.bios_size - 2, seq![0x55u8, 0xAA], x, y);
}

/// Record the linear framebuffer's final address in the handler's EBDA state block, where the
/// mode-info call reads PhysBasePtr from. Bytes that are not RAM are left alone.
pub fn write_vbe_lfb_runtime_state<M: GuestPhysical>(memory: &mut M, ebda_base: u64, lfb_base: u32)
    requires
        ebda_base + VBE_EBDA_LFB_BASE_OFFSET + 4 <= u64::MAX,
    ensures
        forall|a: u64| #[trigger] final(memory).is_ram(a) == old(memory).is_ram(a),
        forall|a: u64|
            #[trigger] final(memory).phys_byte(a) == if ebda_base + VBE_EBDA_LFB_BASE_OFFSET <= a
                < ebda_base + VBE_EBDA_LFB_BASE_OFFSET + 4 && old(memory).is_ram(a) {
                spec_u32_to_le_bytes(lfb_base)[a - (ebda_base + VBE_EBDA_LFB_BASE_OFFSET)]
            } else {
                old(memory).phys_byte(a)
            },
{
    let at = ebda_base + VBE_EBDA_LFB_BASE_OFFSET as u64;
    let bytes = u32_to_le_bytes(lfb_base);
    proof {
        lemma_auto_spec_u32_to_from_le_bytes();
    }
    let mut j: usize = 0;
    while j < 4
        invariant
            j <= 4,
            bytes@ == spec_u32_to_le_bytes(lfb_base),
            bytes@.len() == 4,
            at == ebda_base + VBE_EBDA_LFB_BASE_OFFSET,
            at + 4 <= u64::MAX,
            forall|a: u64| #[trigger] memory.is_ram(a) == old(memory).is_ram(a),
            forall|a: u64|
                #[trigger] memory.phys_byte(a) == if at <= a < at + j && old(memory).is_ram(a) {
                    bytes@[a - at]
                } else {
                    old(memory).phys_byte(a)
                },
        decreases 4 - j,
    {
        memory.write_physical_u8(at + j as u64, bytes[j]);
        j += 1;
    }
}

} // verus!
