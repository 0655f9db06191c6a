use vstd::prelude::*;

use crate::regs::Register;

verus! {

/// One AArch64 instruction with the operands that its encoding needs.
#[derive(Debug, Clone, Copy, PartialEq, Eq, Structural)]
pub enum Command {
    Mov { reg: Register, val: u16 },
    Adr { reg: Register, offset: i32 },
    Svc,
    Ret,
    Add { rd: Register, rn: Register, rm: Register },
    Addi { rd: Register, rn: Register, num: u32 },
    Sub { rd: Register, rn: Register, rm: Register },
    Subi { rd: Register, rn: Register, num: u32 },
    Mul { rd: Register, rn: Register, rm: Register },
    SDiv { rd: Register, rn: Register, rm: Register },
    Cmp { rn: Register, rm: Register },
    Cmpi { rn: Register, num: u32 },
    B { offset: i32 },
    Bcc { cond: u8, offset: i32 },
    Ldr { rt: Register, rn: Register },
    Str { rt: Register, rn: Register },
    Eor { rd: Register, rn: Register, rm: Register },
    Ldrb { rt: Register, rn: Register },
    Strb { rt: Register, rn: Register },
}

/// The 5-bit field of a register.
pub open spec fn field(r: Register) -> u32 {
    r.index() as u32
}

/// A byte displacement divided by four, rounding toward zero.
pub open spec fn quarter(x: i32) -> int {
    if x >= 0 {
        x / 4
    } else {
        -((-x) / 4)
    }
}

/// Three-register form: `Rm` at bit 16, `Rn` at bit 5, `Rd` at bit 0.
pub open spec fn rrr(base: u32, rd: Register, rn: Register, rm: Register) -> u32 {
    base | (field(rm) << 16u32) | (field(rn) << 5u32) | field(rd)
}

/// Register and 12-bit immediate form: `imm12` at bit 10.
pub open spec fn rri(base: u32, rd: u32, rn: Register, num: u32) -> u32 {
    base | ((num & 0xFFF) << 10u32) | (field(rn) << 5u32) | rd
}

/// Load/store form: `Rn` at bit 5, `Rt` at bit 0.
pub open spec fn rt_rn(base: u32, rt: Register, rn: Register) -> u32 {
    base | (field(rn) << 5u32) | field(rt)
}

impl Command {
    /// Every register operand is one of `П0` .. `П30`.
    pub open spec fn wf(self) -> bool {
        match self {
            Command::Mov { reg, .. } | Command::Adr { reg, .. } => reg.wf(),
            Command::Add { rd, rn, rm } | Command::Sub { rd, rn, rm } | Command::Mul { rd, rn, rm }
            | Command::SDiv { rd, rn, rm } | Command::Eor { rd, rn, rm } => rd.wf() && rn.wf()
                && rm.wf(),
            Command::Addi { rd, rn, .. } | Command::Subi { rd, rn, .. } => rd.wf() && rn.wf(),
            Command::Cmp { rn, rm } => rn.wf() && rm.wf(),
            Command::Cmpi { rn, .. } => rn.wf(),
            Command::Ldr { rt, rn } | Command::Str { rt, rn } | Command::Ldrb { rt, rn }
            | Command::Strb { rt, rn } => rt.wf() && rn.wf(),
            _ => true,
        }
    }

    /// The 32-bit instruction word.
    pub open spec fn spec_encode(self) -> u32 {
        match self {
            Command::Mov { reg, val } => 0xD2800000u32 | ((val as u32) << 5u32) | field(reg),
            Command::Adr { reg, offset } => {
                let off = #[verifier::truncate] (offset as u32);
                0x10000000u32 | ((off & 3) << 29u32) | (((off >> 2u32) & 0x7FFFF) << 5u32) | field(
                    reg,
                )
            },
            Command::Svc => 0xD4000001u32,
            Command::Ret => 0xD65F03C0u32,
            Command::Add { rd, rn, rm } => rrr(0x8B000000u32, rd, rn, rm),
            Command::Addi { rd, rn, num } => rri(0x91000000u32, field(rd), rn, num),
            Command::Sub { rd, rn, rm } => rrr(0xCB000000u32, rd, rn, rm),
            Command::Subi { rd, rn, num } => rri(0xD1000000u32, field(rd), rn, num),
            Command::Mul { rd, rn, rm } => rrr(0x9B007C00u32, rd, rn, rm),
            Command::SDiv { rd, rn, rm } => rrr(0x9AC00C00u32, rd, rn, rm),
            Command::Cmp { rn, rm } => 0xEB000000u32 | (field(rm) << 16u32) | (field(rn) << 5u32)
                | 0x1Fu32,
            Command::Cmpi { rn, num } => rri(0xF1000000u32, 0x1Fu32, rn, num),
            Command::B { offset } => 0x14000000u32 | ((#[verifier::truncate] (quarter(offset) as u32)) & 0x03FFFFFF),
            Command::Bcc { cond, offset } => 0x54000000u32 | (((#[verifier::truncate] (quarter(offset) as u32)) & 0x7FFFF)
                << 5u32) | ((cond & 0xF) as u32),
            Command::Ldr { rt, rn } => rt_rn(0xF9400000u32, rt, rn),
            Command::Str { rt, rn } => rt_rn(0xF9000000u32, rt, rn),
            Command::Eor { rd, rn, rm } => rrr(0xCA000000u32, rd, rn, rm),
            Command::Ldrb { rt, rn } => rt_rn(0x39400000u32, rt, rn),
            Command::Strb { rt, rn } => rt_rn(0x39000000u32, rt, rn),
        }
    }

    /// Encodes the instruction as a 32-bit word.
    pub fn encode(&self) -> (r: u32)
        requires
            self.wf(),
        ensures
            r == self.spec_encode(),
    {
        match self {
            Command::Mov { reg, val } => {
                let imm = (*val as u32) << 5u32;
                0xD2800000u32 | imm | reg.to_u32()
            },
            Command::Adr { reg, offset } => {
                let off = *offset as u32;
                let immlo = (off & 3) << 29u32;
                let immhi = ((off >> 2u32) & 0x7FFFF) << 5u32;
                0x10000000u32 | immlo | immhi | reg.to_u32()
            },
            Command::Svc => 0xD4000001u32,
            Command::Ret => 0xD65F03C0u32,
            Command::Add { rd, rn, rm } => 0x8B000000u32 | (rm.to_u32() << 16u32) | (rn.to_u32()
                << 5u32) | rd.to_u32(),
            Command::Addi { rd, rn, num } => {
                let imm12 = (*num & 0xFFF) << 10u32;
                0x91000000u32 | imm12 | (rn.to_u32() << 5u32) | rd.to_u32()
            },
            Command::Sub { rd, rn, rm } => 0xCB000000u32 | (rm.to_u32() << 16u32) | (rn.to_u32()
                << 5u32) | rd.to_u32(),
            Command::Subi { rd, rn, num } => {
                let imm12 = (*num & 0xFFF) << 10u32;
                0xD1000000u32 | imm12 | (rn.to_u32() << 5u32) | rd.to_u32()
            },
            Command::Mul { rd, rn, rm } => 0x9B007C00u32 | (rm.to_u32() << 16u32) | (rn.to_u32()
                << 5u32) | rd.to_u32(),
            Command::SDiv { rd, rn, rm } => 0x9AC00C00u32 | (rm.to_u32() << 16u32) | (rn.to_u32()
                << 5u32) | rd.to_u32(),
            Command::Cmp { rn, rm } => 0xEB000000u32 | (rm.to_u32() << 16u32) | (rn.to_u32()
                << 5u32) | 0x1Fu32,
            Command::Cmpi { rn, num } => {
                let imm12 = (*num & 0xFFF) << 10u32;
                0xF1000000u32 | imm12 | (rn.to_u32() << 5u32) | 0x1Fu32
            },
            Command::B { offset } => {
                let q = quarter_of(*offset);
                0x14000000u32 | ((q as u32) & 0x03FFFFFF)
            },
            Command::Bcc { cond, offset } => {
                let q = quarter_of(*offset);
                let imm19 = ((q as u32) & 0x7FFFF) << 5u32;
                0x54000000u32 | imm19 | ((*cond & 0xF) as u32)
            },
            Command::Ldr { rt, rn } => 0xF9400000u32 | (rn.to_u32() << 5u32) | rt.to_u32(),
            Command::Str { rt, rn } => 0xF9000000u32 | (rn.to_u32() << 5u32) | rt.to_u32(),
            Command::Eor { rd, rn, rm } => 0xCA000000u32 | (rm.to_u32() << 16u32) | (rn.to_u32()
                << 5u32) | rd.to_u32(),
            Command::Ldrb { rt, rn } => 0x39400000u32 | (rn.to_u32() << 5u32) | rt.to_u32(),
            Command::Strb { rt, rn } => 0x39000000u32 | (rn.to_u32() << 5u32) | rt.to_u32(),
        }
    }
}

impl Command {
    /// The fixed bits of the instruction, including a forced `Rd` of 31 for compares.
    pub open spec fn base(self) -> u32 {
        match self {
            Command::Mov { .. } => 0xD2800000u32,
            Command::Adr { .. } => 0x10000000u32,
            Command::Svc => 0xD4000001u32,
            Command::Ret => 0xD65F03C0u32,
            Command::Add { .. } => 0x8B000000u32,
            Command::Addi { .. } => 0x91000000u32,
            Command::Sub { .. } => 0xCB000000u32,
            Command::Subi { .. } => 0xD1000000u32,
            Command::Mul { .. } => 0x9B007C00u32,
            Command::SDiv { .. } => 0x9AC00C00u32,
            Command::Cmp { .. } => 0xEB00001Fu32,
            Command::Cmpi { .. } => 0xF100001Fu32,
            Command::B { .. } => 0x14000000u32,
            Command::Bcc { .. } => 0x54000000u32,
            Command::Ldr { .. } => 0xF9400000u32,
            Command::Str { .. } => 0xF9000000u32,
            Command::Eor { .. } => 0xCA000000u32,
            Command::Ldrb { .. } => 0x39400000u32,
            Command::Strb { .. } => 0x39000000u32,
        }
    }

    /// The bits that the operand fields of the instruction may occupy.
    pub open spec fn field_mask(self) -> u32 {
        match self {
            Command::Mov { .. } => 0x001FFFFFu32,
            Command::Adr { .. } => 0x60FFFFFFu32,
            Command::Svc | Command::Ret => 0u32,
            Command::Add { .. } | Command::Sub { .. } | Command::Mul { .. } | Command::SDiv { .. }
            | Command::Eor { .. } => 0x001F03FFu32,
            Command::Addi { .. } | Command::Subi { .. } => 0x003FFFFFu32,
            Command::Cmp { .. } => 0x001F03E0u32,
            Command::Cmpi { .. } => 0x003FFFE0u32,
            Command::B { .. } => 0x03FFFFFFu32,
            Command::Bcc { .. } => 0x00FFFFEFu32,
            Command::Ldr { .. } | Command::Str { .. } | Command::Ldrb { .. } | Command::Strb {
                ..
            } => 0x000003FFu32,
        }
    }
}

proof fn lemma_rrr_bits(base: u32, d: u32, n: u32, m: u32)
    requires
        base & 0x001F03FFu32 == 0,
        d < 32,
        n < 32,
        m < 32,
    ensures
        (base | (m << 16u32) | (n << 5u32) | d) & !0x001F03FFu32 == base,
{
    assert((base | (m << 16u32) | (n << 5u32) | d) & !0x001F03FFu32 == base) by (bit_vector)
        requires
            base & 0x001F03FFu32 == 0,
            d < 32,
            n < 32,
            m < 32,
    ;
}

proof fn lemma_rri_bits(base: u32, d: u32, n: u32, num: u32)
    requires
        base & 0x003FFFFFu32 == 0,
        d < 32,
        n < 32,
    ensures
        (base | ((num & 0xFFF) << 10u32) | (n << 5u32) | d) & !0x003FFFFFu32 == base,
{
    assert((base | ((num & 0xFFF) << 10u32) | (n << 5u32) | d) & !0x003FFFFFu32 == base)
        by (bit_vector)
        requires
            base & 0x003FFFFFu32 == 0,
            d < 32,
            n < 32,
    ;
}

proof fn lemma_rt_rn_bits(base: u32, t: u32, n: u32)
    requires
        base & 0x3FFu32 == 0,
        t < 32,
        n < 32,
    ensures
        (base | (n << 5u32) | t) & !0x3FFu32 == base,
{
    assert((base | (n << 5u32) | t) & !0x3FFu32 == base) by (bit_vector)
        requires
            base & 0x3FFu32 == 0,
            t < 32,
            n < 32,
    ;
}

/// An encoded word is the variant's base word with only its documented operand
/// fields set on top: outside `field_mask` no other bit is set.
pub proof fn lemma_encode_sets_only_fields(c: Command)
    requires
        c.wf(),
    ensures
        c.spec_encode() & !c.field_mask() == c.base(),
        c.base() & c.field_mask() == 0,
{
    match c {
        Command::Mov { reg, val } => {
            let v = val as u32;
            let r = field(reg);
            assert((0xD2800000u32 | (v << 5u32) | r) & !0x001FFFFFu32 == 0xD2800000u32)
                by (bit_vector)
                requires
                    v < 0x10000,
                    r < 32,
            ;
            assert(0xD2800000u32 & 0x001FFFFFu32 == 0) by (bit_vector);
        },
        Command::Adr { reg, offset } => {
            let off = #[verifier::truncate] (offset as u32);
            let r = field(reg);
            assert((0x10000000u32 | ((off & 3) << 29u32) | (((off >> 2u32) & 0x7FFFF) << 5u32) | r)
                & !0x60FFFFFFu32 == 0x10000000u32) by (bit_vector)
                requires
                    r < 32,
            ;
            assert(0x10000000u32 & 0x60FFFFFFu32 == 0) by (bit_vector);
        },
        Command::Svc => {
            assert(0xD4000001u32 & !0u32 == 0xD4000001u32) by (bit_vector);
            assert(0xD4000001u32 & 0u32 == 0) by (bit_vector);
        },
        Command::Ret => {
            assert(0xD65F03C0u32 & !0u32 == 0xD65F03C0u32) by (bit_vector);
            assert(0xD65F03C0u32 & 0u32 == 0) by (bit_vector);
        },
        Command::Add { rd, rn, rm } => {
            assert(0x8B000000u32 & 0x001F03FFu32 == 0) by (bit_vector);
            lemma_rrr_bits(0x8B000000u32, field(rd), field(rn), field(rm));
        },
        Command::Sub { rd, rn, rm } => {
            assert(0xCB000000u32 & 0x001F03FFu32 == 0) by (bit_vector);
            lemma_rrr_bits(0xCB000000u32, field(rd), field(rn), field(rm));
        },
        Command::Mul { rd, rn, rm } => {
            assert(0x9B007C00u32 & 0x001F03FFu32 == 0) by (bit_vector);
            lemma_rrr_bits(0x9B007C00u32, field(rd), field(rn), field(rm));
        },
        Command::SDiv { rd, rn, rm } => {
            assert(0x9AC00C00u32 & 0x001F03FFu32 == 0) by (bit_vector);
            lemma_rrr_bits(0x9AC00C00u32, field(rd), field(rn), field(rm));
        },
        Command::Eor { rd, rn, rm } => {
            assert(0xCA000000u32 & 0x001F03FFu32 == 0) by (bit_vector);
            lemma_rrr_bits(0xCA000000u32, field(rd), field(rn), field(rm));
        },
        Command::Addi { rd, rn, num } => {
            assert(0x91000000u32 & 0x003FFFFFu32 == 0) by (bit_vector);
            lemma_rri_bits(0x91000000u32, field(rd), field(rn), num);
        },
        Command::Subi { rd, rn, num } => {
            assert(0xD1000000u32 & 0x003FFFFFu32 == 0) by (bit_vector);
            lemma_rri_bits(0xD1000000u32, field(rd), field(rn), num);
        },
        Command::Cmp { rn, rm } => {
            let n = field(rn);
            let m = field(rm);
            assert((0xEB000000u32 | (m << 16u32) | (n << 5u32) | 0x1Fu32) & !0x001F03E0u32
                == 0xEB00001Fu32) by (bit_vector)
                requires
                    n < 32,
                    m < 32,
            ;
            assert(0xEB00001Fu32 & 0x001F03E0u32 == 0) by (bit_vector);
        },
        Command::Cmpi { rn, num } => {
            let n = field(rn);
            assert((0xF1000000u32 | ((num & 0xFFF) << 10u32) | (n << 5u32) | 0x1Fu32)
                & !0x003FFFE0u32 == 0xF100001Fu32) by (bit_vector)
                requires
                    n < 32,
            ;
            assert(0xF100001Fu32 & 0x003FFFE0u32 == 0) by (bit_vector);
        },
        Command::B { offset } => {
            let q = #[verifier::truncate] (quarter(offset) as u32);
            assert((0x14000000u32 | (q & 0x03FFFFFF)) & !0x03FFFFFFu32 == 0x14000000u32)
                by (bit_vector);
            assert(0x14000000u32 & 0x03FFFFFFu32 == 0) by (bit_vector);
        },
        Command::Bcc { cond, offset } => {
            let q = #[verifier::truncate] (quarter(offset) as u32);
            let cc = (cond & 0xF) as u32;
            assert(cc < 16) by (bit_vector)
                requires
                    cc == (cond & 0xF) as u32,
            ;
            assert((0x54000000u32 | ((q & 0x7FFFF) << 5u32) | cc) & !0x00FFFFEFu32
                == 0x54000000u32) by (bit_vector)
                requires
                    cc < 16,
            ;
            assert(0x54000000u32 & 0x00FFFFEFu32 == 0) by (bit_vector);
        },
        Command::Ldr { rt, rn } => {
            assert(0xF9400000u32 & 0x3FFu32 == 0) by (bit_vector);
            lemma_rt_rn_bits(0xF9400000u32, field(rt), field(rn));
        },
        Command::Str { rt, rn } => {
            assert(0xF9000000u32 & 0x3FFu32 == 0) by (bit_vector);
            lemma_rt_rn_bits(0xF9000000u32, field(rt), field(rn));
        },
        Command::Ldrb { rt, rn } => {
            assert(0x39400000u32 & 0x3FFu32 == 0) by (bit_vector);
            lemma_rt_rn_bits(0x39400000u32, field(rt), field(rn));
        },
        Command::Strb { rt, rn } => {
            assert(0x39000000u32 & 0x3FFu32 == 0) by (bit_vector);
            lemma_rt_rn_bits(0x39000000u32, field(rt), field(rn));
        },
    }
}

fn quarter_of(x: i32) -> (r: i64)
    ensures
        r == quarter(x),
{
    let w = x as i64;
    if w >= 0 {
        w / 4
    } else {
        -((-w) / 4)
    }
}

} // verus!
