use vstd::prelude::*;

use crate::commands::Command;
use crate::errors::{AsmError, Diagnostic, LineFault};
use crate::regs::Register;
use crate::slasm::{le_bytes, zeros, SlovoAsm};
use crate::utils::{
    chars_of, clean, clean_chars, extract, extract_chars, find_char, find_from, num_chars,
    num_of, reg_chars, reg_of, slice_chars, split_tokens, string_of, tokens, views,
};
use vstd::utf8::encode_utf8;

verus! {

/// The largest size of a section; it keeps every displacement within `i32`.
pub const MAX_TEXT: usize = 0x7FFF_FFFC;

/// What the first word of a line asks for.
#[derive(Debug, Clone, Copy, PartialEq, Eq, Structural)]
pub enum Op {
    Mov,
    Adr,
    Svc,
    Ret,
    Add,
    Sub,
    Mul,
    SDiv,
    Eor,
    Cmp,
    B,
    Bcc(u8),
    Ldr,
    Str,
    Ldrb,
    Strb,
    Reserve,
    Word,
    Embed,
}

/// The mnemonic or directive that a word names, with its condition code for
/// the conditional branches.
pub open spec fn op_of(t: Seq<char>) -> Result<Op, AsmError> {
    if t == seq!['П', 'О', 'Л', 'О', 'Ж', 'И'] {
        Ok(Op::Mov)
    } else if t == seq!['У', 'К', 'А', 'Ж', 'И'] {
        Ok(Op::Adr)
    } else if t == seq!['Д', 'О', 'Л', 'О', 'Ж', 'И'] {
        Ok(Op::Svc)
    } else if t == seq!['В', 'Е', 'Р', 'Н', 'И', 'С', 'Ь'] {
        Ok(Op::Ret)
    } else if t == seq!['П', 'Р', 'И', 'Б', 'А', 'В', 'Ь'] {
        Ok(Op::Add)
    } else if t == seq!['В', 'Ы', 'Ч', 'Т', 'И'] {
        Ok(Op::Sub)
    } else if t == seq!['У', 'М', 'Н', 'О', 'Ж', 'Ь'] {
        Ok(Op::Mul)
    } else if t == seq!['Р', 'А', 'З', 'Д', 'Е', 'Л', 'И'] {
        Ok(Op::SDiv)
    } else if t == seq!['Р', 'А', 'З', 'Н', 'О', 'С', 'Т', 'Ь'] {
        Ok(Op::Eor)
    } else if t == seq!['С', 'Р', 'А', 'В', 'Н', 'И'] {
        Ok(Op::Cmp)
    } else if t == seq!['С', 'Т', 'У', 'П', 'А', 'Й'] {
        Ok(Op::B)
    } else if t == seq!['И', 'З', 'Ы', 'М', 'И'] {
        Ok(Op::Ldr)
    } else if t == seq!['В', 'В', 'Е', 'Р', 'Г', 'Н', 'И'] {
        Ok(Op::Str)
    } else if t == seq!['И', 'З', 'Ы', 'М', 'И', '_', 'Б', 'А', 'Й', 'Т'] {
        Ok(Op::Ldrb)
    } else if t == seq!['В', 'В', 'Е', 'Р', 'Г', 'Н', 'И', '_', 'Б', 'А', 'Й', 'Т'] {
        Ok(Op::Strb)
    } else if t == seq!['О', 'Т', 'М', 'Е', 'Р', 'Ь'] {
        Ok(Op::Reserve)
    } else if t == seq!['С', 'Л', 'О', 'В', 'О'] {
        Ok(Op::Word)
    } else if t == seq!['В', 'Л', 'О', 'Ж', 'И'] {
        Ok(Op::Embed)
    } else if t.len() >= 5 && t.take(5) == seq!['К', 'О', 'Л', 'И', '_'] {
        cond_of(t.skip(5))
    } else {
        Err(AsmError::UnknownMnemonic)
    }
}

/// The condition code that follows `КОЛИ_`.
pub open spec fn cond_of(tag: Seq<char>) -> Result<Op, AsmError> {
    if tag == seq!['Р', 'А', 'В', 'Н', 'О'] {
        Ok(Op::Bcc(0x0))
    } else if tag == seq!['Н', 'Е', 'Р', 'А', 'В', 'Н', 'О'] {
        Ok(Op::Bcc(0x1))
    } else if tag == seq!['Б', 'О', 'Л', 'Ь', 'Ш', 'Е'] {
        Ok(Op::Bcc(0xC))
    } else if tag == seq!['М', 'Е', 'Н', 'Ь', 'Ш', 'Е'] {
        Ok(Op::Bcc(0xB))
    } else if tag == seq!['В', 'Ы', 'Ш', 'Е'] {
        Ok(Op::Bcc(0xA))
    } else if tag == seq!['Н', 'И', 'Ж', 'Е'] {
        Ok(Op::Bcc(0xD))
    } else {
        Err(AsmError::UnknownCondition)
    }
}

/// A word without its trailing commas.
pub open spec fn strip_commas(t: Seq<char>) -> Seq<char>
    decreases t.len(),
{
    if t.len() > 0 && t.last() == ',' {
        strip_commas(t.drop_last())
    } else {
        t
    }
}

/// Operand `k` of a line's words.
pub open spec fn operand(toks: Seq<Seq<char>>, k: int) -> Seq<char> {
    strip_commas(toks[k])
}

/// How many operands an instruction reads.
pub open spec fn arity(op: Op) -> int {
    match op {
        Op::Svc | Op::Ret => 0,
        Op::B | Op::Bcc(_) | Op::Reserve => 1,
        Op::Add | Op::Sub | Op::Mul | Op::SDiv | Op::Eor => 3,
        _ => 2,
    }
}

/// The operand that names the label of a branch or address instruction with
/// `n` words: 1 for `B`; for a conditional branch 2, after the `СТУПАЙ` that
/// may follow the condition, or 1 when the line leaves it out; else 2.
pub open spec fn label_pos(op: Op, n: int) -> int {
    match op {
        Op::B => 1,
        Op::Bcc(_) => if n == 2 {
            1
        } else {
            2
        },
        _ => 2,
    }
}

/// A label's offset, from the first entry with that name.
pub open spec fn lookup(labels: Seq<(Seq<char>, int)>, name: Seq<char>) -> Option<int>
    decreases labels.len(),
{
    if labels.len() == 0 {
        None
    } else if labels[0].0 == name {
        Some(labels[0].1)
    } else {
        lookup(labels.drop_first(), name)
    }
}

/// A third operand that starts with the register letter is a register.
pub open spec fn is_reg_token(t: Seq<char>) -> bool {
    t.len() > 0 && t[0] == 'П'
}

/// The registers in operands 1 and 2.
pub open spec fn regs2(toks: Seq<Seq<char>>) -> Result<(Register, Register), AsmError> {
    match reg_of(operand(toks, 1)) {
        Err(e) => Err(e),
        Ok(a) => match reg_of(operand(toks, 2)) {
            Err(e) => Err(e),
            Ok(b) => Ok((a, b)),
        },
    }
}

/// The displacement from `cursor` to the label named by operand `k`.
pub open spec fn target_of(toks: Seq<Seq<char>>, k: int, labels: Seq<(Seq<char>, int)>, cursor: int) -> Result<i32, AsmError> {
    match lookup(labels, operand(toks, k)) {
        None => Err(AsmError::UndefinedLabel),
        Some(t) => Ok((t - cursor) as i32),
    }
}

/// The instruction that a line's words give at offset `cursor`.
pub open spec fn command_of(
    op: Op,
    toks: Seq<Seq<char>>,
    labels: Seq<(Seq<char>, int)>,
    cursor: int,
) -> Result<Command, AsmError> {
    if toks.len() < arity(op) + 1 {
        Err(AsmError::MissingOperand)
    } else {
        match op {
            Op::Mov => match reg_of(operand(toks, 1)) {
                Err(e) => Err(e),
                Ok(reg) => match num_of(operand(toks, 2)) {
                    Err(e) => Err(e),
                    Ok(val) => Ok(Command::Mov { reg, val }),
                },
            },
            Op::Adr => match reg_of(operand(toks, 1)) {
                Err(e) => Err(e),
                Ok(reg) => match target_of(toks, 2, labels, cursor) {
                    Err(e) => Err(e),
                    Ok(offset) => Ok(Command::Adr { reg, offset }),
                },
            },
            Op::Svc => Ok(Command::Svc),
            Op::Ret => Ok(Command::Ret),
            Op::Add | Op::Sub => match regs2(toks) {
                Err(e) => Err(e),
                Ok((rd, rn)) => if is_reg_token(operand(toks, 3)) {
                    match reg_of(operand(toks, 3)) {
                        Err(e) => Err(e),
                        Ok(rm) => if op == Op::Add {
                            Ok(Command::Add { rd, rn, rm })
                        } else {
                            Ok(Command::Sub { rd, rn, rm })
                        },
                    }
                } else {
                    match num_of(operand(toks, 3)) {
                        Err(e) => Err(e),
                        Ok(v) => if op == Op::Add {
                            Ok(Command::Addi { rd, rn, num: v as u32 })
                        } else {
                            Ok(Command::Subi { rd, rn, num: v as u32 })
                        },
                    }
                },
            },
            Op::Mul | Op::SDiv | Op::Eor => match regs2(toks) {
                Err(e) => Err(e),
                Ok((rd, rn)) => match reg_of(operand(toks, 3)) {
                    Err(e) => Err(e),
                    Ok(rm) => if op == Op::Mul {
                        Ok(Command::Mul { rd, rn, rm })
                    } else if op == Op::SDiv {
                        Ok(Command::SDiv { rd, rn, rm })
                    } else {
                        Ok(Command::Eor { rd, rn, rm })
                    },
                },
            },
            Op::Cmp => match reg_of(operand(toks, 1)) {
                Err(e) => Err(e),
                Ok(rn) => if is_reg_token(operand(toks, 2)) {
                    match reg_of(operand(toks, 2)) {
                        Err(e) => Err(e),
                        Ok(rm) => Ok(Command::Cmp { rn, rm }),
                    }
                } else {
                    match num_of(operand(toks, 2)) {
                        Err(e) => Err(e),
                        Ok(v) => Ok(Command::Cmpi { rn, num: v as u32 }),
                    }
                },
            },
            Op::B => match target_of(toks, 1, labels, cursor) {
                Err(e) => Err(e),
                Ok(offset) => Ok(Command::B { offset }),
            },
            Op::Bcc(cond) => match target_of(toks, label_pos(op, toks.len() as int), labels, cursor) {
                Err(e) => Err(e),
                Ok(offset) => Ok(Command::Bcc { cond, offset }),
            },
            Op::Ldr | Op::Str | Op::Ldrb | Op::Strb => match regs2(toks) {
                Err(e) => Err(e),
                Ok((rt, rn)) => if op == Op::Ldr {
                    Ok(Command::Ldr { rt, rn })
                } else if op == Op::Str {
                    Ok(Command::Str { rt, rn })
                } else if op == Op::Ldrb {
                    Ok(Command::Ldrb { rt, rn })
                } else {
                    Ok(Command::Strb { rt, rn })
                },
            },
            _ => Err(AsmError::UnknownMnemonic),
        }
    }
}

/// A label of the table: its name and its offset in the section.
pub struct Label {
    pub name: Vec<char>,
    pub offset: usize,
}

pub open spec fn label_view(labels: Seq<Label>) -> Seq<(Seq<char>, int)> {
    labels.map_values(|l: Label| (l.name@, l.offset as int))
}

fn same_chars(a: &[char], b: &[char]) -> (r: bool)
    ensures
        r == (a@ == b@),
{
    if a.len() != b.len() {
        return false;
    }
    let mut i: usize = 0;
    while i < a.len()
        invariant
            i <= a@.len(),
            a@.len() == b@.len(),
            forall|k: int| 0 <= k < i ==> a@[k] == b@[k],
        decreases a@.len() - i,
    {
        if a[i] != b[i] {
            return false;
        }
        i = i + 1;
    }
    assert(a@ =~= b@);
    true
}

fn is_word(t: &[char], w: Vec<char>) -> (r: bool)
    ensures
        r == (t@ == w@),
{
    same_chars(t, w.as_slice())
}

fn cond_chars(tag: &[char]) -> (r: Result<Op, AsmError>)
    ensures
        r == cond_of(tag@),
{
    if is_word(tag, vec!['Р', 'А', 'В', 'Н', 'О']) {
        Ok(Op::Bcc(0x0))
    } else if is_word(tag, vec!['Н', 'Е', 'Р', 'А', 'В', 'Н', 'О']) {
        Ok(Op::Bcc(0x1))
    } else if is_word(tag, vec!['Б', 'О', 'Л', 'Ь', 'Ш', 'Е']) {
        Ok(Op::Bcc(0xC))
    } else if is_word(tag, vec!['М', 'Е', 'Н', 'Ь', 'Ш', 'Е']) {
        Ok(Op::Bcc(0xB))
    } else if is_word(tag, vec!['В', 'Ы', 'Ш', 'Е']) {
        Ok(Op::Bcc(0xA))
    } else if is_word(tag, vec!['Н', 'И', 'Ж', 'Е']) {
        Ok(Op::Bcc(0xD))
    } else {
        Err(AsmError::UnknownCondition)
    }
}

fn op_chars(t: &[char]) -> (r: Result<Op, AsmError>)
    ensures
        r == op_of(t@),
{
    if is_word(t, vec!['П', 'О', 'Л', 'О', 'Ж', 'И']) {
        Ok(Op::Mov)
    } else if is_word(t, vec!['У', 'К', 'А', 'Ж', 'И']) {
        Ok(Op::Adr)
    } else if is_word(t, vec!['Д', 'О', 'Л', 'О', 'Ж', 'И']) {
        Ok(Op::Svc)
    } else if is_word(t, vec!['В', 'Е', 'Р', 'Н', 'И', 'С', 'Ь']) {
        Ok(Op::Ret)
    } else if is_word(t, vec!['П', 'Р', 'И', 'Б', 'А', 'В', 'Ь']) {
        Ok(Op::Add)
    } else if is_word(t, vec!['В', 'Ы', 'Ч', 'Т', 'И']) {
        Ok(Op::Sub)
    } else if is_word(t, vec!['У', 'М', 'Н', 'О', 'Ж', 'Ь']) {
        Ok(Op::Mul)
    } else if is_word(t, vec!['Р', 'А', 'З', 'Д', 'Е', 'Л', 'И']) {
        Ok(Op::SDiv)
    } else if is_word(t, vec!['Р', 'А', 'З', 'Н', 'О', 'С', 'Т', 'Ь']) {
        Ok(Op::Eor)
    } else if is_word(t, vec!['С', 'Р', 'А', 'В', 'Н', 'И']) {
        Ok(Op::Cmp)
    } else if is_word(t, vec!['С', 'Т', 'У', 'П', 'А', 'Й']) {
        Ok(Op::B)
    } else if is_word(t, vec!['И', 'З', 'Ы', 'М', 'И']) {
        Ok(Op::Ldr)
    } else if is_word(t, vec!['В', 'В', 'Е', 'Р', 'Г', 'Н', 'И']) {
        Ok(Op::Str)
    } else if is_word(t, vec!['И', 'З', 'Ы', 'М', 'И', '_', 'Б', 'А', 'Й', 'Т']) {
        Ok(Op::Ldrb)
    } else if is_word(t, vec!['В', 'В', 'Е', 'Р', 'Г', 'Н', 'И', '_', 'Б', 'А', 'Й', 'Т']) {
        Ok(Op::Strb)
    } else if is_word(t, vec!['О', 'Т', 'М', 'Е', 'Р', 'Ь']) {
        Ok(Op::Reserve)
    } else if is_word(t, vec!['С', 'Л', 'О', 'В', 'О']) {
        Ok(Op::Word)
    } else if is_word(t, vec!['В', 'Л', 'О', 'Ж', 'И']) {
        Ok(Op::Embed)
    } else if t.len() >= 5 && same_chars(
        slice_chars(t, 0, 5).as_slice(),
        vec!['К', 'О', 'Л', 'И', '_'].as_slice(),
    ) {
        let tag = slice_chars(t, 5, t.len());
        assert(tag@ =~= t@.skip(5));
        assert(t@.subrange(0, 5) =~= t@.take(5));
        cond_chars(tag.as_slice())
    } else {
        proof {
            if t@.len() >= 5 {
                assert(t@.subrange(0, 5) =~= t@.take(5));
            }
        }
        Err(AsmError::UnknownMnemonic)
    }
}

fn operand_at(toks: &Vec<Vec<char>>, k: usize) -> (r: Vec<char>)
    requires
        k < toks@.len(),
    ensures
        r@ == operand(views(toks@), k as int),
{
    let t = toks[k].as_slice();
    let mut j = t.len();
    assert(t@.take(t@.len() as int) =~= t@);
    while j > 0 && t[j - 1] == ','
        invariant
            j <= t@.len(),
            k < toks@.len(),
            t@ == toks@[k as int]@,
            strip_commas(t@.take(j as int)) == strip_commas(t@),
        decreases j,
    {
        assert(t@.take(j as int).drop_last() =~= t@.take(j - 1));
        j = j - 1;
    }
    let r = slice_chars(t, 0, j);
    assert(r@ =~= t@.take(j as int));
    r
}

fn lookup_label(labels: &Vec<Label>, name: &[char]) -> (r: Option<usize>)
    ensures
        match r {
            Some(v) => lookup(label_view(labels@), name@) == Some(v as int),
            None => lookup(label_view(labels@), name@) is None,
        },
{
    let mut i: usize = 0;
    assert(label_view(labels@).skip(0) =~= label_view(labels@));
    while i < labels.len()
        invariant
            i <= labels@.len(),
            lookup(label_view(labels@), name@) == lookup(label_view(labels@).skip(i as int), name@),
        decreases labels@.len() - i,
    {
        assert(label_view(labels@).skip(i as int).drop_first() =~= label_view(labels@).skip(i + 1));
        if same_chars(labels[i].name.as_slice(), name) {
            return Some(labels[i].offset);
        }
        i = i + 1;
    }
    None
}

fn reg_operand(toks: &Vec<Vec<char>>, k: usize) -> (r: Result<Register, AsmError>)
    requires
        k < toks@.len(),
    ensures
        r == reg_of(operand(views(toks@), k as int)),
        r is Ok ==> r->Ok_0.wf(),
{
    let t = operand_at(toks, k);
    reg_chars(t.as_slice())
}

fn num_operand(toks: &Vec<Vec<char>>, k: usize) -> (r: Result<u16, AsmError>)
    requires
        k < toks@.len(),
    ensures
        r == num_of(operand(views(toks@), k as int)),
{
    let t = operand_at(toks, k);
    num_chars(t.as_slice())
}

fn reg_operand_is_reg(toks: &Vec<Vec<char>>, k: usize) -> (r: bool)
    requires
        k < toks@.len(),
    ensures
        r == is_reg_token(operand(views(toks@), k as int)),
{
    let t = operand_at(toks, k);
    t.len() > 0 && t[0] == 'П'
}

fn regs2_at(toks: &Vec<Vec<char>>) -> (r: Result<(Register, Register), AsmError>)
    requires
        toks@.len() >= 3,
    ensures
        r == regs2(views(toks@)),
        r is Ok ==> r->Ok_0.0.wf() && r->Ok_0.1.wf(),
{
    let a = reg_operand(toks, 1)?;
    let b = reg_operand(toks, 2)?;
    Ok((a, b))
}

fn target_at(toks: &Vec<Vec<char>>, k: usize, labels: &Vec<Label>, cursor: usize) -> (r: Result<i32, AsmError>)
    requires
        k < toks@.len(),
    ensures
        r == target_of(views(toks@), k as int, label_view(labels@), cursor as int),
{
    let name = operand_at(toks, k);
    match lookup_label(labels, name.as_slice()) {
        None => Err(AsmError::UndefinedLabel),
        Some(t) => Ok((t as i128 - cursor as i128) as i32),
    }
}

fn command_at(op: Op, toks: &Vec<Vec<char>>, labels: &Vec<Label>, cursor: usize) -> (r: Result<Command, AsmError>)
    requires
        op != Op::Reserve && op != Op::Word && op != Op::Embed,
    ensures
        r == command_of(op, views(toks@), label_view(labels@), cursor as int),
        r is Ok ==> r->Ok_0.wf(),
{
    let need: usize = match op {
        Op::Svc | Op::Ret => 0,
        Op::B | Op::Bcc(_) | Op::Reserve => 1,
        Op::Add | Op::Sub | Op::Mul | Op::SDiv | Op::Eor => 3,
        _ => 2,
    };
    if toks.len() < need + 1 {
        return Err(AsmError::MissingOperand);
    }
    match op {
        Op::Mov => {
            let reg = reg_operand(toks, 1)?;
            let val = num_operand(toks, 2)?;
            Ok(Command::Mov { reg, val })
        },
        Op::Adr => {
            let reg = reg_operand(toks, 1)?;
            let offset = target_at(toks, 2, labels, cursor)?;
            Ok(Command::Adr { reg, offset })
        },
        Op::Svc => Ok(Command::Svc),
        Op::Ret => Ok(Command::Ret),
        Op::Add | Op::Sub => {
            let (rd, rn) = regs2_at(toks)?;
            if reg_operand_is_reg(toks, 3) {
                let rm = reg_operand(toks, 3)?;
                if op == Op::Add {
                    Ok(Command::Add { rd, rn, rm })
                } else {
                    Ok(Command::Sub { rd, rn, rm })
                }
            } else {
                let v = num_operand(toks, 3)?;
                if op == Op::Add {
                    Ok(Command::Addi { rd, rn, num: v as u32 })
                } else {
                    Ok(Command::Subi { rd, rn, num: v as u32 })
                }
            }
        },
        Op::Mul | Op::SDiv | Op::Eor => {
            let (rd, rn) = regs2_at(toks)?;
            let rm = reg_operand(toks, 3)?;
            if op == Op::Mul {
                Ok(Command::Mul { rd, rn, rm })
            } else if op == Op::SDiv {
                Ok(Command::SDiv { rd, rn, rm })
            } else {
                Ok(Command::Eor { rd, rn, rm })
            }
        },
        Op::Cmp => {
            let rn = reg_operand(toks, 1)?;
            if reg_operand_is_reg(toks, 2) {
                let rm = reg_operand(toks, 2)?;
                Ok(Command::Cmp { rn, rm })
            } else {
                let v = num_operand(toks, 2)?;
                Ok(Command::Cmpi { rn, num: v as u32 })
            }
        },
        Op::B => {
            let offset = target_at(toks, 1, labels, cursor)?;
            Ok(Command::B { offset })
        },
        Op::Bcc(cond) => {
            let at: usize = if toks.len() == 2 {
                1
            } else {
                2
            };
            let offset = target_at(toks, at, labels, cursor)?;
            Ok(Command::Bcc { cond, offset })
        },
        Op::Ldr | Op::Str | Op::Ldrb | Op::Strb => {
            let (rt, rn) = regs2_at(toks)?;
            if op == Op::Ldr {
                Ok(Command::Ldr { rt, rn })
            } else if op == Op::Str {
                Ok(Command::Str { rt, rn })
            } else if op == Op::Ldrb {
                Ok(Command::Ldrb { rt, rn })
            } else {
                Ok(Command::Strb { rt, rn })
            }
        },
        _ => Err(AsmError::UnknownMnemonic),
    }
}

/// A file that a source may embed, with its contents.
pub struct Include {
    pub path: String,
    pub data: Vec<u8>,
}

pub open spec fn include_view(incs: Seq<Include>) -> Seq<(Seq<char>, Seq<u8>)> {
    incs.map_values(|i: Include| (i.path@, i.data@))
}

/// The contents of the first file supplied under `path`.
pub open spec fn find_include(incs: Seq<(Seq<char>, Seq<u8>)>, path: Seq<char>) -> Option<Seq<u8>>
    decreases incs.len(),
{
    if incs.len() == 0 {
        None
    } else if incs[0].0 == path {
        Some(incs[0].1)
    } else {
        find_include(incs.drop_first(), path)
    }
}

/// A size rounded up to a multiple of four, as the first pass counts it.
pub open spec fn round_up4(n: nat) -> nat {
    ((n + 3) / 4 * 4) as nat
}

/// The zero bytes that the second pass writes after `n` bytes of data.
pub open spec fn pad_len(n: nat) -> nat {
    ((4 - n % 4) % 4) as nat
}

pub open spec fn is_data(op: Op) -> bool {
    op == Op::Reserve || op == Op::Word || op == Op::Embed
}

/// The bytes of a data directive, before padding.
pub open spec fn data_of(
    op: Op,
    c: Seq<char>,
    toks: Seq<Seq<char>>,
    incs: Seq<(Seq<char>, Seq<u8>)>,
) -> Result<Seq<u8>, AsmError> {
    if op == Op::Reserve {
        if toks.len() < 2 {
            Err(AsmError::MissingOperand)
        } else {
            match num_of(operand(toks, 1)) {
                Err(e) => Err(e),
                Ok(n) => Ok(zeros(n as nat)),
            }
        }
    } else {
        match extract(c) {
            Err(e) => Err(e),
            Ok(t) => if op == Op::Word {
                Ok(encode_utf8(t))
            } else {
                match find_include(incs, t) {
                    None => Err(AsmError::MissingInclude),
                    Some(d) => Ok(d),
                }
            },
        }
    }
}

/// A cleaned line that emits nothing: blank, or a label definition.
pub open spec fn is_quiet(c: Seq<char>) -> bool {
    c.len() == 0 || c.last() == ':' || tokens(c).len() == 0
}

/// How far a cleaned line moves the cursor in the first pass.
pub open spec fn line_size(c: Seq<char>, incs: Seq<(Seq<char>, Seq<u8>)>) -> Result<nat, AsmError> {
    if is_quiet(c) {
        Ok(0)
    } else {
        let toks = tokens(c);
        match op_of(toks[0]) {
            Ok(op) => if is_data(op) {
                match data_of(op, c, toks, incs) {
                    Err(e) => Err(e),
                    Ok(d) => Ok(round_up4(d.len())),
                }
            } else {
                Ok(4)
            },
            Err(_) => Ok(4),
        }
    }
}

/// The bytes that a cleaned line emits in the second pass at offset `cursor`.
#[verifier::opaque]
pub open spec fn line_bytes(
    c: Seq<char>,
    labels: Seq<(Seq<char>, int)>,
    cursor: int,
    incs: Seq<(Seq<char>, Seq<u8>)>,
) -> Result<Seq<u8>, AsmError> {
    if is_quiet(c) {
        Ok(Seq::empty())
    } else {
        let toks = tokens(c);
        match op_of(toks[0]) {
            Err(e) => Err(e),
            Ok(op) => if is_data(op) {
                match data_of(op, c, toks, incs) {
                    Err(e) => Err(e),
                    Ok(d) => Ok(d + zeros(pad_len(d.len()))),
                }
            } else {
                match command_of(op, toks, labels, cursor) {
                    Err(e) => Err(e),
                    Ok(cmd) => Ok(le_bytes(cmd.spec_encode())),
                }
            },
        }
    }
}

/// The first pass on one cleaned line: a label records the cursor, anything
/// else moves it.
pub open spec fn step1(
    labels: Seq<(Seq<char>, int)>,
    cursor: int,
    c: Seq<char>,
    incs: Seq<(Seq<char>, Seq<u8>)>,
) -> Result<(Seq<(Seq<char>, int)>, int), AsmError> {
    if c.len() > 0 && c.last() == ':' {
        if lookup(labels, c.drop_last()) is Some {
            Err(AsmError::DuplicateLabel)
        } else {
            Ok((labels.push((c.drop_last(), cursor)), cursor))
        }
    } else {
        match line_size(c, incs) {
            Err(e) => Err(e),
            Ok(n) => if cursor + n > MAX_TEXT {
                Err(AsmError::TooLarge)
            } else {
                Ok((labels, cursor + n))
            },
        }
    }
}

/// The label table and the cursor after the first pass over `n` lines.
pub open spec fn pass1(lines: Seq<Seq<char>>, n: int, incs: Seq<(Seq<char>, Seq<u8>)>) -> Result<
    (Seq<(Seq<char>, int)>, int),
    LineFault,
>
    decreases n,
{
    if n <= 0 {
        Ok((Seq::empty(), 0))
    } else {
        match pass1(lines, n - 1, incs) {
            Err(d) => Err(d),
            Ok((labels, cursor)) => match step1(labels, cursor, clean(lines[n - 1]), incs) {
                Err(e) => Err(LineFault { line: (n - 1) as usize, error: e }),
                Ok(st) => Ok(st),
            },
        }
    }
}

/// The bytes emitted by the second pass over `n` lines, with the final labels.
pub open spec fn pass2(
    lines: Seq<Seq<char>>,
    n: int,
    labels: Seq<(Seq<char>, int)>,
    incs: Seq<(Seq<char>, Seq<u8>)>,
) -> Result<Seq<u8>, LineFault>
    decreases n,
{
    if n <= 0 {
        Ok(Seq::empty())
    } else {
        match pass2(lines, n - 1, labels, incs) {
            Err(d) => Err(d),
            Ok(bytes) => match line_bytes(clean(lines[n - 1]), labels, bytes.len() as int, incs) {
                Err(e) => Err(LineFault { line: (n - 1) as usize, error: e }),
                Ok(b) => Ok(bytes + b),
            },
        }
    }
}

/// The lines of `s` from index `i` on, split at each `\n`; a final `\n` ends
/// the last line rather than starting an empty one.
pub open spec fn lines_from(s: Seq<char>, i: int) -> Seq<Seq<char>>
    decreases s.len() + 1 - i,
{
    let e = find_from(s, '\n', i);
    if i < 0 || i >= s.len() || e < i || e > s.len() {
        Seq::empty()
    } else {
        seq![s.subrange(i, e)] + lines_from(s, e + 1)
    }
}

pub open spec fn lines_of(s: Seq<char>) -> Seq<Seq<char>> {
    lines_from(s, 0)
}

/// The `.text` bytes of a source, or the first error and its line.
pub open spec fn assemble(src: Seq<char>, incs: Seq<(Seq<char>, Seq<u8>)>) -> Result<Seq<u8>, LineFault> {
    let lines = lines_of(src);
    match pass1(lines, lines.len() as int, incs) {
        Err(d) => Err(d),
        Ok((labels, _)) => pass2(lines, lines.len() as int, labels, incs),
    }
}

/// Rounding up in the first pass and padding in the second agree.
pub proof fn lemma_round_up4(n: nat)
    ensures
        round_up4(n) == n + pad_len(n),
        round_up4(n) % 4 == 0,
        n <= round_up4(n) <= n + 3,
{
}

proof fn lemma_round_up4_fits(n: nat, room: int)
    requires
        room >= 0,
        room % 4 == 0,
    ensures
        n <= room <==> round_up4(n) <= room,
{
    lemma_round_up4(n);
}

/// A line emits in the second pass exactly as many bytes as the first pass
/// counts for it: none for a blank or label line, 4 for an instruction, its
/// data rounded up to a multiple of four for a directive.
pub proof fn lemma_line_len(
    c: Seq<char>,
    labels: Seq<(Seq<char>, int)>,
    cursor: int,
    incs: Seq<(Seq<char>, Seq<u8>)>,
)
    requires
        line_size(c, incs) is Ok,
        line_bytes(c, labels, cursor, incs) is Ok,
    ensures
        line_bytes(c, labels, cursor, incs)->Ok_0.len() == line_size(c, incs)->Ok_0,
{
    reveal(line_bytes);
    if !is_quiet(c) {
        let toks = tokens(c);
        let op = op_of(toks[0])->Ok_0;
        if is_data(op) {
            lemma_round_up4(data_of(op, c, toks, incs)->Ok_0.len());
        }
    }
}

/// A first pass that succeeds on `n` lines succeeds on each shorter prefix, with
/// a cursor no larger and a label table that the longer one extends.
pub proof fn lemma_pass1_prefix(lines: Seq<Seq<char>>, k: int, n: int, incs: Seq<(Seq<char>, Seq<u8>)>)
    requires
        0 <= k <= n,
        pass1(lines, n, incs) is Ok,
    ensures
        pass1(lines, k, incs) is Ok,
        pass1(lines, k, incs)->Ok_0.1 <= pass1(lines, n, incs)->Ok_0.1,
        pass1(lines, k, incs)->Ok_0.0 == pass1(lines, n, incs)->Ok_0.0.take(
            pass1(lines, k, incs)->Ok_0.0.len() as int,
        ),
        pass1(lines, k, incs)->Ok_0.0.len() <= pass1(lines, n, incs)->Ok_0.0.len(),
    decreases n - k,
{
    if k < n {
        lemma_pass1_prefix(lines, k, n - 1, incs);
        let (l1, c1) = pass1(lines, n - 1, incs)->Ok_0;
        let (l2, c2) = pass1(lines, n, incs)->Ok_0;
        let lk = pass1(lines, k, incs)->Ok_0.0;
        assert(l2.take(l1.len() as int) =~= l1);
        assert(l2.take(lk.len() as int) =~= lk);
    } else {
        let l = pass1(lines, n, incs)->Ok_0.0;
        assert(l.take(l.len() as int) =~= l);
    }
}

/// Every cursor of the first pass is a multiple of four within the size limit.
pub proof fn lemma_pass1_cursor(lines: Seq<Seq<char>>, n: int, incs: Seq<(Seq<char>, Seq<u8>)>)
    requires
        pass1(lines, n, incs) is Ok,
    ensures
        pass1(lines, n, incs)->Ok_0.1 % 4 == 0,
        0 <= pass1(lines, n, incs)->Ok_0.1 <= MAX_TEXT,
    decreases n,
{
    if n > 0 {
        lemma_pass1_cursor(lines, n - 1, incs);
        let c = clean(lines[n - 1]);
        if !(c.len() > 0 && c.last() == ':') {
            if !is_quiet(c) {
                let toks = tokens(c);
                if op_of(toks[0]) is Ok && is_data(op_of(toks[0])->Ok_0) {
                    lemma_round_up4(data_of(op_of(toks[0])->Ok_0, c, toks, incs)->Ok_0.len());
                }
            }
        }
    }
}

/// The two passes move the cursor alike: after each prefix of the lines, the
/// second pass has emitted exactly as many bytes as the first pass counted.
pub proof fn lemma_passes_agree(
    lines: Seq<Seq<char>>,
    n: int,
    labels: Seq<(Seq<char>, int)>,
    incs: Seq<(Seq<char>, Seq<u8>)>,
)
    requires
        pass1(lines, n, incs) is Ok,
        pass2(lines, n, labels, incs) is Ok,
    ensures
        pass2(lines, n, labels, incs)->Ok_0.len() == pass1(lines, n, incs)->Ok_0.1,
    decreases n,
{
    reveal(line_bytes);
    if n > 0 {
        lemma_passes_agree(lines, n - 1, labels, incs);
        let c = clean(lines[n - 1]);
        let bytes = pass2(lines, n - 1, labels, incs)->Ok_0;
        if !(c.len() > 0 && c.last() == ':') {
            lemma_line_len(c, labels, bytes.len() as int, incs);
        }
    }
}

fn split_lines(s: &[char]) -> (r: Vec<Vec<char>>)
    ensures
        views(r@) == lines_of(s@),
{
    let mut out: Vec<Vec<char>> = Vec::new();
    let mut i: usize = 0;
    while i < s.len()
        invariant
            i <= s@.len(),
            views(out@) + lines_from(s@, i as int) == lines_of(s@),
        decreases s@.len() - i,
    {
        let e = find_char(s, '\n', i);
        let line = slice_chars(s, i, e);
        let ghost before = views(out@);
        out.push(line);
        assert(views(out@) =~= before.push(s@.subrange(i as int, e as int)));
        if e >= s.len() {
            assert(lines_from(s@, e + 1) =~= Seq::<Seq<char>>::empty());
            assert(before + lines_from(s@, i as int) =~= views(out@));
            return out;
        }
        assert(before + lines_from(s@, i as int) =~= views(out@) + lines_from(s@, e + 1));
        i = e + 1;
    }
    assert(views(out@) + lines_from(s@, i as int) =~= views(out@));
    out
}

fn copy_bytes(b: &[u8]) -> (r: Vec<u8>)
    ensures
        r@ == b@,
{
    let mut out: Vec<u8> = Vec::new();
    let mut i: usize = 0;
    while i < b.len()
        invariant
            i <= b@.len(),
            out@ == b@.take(i as int),
        decreases b@.len() - i,
    {
        out.push(b[i]);
        i = i + 1;
        assert(out@ =~= b@.take(i as int));
    }
    assert(b@.take(i as int) =~= b@);
    out
}

fn zero_bytes(n: usize) -> (r: Vec<u8>)
    ensures
        r@ == zeros(n as nat),
{
    let mut out: Vec<u8> = Vec::new();
    let mut i: usize = 0;
    while i < n
        invariant
            i <= n,
            out@ == zeros(i as nat),
        decreases n - i,
    {
        out.push(0);
        i = i + 1;
        assert(out@ =~= zeros(i as nat));
    }
    out
}

fn find_include_at(incs: &Vec<Include>, path: &[char]) -> (r: Option<usize>)
    ensures
        match r {
            Some(i) => i < incs@.len() && find_include(include_view(incs@), path@) == Some(
                incs@[i as int].data@,
            ),
            None => find_include(include_view(incs@), path@) is None,
        },
{
    let mut i: usize = 0;
    assert(include_view(incs@).skip(0) =~= include_view(incs@));
    while i < incs.len()
        invariant
            i <= incs@.len(),
            find_include(include_view(incs@), path@) == find_include(
                include_view(incs@).skip(i as int),
                path@,
            ),
        decreases incs@.len() - i,
    {
        assert(include_view(incs@).skip(i as int).drop_first() =~= include_view(incs@).skip(i + 1));
        let p = chars_of(incs[i].path.as_str());
        if same_chars(p.as_slice(), path) {
            return Some(i);
        }
        i = i + 1;
    }
    None
}

fn is_data_op(op: Op) -> (r: bool)
    ensures
        r == is_data(op),
{
    op == Op::Reserve || op == Op::Word || op == Op::Embed
}

fn data_at(op: Op, c: &[char], toks: &Vec<Vec<char>>, incs: &Vec<Include>) -> (r: Result<Vec<u8>, AsmError>)
    requires
        is_data(op),
    ensures
        match r {
            Ok(d) => data_of(op, c@, views(toks@), include_view(incs@)) == Ok::<Seq<u8>, AsmError>(d@),
            Err(e) => data_of(op, c@, views(toks@), include_view(incs@)) == Err::<Seq<u8>, AsmError>(e),
        },
{
    if op == Op::Reserve {
        if toks.len() < 2 {
            return Err(AsmError::MissingOperand);
        }
        let n = num_operand(toks, 1)?;
        Ok(zero_bytes(n as usize))
    } else {
        let t = extract_chars(c)?;
        if op == Op::Word {
            let text = string_of(t.as_slice());
            Ok(copy_bytes(text.as_str().as_bytes()))
        } else {
            match find_include_at(incs, t.as_slice()) {
                None => Err(AsmError::MissingInclude),
                Some(i) => Ok(copy_bytes(incs[i].data.as_slice())),
            }
        }
    }
}

/// The line's size before rounding: its data's length, 4 for an instruction, 0
/// for a blank line or a label.
fn line_extent(c: &[char], incs: &Vec<Include>) -> (r: Result<usize, AsmError>)
    ensures
        match r {
            Ok(n) => line_size(c@, include_view(incs@)) == Ok::<nat, AsmError>(round_up4(n as nat)),
            Err(e) => line_size(c@, include_view(incs@)) == Err::<nat, AsmError>(e),
        },
{
    let toks = split_tokens(c);
    if c.len() == 0 || c[c.len() - 1] == ':' || toks.len() == 0 {
        return Ok(0);
    }
    match op_chars(toks[0].as_slice()) {
        Ok(op) => {
            if is_data_op(op) {
                let d = data_at(op, c, &toks, incs)?;
                Ok(d.len())
            } else {
                Ok(4)
            }
        },
        Err(_) => Ok(4),
    }
}

/// The parser's state across the two passes: the label table and the cursor.
pub struct SlParser {
    labels: Vec<Label>,
    curr_offset: usize,
}

impl SlParser {
    /// The label table: names with their offsets, in order of definition.
    pub closed spec fn labels_view(&self) -> Seq<(Seq<char>, int)> {
        label_view(self.labels@)
    }

    /// The cursor: the offset of the next emitted byte.
    pub closed spec fn offset_view(&self) -> int {
        self.curr_offset as int
    }

    /// A parser with no labels and the cursor at 0.
    pub fn new() -> (r: Self)
        ensures
            r.labels_view() == Seq::<(Seq<char>, int)>::empty(),
            r.offset_view() == 0,
    {
        let r = SlParser { labels: Vec::new(), curr_offset: 0 };
        assert(label_view(r.labels@) =~= Seq::<(Seq<char>, int)>::empty());
        r
    }

    /// The offset of label `name` in the table.
    pub fn label(&self, name: &str) -> (r: Option<usize>)
        ensures
            match r {
                Some(v) => lookup(self.labels_view(), name@) == Some(v as int),
                None => lookup(self.labels_view(), name@) is None,
            },
    {
        let n = chars_of(name);
        lookup_label(&self.labels, n.as_slice())
    }

    /// The cursor: after an assembly, the size of the section.
    pub fn offset(&self) -> (r: usize)
        ensures
            r == self.offset_view(),
    {
        self.curr_offset
    }

    /// The first pass on one line: the name of the label that it defines, if
    /// any, and the cursor after it.
    fn first_pass_parse_line(&self, line: &[char], incs: &Vec<Include>) -> (r: Result<
        (Option<Vec<char>>, usize),
        AsmError,
    >)
        requires
            self.curr_offset <= MAX_TEXT,
            self.curr_offset % 4 == 0,
        ensures
            ({
                let st = step1(
                    label_view(self.labels@),
                    self.curr_offset as int,
                    clean(line@),
                    include_view(incs@),
                );
                &&& r is Ok <==> st is Ok
                &&& r is Ok ==> st->Ok_0.1 == r->Ok_0.1 && st->Ok_0.0 == match r->Ok_0.0 {
                    Some(name) => label_view(self.labels@).push((name@, self.curr_offset as int)),
                    None => label_view(self.labels@),
                }
                &&& r is Err ==> st == Err::<(Seq<(Seq<char>, int)>, int), AsmError>(r->Err_0)
            }),
    {
        let c = clean_chars(line);
        if c.len() > 0 && c[c.len() - 1] == ':' {
            let name = slice_chars(c.as_slice(), 0, c.len() - 1);
            assert(name@ =~= c@.drop_last());
            if lookup_label(&self.labels, name.as_slice()).is_some() {
                return Err(AsmError::DuplicateLabel);
            }
            return Ok((Some(name), self.curr_offset));
        }
        let n = line_extent(c.as_slice(), incs)?;
        proof {
            lemma_round_up4_fits(n as nat, MAX_TEXT - self.curr_offset);
            lemma_round_up4(n as nat);
        }
        if n > MAX_TEXT - self.curr_offset {
            return Err(AsmError::TooLarge);
        }
        Ok((None, self.curr_offset + (n + 3) / 4 * 4))
    }

    /// The second pass on one line at offset `cursor`: the bytes that it emits.
    fn second_pass_parse_line(&self, line: &[char], cursor: usize, incs: &Vec<Include>) -> (r: Result<
        Vec<u8>,
        AsmError,
    >)
        ensures
            ({
                let lb = line_bytes(
                    clean(line@),
                    label_view(self.labels@),
                    cursor as int,
                    include_view(incs@),
                );
                &&& r is Ok <==> lb is Ok
                &&& r is Ok ==> r->Ok_0@ == lb->Ok_0
                &&& r is Err ==> lb == Err::<Seq<u8>, AsmError>(r->Err_0)
            }),
    {
        reveal(line_bytes);
        let c = clean_chars(line);
        let toks = split_tokens(c.as_slice());
        let mut out = SlovoAsm::new();
        if c.len() == 0 || c[c.len() - 1] == ':' || toks.len() == 0 {
            return Ok(out.code);
        }
        let op = op_chars(toks[0].as_slice())?;
        if is_data_op(op) {
            let d = data_at(op, c.as_slice(), &toks, incs)?;
            out.append_raw(d.as_slice());
            let pad = (4 - d.len() % 4) % 4;
            out.append_zeros(pad);
            assert(out.code@ =~= d@ + zeros(pad_len(d@.len())));
        } else {
            let cmd = command_at(op, &toks, &self.labels, cursor)?;
            out.write(cmd);
            assert(out.code@ =~= le_bytes(cmd.spec_encode()));
        }
        Ok(out.code)
    }

    fn run_first_pass(&mut self, lines: &Vec<Vec<char>>, includes: &Vec<Include>) -> (r: Result<(), LineFault>)
        ensures
            match pass1(views(lines@), lines@.len() as int, include_view(includes@)) {
                Ok((l, c)) => r is Ok && label_view(final(self).labels@) == l
                    && final(self).curr_offset == c,
                Err(d) => r == Err::<(), LineFault>(d),
            },
            r is Err ==> r->Err_0.line < lines@.len(),
    {
        let ghost incs = include_view(includes@);
        let ghost ls = views(lines@);
        self.labels = Vec::new();
        self.curr_offset = 0;
        assert(label_view(self.labels@) =~= Seq::<(Seq<char>, int)>::empty());
        let mut i: usize = 0;
        while i < lines.len()
            invariant
                i <= lines@.len(),
                ls == views(lines@),
                incs == include_view(includes@),
                pass1(ls, i as int, incs) == Ok::<(Seq<(Seq<char>, int)>, int), LineFault>(
                    (label_view(self.labels@), self.curr_offset as int),
                ),
            decreases lines@.len() - i,
        {
            proof {
                lemma_pass1_cursor(ls, i as int, incs);
            }
            assert(ls[i as int] == lines@[i as int]@);
            assert(pass1(ls, i + 1, incs) == match step1(
                label_view(self.labels@),
                self.curr_offset as int,
                clean(ls[i as int]),
                incs,
            ) {
                Err(e) => Err(LineFault { line: i, error: e }),
                Ok(x) => Ok::<(Seq<(Seq<char>, int)>, int), LineFault>(x),
            });
            match self.first_pass_parse_line(lines[i].as_slice(), includes) {
                Ok((label, next)) => {
                    match label {
                        Some(name) => {
                            let ghost before = label_view(self.labels@);
                            let offset = self.curr_offset;
                            self.labels.push(Label { name, offset });
                            assert(label_view(self.labels@) =~= before.push(
                                (self.labels@.last().name@, offset as int),
                            ));
                        },
                        None => {},
                    }
                    self.curr_offset = next;
                },
                Err(e) => {
                    proof {
                        lemma_pass1_err(ls, i + 1, lines@.len() as int, incs);
                    }
                    return Err(LineFault { line: i, error: e });
                },
            }
            i = i + 1;
        }
        Ok(())
    }

    fn run_second_pass(&self, lines: &Vec<Vec<char>>, includes: &Vec<Include>, buf: &mut SlovoAsm) -> (r: Result<usize, LineFault>)
        requires
            pass1(views(lines@), lines@.len() as int, include_view(includes@)) == Ok::<
                (Seq<(Seq<char>, int)>, int),
                LineFault,
            >((label_view(self.labels@), self.curr_offset as int)),
        ensures
            match pass2(views(lines@), lines@.len() as int, label_view(self.labels@), include_view(includes@)) {
                Ok(b) => r == Ok::<usize, LineFault>(b.len() as usize) && b.len() <= MAX_TEXT
                    && final(buf).code@ == old(buf).code@ + b,
                Err(d) => r == Err::<usize, LineFault>(d),
            },
            r is Err ==> r->Err_0.line < lines@.len(),
    {
        let ghost incs = include_view(includes@);
        let ghost ls = views(lines@);
        let ghost labels = label_view(self.labels@);
        let ghost start = buf.code@;
        proof {
            lemma_pass1_cursor(ls, ls.len() as int, incs);
        }
        let mut cursor: usize = 0;
        let mut k: usize = 0;
        assert(start + Seq::<u8>::empty() =~= start);
        while k < lines.len()
            invariant
                k <= lines@.len(),
                ls == views(lines@),
                incs == include_view(includes@),
                labels == label_view(self.labels@),
                pass1(ls, ls.len() as int, incs) == Ok::<(Seq<(Seq<char>, int)>, int), LineFault>(
                    (labels, self.curr_offset as int),
                ),
                self.curr_offset <= MAX_TEXT,
                pass2(ls, k as int, labels, incs) is Ok,
                buf.code@ == start + pass2(ls, k as int, labels, incs)->Ok_0,
                cursor == pass2(ls, k as int, labels, incs)->Ok_0.len(),
                cursor <= self.curr_offset,
            decreases lines@.len() - k,
        {
            assert(ls[k as int] == lines@[k as int]@);
            assert(pass2(ls, k + 1, labels, incs) == match line_bytes(
                clean(ls[k as int]),
                labels,
                cursor as int,
                incs,
            ) {
                Err(e) => Err(LineFault { line: k, error: e }),
                Ok(b) => Ok::<Seq<u8>, LineFault>(pass2(ls, k as int, labels, incs)->Ok_0 + b),
            });
            let bytes = match self.second_pass_parse_line(lines[k].as_slice(), cursor, includes) {
                Ok(b) => b,
                Err(e) => {
                    proof {
                        lemma_pass2_err(ls, k + 1, lines@.len() as int, labels, incs);
                    }
                    return Err(LineFault { line: k, error: e });
                },
            };
            buf.append_raw(bytes.as_slice());
            proof {
                assert(buf.code@ =~= start + pass2(ls, k + 1, labels, incs)->Ok_0);
                lemma_pass1_prefix(ls, k + 1, ls.len() as int, incs);
                lemma_passes_agree(ls, k + 1, labels, incs);
            }
            cursor = cursor + bytes.len();
            k = k + 1;
        }
        Ok(cursor)
    }

    /// Assembles `source` into `buf` in two passes: the first sizes every line
    /// and records the labels, the second emits the bytes. `includes` supplies
    /// the files that the source embeds, by path. After an error of the second
    /// pass, `buf` may already hold the bytes of the lines before it.
    pub fn compile(&mut self, source: &str, buf: &mut SlovoAsm, includes: &Vec<Include>) -> (r: Result<(), Diagnostic>)
        ensures
            match assemble(source@, include_view(includes@)) {
                Ok(bytes) => r is Ok && final(buf).code@ == old(buf).code@ + bytes
                    && final(self).labels_view() == pass1(
                    lines_of(source@),
                    lines_of(source@).len() as int,
                    include_view(includes@),
                )->Ok_0.0 && final(self).offset_view() == bytes.len()
                    && unique_names(final(self).labels_view()),
                Err(d) => r is Err && r->Err_0.line == d.line && r->Err_0.error == d.error
                    && d.line < lines_of(source@).len() && r->Err_0.item@ == fault_item(
                    clean(lines_of(source@)[d.line as int]),
                    d.error,
                ),
            },
    {
        let chars = chars_of(source);
        let lines = split_lines(chars.as_slice());
        match self.run_first_pass(&lines, includes) {
            Ok(()) => {},
            Err(f) => {
                assert(views(lines@)[f.line as int] == lines@[f.line as int]@);
                return Err(diagnostic(&lines, f));
            },
        }
        proof {
            if pass1(views(lines@), lines@.len() as int, include_view(includes@)) is Ok {
                lemma_label_names_unique(views(lines@), lines@.len() as int, include_view(includes@));
            }
        }
        match self.run_second_pass(&lines, includes, buf) {
            Ok(n) => {
                self.curr_offset = n;
                Ok(())
            },
            Err(f) => {
                assert(views(lines@)[f.line as int] == lines@[f.line as int]@);
                Err(diagnostic(&lines, f))
            },
        }
    }
}

/// The operand of a line's words that names the label of its branch or
/// address instruction.
pub open spec fn label_at(toks: Seq<Seq<char>>) -> int {
    match op_of(toks[0]) {
        Ok(op) => label_pos(op, toks.len() as int),
        Err(_) => 2,
    }
}

/// The item that an error on cleaned line `c` is about: the unknown word, the
/// undefined or repeated label, or else the line itself.
pub open spec fn fault_item(c: Seq<char>, e: AsmError) -> Seq<char> {
    let toks = tokens(c);
    if (e == AsmError::UnknownMnemonic || e == AsmError::UnknownCondition) && toks.len() > 0 {
        toks[0]
    } else if e == AsmError::UndefinedLabel && toks.len() > 0 && toks.len() > label_at(toks) {
        operand(toks, label_at(toks))
    } else if e == AsmError::DuplicateLabel && c.len() > 0 {
        c.drop_last()
    } else {
        c
    }
}

fn diagnostic(lines: &Vec<Vec<char>>, f: LineFault) -> (d: Diagnostic)
    requires
        f.line < lines@.len(),
    ensures
        d.line == f.line,
        d.error == f.error,
        d.item@ == fault_item(clean(lines@[f.line as int]@), f.error),
{
    let c = clean_chars(lines[f.line].as_slice());
    let toks = split_tokens(c.as_slice());
    let item: Vec<char> = if (f.error == AsmError::UnknownMnemonic || f.error
        == AsmError::UnknownCondition) && toks.len() > 0 {
        slice_chars(toks[0].as_slice(), 0, toks[0].len())
    } else if f.error == AsmError::UndefinedLabel && toks.len() > 0 {
        let at: usize = match op_chars(toks[0].as_slice()) {
            Ok(Op::B) => 1,
            Ok(Op::Bcc(_)) => if toks.len() == 2 {
                1
            } else {
                2
            },
            _ => 2,
        };
        if toks.len() > at {
            operand_at(&toks, at)
        } else {
            slice_chars(c.as_slice(), 0, c.len())
        }
    } else if f.error == AsmError::DuplicateLabel && c.len() > 0 {
        slice_chars(c.as_slice(), 0, c.len() - 1)
    } else {
        slice_chars(c.as_slice(), 0, c.len())
    };
    proof {
        assert(views(toks@).len() > 0 ==> views(toks@)[0] == toks@[0]@);
        assert(c@.subrange(0, c@.len() as int) =~= c@);
        if c@.len() > 0 {
            assert(c@.subrange(0, c@.len() - 1) =~= c@.drop_last());
        }
        if toks@.len() > 0 {
            assert(toks@[0]@.subrange(0, toks@[0]@.len() as int) =~= toks@[0]@);
        }
    }
    Diagnostic { line: f.line, error: f.error, item: string_of(item.as_slice()) }
}

/// An error of the first pass on a prefix stays the error of every longer one.
proof fn lemma_pass1_err(lines: Seq<Seq<char>>, k: int, n: int, incs: Seq<(Seq<char>, Seq<u8>)>)
    requires
        0 <= k <= n,
        pass1(lines, k, incs) is Err,
    ensures
        pass1(lines, n, incs) == pass1(lines, k, incs),
    decreases n - k,
{
    if k < n {
        lemma_pass1_err(lines, k, n - 1, incs);
    }
}

/// An error of the second pass on a prefix stays the error of every longer one.
proof fn lemma_pass2_err(
    lines: Seq<Seq<char>>,
    k: int,
    n: int,
    labels: Seq<(Seq<char>, int)>,
    incs: Seq<(Seq<char>, Seq<u8>)>,
)
    requires
        0 <= k <= n,
        pass2(lines, k, labels, incs) is Err,
    ensures
        pass2(lines, n, labels, incs) == pass2(lines, k, labels, incs),
    decreases n - k,
{
    if k < n {
        lemma_pass2_err(lines, k, n - 1, labels, incs);
    }
}

proof fn lemma_pass2_prefix_ok(
    lines: Seq<Seq<char>>,
    k: int,
    n: int,
    labels: Seq<(Seq<char>, int)>,
    incs: Seq<(Seq<char>, Seq<u8>)>,
)
    requires
        0 <= k <= n,
        pass2(lines, n, labels, incs) is Ok,
    ensures
        pass2(lines, k, labels, incs) is Ok,
{
    if pass2(lines, k, labels, incs) is Err {
        lemma_pass2_err(lines, k, n, labels, incs);
    }
}

/// The section that a successful assembly produces is a whole number of
/// 4-byte words.
pub proof fn lemma_text_is_word_aligned(src: Seq<char>, incs: Seq<(Seq<char>, Seq<u8>)>)
    requires
        assemble(src, incs) is Ok,
    ensures
        assemble(src, incs)->Ok_0.len() % 4 == 0,
{
    let lines = lines_of(src);
    let n = lines.len() as int;
    let labels = pass1(lines, n, incs)->Ok_0.0;
    lemma_passes_agree(lines, n, labels, incs);
    lemma_pass1_cursor(lines, n, incs);
}

/// Both passes of a successful assembly see the same cursor before every line:
/// the bytes emitted by the second pass over the first `k` lines number exactly
/// what the first pass counted for them.
pub proof fn lemma_passes_share_cursors(src: Seq<char>, incs: Seq<(Seq<char>, Seq<u8>)>, k: int)
    requires
        assemble(src, incs) is Ok,
        0 <= k <= lines_of(src).len(),
    ensures
        pass1(lines_of(src), k, incs) is Ok,
        pass2(
            lines_of(src),
            k,
            pass1(lines_of(src), lines_of(src).len() as int, incs)->Ok_0.0,
            incs,
        ) is Ok,
        pass2(
            lines_of(src),
            k,
            pass1(lines_of(src), lines_of(src).len() as int, incs)->Ok_0.0,
            incs,
        )->Ok_0.len() == pass1(lines_of(src), k, incs)->Ok_0.1,
{
    let lines = lines_of(src);
    let n = lines.len() as int;
    let labels = pass1(lines, n, incs)->Ok_0.0;
    lemma_pass1_prefix(lines, k, n, incs);
    lemma_pass2_prefix_ok(lines, k, n, labels, incs);
    lemma_passes_agree(lines, k, labels, incs);
}

proof fn lemma_lookup_push(labels: Seq<(Seq<char>, int)>, entry: (Seq<char>, int))
    requires
        lookup(labels, entry.0) is None,
    ensures
        lookup(labels.push(entry), entry.0) == Some(entry.1),
    decreases labels.len(),
{
    if labels.len() > 0 {
        assert(labels.push(entry).drop_first() =~= labels.drop_first().push(entry));
        lemma_lookup_push(labels.drop_first(), entry);
    }
}

proof fn lemma_lookup_prefix(short: Seq<(Seq<char>, int)>, long: Seq<(Seq<char>, int)>, name: Seq<char>)
    requires
        short.len() <= long.len(),
        short == long.take(short.len() as int),
        lookup(short, name) is Some,
    ensures
        lookup(long, name) == lookup(short, name),
    decreases short.len(),
{
    if short[0].0 != name {
        assert(short.drop_first() =~= long.drop_first().take(short.len() - 1));
        lemma_lookup_prefix(short.drop_first(), long.drop_first(), name);
    }
}

/// Every label stands for the offset of the next byte emitted after its line:
/// when line `k` defines `L:`, the label table maps `L` to the number of bytes
/// that the lines before it emit.
pub proof fn lemma_label_marks_next_byte(src: Seq<char>, incs: Seq<(Seq<char>, Seq<u8>)>, k: int)
    requires
        assemble(src, incs) is Ok,
        0 <= k < lines_of(src).len(),
        clean(lines_of(src)[k]).len() > 0,
        clean(lines_of(src)[k]).last() == ':',
    ensures
        ({
            let lines = lines_of(src);
            let labels = pass1(lines, lines.len() as int, incs)->Ok_0.0;
            lookup(labels, clean(lines[k]).drop_last()) == Some(
                pass2(lines, k, labels, incs)->Ok_0.len() as int,
            )
        }),
{
    let lines = lines_of(src);
    let n = lines.len() as int;
    let labels = pass1(lines, n, incs)->Ok_0.0;
    let c = clean(lines[k]);
    lemma_pass1_prefix(lines, k, n, incs);
    lemma_pass1_prefix(lines, k + 1, n, incs);
    let (lk, ck) = pass1(lines, k, incs)->Ok_0;
    lemma_lookup_push(lk, (c.drop_last(), ck));
    let short = pass1(lines, k + 1, incs)->Ok_0.0;
    assert(short == lk.push((c.drop_last(), ck)));
    lemma_lookup_prefix(short, labels, c.drop_last());
    lemma_passes_share_cursors(src, incs, k);
}

/// A branch to a label encodes the displacement from the branch to the label
/// in words, cut to the width of its field: 26 bits for `B`, 19 bits at bit 5
/// for the conditional branch.
pub proof fn lemma_branch_displacement(target: int, pc: int, cond: u8)
    requires
        0 <= target <= MAX_TEXT,
        0 <= pc <= MAX_TEXT,
        target % 4 == 0,
        pc % 4 == 0,
    ensures
        (Command::B { offset: (target - pc) as i32 }).spec_encode() & 0x03FFFFFF == (((target - pc)
            / 4) as u32) & 0x03FFFFFF,
        ((Command::Bcc { cond, offset: (target - pc) as i32 }).spec_encode() >> 5u32) & 0x7FFFF
            == (((target - pc) / 4) as u32) & 0x7FFFF,
{
    let d = target - pc;
    let off = d as i32;
    assert(off == d);
    assert(crate::commands::quarter(off) == d / 4);
    let x = (d / 4) as u32;
    assert((0x14000000u32 | (x & 0x03FFFFFF)) & 0x03FFFFFF == x & 0x03FFFFFF) by (bit_vector);
    let cc = (cond & 0xF) as u32;
    assert(cc < 16) by (bit_vector)
        requires
            cc == (cond & 0xF) as u32,
    ;
    assert(((0x54000000u32 | ((x & 0x7FFFF) << 5u32) | cc) >> 5u32) & 0x7FFFF == x & 0x7FFFF)
        by (bit_vector)
        requires
            cc < 16,
    ;
}

/// An instruction line emits exactly one 4-byte word: the encoding of the
/// instruction that its words give.
pub proof fn lemma_instruction_line_is_one_word(
    c: Seq<char>,
    labels: Seq<(Seq<char>, int)>,
    cursor: int,
    incs: Seq<(Seq<char>, Seq<u8>)>,
)
    requires
        !is_quiet(c),
        op_of(tokens(c)[0]) is Ok,
        !is_data(op_of(tokens(c)[0])->Ok_0),
        line_bytes(c, labels, cursor, incs) is Ok,
    ensures
        command_of(op_of(tokens(c)[0])->Ok_0, tokens(c), labels, cursor) is Ok,
        line_bytes(c, labels, cursor, incs)->Ok_0 == le_bytes(
            command_of(op_of(tokens(c)[0])->Ok_0, tokens(c), labels, cursor)->Ok_0.spec_encode(),
        ),
        line_bytes(c, labels, cursor, incs)->Ok_0.len() == 4,
{
    reveal(line_bytes);
}

/// No two entries of a label table share a name.
pub open spec fn unique_names(labels: Seq<(Seq<char>, int)>) -> bool {
    forall|i: int, j: int|
        0 <= i < j < labels.len() ==> #[trigger] labels[i].0 != #[trigger] labels[j].0
}

proof fn lemma_lookup_none(labels: Seq<(Seq<char>, int)>, name: Seq<char>)
    requires
        lookup(labels, name) is None,
    ensures
        forall|i: int| 0 <= i < labels.len() ==> #[trigger] labels[i].0 != name,
    decreases labels.len(),
{
    if labels.len() > 0 {
        lemma_lookup_none(labels.drop_first(), name);
        assert forall|i: int| 0 <= i < labels.len() implies #[trigger] labels[i].0 != name by {
            if i > 0 {
                assert(labels[i] == labels.drop_first()[i - 1]);
            }
        }
    }
}

/// The first pass never records a label name twice.
pub proof fn lemma_label_names_unique(lines: Seq<Seq<char>>, n: int, incs: Seq<(Seq<char>, Seq<u8>)>)
    requires
        pass1(lines, n, incs) is Ok,
    ensures
        unique_names(pass1(lines, n, incs)->Ok_0.0),
    decreases n,
{
    if n > 0 {
        lemma_label_names_unique(lines, n - 1, incs);
        let (l, cur) = pass1(lines, n - 1, incs)->Ok_0;
        let c = clean(lines[n - 1]);
        if c.len() > 0 && c.last() == ':' {
            lemma_lookup_none(l, c.drop_last());
            let l2 = l.push((c.drop_last(), cur));
            assert forall|i: int, j: int| 0 <= i < j < l2.len() implies #[trigger] l2[i].0
                != #[trigger] l2[j].0 by {
                if j == l.len() {
                    assert(l2[i] == l[i]);
                } else {
                    assert(l2[i] == l[i] && l2[j] == l[j]);
                }
            }
        }
    }
}

proof fn lemma_quarter_exact(target: int, pc: int)
    requires
        0 <= target <= MAX_TEXT,
        0 <= pc <= MAX_TEXT,
        target % 4 == 0,
        pc % 4 == 0,
    ensures
        (target - pc) as i32 == target - pc,
        crate::commands::quarter((target - pc) as i32) == (target - pc) / 4,
{
    let d = target - pc;
    assert((d as i32) == d);
}

/// A `СТУПАЙ L` line at offset `cursor` emits the word `0x14000000` with the
/// displacement to `L` in words, cut to 26 bits.
pub proof fn lemma_branch_line(
    c: Seq<char>,
    labels: Seq<(Seq<char>, int)>,
    cursor: int,
    incs: Seq<(Seq<char>, Seq<u8>)>,
    target: int,
)
    requires
        !is_quiet(c),
        tokens(c).len() >= 2,
        op_of(tokens(c)[0]) == Ok::<Op, AsmError>(Op::B),
        lookup(labels, operand(tokens(c), 1)) == Some(target),
        0 <= target <= MAX_TEXT,
        0 <= cursor <= MAX_TEXT,
        target % 4 == 0,
        cursor % 4 == 0,
    ensures
        line_bytes(c, labels, cursor, incs) == Ok::<Seq<u8>, AsmError>(
            le_bytes(0x14000000u32 | ((((target - cursor) / 4) as u32) & 0x03FFFFFF)),
        ),
{
    reveal(line_bytes);
    lemma_quarter_exact(target, cursor);
}

/// A `КОЛИ_<tag> СТУПАЙ L` line (or `КОЛИ_<tag> L`) at offset `cursor` emits
/// the word `0x54000000` with the displacement to `L` in words, cut to 19
/// bits, at bit 5, and the tag's condition code in the low four bits.
pub proof fn lemma_conditional_branch_line(
    c: Seq<char>,
    labels: Seq<(Seq<char>, int)>,
    cursor: int,
    incs: Seq<(Seq<char>, Seq<u8>)>,
    target: int,
    cond: u8,
)
    requires
        !is_quiet(c),
        tokens(c).len() >= 2,
        op_of(tokens(c)[0]) == Ok::<Op, AsmError>(Op::Bcc(cond)),
        lookup(labels, operand(tokens(c), label_pos(Op::Bcc(cond), tokens(c).len() as int)))
            == Some(target),
        0 <= target <= MAX_TEXT,
        0 <= cursor <= MAX_TEXT,
        target % 4 == 0,
        cursor % 4 == 0,
    ensures
        cond < 16,
        line_bytes(c, labels, cursor, incs) == Ok::<Seq<u8>, AsmError>(
            le_bytes(
                0x54000000u32 | (((((target - cursor) / 4) as u32) & 0x7FFFF) << 5u32) | (cond
                    as u32),
            ),
        ),
{
    reveal(line_bytes);
    lemma_quarter_exact(target, cursor);
    let t = tokens(c)[0];
    assert(t.len() >= 5 && t.take(5) == seq!['К', 'О', 'Л', 'И', '_']);
    assert(cond < 16);
    assert((cond & 0xF) == cond) by (bit_vector)
        requires
            cond < 16,
    ;
}

proof fn lemma_pass2_extends(
    lines: Seq<Seq<char>>,
    k: int,
    n: int,
    labels: Seq<(Seq<char>, int)>,
    incs: Seq<(Seq<char>, Seq<u8>)>,
)
    requires
        0 <= k <= n,
        pass2(lines, n, labels, incs) is Ok,
    ensures
        pass2(lines, k, labels, incs) is Ok,
        pass2(lines, k, labels, incs)->Ok_0.len() <= pass2(lines, n, labels, incs)->Ok_0.len(),
        pass2(lines, n, labels, incs)->Ok_0.take(pass2(lines, k, labels, incs)->Ok_0.len() as int)
            == pass2(lines, k, labels, incs)->Ok_0,
    decreases n - k,
{
    lemma_pass2_prefix_ok(lines, k, n, labels, incs);
    let bk = pass2(lines, k, labels, incs)->Ok_0;
    if k < n {
        lemma_pass2_extends(lines, k, n - 1, labels, incs);
        lemma_pass2_prefix_ok(lines, n - 1, n, labels, incs);
        let b1 = pass2(lines, n - 1, labels, incs)->Ok_0;
        let b2 = pass2(lines, n, labels, incs)->Ok_0;
        assert(b2.take(b1.len() as int) =~= b1);
        assert(b2.take(bk.len() as int) =~= bk);
    } else {
        assert(bk.take(bk.len() as int) =~= bk);
    }
}

/// Instruction words stand in the section one for one with the instruction
/// lines, in order: the instruction on line `k` is encoded, as one
/// little-endian word, at the offset that the first pass gave that line.
pub proof fn lemma_instruction_word_at_its_offset(src: Seq<char>, incs: Seq<(Seq<char>, Seq<u8>)>, k: int)
    requires
        assemble(src, incs) is Ok,
        0 <= k < lines_of(src).len(),
        !is_quiet(clean(lines_of(src)[k])),
        op_of(tokens(clean(lines_of(src)[k]))[0]) is Ok,
        !is_data(op_of(tokens(clean(lines_of(src)[k]))[0])->Ok_0),
    ensures
        ({
            let lines = lines_of(src);
            let labels = pass1(lines, lines.len() as int, incs)->Ok_0.0;
            let c = clean(lines[k]);
            let o = pass1(lines, k, incs)->Ok_0.1;
            let cmd = command_of(op_of(tokens(c)[0])->Ok_0, tokens(c), labels, o);
            &&& cmd is Ok
            &&& assemble(src, incs)->Ok_0.subrange(o, o + 4) == le_bytes(cmd->Ok_0.spec_encode())
        }),
{
    let lines = lines_of(src);
    let n = lines.len() as int;
    let labels = pass1(lines, n, incs)->Ok_0.0;
    let c = clean(lines[k]);
    lemma_passes_share_cursors(src, incs, k);
    lemma_pass2_extends(lines, k + 1, n, labels, incs);
    let bk = pass2(lines, k, labels, incs)->Ok_0;
    let o = bk.len() as int;
    lemma_instruction_line_is_one_word(c, labels, o, incs);
    let w = line_bytes(c, labels, o, incs)->Ok_0;
    let b1 = pass2(lines, k + 1, labels, incs)->Ok_0;
    assert(b1 == bk + w);
    let all = pass2(lines, n, labels, incs)->Ok_0;
    assert(all.subrange(o, o + 4) =~= w) by {
        assert(all.take(b1.len() as int) == b1);
        assert forall|i: int| 0 <= i < 4 implies all.subrange(o, o + 4)[i] == w[i] by {
            assert(all.take(b1.len() as int)[o + i] == all[o + i]);
        }
    }
}

} // verus!
