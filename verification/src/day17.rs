//! The three-bit chronospatial computer: opcodes and operand decoding.

use vstd::prelude::*;

verus! {

/// The eight opcodes of the machine.
#[derive(Debug, Clone, Copy, PartialEq, Eq, Structural)]
pub enum Opcode {
    ADV,
    BXL,
    BST,
    JNZ,
    BXC,
    OUT,
    BDV,
    CDV,
}

/// The opcode a three-bit instruction value denotes.
pub open spec fn opcode_of(value: int) -> Option<Opcode> {
    if value == 0 {
        Some(Opcode::ADV)
    } else if value == 1 {
        Some(Opcode::BXL)
    } else if value == 2 {
        Some(Opcode::BST)
    } else if value == 3 {
        Some(Opcode::JNZ)
    } else if value == 4 {
        Some(Opcode::BXC)
    } else if value == 5 {
        Some(Opcode::OUT)
    } else if value == 6 {
        Some(Opcode::BDV)
    } else if value == 7 {
        Some(Opcode::CDV)
    } else {
        None
    }
}

impl Opcode {
    /// Decodes an instruction value, `None` outside the three-bit range.
    pub fn from_i32(value: i32) -> (r: Option<Opcode>)
        ensures
            r == opcode_of(value as int),
    {
        match value {
            0 => Some(Opcode::ADV),
            1 => Some(Opcode::BXL),
            2 => Some(Opcode::BST),
            3 => Some(Opcode::JNZ),
            4 => Some(Opcode::BXC),
            5 => Some(Opcode::OUT),
            6 => Some(Opcode::BDV),
            7 => Some(Opcode::CDV),
            _ => None,
        }
    }
}

/// One decoded instruction together with the register file it reads.
#[derive(Debug)]
pub struct Instruction {
    pub reg_a: i64,
    pub reg_b: i64,
    pub reg_c: i64,
    pub opcode: Opcode,
    pub operand: i32,
}

/// The value a combo operand denotes: literals zero to three, then the
/// three registers.
pub open spec fn combo_value(ins: Instruction) -> int {
    if ins.operand == 0 {
        0
    } else if ins.operand == 1 {
        1
    } else if ins.operand == 2 {
        2
    } else if ins.operand == 3 {
        3
    } else if ins.operand == 4 {
        ins.reg_a as int
    } else if ins.operand == 5 {
        ins.reg_b as int
    } else {
        ins.reg_c as int
    }
}

impl Instruction {
    /// Resolves the combo operand of this instruction.  Operand seven is
    /// reserved, and register values must fit the operand width.
    pub fn match_combo_operand(&self) -> (r: u32)
        requires
            0 <= self.operand <= 6,
            self.operand == 4 ==> 0 <= self.reg_a <= u32::MAX,
            self.operand == 5 ==> 0 <= self.reg_b <= u32::MAX,
            self.operand == 6 ==> 0 <= self.reg_c <= u32::MAX,
        ensures
            r == combo_value(*self),
    {
        match self.operand {
            0 => 0,
            1 => 1,
            2 => 2,
            3 => 3,
            4 => self.reg_a as u32,
            5 => self.reg_b as u32,
            _ => self.reg_c as u32,
        }
    }
}

} // verus!
