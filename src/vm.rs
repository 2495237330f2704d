use vstd::prelude::*;

use crate::util::{region_contains, region_lookup, regions_valid, AccessLevels, BError, Region, RegionMap};

verus! {

/// The number of words of RAM.
pub const RAM_LEN: usize = 65536;

/// The bit that tells a Data word from an ALU word.
pub const BIT_15: u16 = 0x8000;

/// The registers, with their codes in the instruction encoding.
#[derive(Debug, Clone, Copy, PartialEq, Eq, Structural)]
pub enum Register {
    /// No register: a result written here is dropped, a read gives 0.
    NoReg,
    A,
    /// `*A`, the RAM word at address A.
    MA,
    D,
    E,
    F,
    G,
    H,
}

impl Register {
    pub open spec fn code(self) -> u16 {
        match self {
            Register::NoReg => 0,
            Register::A => 1,
            Register::MA => 2,
            Register::D => 3,
            Register::E => 4,
            Register::F => 5,
            Register::G => 6,
            Register::H => 7,
        }
    }

    /// The register of a 3-bit code.
    pub open spec fn of_code(c: u16) -> Register {
        if c == 1 {
            Register::A
        } else if c == 2 {
            Register::MA
        } else if c == 3 {
            Register::D
        } else if c == 4 {
            Register::E
        } else if c == 5 {
            Register::F
        } else if c == 6 {
            Register::G
        } else if c == 7 {
            Register::H
        } else {
            Register::NoReg
        }
    }

    /// The register that assembly text names, if any.
    pub open spec fn named(s: Seq<char>) -> Option<Register> {
        if s == seq!['A'] {
            Some(Register::A)
        } else if s == seq!['*', 'A'] {
            Some(Register::MA)
        } else if s == seq!['D'] {
            Some(Register::D)
        } else if s == seq!['E'] {
            Some(Register::E)
        } else if s == seq!['F'] {
            Some(Register::F)
        } else if s == seq!['G'] {
            Some(Register::G)
        } else if s == seq!['H'] {
            Some(Register::H)
        } else {
            None
        }
    }

    /// The text of a register, as the disassembler prints it.
    pub open spec fn text(self) -> Seq<char> {
        match self {
            Register::NoReg => seq!['N', 'o', 'n', 'e'],
            Register::A => seq!['A'],
            Register::MA => seq!['*', 'A'],
            Register::D => seq!['D'],
            Register::E => seq!['E'],
            Register::F => seq!['F'],
            Register::G => seq!['G'],
            Register::H => seq!['H'],
        }
    }

    pub fn to_code(self) -> (r: u8)
        ensures
            r as u16 == self.code(),
    {
        match self {
            Register::NoReg => 0,
            Register::A => 1,
            Register::MA => 2,
            Register::D => 3,
            Register::E => 4,
            Register::F => 5,
            Register::G => 6,
            Register::H => 7,
        }
    }

    /// The register of a field value; fails on values that do not fit in 3 bits.
    pub fn try_from_code(value: u8) -> (r: Result<Register, BError>)
        ensures
            r is Ok <==> value <= 7,
            r matches Ok(reg) ==> reg.code() == value as u16 && reg == Register::of_code(
                value as u16,
            ),
            r matches Err(e) ==> e is InstParseError,
    {
        match value {
            0 => Ok(Register::NoReg),
            1 => Ok(Register::A),
            2 => Ok(Register::MA),
            3 => Ok(Register::D),
            4 => Ok(Register::E),
            5 => Ok(Register::F),
            6 => Ok(Register::G),
            7 => Ok(Register::H),
            _ => Err(
                BError::InstParseError {
                    value: value as u16,
                    message: String::from_str("a register field can only hold 3 bits"),
                },
            ),
        }
    }

    /// The register of a 3-bit field value.
    pub fn of_field(value: u8) -> (r: Register)
        requires
            value <= 7,
        ensures
            r == Register::of_code(value as u16),
    {
        match value {
            1 => Register::A,
            2 => Register::MA,
            3 => Register::D,
            4 => Register::E,
            5 => Register::F,
            6 => Register::G,
            7 => Register::H,
            _ => Register::NoReg,
        }
    }

    /// The register that `input` names (`A`, `*A`, `D` .. `H`).
    pub fn from_str(input: &str) -> (r: Option<Register>)
        ensures
            r == Register::named(input@),
    {
        let c = crate::util::chars_of(input);
        Register::from_chars(c.as_slice())
    }

    pub(crate) fn from_chars(c: &[char]) -> (r: Option<Register>)
        ensures
            r == Register::named(c@),
    {
        if c.len() == 1 {
            let ch = c[0];
            proof {
                assert(c@ =~= seq![ch]);
            }
            if ch == 'A' {
                Some(Register::A)
            } else if ch == 'D' {
                Some(Register::D)
            } else if ch == 'E' {
                Some(Register::E)
            } else if ch == 'F' {
                Some(Register::F)
            } else if ch == 'G' {
                Some(Register::G)
            } else if ch == 'H' {
                Some(Register::H)
            } else {
                None
            }
        } else if c.len() == 2 && c[0] == '*' && c[1] == 'A' {
            proof {
                assert(c@ =~= seq!['*', 'A']);
            }
            Some(Register::MA)
        } else {
            proof {
                if c.len() == 2 {
                    assert(c@ != seq!['*', 'A']);
                }
            }
            None
        }
    }

    /// The text of the register.
    pub fn text_chars(self) -> (r: Vec<char>)
        ensures
            r@ == self.text(),
    {
        let r = match self {
            Register::NoReg => vec!['N', 'o', 'n', 'e'],
            Register::A => vec!['A'],
            Register::MA => vec!['*', 'A'],
            Register::D => vec!['D'],
            Register::E => vec!['E'],
            Register::F => vec!['F'],
            Register::G => vec!['G'],
            Register::H => vec!['H'],
        };
        proof {
            assert(r@ =~= self.text());
        }
        r
    }
}

/// Bit `k` of `w`.
pub open spec fn bit_of(w: u16, k: u16) -> bool {
    (w >> k) & 1 == 1
}

/// The 3-bit field of `w` that starts at bit `k`.
pub open spec fn field_of(w: u16, k: u16) -> u16 {
    (w >> k) & 7
}

pub open spec fn b2w(b: bool) -> u16 {
    if b {
        1
    } else {
        0
    }
}

/// The ALU word with the given fields.
pub open spec fn alu_word(
    u: bool,
    op: u16,
    source: u16,
    target: u16,
    zx: bool,
    sw: bool,
    lt: bool,
    eq: bool,
    gt: bool,
) -> u16 {
    b2w(gt) | (b2w(eq) << 1u16) | (b2w(lt) << 2u16) | (target << 3u16) | (b2w(zx) << 6u16) | (
    b2w(sw) << 7u16) | (op << 8u16) | (b2w(u) << 11u16) | (source << 12u16)
}

proof fn lemma_fields_bv(u: u16, op: u16, source: u16, target: u16, zx: u16, sw: u16, lt: u16, eq: u16, gt: u16)
    requires
        u <= 1,
        op <= 7,
        source <= 7,
        target <= 7,
        zx <= 1,
        sw <= 1,
        lt <= 1,
        eq <= 1,
        gt <= 1,
    ensures
        ({
            let w = gt | (eq << 1u16) | (lt << 2u16) | (target << 3u16) | (zx << 6u16) | (sw << 7u16)
                | (op << 8u16) | (u << 11u16) | (source << 12u16);
            &&& w & 0x8000 == 0
            &&& (w >> 0u16) & 1 == gt
            &&& (w >> 1u16) & 1 == eq
            &&& (w >> 2u16) & 1 == lt
            &&& (w >> 3u16) & 7 == target
            &&& (w >> 6u16) & 1 == zx
            &&& (w >> 7u16) & 1 == sw
            &&& (w >> 8u16) & 7 == op
            &&& (w >> 11u16) & 1 == u
            &&& (w >> 12u16) & 7 == source
        }),
{
    assert({
        let w = gt | (eq << 1u16) | (lt << 2u16) | (target << 3u16) | (zx << 6u16) | (sw << 7u16)
            | (op << 8u16) | (u << 11u16) | (source << 12u16);
        &&& w & 0x8000 == 0
        &&& (w >> 0u16) & 1 == gt
        &&& (w >> 1u16) & 1 == eq
        &&& (w >> 2u16) & 1 == lt
        &&& (w >> 3u16) & 7 == target
        &&& (w >> 6u16) & 1 == zx
        &&& (w >> 7u16) & 1 == sw
        &&& (w >> 8u16) & 7 == op
        &&& (w >> 11u16) & 1 == u
        &&& (w >> 12u16) & 7 == source
    }) by (bit_vector)
        requires
            u <= 1,
            op <= 7,
            source <= 7,
            target <= 7,
            zx <= 1,
            sw <= 1,
            lt <= 1,
            eq <= 1,
            gt <= 1,
    ;
}

/// Each field of an ALU word built from fields reads back as that field, and bit 15 stays clear.
pub proof fn lemma_alu_word_fields(
    u: bool,
    op: u16,
    source: u16,
    target: u16,
    zx: bool,
    sw: bool,
    lt: bool,
    eq: bool,
    gt: bool,
)
    requires
        op <= 7,
        source <= 7,
        target <= 7,
    ensures
        ({
            let w = alu_word(u, op, source, target, zx, sw, lt, eq, gt);
            &&& w & 0x8000 == 0
            &&& w < 0x8000
            &&& bit_of(w, 0) == gt
            &&& bit_of(w, 1) == eq
            &&& bit_of(w, 2) == lt
            &&& field_of(w, 3) == target
            &&& bit_of(w, 6) == zx
            &&& bit_of(w, 7) == sw
            &&& field_of(w, 8) == op
            &&& bit_of(w, 11) == u
            &&& field_of(w, 12) == source
        }),
{
    lemma_fields_bv(b2w(u), op, source, target, b2w(zx), b2w(sw), b2w(lt), b2w(eq), b2w(gt));
    let w = alu_word(u, op, source, target, zx, sw, lt, eq, gt);
    assert(w & 0x8000 == 0 ==> w < 0x8000) by (bit_vector);
}

/// An ALU instruction held in a word: mask-and-shift accessors for each field.
#[derive(Debug, Clone, Copy, PartialEq, Eq, Structural)]
pub struct AluInstruction(pub u16);

impl AluInstruction {
    /// The word with the given fields.
    pub fn from_fields(
        u: bool,
        op: u16,
        source: u16,
        target: u16,
        zx: bool,
        sw: bool,
        lt: bool,
        eq: bool,
        gt: bool,
    ) -> (r: AluInstruction)
        requires
            op <= 7,
            source <= 7,
            target <= 7,
        ensures
            r.0 == alu_word(u, op, source, target, zx, sw, lt, eq, gt),
            r.0 < 0x8000,
    {
        let bu: u16 = if u { 1 } else { 0 };
        let bzx: u16 = if zx { 1 } else { 0 };
        let bsw: u16 = if sw { 1 } else { 0 };
        let blt: u16 = if lt { 1 } else { 0 };
        let beq: u16 = if eq { 1 } else { 0 };
        let bgt: u16 = if gt { 1 } else { 0 };
        proof {
            lemma_alu_word_fields(u, op, source, target, zx, sw, lt, eq, gt);
        }
        AluInstruction(
            bgt | (beq << 1u16) | (blt << 2u16) | (target << 3u16) | (bzx << 6u16) | (bsw << 7u16)
                | (op << 8u16) | (bu << 11u16) | (source << 12u16),
        )
    }

    fn get_bit(&self, k: u16) -> (r: bool)
        requires
            k < 16,
        ensures
            r == bit_of(self.0, k),
    {
        (self.0 >> k) & 1 == 1
    }

    fn get_field(&self, k: u16) -> (r: u8)
        requires
            k < 16,
        ensures
            r as u16 == field_of(self.0, k),
            r <= 7,
    {
        let w = self.0;
        proof {
            assert((w >> k) & 7 <= 7) by (bit_vector);
        }
        ((w >> k) & 7) as u8
    }

    pub fn get_gt(&self) -> (r: bool)
        ensures
            r == bit_of(self.0, 0),
    {
        self.get_bit(0)
    }

    pub fn get_eq(&self) -> (r: bool)
        ensures
            r == bit_of(self.0, 1),
    {
        self.get_bit(1)
    }

    pub fn get_lt(&self) -> (r: bool)
        ensures
            r == bit_of(self.0, 2),
    {
        self.get_bit(2)
    }

    pub fn get_target(&self) -> (r: u8)
        ensures
            r as u16 == field_of(self.0, 3),
            r <= 7,
    {
        self.get_field(3)
    }

    pub fn get_zx(&self) -> (r: bool)
        ensures
            r == bit_of(self.0, 6),
    {
        self.get_bit(6)
    }

    pub fn get_sw(&self) -> (r: bool)
        ensures
            r == bit_of(self.0, 7),
    {
        self.get_bit(7)
    }

    pub fn get_op(&self) -> (r: u8)
        ensures
            r as u16 == field_of(self.0, 8),
            r <= 7,
    {
        self.get_field(8)
    }

    pub fn get_u(&self) -> (r: bool)
        ensures
            r == bit_of(self.0, 11),
    {
        self.get_bit(11)
    }

    pub fn get_source(&self) -> (r: u8)
        ensures
            r as u16 == field_of(self.0, 12),
            r <= 7,
    {
        self.get_field(12)
    }
}

/// Both kinds of instruction.
#[derive(Debug, Clone, Copy, PartialEq, Eq, Structural)]
pub enum Instruction {
    Alu(AluInstruction),
    Data(u16),
}

/// The instruction that a word encodes.
pub open spec fn decode(w: u16) -> Instruction {
    if w & 0x8000 == 0 {
        Instruction::Alu(AluInstruction(w))
    } else {
        Instruction::Data(w & 0x7fff)
    }
}

/// The word of an instruction.
pub open spec fn encode(i: Instruction) -> u16 {
    match i {
        Instruction::Alu(a) => a.0,
        Instruction::Data(v) => v | 0x8000,
    }
}

/// An instruction that some word encodes: a Data value fits in 15 bits, an ALU word has bit 15 clear.
pub open spec fn instruction_valid(i: Instruction) -> bool {
    match i {
        Instruction::Alu(a) => a.0 & 0x8000 == 0,
        Instruction::Data(v) => v <= 0x7fff,
    }
}

impl Instruction {
    /// Turns a word into an instruction.
    pub fn from_u16(inst: u16) -> (r: Self)
        ensures
            r == decode(inst),
    {
        if (inst & BIT_15) == 0 {
            Instruction::Alu(AluInstruction(inst))
        } else {
            Instruction::Data(inst & 0x7fff)
        }
    }

    /// Turns an instruction into a word.
    pub fn to_u16(self) -> (r: u16)
        ensures
            r == encode(self),
    {
        match self {
            Instruction::Alu(inst) => inst.0,
            Instruction::Data(val) => val | BIT_15,
        }
    }
}

/// Decoding a word and encoding the instruction again gives the word back.
pub proof fn lemma_encode_decode(w: u16)
    ensures
        encode(decode(w)) == w,
        instruction_valid(decode(w)),
{
    assert(w & 0x8000 != 0 ==> (w & 0x7fff) | 0x8000 == w) by (bit_vector);
    assert((w & 0x7fff) <= 0x7fff) by (bit_vector);
}

/// Encoding an instruction that some word encodes and decoding the word gives the instruction back.
pub proof fn lemma_decode_encode(i: Instruction)
    requires
        instruction_valid(i),
    ensures
        decode(encode(i)) == i,
{
    match i {
        Instruction::Alu(a) => {},
        Instruction::Data(v) => {
            assert(v <= 0x7fff ==> (v | 0x8000) & 0x8000 != 0 && ((v | 0x8000) & 0x7fff) == v)
                by (bit_vector);
        },
    }
}

/// The result of the operation `(u, op)` on `x` and `y`, if the table has it.
pub open spec fn alu_result(u: bool, op: u16, x: u16, y: u16) -> Option<u16> {
    if u {
        if op == 0 {
            Some(((x + y) % 0x10000) as u16)
        } else if op == 1 {
            Some(((x - y + 0x10000) % 0x10000) as u16)
        } else if op == 2 {
            Some(((x + 1) % 0x10000) as u16)
        } else if op == 3 {
            Some(((x - 1 + 0x10000) % 0x10000) as u16)
        } else if op == 4 {
            Some((x & 0x8000) | ((x << 1u16) as u16))
        } else {
            None
        }
    } else {
        if op == 0 {
            Some(x & y)
        } else if op == 1 {
            Some(x | y)
        } else if op == 2 {
            Some(x ^ y)
        } else if op == 3 {
            Some(!x)
        } else if op == 4 {
            Some((x << 1u16) as u16)
        } else if op == 5 {
            Some(x >> 1u16)
        } else if op == 6 {
            Some(((x << 1u16) as u16) | (x >> 15u16))
        } else {
            Some((x >> 1u16) | ((x << 15u16) as u16))
        }
    }
}

/// Computes one ALU operation.
pub fn alu_compute(u: bool, op: u8, x: u16, y: u16) -> (r: Option<u16>)
    ensures
        r == alu_result(u, op as u16, x, y),
{
    if u {
        match op {
            0 => Some(((x as u32 + y as u32) % 0x10000) as u16),
            1 => Some(((x as u32 + 0x10000 - y as u32) % 0x10000) as u16),
            2 => Some(((x as u32 + 1) % 0x10000) as u16),
            3 => Some(((x as u32 + 0xffff) % 0x10000) as u16),
            4 => Some((x & BIT_15) | (x << 1u16)),
            _ => None,
        }
    } else {
        match op {
            0 => Some(x & y),
            1 => Some(x | y),
            2 => Some(x ^ y),
            3 => Some(!x),
            4 => Some(x << 1u16),
            5 => Some(x >> 1u16),
            6 => Some((x << 1u16) | (x >> 15u16)),
            _ => Some((x >> 1u16) | (x << 15u16)),
        }
    }
}

/// `add`, `sub`, `inc` and `dec` compute modulo 2^16.
pub proof fn lemma_alu_wraps(x: u16, y: u16)
    ensures
        alu_result(true, 0, x, y) == Some(((x as int + y as int) % 0x10000) as u16),
        alu_result(true, 1, x, y) == Some(((x as int - y as int) % 0x10000) as u16),
        alu_result(true, 2, x, y) == Some(((x as int + 1) % 0x10000) as u16),
        alu_result(true, 3, x, y) == Some(((x as int - 1) % 0x10000) as u16),
{
    assert((x as int - y as int + 0x10000) % 0x10000 == (x as int - y as int) % 0x10000);
    assert((x as int - 1 + 0x10000) % 0x10000 == (x as int - 1) % 0x10000);
}

/// The result is negative as a signed 16-bit number.
pub open spec fn flag_lt(out: u16) -> bool {
    out >= 0x8000
}

/// The result is positive as a signed 16-bit number.
pub open spec fn flag_gt(out: u16) -> bool {
    0 < out < 0x8000
}

pub open spec fn flag_eq(out: u16) -> bool {
    out == 0
}

/// Whether an ALU word branches on result `out`.
pub open spec fn branch_taken(out: u16, w: u16) -> bool {
    (flag_lt(out) && bit_of(w, 2)) || (flag_gt(out) && bit_of(w, 0)) || (flag_eq(out) && bit_of(w, 1))
}

impl Default for MemoryUnit {
    /// Zero latches and zero RAM, all of it `ReadWrite`.
    fn default() -> (r: Self)
        ensures
            r.wf(),
            r.regs() == seq![0u16, 0u16, 0u16, 0u16, 0u16, 0u16],
            r.ram_spec().cells() == Seq::new(RAM_LEN as nat, |i: int| 0u16),
            forall|p: u16| r.ram_spec().access(p) == AccessLevels::ReadWrite,
            r.ram_spec().watched() == Seq::<u16>::empty(),
            r.ram_spec().events() == Seq::<(u16, u16)>::empty(),
    {
        let ram = vec![0u16; RAM_LEN];
        proof {
            assert(ram@ =~= Seq::new(RAM_LEN as nat, |i: int| 0u16));
        }
        let region = Region::new(0, 0xffff, AccessLevels::ReadWrite);
        let regions = vec![region];
        proof {
            assert(regions@ =~= seq![region]);
            assert(regions_valid(regions@));
        }
        let map = match RegionMap::try_from(regions) {
            Ok(m) => m,
            Err(_) => RegionMap::empty(),
        };
        let r = MemoryUnit { a: 0, d: 0, e: 0, f: 0, g: 0, h: 0, ram: Ram::new(ram, map) };
        proof {
            assert(r.regs() =~= seq![0u16, 0u16, 0u16, 0u16, 0u16, 0u16]);
            assert forall|p: u16| r.ram_spec().access(p) == AccessLevels::ReadWrite by {
                let s = r.ram_spec().regions();
                assert(s == seq![region]);
                assert(region_contains(s[0], p as int));
            }
        }
        r
    }
}

/// Program memory.
#[derive(Debug, Clone)]
pub struct Rom {
    program_text: Vec<u16>,
}

impl View for Rom {
    type V = Seq<u16>;

    closed spec fn view(&self) -> Seq<u16> {
        self.program_text@
    }
}

/// The stretch `[address, address + length)` of `s`, cut to fit.
pub open spec fn clamped_range(s: Seq<u16>, address: int, length: int) -> Seq<u16> {
    let end = if address + length > s.len() {
        s.len() as int
    } else {
        address + length
    };
    let start = if address > end {
        end
    } else {
        address
    };
    s.subrange(start, end)
}

fn clamped_slice(s: &[u16], address: u16, length: usize) -> (r: &[u16])
    ensures
        r@ == clamped_range(s@, address as int, length as int),
{
    let start = address as usize;
    let n = s.len();
    let end = if length > n || start > n - length {
        n
    } else {
        start + length
    };
    let start = if start > end {
        end
    } else {
        start
    };
    &s[start..end]
}

impl Rom {
    pub fn new(program_text: Vec<u16>) -> (r: Self)
        ensures
            r@ == program_text@,
    {
        Self { program_text }
    }

    /// Builds ROM from its words.
    pub fn from_iter(words: Vec<u16>) -> (r: Self)
        ensures
            r@ == words@,
    {
        Self { program_text: words }
    }

    /// The word at `address`, if ROM reaches that far.
    pub fn get_address(&self, address: u16) -> (r: Option<u16>)
        ensures
            address < self@.len() ==> r == Some(self@[address as int]),
            address >= self@.len() ==> r is None,
    {
        if (address as usize) < self.program_text.len() {
            Some(self.program_text[address as usize])
        } else {
            None
        }
    }

    /// The words `address .. address + length`, cut off at the end of ROM.
    pub fn get_rom_region(&self, address: u16, length: usize) -> (r: &[u16])
        ensures
            r@ == clamped_range(self@, address as int, length as int),
    {
        clamped_slice(self.program_text.as_slice(), address, length)
    }
}

/// The program counter: a word that wraps around.
#[derive(Debug, Clone)]
pub struct Pc {
    val: u16,
}

impl View for Pc {
    type V = u16;

    closed spec fn view(&self) -> u16 {
        self.val
    }
}

impl Pc {
    pub fn new(val: u16) -> (r: Self)
        ensures
            r@ == val,
    {
        Self { val }
    }

    /// Adds one, modulo 2^16.
    pub fn inc(&mut self)
        ensures
            final(self)@ == ((old(self)@ + 1) % 0x10000) as u16,
    {
        self.val = if self.val == 0xffff {
            0
        } else {
            self.val + 1
        };
    }

    pub fn set(&mut self, new_val: u16)
        ensures
            final(self)@ == new_val,
    {
        self.val = new_val;
    }

    pub fn get_val(&self) -> (r: u16)
        ensures
            r == self@,
    {
        self.val
    }
}

/// RAM, with access levels by region and a record of the writes to watched addresses.
///
/// A write to an address that has a callback registered is recorded as an `(address, value)`
/// event; whoever drives the machine takes the events and runs the callbacks on them.
pub struct Ram {
    ram: Vec<u16>,
    watched: Vec<u16>,
    events: Vec<(u16, u16)>,
    memory_regions: RegionMap,
}

impl Ram {
    pub closed spec fn cells(&self) -> Seq<u16> {
        self.ram@
    }

    pub closed spec fn regions(&self) -> Seq<Region> {
        self.memory_regions@
    }

    /// The addresses that have a callback registered.
    pub closed spec fn watched(&self) -> Seq<u16> {
        self.watched@
    }

    /// The writes to watched addresses that have not been taken yet, oldest first.
    pub closed spec fn events(&self) -> Seq<(u16, u16)> {
        self.events@
    }

    /// The region map is well formed.
    pub closed spec fn map_ok(&self) -> bool {
        self.memory_regions.wf()
    }

    pub open spec fn wf(&self) -> bool {
        &&& self.cells().len() == RAM_LEN
        &&& regions_valid(self.regions())
        &&& self.map_ok()
    }

    /// The access level of an address; addresses outside every region are `ReadWrite`.
    pub open spec fn access(&self, p: u16) -> AccessLevels {
        match region_lookup(self.regions(), p as int) {
            Some(l) => l,
            None => AccessLevels::ReadWrite,
        }
    }

    /// What the machine reads at `p`.
    pub open spec fn read_value(&self, p: u16) -> u16 {
        if self.access(p) == AccessLevels::NoAccess {
            0
        } else {
            self.cells()[p as int]
        }
    }

    /// `new` is this RAM after the machine wrote `v` at `p`.
    pub open spec fn write_effect(&self, new: &Ram, p: u16, v: u16) -> bool {
        &&& new.regions() == self.regions()
        &&& new.watched() == self.watched()
        &&& if self.access(p) == AccessLevels::ReadWrite {
            &&& new.cells() == self.cells().update(p as int, v)
            &&& new.events() == if self.watched().contains(p) {
                self.events().push((p, v))
            } else {
                self.events()
            }
        } else {
            &&& new.cells() == self.cells()
            &&& new.events() == self.events()
        }
    }

    /// A write to a `Read` or `NoAccess` address leaves RAM unchanged, and a `NoAccess` address
    /// reads as 0 whatever is stored there.
    pub proof fn lemma_access_levels(&self, new: &Ram, p: u16, v: u16)
        requires
            self.write_effect(new, p, v),
        ensures
            self.access(p) != AccessLevels::ReadWrite ==> new.cells() == self.cells(),
            self.access(p) == AccessLevels::NoAccess ==> self.read_value(p) == 0 && new.read_value(p)
                == 0,
    {
    }

    fn access_of(&self, position: u16) -> (r: AccessLevels)
        requires
            self.wf(),
        ensures
            r == self.access(position),
    {
        match self.memory_regions.find_region(position) {
            Some(l) => *l,
            None => AccessLevels::ReadWrite,
        }
    }

    /// What the machine reads at `position`: 0 in a `NoAccess` region, else the stored word.
    pub fn read_ram(&self, position: u16) -> (r: u16)
        requires
            self.wf(),
        ensures
            r == self.read_value(position),
    {
        match self.access_of(position) {
            AccessLevels::NoAccess => 0,
            _ => self.ram[position as usize],
        }
    }

    fn is_watched(&self, position: u16) -> (r: bool)
        ensures
            r == self.watched().contains(position),
    {
        let mut i: usize = 0;
        while i < self.watched.len()
            invariant
                i <= self.watched@.len(),
                forall|k: int| 0 <= k < i ==> self.watched@[k] != position,
            decreases self.watched@.len() - i,
        {
            if self.watched[i] == position {
                proof {
                    assert(self.watched@[i as int] == position);
                }
                return true;
            }
            i += 1;
        }
        false
    }

    /// A write by the machine: stored and recorded for a callback in a `ReadWrite` region,
    /// dropped elsewhere.
    pub fn write_ram(&mut self, position: u16, value: u16)
        requires
            old(self).wf(),
        ensures
            final(self).wf(),
            old(self).write_effect(&*final(self), position, value),
    {
        match self.access_of(position) {
            AccessLevels::ReadWrite => {
                self.ram.set(position as usize, value);
                if self.is_watched(position) {
                    self.events.push((position, value));
                }
            },
            _ => {},
        }
    }

    /// Creates RAM holding `ram`.
    pub fn new(ram: Vec<u16>, memory_regions: RegionMap) -> (r: Self)
        requires
            ram@.len() == RAM_LEN,
            memory_regions.wf(),
        ensures
            r.wf(),
            r.cells() == ram@,
            r.regions() == memory_regions@,
            r.watched() == Seq::<u16>::empty(),
            r.events() == Seq::<(u16, u16)>::empty(),
    {
        Self { ram, watched: Vec::new(), events: Vec::new(), memory_regions }
    }

    /// Registers a callback on an address; registering one twice keeps one.
    pub fn register_callback(&mut self, address: u16)
        ensures
            final(self).map_ok() == old(self).map_ok(),
            final(self).cells() == old(self).cells(),
            final(self).regions() == old(self).regions(),
            final(self).events() == old(self).events(),
            forall|p: u16| #[trigger]
                final(self).watched().contains(p) <==> old(self).watched().contains(p) || p
                    == address,
    {
        if !self.is_watched(address) {
            self.watched.push(address);
        }
        proof {
            assert forall|p: u16| #[trigger]
                self.watched().contains(p) <==> old(self).watched().contains(p) || p == address by {
                if old(self).watched().contains(p) {
                    let k = choose|k: int|
                        0 <= k < old(self).watched().len() && old(self).watched()[k] == p;
                    assert(self.watched()[k] == p);
                }
                if p == address && !old(self).watched().contains(p) {
                    assert(self.watched()[old(self).watched().len() as int] == p);
                }
            }
        }
    }

    /// Takes the recorded writes to watched addresses, oldest first.
    pub fn take_events(&mut self) -> (r: Vec<(u16, u16)>)
        ensures
            final(self).map_ok() == old(self).map_ok(),
            r@ == old(self).events(),
            final(self).events() == Seq::<(u16, u16)>::empty(),
            final(self).cells() == old(self).cells(),
            final(self).regions() == old(self).regions(),
            final(self).watched() == old(self).watched(),
    {
        let mut out = Vec::new();
        std::mem::swap(&mut out, &mut self.events);
        out
    }

    /// Stores a word without the access checks and without callbacks.
    pub fn set_ram(&mut self, address: u16, value: u16)
        requires
            old(self).wf(),
        ensures
            final(self).wf(),
            final(self).cells() == old(self).cells().update(address as int, value),
            final(self).regions() == old(self).regions(),
            final(self).watched() == old(self).watched(),
            final(self).events() == old(self).events(),
    {
        self.ram.set(address as usize, value);
    }

    /// Stores `values` from `address` on, without checks; fails when they run past the end of RAM.
    pub fn set_ram_region(&mut self, address: u16, values: &[u16]) -> (r: Result<(), BError>)
        requires
            old(self).wf(),
        ensures
            final(self).wf(),
            r is Ok <==> address as int + values@.len() <= RAM_LEN,
            r matches Err(e) ==> e matches BError::OutOfBoundsError(a, l, n) && a == address && l
                == values@.len() && n == RAM_LEN,
            r is Ok ==> final(self).cells() == old(self).cells().subrange(0, address as int)
                + values@ + old(self).cells().subrange(
                address as int + values@.len(),
                RAM_LEN as int,
            ),
            r is Err ==> final(self).cells() == old(self).cells(),
            final(self).regions() == old(self).regions(),
            final(self).watched() == old(self).watched(),
            final(self).events() == old(self).events(),
    {
        let n = values.len();
        if n > RAM_LEN || address as usize > RAM_LEN - n {
            return Err(BError::OutOfBoundsError(address, n, RAM_LEN));
        }
        let ghost old_cells = self.ram@;
        let mut i: usize = 0;
        while i < n
            invariant
                n == values@.len(),
                address as int + n <= RAM_LEN,
                i <= n,
                self.ram@.len() == RAM_LEN,
                self.memory_regions == old(self).memory_regions,
                self.watched == old(self).watched,
                self.events == old(self).events,
                old_cells == old(self).ram@,
                forall|k: int|
                    0 <= k < RAM_LEN ==> #[trigger] self.ram@[k] == if address <= k < address + i {
                        values@[k - address]
                    } else {
                        old_cells[k]
                    },
            decreases n - i,
        {
            self.ram.set(i + address as usize, values[i]);
            i += 1;
        }
        proof {
            assert(self.ram@ =~= old_cells.subrange(0, address as int) + values@ + old_cells.subrange(
                address as int + n,
                RAM_LEN as int,
            ));
        }
        Ok(())
    }

    /// The words `address .. address + length`, cut off at the end of RAM.
    pub fn get_ram_region(&self, address: u16, length: usize) -> (r: &[u16])
        ensures
            r@ == clamped_range(self.cells(), address as int, length as int),
    {
        clamped_slice(self.ram.as_slice(), address, length)
    }
}

/// The registers and RAM (the program counter excepted).
pub struct MemoryUnit {
    a: u16,
    d: u16,
    e: u16,
    f: u16,
    g: u16,
    h: u16,
    ram: Ram,
}

impl MemoryUnit {
    /// The latches `A, D, E, F, G, H`, in that order.
    pub closed spec fn regs(&self) -> Seq<u16> {
        seq![self.a, self.d, self.e, self.f, self.g, self.h]
    }

    pub closed spec fn ram_spec(&self) -> Ram {
        self.ram
    }

    pub open spec fn wf(&self) -> bool {
        self.ram_spec().wf() && self.regs().len() == 6
    }

    /// The value that reading `reg` gives.
    pub open spec fn reg_value(&self, reg: Register) -> u16 {
        match reg {
            Register::NoReg => 0,
            Register::A => self.regs()[0],
            Register::MA => self.ram_spec().read_value(self.regs()[0]),
            Register::D => self.regs()[1],
            Register::E => self.regs()[2],
            Register::F => self.regs()[3],
            Register::G => self.regs()[4],
            Register::H => self.regs()[5],
        }
    }

    /// The index of a latch in `regs`, if `reg` is one.
    pub open spec fn latch_index(reg: Register) -> Option<int> {
        match reg {
            Register::A => Some(0),
            Register::D => Some(1),
            Register::E => Some(2),
            Register::F => Some(3),
            Register::G => Some(4),
            Register::H => Some(5),
            _ => None,
        }
    }

    /// `new` is this unit after `value` was written to `reg`.
    pub open spec fn set_effect(&self, new: &MemoryUnit, reg: Register, value: u16) -> bool {
        match reg {
            Register::NoReg => new.regs() == self.regs() && new.ram_spec() == self.ram_spec(),
            Register::MA => new.regs() == self.regs() && self.ram_spec().write_effect(
                &new.ram_spec(),
                self.regs()[0],
                value,
            ),
            _ => new.regs() == self.regs().update(MemoryUnit::latch_index(reg).unwrap(), value)
                && new.ram_spec() == self.ram_spec(),
        }
    }

    /// The value currently in `reg`.
    pub fn get_reg(&self, reg: Register) -> (r: u16)
        requires
            self.wf(),
        ensures
            r == self.reg_value(reg),
    {
        match reg {
            Register::NoReg => 0,
            Register::A => self.a,
            Register::MA => self.ram.read_ram(self.a),
            Register::D => self.d,
            Register::E => self.e,
            Register::F => self.f,
            Register::G => self.g,
            Register::H => self.h,
        }
    }

    /// Writes `value` to `reg`; `*A` goes through the access levels of RAM.
    pub fn set_reg(&mut self, reg: Register, value: u16)
        requires
            old(self).wf(),
        ensures
            final(self).wf(),
            old(self).set_effect(&*final(self), reg, value),
    {
        match reg {
            Register::NoReg => {},
            Register::A => self.a = value,
            Register::MA => self.ram.write_ram(self.a, value),
            Register::D => self.d = value,
            Register::E => self.e = value,
            Register::F => self.f = value,
            Register::G => self.g = value,
            Register::H => self.h = value,
        }
        proof {
            assert(self.regs() =~= old(self).regs().update(
                MemoryUnit::latch_index(reg).unwrap_or(0),
                self.regs()[MemoryUnit::latch_index(reg).unwrap_or(0)],
            ));
        }
    }

    /// Creates a memory unit; fails when the regions overlap or have `start > end`.
    pub fn new(
        a: u16,
        d: u16,
        e: u16,
        f: u16,
        g: u16,
        h: u16,
        ram: Vec<u16>,
        regions: Vec<Region>,
    ) -> (r: Result<Self, BError>)
        requires
            ram@.len() == RAM_LEN,
        ensures
            r is Ok <==> regions_valid(regions@),
            r matches Err(e) ==> e is MapError,
            r matches Ok(m) ==> {
                &&& m.wf()
                &&& m.regs() == seq![a, d, e, f, g, h]
                &&& m.ram_spec().cells() == ram@
                &&& m.ram_spec().regions() == regions@
                &&& m.ram_spec().watched() == Seq::<u16>::empty()
                &&& m.ram_spec().events() == Seq::<(u16, u16)>::empty()
            },
    {
        let map = RegionMap::try_from(regions)?;
        Ok(Self { a, d, e, f, g, h, ram: Ram::new(ram, map) })
    }

    /// Registers a callback on the writes to an address of RAM.
    pub fn register_callback(&mut self, address: u16)
        ensures
            final(self).ram_spec().map_ok() == old(self).ram_spec().map_ok(),
            final(self).regs() == old(self).regs(),
            final(self).ram_spec().cells() == old(self).ram_spec().cells(),
            final(self).ram_spec().regions() == old(self).ram_spec().regions(),
            final(self).ram_spec().events() == old(self).ram_spec().events(),
            forall|p: u16| #[trigger]
                final(self).ram_spec().watched().contains(p) <==> old(
                    self,
                ).ram_spec().watched().contains(p) || p == address,
    {
        self.ram.register_callback(address);
    }

    /// Stores a word in RAM without the access checks and without callbacks.
    pub fn set_ram(&mut self, address: u16, value: u16)
        requires
            old(self).wf(),
        ensures
            final(self).wf(),
            final(self).regs() == old(self).regs(),
            final(self).ram_spec().cells() == old(self).ram_spec().cells().update(
                address as int,
                value,
            ),
            final(self).ram_spec().regions() == old(self).ram_spec().regions(),
            final(self).ram_spec().watched() == old(self).ram_spec().watched(),
            final(self).ram_spec().events() == old(self).ram_spec().events(),
    {
        self.ram.set_ram(address, value);
    }

    /// All latches at once: `(A, D, E, F, G, H)`.
    pub fn get_regs(&self) -> (r: (u16, u16, u16, u16, u16, u16))
        ensures
            seq![r.0, r.1, r.2, r.3, r.4, r.5] == self.regs(),
    {
        (self.a, self.d, self.e, self.f, self.g, self.h)
    }

    /// The words of RAM `address .. address + length`, cut off at the end of RAM.
    pub fn get_ram_region(&self, address: u16, length: usize) -> (r: &[u16])
        ensures
            r@ == clamped_range(self.ram_spec().cells(), address as int, length as int),
    {
        self.ram.get_ram_region(address, length)
    }

    /// Takes the recorded writes to watched addresses.
    pub fn take_events(&mut self) -> (r: Vec<(u16, u16)>)
        ensures
            final(self).ram_spec().map_ok() == old(self).ram_spec().map_ok(),
            r@ == old(self).ram_spec().events(),
            final(self).ram_spec().events() == Seq::<(u16, u16)>::empty(),
            final(self).ram_spec().cells() == old(self).ram_spec().cells(),
            final(self).ram_spec().regions() == old(self).ram_spec().regions(),
            final(self).ram_spec().watched() == old(self).ram_spec().watched(),
            final(self).regs() == old(self).regs(),
    {
        self.ram.take_events()
    }
}


/// The initial state of a machine: program counter, ROM, RAM, latches, ROM-to-RAM copies
/// `(rom_address, length, ram_address)`, read-only RAM blocks `(ram_address, length)` and
/// the RAM addresses that have a callback.
#[derive(Debug)]
pub struct VmDescription {
    pub pc: u16,
    pub rom: Vec<u16>,
    pub mem: Vec<u16>,
    pub callbacks: Vec<u16>,
    pub rom_mappings: Vec<(u16, u16, u16)>,
    pub regs: [u16; 6],
    pub rom_blocks: Vec<(u16, u16)>,
}

impl VmDescription {
    pub open spec fn wf(&self) -> bool {
        self.mem@.len() == RAM_LEN
    }
}

impl Default for VmDescription {
    fn default() -> (r: Self)
        ensures
            r.pc == 0,
            r.rom@ == Seq::<u16>::empty(),
            r.mem@ == Seq::new(RAM_LEN as nat, |i: int| 0u16),
            r.callbacks@ == Seq::<u16>::empty(),
            r.rom_mappings@ == Seq::<(u16, u16, u16)>::empty(),
            r.regs@ == seq![0u16, 0u16, 0u16, 0u16, 0u16, 0u16],
            r.rom_blocks@ == Seq::<(u16, u16)>::empty(),
            r.wf(),
    {
        let mem = vec![0u16; RAM_LEN];
        proof {
            assert(mem@ =~= Seq::new(RAM_LEN as nat, |i: int| 0u16));
        }
        let regs: [u16; 6] = [0, 0, 0, 0, 0, 0];
        proof {
            assert(regs@ =~= seq![0u16, 0u16, 0u16, 0u16, 0u16, 0u16]);
        }
        VmDescription {
            pc: 0,
            rom: Vec::new(),
            mem,
            callbacks: Vec::new(),
            rom_mappings: Vec::new(),
            regs,
            rom_blocks: Vec::new(),
        }
    }
}

/// The read-only regions of spans `(start, length)`: `[start, start + length - 1]` for each
/// span that is not empty.
pub open spec fn span_regions(spans: Seq<(u16, u16)>) -> Seq<Region>
    decreases spans.len(),
{
    if spans.len() == 0 {
        Seq::empty()
    } else {
        let p = span_regions(spans.drop_last());
        let (start, length) = spans.last();
        if length == 0 {
            p
        } else {
            p.push(Region { start, end: (start + length - 1) as u16, label: AccessLevels::Read })
        }
    }
}

/// The RAM spans `(ram_address, length)` of ROM-to-RAM copies.
pub open spec fn map_spans(maps: Seq<(u16, u16, u16)>) -> Seq<(u16, u16)> {
    Seq::new(maps.len(), |i: int| (maps[i].2, maps[i].1))
}

/// A copy fits into RAM and takes words that ROM has.
pub open spec fn mapping_fits(rom_len: int, m: (u16, u16, u16)) -> bool {
    m.2 + m.1 <= RAM_LEN && (m.1 == 0 || m.0 + m.1 <= rom_len)
}

/// RAM after the copies `maps` were made in order.
pub open spec fn mapped_ram(mem: Seq<u16>, rom: Seq<u16>, maps: Seq<(u16, u16, u16)>) -> Seq<u16>
    decreases maps.len(),
{
    if maps.len() == 0 {
        mem
    } else {
        let prev = mapped_ram(mem, rom, maps.drop_last());
        let m = maps.last();
        Seq::new(
            prev.len(),
            |k: int|
                if m.2 <= k < m.2 + m.1 {
                    rom[m.0 + k - m.2]
                } else {
                    prev[k]
                },
        )
    }
}

/// The access regions that copies and blocks leave: copies first, then blocks.
pub open spec fn setup_regions(maps: Seq<(u16, u16, u16)>, blocks: Seq<(u16, u16)>) -> Seq<Region> {
    span_regions(map_spans(maps) + blocks)
}

/// Copy `i` is the first one that does not fit.
pub open spec fn first_bad_mapping(rom_len: int, maps: Seq<(u16, u16, u16)>, i: int) -> bool {
    &&& 0 <= i < maps.len()
    &&& !mapping_fits(rom_len, maps[i])
    &&& forall|k: int| 0 <= k < i ==> mapping_fits(rom_len, #[trigger] maps[k])
}

/// Block `j` is the first one that runs past the end of RAM.
pub open spec fn first_bad_block(blocks: Seq<(u16, u16)>, j: int) -> bool {
    &&& 0 <= j < blocks.len()
    &&& blocks[j].0 + blocks[j].1 > RAM_LEN
    &&& forall|k: int| 0 <= k < j ==> #[trigger] blocks[k].0 + blocks[k].1 <= RAM_LEN
}

/// The error that building a machine gives: for the first copy that does not fit, an
/// out-of-bounds error (address, length, RAM size) when it runs past RAM, else a map error;
/// then for the first block past RAM an out-of-bounds error; else a map error for overlapping
/// regions.
pub open spec fn setup_error(rom_len: int, maps: Seq<(u16, u16, u16)>, blocks: Seq<(u16, u16)>, e: BError) -> bool {
    if exists|i: int| first_bad_mapping(rom_len, maps, i) {
        let i = choose|i: int| first_bad_mapping(rom_len, maps, i);
        if maps[i].2 + maps[i].1 > RAM_LEN {
            e matches BError::OutOfBoundsError(a, l, n) && a == maps[i].2 && l == maps[i].1 && n == RAM_LEN
        } else {
            e is MapError
        }
    } else if exists|j: int| first_bad_block(blocks, j) {
        let j = choose|j: int| first_bad_block(blocks, j);
        e matches BError::OutOfBoundsError(a, l, n) && a == blocks[j].0 && l == blocks[j].1 && n == RAM_LEN
    } else {
        e is MapError
    }
}

/// The copies fit, the blocks fit and the regions they leave do not overlap.
pub open spec fn setup_ok(rom_len: int, maps: Seq<(u16, u16, u16)>, blocks: Seq<(u16, u16)>) -> bool {
    &&& forall|i: int| 0 <= i < maps.len() ==> mapping_fits(rom_len, #[trigger] maps[i])
    &&& forall|i: int| 0 <= i < blocks.len() ==> #[trigger] blocks[i].0 + blocks[i].1 <= RAM_LEN
    &&& regions_valid(setup_regions(maps, blocks))
}

/// The access regions of a machine built from `d`.
pub open spec fn description_regions(d: &VmDescription) -> Seq<Region> {
    setup_regions(d.rom_mappings@, d.rom_blocks@)
}

/// A machine can be built from `d`.
pub open spec fn description_ok(d: &VmDescription) -> bool {
    setup_ok(d.rom@.len() as int, d.rom_mappings@, d.rom_blocks@)
}

/// `pc + 1` modulo 2^16.
pub open spec fn next_pc(pc: u16) -> u16 {
    ((pc + 1) % 0x10000) as u16
}

/// The program counter counts modulo 2^16: after `0xffff` comes 0.
pub proof fn lemma_pc_wraps(pc: u16)
    ensures
        next_pc(pc) == if pc == 0xffff {
            0u16
        } else {
            (pc + 1) as u16
        },
{
}

/// The operands `(x, y)` that an ALU word reads from `m`.
pub open spec fn operands(m: MemoryUnit, w: u16) -> (u16, u16) {
    let src = Register::of_code(field_of(w, 12));
    let xr = if bit_of(w, 7) {
        Register::A
    } else {
        src
    };
    let yr = if bit_of(w, 7) {
        src
    } else {
        Register::A
    };
    let x = if bit_of(w, 6) {
        0
    } else {
        m.reg_value(xr)
    };
    (x, m.reg_value(yr))
}

/// The result of ALU word `w` on `m`, if its operation is in the table.
pub open spec fn alu_output(m: MemoryUnit, w: u16) -> Option<u16> {
    let (x, y) = operands(m, w);
    alu_result(bit_of(w, 11), field_of(w, 8), x, y)
}

/// The machine went from `old` to `new` by one cycle that returned `r`.
pub open spec fn cycle_effect(old: &Vm, new: &Vm, r: Result<(), BError>) -> bool {
    let pc = old.pc_spec();
    let rom = old.rom_spec();
    let m = old.mem_spec();
    &&& new.rom_spec() == rom
    &&& if pc >= rom.len() {
        &&& r matches Err(BError::ExecutionHaltedError { value }) && value == pc
        &&& new.pc_spec() == pc
        &&& new.mem_spec() == m
    } else {
        let w = rom[pc as int];
        match decode(w) {
            Instruction::Data(v) => {
                &&& r is Ok
                &&& new.pc_spec() == next_pc(pc)
                &&& new.mem_spec().regs() == m.regs().update(0, v)
                &&& new.mem_spec().ram_spec() == m.ram_spec()
            },
            Instruction::Alu(_) => match alu_output(m, w) {
                None => {
                    &&& r matches Err(BError::InvalidInstructionError { instruction })
                        && instruction == w
                    &&& new.pc_spec() == pc
                    &&& new.mem_spec() == m
                },
                Some(out) => {
                    &&& r is Ok
                    &&& new.pc_spec() == if branch_taken(out, w) {
                        m.regs()[0]
                    } else {
                        next_pc(pc)
                    }
                    &&& m.set_effect(&new.mem_spec(), Register::of_code(field_of(w, 3)), out)
                },
            },
        }
    }
}

proof fn lemma_first_bad_mapping(rom_len: int, maps: Seq<(u16, u16, u16)>, i: int)
    requires
        first_bad_mapping(rom_len, maps, i),
    ensures
        forall|j: int| #[trigger] first_bad_mapping(rom_len, maps, j) ==> j == i,
{
    assert forall|j: int| #[trigger] first_bad_mapping(rom_len, maps, j) implies j == i by {
        if j < i {
            assert(mapping_fits(rom_len, maps[j]));
        }
        if i < j {
            assert(mapping_fits(rom_len, maps[i]));
        }
    }
}

proof fn lemma_first_bad_block(blocks: Seq<(u16, u16)>, i: int)
    requires
        first_bad_block(blocks, i),
    ensures
        forall|j: int| #[trigger] first_bad_block(blocks, j) ==> j == i,
{
    assert forall|j: int| #[trigger] first_bad_block(blocks, j) implies j == i by {
        if j < i {
            assert(blocks[j].0 + blocks[j].1 <= RAM_LEN);
        }
        if i < j {
            assert(blocks[i].0 + blocks[i].1 <= RAM_LEN);
        }
    }
}

proof fn lemma_no_bad_mapping(rom_len: int, maps: Seq<(u16, u16, u16)>)
    requires
        forall|i: int| 0 <= i < maps.len() ==> mapping_fits(rom_len, #[trigger] maps[i]),
    ensures
        !exists|i: int| first_bad_mapping(rom_len, maps, i),
{
}

proof fn lemma_no_bad_block(blocks: Seq<(u16, u16)>)
    requires
        forall|i: int| 0 <= i < blocks.len() ==> #[trigger] blocks[i].0 + blocks[i].1 <= RAM_LEN,
    ensures
        !exists|j: int| first_bad_block(blocks, j),
{
}

/// The machine: program counter, ROM, registers and RAM.
pub struct Vm {
    pc: Pc,
    rom: Rom,
    mem: MemoryUnit,
}

impl Vm {
    pub closed spec fn pc_spec(&self) -> u16 {
        self.pc@
    }

    pub closed spec fn rom_spec(&self) -> Seq<u16> {
        self.rom@
    }

    pub closed spec fn mem_spec(&self) -> MemoryUnit {
        self.mem
    }

    pub open spec fn wf(&self) -> bool {
        self.mem_spec().wf()
    }

    /// Builds a machine from a description: copies ROM into RAM as the mappings say, makes
    /// the copies and the blocks read-only and registers the callbacks.
    pub fn new(description: VmDescription) -> (r: Result<Self, BError>)
        requires
            description.wf(),
        ensures
            r is Ok <==> description_ok(&description),
            r matches Err(e) ==> setup_error(
                description.rom@.len() as int,
                description.rom_mappings@,
                description.rom_blocks@,
                e,
            ),
            r matches Ok(vm) ==> {
                &&& vm.wf()
                &&& vm.pc_spec() == description.pc
                &&& vm.rom_spec() == description.rom@
                &&& vm.mem_spec().regs() == description.regs@
                &&& vm.mem_spec().ram_spec().cells() == mapped_ram(
                    description.mem@,
                    description.rom@,
                    description.rom_mappings@,
                )
                &&& vm.mem_spec().ram_spec().regions() == description_regions(&description)
                &&& vm.mem_spec().ram_spec().events() == Seq::<(u16, u16)>::empty()
                &&& forall|p: u16| #[trigger]
                    vm.mem_spec().ram_spec().watched().contains(p)
                        <==> description.callbacks@.contains(p)
            },
    {
        let ghost d = description;
        let mut ram = description.mem;
        let rom = description.rom;
        let rom_mappings = description.rom_mappings;
        let rom_blocks = description.rom_blocks;
        let callbacks = description.callbacks;
        let regs = description.regs;
        let pc = description.pc;
        let mut regions: Vec<Region> = Vec::new();
        let nm = rom_mappings.len();
        let ghost spans = map_spans(d.rom_mappings@) + d.rom_blocks@;
        let mut idx: usize = 0;
        proof {
            assert(spans.take(0) =~= Seq::<(u16, u16)>::empty());
        }
        while idx < nm
            invariant
                d == description,
                nm == rom_mappings@.len(),
                idx <= nm,
                rom_mappings@ == d.rom_mappings@,
                rom@ == d.rom@,
                ram@.len() == RAM_LEN,
                ram@ == mapped_ram(d.mem@, rom@, rom_mappings@.take(idx as int)),
                spans == map_spans(d.rom_mappings@) + d.rom_blocks@,
                regions@ == span_regions(spans.take(idx as int)),
                forall|i: int| 0 <= i < idx ==> mapping_fits(rom@.len() as int, #[trigger] rom_mappings@[i]),
            decreases nm - idx,
        {
            let (source_low, length, addr) = rom_mappings[idx];
            let sl = source_low as usize;
            let ad = addr as usize;
            let ln = length as usize;
            proof {
                assert(d.rom_mappings@[idx as int] == (source_low, length, addr));
            }
            if ad + ln > RAM_LEN {
                proof {
                    assert(!mapping_fits(d.rom@.len() as int, d.rom_mappings@[idx as int]));
                    assert(!description_ok(&d));
                    lemma_first_bad_mapping(d.rom@.len() as int, d.rom_mappings@, idx as int);
                }
                return Err(BError::OutOfBoundsError(addr, ln, RAM_LEN));
            }
            if ln > 0 && sl + ln > rom.len() {
                proof {
                    assert(!mapping_fits(d.rom@.len() as int, d.rom_mappings@[idx as int]));
                    assert(!description_ok(&d));
                    lemma_first_bad_mapping(d.rom@.len() as int, d.rom_mappings@, idx as int);
                }
                return Err(BError::MapError(String::from_str("a mapping reaches past the end of ROM")));
            }
            let ghost prev = ram@;
            proof {
                assert(rom_mappings@.take(idx as int + 1).drop_last() =~= rom_mappings@.take(idx as int));
                assert(rom_mappings@.take(idx as int + 1).last() == rom_mappings@[idx as int]);
            }
            let mut i: usize = 0;
            while i < ln
                invariant
                    i <= ln,
                    ad + ln <= RAM_LEN,
                    sl <= 0xffff,
                    ln <= 0xffff,
                    ln > 0 ==> sl + ln <= rom@.len(),
                    ram@.len() == RAM_LEN,
                    prev.len() == RAM_LEN,
                    forall|k: int|
                        0 <= k < RAM_LEN ==> #[trigger] ram@[k] == if ad <= k < ad + i {
                            rom@[sl + k - ad]
                        } else {
                            prev[k]
                        },
                decreases ln - i,
            {
                ram.set(ad + i, rom[sl + i]);
                i += 1;
            }
            proof {
                let mm = rom_mappings@[idx as int];
                assert(mm == (source_low, length, addr));
                assert(ram@ =~= mapped_ram(d.mem@, rom@, rom_mappings@.take(idx as int + 1)));
            }
            proof {
                assert(spans.take(idx as int + 1).drop_last() =~= spans.take(idx as int));
                assert(spans.take(idx as int + 1).last() == (addr, length));
            }
            if ln > 0 {
                regions.push(Region::new(addr, (ad + ln - 1) as u16, AccessLevels::Read));
            }
            proof {
                assert(regions@ =~= span_regions(spans.take(idx as int + 1)));
            }
            idx += 1;
        }
        proof {
            assert(rom_mappings@.take(nm as int) =~= rom_mappings@);
        }
        let nb = rom_blocks.len();
        let mut idx: usize = 0;
        while idx < nb
            invariant
                d == description,
                nb == rom_blocks@.len(),
                nm == rom_mappings@.len(),
                idx <= nb,
                rom_blocks@ == d.rom_blocks@,
                rom_mappings@ == d.rom_mappings@,
                rom@ == d.rom@,
                forall|i: int| 0 <= i < nm ==> mapping_fits(rom@.len() as int, #[trigger] rom_mappings@[i]),
                spans == map_spans(d.rom_mappings@) + d.rom_blocks@,
                regions@ == span_regions(spans.take(nm + idx)),
                forall|i: int| 0 <= i < idx ==> #[trigger] rom_blocks@[i].0 + rom_blocks@[i].1 <= RAM_LEN,
            decreases nb - idx,
        {
            let (addr, length) = rom_blocks[idx];
            let start = addr as usize;
            let end = start + length as usize;
            if end > RAM_LEN {
                proof {
                    assert(d.rom_blocks@[idx as int] == (addr, length));
                    assert(!description_ok(&d));
                    lemma_no_bad_mapping(d.rom@.len() as int, d.rom_mappings@);
                    assert(first_bad_block(d.rom_blocks@, idx as int));
                    lemma_first_bad_block(d.rom_blocks@, idx as int);
                    assert(!exists|i: int| first_bad_mapping(d.rom@.len() as int, d.rom_mappings@, i));
                    let j = choose|j: int| first_bad_block(d.rom_blocks@, j);
                    assert(j == idx);
                    assert(setup_error(d.rom@.len() as int, d.rom_mappings@, d.rom_blocks@, BError::OutOfBoundsError(addr, length as usize, RAM_LEN)));
                }
                return Err(BError::OutOfBoundsError(addr, length as usize, RAM_LEN));
            }
            proof {
                assert(spans.take(nm + idx + 1).drop_last() =~= spans.take(nm + idx));
                assert(spans.take(nm + idx + 1).last() == (addr, length));
            }
            if length > 0 {
                regions.push(Region::new(addr, (end - 1) as u16, AccessLevels::Read));
            }
            proof {
                assert(regions@ =~= span_regions(spans.take(nm + idx + 1)));
            }
            idx += 1;
        }
        proof {
            assert(spans.take(nm + nb) =~= spans);
            assert(regions@ =~= description_regions(&d));
            if !regions_valid(regions@) {
                lemma_no_bad_mapping(d.rom@.len() as int, d.rom_mappings@);
                lemma_no_bad_block(d.rom_blocks@);
            }
        }
        let mut mem = MemoryUnit::new(
            regs[0],
            regs[1],
            regs[2],
            regs[3],
            regs[4],
            regs[5],
            ram,
            regions,
        )?;
        proof {
            assert(mem.regs() =~= d.regs@);
        }
        let nc = callbacks.len();
        let mut idx: usize = 0;
        while idx < nc
            invariant
                nc == callbacks@.len(),
                idx <= nc,
                callbacks@ == d.callbacks@,
                mem.wf(),
                mem.regs() == d.regs@,
                mem.ram_spec().cells() == mapped_ram(d.mem@, d.rom@, d.rom_mappings@),
                mem.ram_spec().regions() == description_regions(&d),
                mem.ram_spec().events() == Seq::<(u16, u16)>::empty(),
                forall|p: u16| #[trigger]
                    mem.ram_spec().watched().contains(p) <==> callbacks@.take(idx as int).contains(p),
            decreases nc - idx,
        {
            mem.register_callback(callbacks[idx]);
            proof {
                assert forall|p: u16| #[trigger]
                    mem.ram_spec().watched().contains(p) <==> callbacks@.take(idx as int + 1).contains(p) by {
                    let t0 = callbacks@.take(idx as int);
                    let t1 = callbacks@.take(idx as int + 1);
                    if t0.contains(p) {
                        let k = choose|k: int| 0 <= k < t0.len() && t0[k] == p;
                        assert(t1[k] == p);
                    }
                    if t1.contains(p) {
                        let k = choose|k: int| 0 <= k < t1.len() && t1[k] == p;
                        if k < idx {
                            assert(t0[k] == p);
                        }
                    }
                    assert(t1[idx as int] == callbacks@[idx as int]);
                }
            }
            idx += 1;
        }
        proof {
            assert(callbacks@.take(nc as int) =~= callbacks@);
        }
        Ok(Vm { pc: Pc::new(pc), rom: Rom::new(rom), mem })
    }

    /// Runs one cycle: fetches the word at PC, executes it and advances PC.
    /// Fails with `ExecutionHaltedError` when PC points past the end of ROM.
    pub fn cycle(&mut self) -> (r: Result<(), BError>)
        requires
            old(self).wf(),
        ensures
            final(self).wf(),
            cycle_effect(&*old(self), &*final(self), r),
    {
        let pcval = self.pc.get_val();
        match self.rom.get_address(pcval) {
            None => Err(BError::ExecutionHaltedError { value: pcval }),
            Some(inst) => self.interpret_instruction(inst),
        }
    }

    fn interpret_instruction(&mut self, instruction: u16) -> (r: Result<(), BError>)
        requires
            old(self).wf(),
            old(self).pc_spec() < old(self).rom_spec().len(),
            old(self).rom_spec()[old(self).pc_spec() as int] == instruction,
        ensures
            final(self).wf(),
            cycle_effect(&*old(self), &*final(self), r),
    {
        match Instruction::from_u16(instruction) {
            Instruction::Alu(inst) => {
                let source = Register::try_from_code(inst.get_source())?;
                let (x, y) = if inst.get_sw() {
                    (Register::A, source)
                } else {
                    (source, Register::A)
                };
                let target = Register::try_from_code(inst.get_target())?;
                let x = if inst.get_zx() {
                    0
                } else {
                    self.mem.get_reg(x)
                };
                let y = self.mem.get_reg(y);
                let output = match alu_compute(inst.get_u(), inst.get_op(), x, y) {
                    Some(o) => o,
                    None => {
                        return Err(BError::InvalidInstructionError { instruction });
                    },
                };
                let lt = output >= 0x8000;
                let gt = output > 0 && output < 0x8000;
                let eq = output == 0;
                if (lt && inst.get_lt()) || (gt && inst.get_gt()) || (eq && inst.get_eq()) {
                    // the increment below brings PC to A
                    let a = self.mem.get_reg(Register::A);
                    self.pc.set(
                        if a == 0 {
                            0xffff
                        } else {
                            a - 1
                        },
                    );
                }
                self.mem.set_reg(target, output);
            },
            Instruction::Data(val) => {
                self.mem.set_reg(Register::A, val);
            },
        }
        self.pc.inc();
        Ok(())
    }

    /// The description of the current state: PC, ROM, RAM and latches, with no copies,
    /// blocks or callbacks.
    pub fn to_vm_desc(&self) -> (r: VmDescription)
        requires
            self.wf(),
        ensures
            r.wf(),
            r.pc == self.pc_spec(),
            r.rom@ == self.rom_spec(),
            r.mem@ == self.mem_spec().ram_spec().cells(),
            r.callbacks@ == Seq::<u16>::empty(),
            r.rom_mappings@ == Seq::<(u16, u16, u16)>::empty(),
            r.regs@ == self.mem_spec().regs(),
            r.rom_blocks@ == Seq::<(u16, u16)>::empty(),
    {
        let rom = self.rom.program_text.clone();
        proof {
            assert(rom@ =~= self.rom.program_text@);
        }
        let mem = self.mem.ram.ram.clone();
        proof {
            assert(mem@ =~= self.mem.ram.ram@);
        }
        let (a, d, e, f, g, h) = self.mem.get_regs();
        let regs: [u16; 6] = [a, d, e, f, g, h];
        proof {
            assert(regs@ =~= self.mem_spec().regs());
        }
        VmDescription {
            pc: self.pc.get_val(),
            rom,
            mem,
            callbacks: Vec::new(),
            rom_mappings: Vec::new(),
            regs,
            rom_blocks: Vec::new(),
        }
    }

    /// Stores a word in RAM without the access checks and without callbacks.
    pub fn set_ram(&mut self, address: u16, value: u16)
        requires
            old(self).wf(),
        ensures
            final(self).wf(),
            final(self).pc_spec() == old(self).pc_spec(),
            final(self).rom_spec() == old(self).rom_spec(),
            final(self).mem_spec().regs() == old(self).mem_spec().regs(),
            final(self).mem_spec().ram_spec().cells() == old(self).mem_spec().ram_spec().cells().update(
                address as int,
                value,
            ),
            final(self).mem_spec().ram_spec().regions() == old(self).mem_spec().ram_spec().regions(),
            final(self).mem_spec().ram_spec().watched() == old(self).mem_spec().ram_spec().watched(),
            final(self).mem_spec().ram_spec().events() == old(self).mem_spec().ram_spec().events(),
    {
        self.mem.set_ram(address, value);
    }

    /// All latches at once: `(A, D, E, F, G, H)`.
    pub fn get_regs(&self) -> (r: (u16, u16, u16, u16, u16, u16))
        ensures
            seq![r.0, r.1, r.2, r.3, r.4, r.5] == self.mem_spec().regs(),
    {
        self.mem.get_regs()
    }

    /// Writes `val` to `reg`; `*A` goes through the access levels of RAM.
    pub fn set_reg(&mut self, reg: Register, val: u16)
        requires
            old(self).wf(),
        ensures
            final(self).wf(),
            final(self).pc_spec() == old(self).pc_spec(),
            final(self).rom_spec() == old(self).rom_spec(),
            old(self).mem_spec().set_effect(&final(self).mem_spec(), reg, val),
    {
        self.mem.set_reg(reg, val);
    }

    /// The value currently in `reg`.
    pub fn get_reg(&self, reg: Register) -> (r: u16)
        requires
            self.wf(),
        ensures
            r == self.mem_spec().reg_value(reg),
    {
        self.mem.get_reg(reg)
    }

    /// The words of RAM `address .. address + length`, cut off at the end of RAM.
    pub fn get_ram_region(&self, address: u16, length: usize) -> (r: &[u16])
        ensures
            r@ == clamped_range(self.mem_spec().ram_spec().cells(), address as int, length as int),
    {
        self.mem.get_ram_region(address, length)
    }

    /// The words of ROM `address .. address + length`, cut off at the end of ROM.
    pub fn get_rom_region(&self, address: u16, length: usize) -> (r: &[u16])
        ensures
            r@ == clamped_range(self.rom_spec(), address as int, length as int),
    {
        self.rom.get_rom_region(address, length)
    }

    pub fn set_pc(&mut self, new: u16)
        ensures
            final(self).pc_spec() == new,
            final(self).rom_spec() == old(self).rom_spec(),
            final(self).mem_spec() == old(self).mem_spec(),
    {
        self.pc.set(new);
    }

    pub fn get_pc(&self) -> (r: u16)
        ensures
            r == self.pc_spec(),
    {
        self.pc.get_val()
    }

    /// Registers a callback on the writes to an address of RAM.
    pub fn register_callback(&mut self, address: u16)
        requires
            old(self).wf(),
        ensures
            final(self).wf(),
            final(self).pc_spec() == old(self).pc_spec(),
            final(self).rom_spec() == old(self).rom_spec(),
            final(self).mem_spec().regs() == old(self).mem_spec().regs(),
            final(self).mem_spec().ram_spec().cells() == old(self).mem_spec().ram_spec().cells(),
            final(self).mem_spec().ram_spec().regions() == old(self).mem_spec().ram_spec().regions(),
            final(self).mem_spec().ram_spec().events() == old(self).mem_spec().ram_spec().events(),
            forall|p: u16| #[trigger]
                final(self).mem_spec().ram_spec().watched().contains(p) <==> old(
                    self,
                ).mem_spec().ram_spec().watched().contains(p) || p == address,
    {
        self.mem.register_callback(address);
    }

    /// Takes the writes to addresses with a callback, oldest first, for the callbacks to run on.
    pub fn take_write_events(&mut self) -> (r: Vec<(u16, u16)>)
        requires
            old(self).wf(),
        ensures
            final(self).wf(),
            r@ == old(self).mem_spec().ram_spec().events(),
            final(self).mem_spec().ram_spec().events() == Seq::<(u16, u16)>::empty(),
            final(self).mem_spec().ram_spec().cells() == old(self).mem_spec().ram_spec().cells(),
            final(self).mem_spec().ram_spec().regions() == old(self).mem_spec().ram_spec().regions(),
            final(self).mem_spec().ram_spec().watched() == old(self).mem_spec().ram_spec().watched(),
            final(self).mem_spec().regs() == old(self).mem_spec().regs(),
            final(self).pc_spec() == old(self).pc_spec(),
            final(self).rom_spec() == old(self).rom_spec(),
    {
        self.mem.take_events()
    }
}

} // verus!
