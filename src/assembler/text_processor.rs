//! The text pass: turns the lines of the `[text]` section into words of ROM and collects the
//! places where labels are defined and used.
use vstd::prelude::*;

use crate::text::{
    append_chars, is_name, is_name_exec, lines_of, split_chars, split_lines, split_on,
    starts_with, starts_with_exec, trim, trim_chars,
};
use crate::util::{chars_of, literal_chars_to_u16, literal_value, literal_word, string_of, BError};
use crate::vm::{alu_word, branch_taken, flag_eq, flag_gt, flag_lt, lemma_alu_word_fields, AluInstruction, Register};

verus! {

/// Jump conditions.
#[derive(Debug, Clone, Copy, PartialEq, Eq, Structural)]
pub enum Jumps {
    NoJump,
    Jlt,
    Jeq,
    Jgt,
    Jle,
    Jge,
    Jmp,
    Jne,
}

impl Jumps {
    /// The flags `(lt, eq, gt)` that the condition branches on.
    pub open spec fn bits(self) -> (bool, bool, bool) {
        match self {
            Jumps::NoJump => (false, false, false),
            Jumps::Jlt => (true, false, false),
            Jumps::Jeq => (false, true, false),
            Jumps::Jgt => (false, false, true),
            Jumps::Jle => (true, true, false),
            Jumps::Jge => (false, true, true),
            Jumps::Jmp => (true, true, true),
            Jumps::Jne => (true, false, true),
        }
    }

    /// The condition that assembly text names.
    pub open spec fn named(s: Seq<char>) -> Option<Jumps> {
        if s == seq!['J', 'L', 'T'] {
            Some(Jumps::Jlt)
        } else if s == seq!['J', 'E', 'Q'] {
            Some(Jumps::Jeq)
        } else if s == seq!['J', 'G', 'T'] {
            Some(Jumps::Jgt)
        } else if s == seq!['J', 'L', 'E'] {
            Some(Jumps::Jle)
        } else if s == seq!['J', 'G', 'E'] {
            Some(Jumps::Jge)
        } else if s == seq!['J', 'M', 'P'] {
            Some(Jumps::Jmp)
        } else if s == seq!['J', 'N', 'E'] {
            Some(Jumps::Jne)
        } else {
            None
        }
    }

    /// The flags `(lt, eq, gt)` to set in an instruction.
    pub fn flags(&self) -> (r: (bool, bool, bool))
        ensures
            r == self.bits(),
    {
        match self {
            Jumps::NoJump => (false, false, false),
            Jumps::Jlt => (true, false, false),
            Jumps::Jeq => (false, true, false),
            Jumps::Jgt => (false, false, true),
            Jumps::Jle => (true, true, false),
            Jumps::Jge => (false, true, true),
            Jumps::Jmp => (true, true, true),
            Jumps::Jne => (true, false, true),
        }
    }

    pub fn parse_str(input: &[char]) -> (r: Option<Jumps>)
        ensures
            r == Jumps::named(input@),
    {
        if input.len() != 3 || input[0] != 'J' {
            proof {
                if input@.len() == 3 {
                    assert(input@[0] != 'J');
                }
            }
            return None;
        }
        let a = input[1];
        let b = input[2];
        proof {
            assert(input@ =~= seq!['J', a, b]);
        }
        if a == 'L' && b == 'T' {
            Some(Jumps::Jlt)
        } else if a == 'E' && b == 'Q' {
            Some(Jumps::Jeq)
        } else if a == 'G' && b == 'T' {
            Some(Jumps::Jgt)
        } else if a == 'L' && b == 'E' {
            Some(Jumps::Jle)
        } else if a == 'G' && b == 'E' {
            Some(Jumps::Jge)
        } else if a == 'M' && b == 'P' {
            Some(Jumps::Jmp)
        } else if a == 'N' && b == 'E' {
            Some(Jumps::Jne)
        } else {
            None
        }
    }
}

/// An ALU word with jump condition `c` branches on result `out` exactly when one of the flags
/// of `out` (negative, zero, positive) is among those that `c` sets.
pub proof fn lemma_jump_semantics(
    c: Jumps,
    u: bool,
    op: u16,
    source: u16,
    target: u16,
    zx: bool,
    sw: bool,
    out: u16,
)
    requires
        op <= 7,
        source <= 7,
        target <= 7,
    ensures
        branch_taken(out, alu_word(u, op, source, target, zx, sw, c.bits().0, c.bits().1, c.bits().2))
            <==> (flag_lt(out) && c.bits().0) || (flag_eq(out) && c.bits().1) || (flag_gt(out)
            && c.bits().2),
        flag_lt(out) || flag_eq(out) || flag_gt(out),
        !(flag_lt(out) && flag_eq(out)) && !(flag_lt(out) && flag_gt(out)) && !(flag_eq(out)
            && flag_gt(out)),
{
    lemma_alu_word_fields(u, op, source, target, zx, sw, c.bits().0, c.bits().1, c.bits().2);
}

/// The operands the ALU can read as x.
#[derive(Debug, Clone, Copy, PartialEq, Eq, Structural)]
pub enum XOps {
    A,
    MA,
    D,
    E,
    F,
    G,
    H,
    Zero,
}

impl XOps {
    pub open spec fn named(s: Seq<char>) -> Option<XOps> {
        if s == seq!['0'] {
            Some(XOps::Zero)
        } else {
            match Register::named(s) {
                Some(Register::A) => Some(XOps::A),
                Some(Register::MA) => Some(XOps::MA),
                Some(Register::D) => Some(XOps::D),
                Some(Register::E) => Some(XOps::E),
                Some(Register::F) => Some(XOps::F),
                Some(Register::G) => Some(XOps::G),
                Some(Register::H) => Some(XOps::H),
                _ => None,
            }
        }
    }

    /// The source field of the operand (0 for the zero operand, which sets `zx` instead).
    pub open spec fn code(self) -> u16 {
        match self {
            XOps::A => 1,
            XOps::MA => 2,
            XOps::D => 3,
            XOps::E => 4,
            XOps::F => 5,
            XOps::G => 6,
            XOps::H => 7,
            XOps::Zero => 0,
        }
    }

    pub fn from_str(input: &[char]) -> (r: Option<XOps>)
        ensures
            r == XOps::named(input@),
    {
        if input.len() == 1 && input[0] == '0' {
            proof {
                assert(input@ =~= seq!['0']);
            }
            return Some(XOps::Zero);
        }
        proof {
            if input@.len() == 1 {
                assert(input@ != seq!['0']);
            }
        }
        match Register::from_chars(input) {
            Some(Register::A) => Some(XOps::A),
            Some(Register::MA) => Some(XOps::MA),
            Some(Register::D) => Some(XOps::D),
            Some(Register::E) => Some(XOps::E),
            Some(Register::F) => Some(XOps::F),
            Some(Register::G) => Some(XOps::G),
            Some(Register::H) => Some(XOps::H),
            _ => None,
        }
    }

    fn source(&self) -> (r: u16)
        ensures
            r == self.code(),
            r <= 7,
    {
        match self {
            XOps::A => 1,
            XOps::MA => 2,
            XOps::D => 3,
            XOps::E => 4,
            XOps::F => 5,
            XOps::G => 6,
            XOps::H => 7,
            XOps::Zero => 0,
        }
    }
}

/// The mnemonics of the assembler.
#[derive(Debug, Clone, Copy, PartialEq, Eq, Structural)]
pub enum Cmds {
    And,
    Or,
    Xor,
    Add,
    Sub,
    Inc,
    Dec,
    Not,
    Lsl,
    Lsr,
    Asr,
    Rol,
    Ror,
}

/// `s` equals the lower-case word `lit`, ignoring ASCII case.
pub open spec fn ci_eq(s: Seq<char>, lit: Seq<char>) -> bool {
    s.len() == lit.len() && forall|i: int|
        0 <= i < s.len() ==> #[trigger] s[i] == lit[i] || (s[i] as u32) as int + 32 == (
            lit[i] as u32) as int
}

fn ci_eq_exec(s: &[char], lit: &[char]) -> (r: bool)
    requires
        forall|i: int| 0 <= i < lit@.len() ==> 'a' <= #[trigger] lit@[i] <= 'z',
    ensures
        r == ci_eq(s@, lit@),
{
    if s.len() != lit.len() {
        return false;
    }
    let mut i: usize = 0;
    while i < s.len()
        invariant
            s@.len() == lit@.len(),
            i <= s@.len(),
            forall|k: int| 0 <= k < lit@.len() ==> 'a' <= #[trigger] lit@[k] <= 'z',
            forall|k: int| 0 <= k < i ==> #[trigger] s@[k] == lit@[k] || (s@[k] as u32) as int + 32 == (lit@[k] as u32) as int,
        decreases s@.len() - i,
    {
        let c = s[i];
        let l = lit[i];
        if !(c == l || (c as u32) == (l as u32) - 32) {
            proof {
                assert(!(s@[i as int] == lit@[i as int] || (s@[i as int] as u32) as int + 32 == (lit@[i as int] as u32) as int));
            }
            return false;
        }
        proof {
            assert(s@[i as int] == lit@[i as int] || (s@[i as int] as u32) as int + 32 == (lit@[i as int] as u32) as int);
        }
        i += 1;
    }
    true
}

impl Cmds {
    /// The mnemonic that text names, ignoring ASCII case. `rol` names the rotate-left
    /// operation (op 6) and `ror` the rotate-right one (op 7), as the operation table and the
    /// disassembler name them.
    pub open spec fn named(s: Seq<char>) -> Option<Cmds> {
        if ci_eq(s, seq!['a', 'n', 'd']) {
            Some(Cmds::And)
        } else if ci_eq(s, seq!['o', 'r']) {
            Some(Cmds::Or)
        } else if ci_eq(s, seq!['x', 'o', 'r']) {
            Some(Cmds::Xor)
        } else if ci_eq(s, seq!['a', 'd', 'd']) {
            Some(Cmds::Add)
        } else if ci_eq(s, seq!['s', 'u', 'b']) {
            Some(Cmds::Sub)
        } else if ci_eq(s, seq!['i', 'n', 'c']) {
            Some(Cmds::Inc)
        } else if ci_eq(s, seq!['d', 'e', 'c']) {
            Some(Cmds::Dec)
        } else if ci_eq(s, seq!['n', 'o', 't']) {
            Some(Cmds::Not)
        } else if ci_eq(s, seq!['l', 's', 'l']) {
            Some(Cmds::Lsl)
        } else if ci_eq(s, seq!['l', 's', 'r']) {
            Some(Cmds::Lsr)
        } else if ci_eq(s, seq!['a', 's', 'r']) {
            Some(Cmds::Asr)
        } else if ci_eq(s, seq!['r', 'o', 'l']) {
            Some(Cmds::Rol)
        } else if ci_eq(s, seq!['r', 'o', 'r']) {
            Some(Cmds::Ror)
        } else {
            None
        }
    }

    /// The unit (`true` for arithmetic) and operation code of the mnemonic.
    pub open spec fn unit_op(self) -> (bool, u16) {
        match self {
            Cmds::And => (false, 0),
            Cmds::Or => (false, 1),
            Cmds::Xor => (false, 2),
            Cmds::Not => (false, 3),
            Cmds::Lsl => (false, 4),
            Cmds::Lsr => (false, 5),
            Cmds::Rol => (false, 6),
            Cmds::Ror => (false, 7),
            Cmds::Add => (true, 0),
            Cmds::Sub => (true, 1),
            Cmds::Inc => (true, 2),
            Cmds::Dec => (true, 3),
            Cmds::Asr => (true, 4),
        }
    }

    pub open spec fn arity(self) -> nat {
        match self {
            Cmds::And | Cmds::Or | Cmds::Xor | Cmds::Add | Cmds::Sub => 2,
            _ => 1,
        }
    }

    pub fn from_str(input: &[char]) -> (r: Option<Cmds>)
        ensures
            r == Cmds::named(input@),
    {
        let names: [(Vec<char>, Cmds); 13] = [
            (vec!['a', 'n', 'd'], Cmds::And),
            (vec!['o', 'r'], Cmds::Or),
            (vec!['x', 'o', 'r'], Cmds::Xor),
            (vec!['a', 'd', 'd'], Cmds::Add),
            (vec!['s', 'u', 'b'], Cmds::Sub),
            (vec!['i', 'n', 'c'], Cmds::Inc),
            (vec!['d', 'e', 'c'], Cmds::Dec),
            (vec!['n', 'o', 't'], Cmds::Not),
            (vec!['l', 's', 'l'], Cmds::Lsl),
            (vec!['l', 's', 'r'], Cmds::Lsr),
            (vec!['a', 's', 'r'], Cmds::Asr),
            (vec!['r', 'o', 'l'], Cmds::Rol),
            (vec!['r', 'o', 'r'], Cmds::Ror),
        ];
        proof {
            assert(names[0].0@ =~= seq!['a', 'n', 'd']);
            assert(names[1].0@ =~= seq!['o', 'r']);
            assert(names[2].0@ =~= seq!['x', 'o', 'r']);
            assert(names[3].0@ =~= seq!['a', 'd', 'd']);
            assert(names[4].0@ =~= seq!['s', 'u', 'b']);
            assert(names[5].0@ =~= seq!['i', 'n', 'c']);
            assert(names[6].0@ =~= seq!['d', 'e', 'c']);
            assert(names[7].0@ =~= seq!['n', 'o', 't']);
            assert(names[8].0@ =~= seq!['l', 's', 'l']);
            assert(names[9].0@ =~= seq!['l', 's', 'r']);
            assert(names[10].0@ =~= seq!['a', 's', 'r']);
            assert(names[11].0@ =~= seq!['r', 'o', 'l']);
            assert(names[12].0@ =~= seq!['r', 'o', 'r']);
        }
        let mut i: usize = 0;
        while i < 13
            invariant
                i <= 13,
                names@.len() == 13,
                names[0].0@ == seq!['a', 'n', 'd'] && names[0].1 == Cmds::And,
                names[1].0@ == seq!['o', 'r'] && names[1].1 == Cmds::Or,
                names[2].0@ == seq!['x', 'o', 'r'] && names[2].1 == Cmds::Xor,
                names[3].0@ == seq!['a', 'd', 'd'] && names[3].1 == Cmds::Add,
                names[4].0@ == seq!['s', 'u', 'b'] && names[4].1 == Cmds::Sub,
                names[5].0@ == seq!['i', 'n', 'c'] && names[5].1 == Cmds::Inc,
                names[6].0@ == seq!['d', 'e', 'c'] && names[6].1 == Cmds::Dec,
                names[7].0@ == seq!['n', 'o', 't'] && names[7].1 == Cmds::Not,
                names[8].0@ == seq!['l', 's', 'l'] && names[8].1 == Cmds::Lsl,
                names[9].0@ == seq!['l', 's', 'r'] && names[9].1 == Cmds::Lsr,
                names[10].0@ == seq!['a', 's', 'r'] && names[10].1 == Cmds::Asr,
                names[11].0@ == seq!['r', 'o', 'l'] && names[11].1 == Cmds::Rol,
                names[12].0@ == seq!['r', 'o', 'r'] && names[12].1 == Cmds::Ror,
                forall|k: int| 0 <= k < i ==> !ci_eq(input@, #[trigger] names[k].0@),
            decreases 13 - i,
        {
            let (ref lit, cmd) = names[i];
            if ci_eq_exec(input, lit.as_slice()) {
                return Some(cmd);
            }
            i += 1;
        }
        None
    }

    /// The number of operands the mnemonic takes.
    pub fn arg_num(&self) -> (r: usize)
        ensures
            r == self.arity(),
    {
        match self {
            Cmds::And | Cmds::Or | Cmds::Xor | Cmds::Add | Cmds::Sub => 2,
            _ => 1,
        }
    }

    fn unit_and_op(&self) -> (r: (bool, u16))
        ensures
            r == self.unit_op(),
            r.1 <= 7,
    {
        match self {
            Cmds::And => (false, 0),
            Cmds::Or => (false, 1),
            Cmds::Xor => (false, 2),
            Cmds::Not => (false, 3),
            Cmds::Lsl => (false, 4),
            Cmds::Lsr => (false, 5),
            Cmds::Rol => (false, 6),
            Cmds::Ror => (false, 7),
            Cmds::Add => (true, 0),
            Cmds::Sub => (true, 1),
            Cmds::Inc => (true, 2),
            Cmds::Dec => (true, 3),
            Cmds::Asr => (true, 4),
        }
    }
}

/// The operand, `sw` and `zx` of a two-operand instruction: one operand is `A`, or the pair is
/// `(0, y)`.
pub open spec fn two_operands(a: Seq<char>, b: Seq<char>) -> Option<(XOps, bool, bool)> {
    if a == seq!['0'] && XOps::named(b) is Some {
        Some((XOps::named(b).unwrap(), true, true))
    } else if a == seq!['A'] && XOps::named(b) is Some {
        Some((XOps::named(b).unwrap(), true, false))
    } else if b == seq!['A'] && XOps::named(a) is Some {
        Some((XOps::named(a).unwrap(), false, false))
    } else {
        None
    }
}

fn parse_two(a: &[char], b: &[char]) -> (r: Option<(XOps, bool, bool)>)
    ensures
        r == two_operands(a@, b@),
{
    let xb = XOps::from_str(b);
    if a.len() == 1 && a[0] == '0' {
        proof {
            assert(a@ =~= seq!['0']);
        }
        if let Some(x) = xb {
            return Some((x, true, true));
        }
    }
    proof {
        if a@.len() == 1 && a@[0] != '0' {
            assert(a@ != seq!['0']);
        }
    }
    if a.len() == 1 && a[0] == 'A' {
        proof {
            assert(a@ =~= seq!['A']);
        }
        if let Some(x) = xb {
            return Some((x, true, false));
        }
    }
    proof {
        if a@.len() == 1 && a@[0] != 'A' {
            assert(a@ != seq!['A']);
        }
    }
    if b.len() == 1 && b[0] == 'A' {
        proof {
            assert(b@ =~= seq!['A']);
        }
        if let Some(x) = XOps::from_str(a) {
            return Some((x, false, false));
        }
    }
    proof {
        if b@.len() == 1 && b@[0] != 'A' {
            assert(b@ != seq!['A']);
        }
    }
    None
}

/// What one instruction line gives: a word, or a placeholder for a label and the label's name.
pub open spec fn operation(op: Seq<char>, target: Register, jump: Jumps) -> Option<(u16, Option<Seq<char>>)> {
    let pieces = split_on(op, ',');
    let first = trim(pieces[0]);
    let inputs = Seq::new((pieces.len() - 1) as nat, |i: int| trim(pieces[i + 1]));
    let (lt, eq, gt) = jump.bits();
    match Cmds::named(first) {
        Some(cmd) => if inputs.len() != cmd.arity() {
            None
        } else if cmd.arity() == 2 {
            match two_operands(inputs[0], inputs[1]) {
                Some((x, sw, zx)) => if x == XOps::Zero {
                    None
                } else {
                    Some(
                        (
                            alu_word(
                                cmd.unit_op().0,
                                cmd.unit_op().1,
                                x.code(),
                                target.code(),
                                zx,
                                sw,
                                lt,
                                eq,
                                gt,
                            ),
                            None,
                        ),
                    )
                },
                None => None,
            }
        } else {
            match XOps::named(inputs[0]) {
                Some(x) => Some(
                    (
                        alu_word(
                            cmd.unit_op().0,
                            cmd.unit_op().1,
                            x.code(),
                            target.code(),
                            x == XOps::Zero,
                            false,
                            lt,
                            eq,
                            gt,
                        ),
                        None,
                    ),
                ),
                None => None,
            }
        },
        None => if first.len() == 0 || literal_value(first) is Some {
            match literal_word(first) {
                Some(v) => if v <= 0x7fff {
                    Some(((v | 0x8000) as u16, None))
                } else {
                    None
                },
                None => None,
            }
        } else if is_name(first) {
            Some((0x8000u16, Some(first)))
        } else {
            None
        },
    }
}

/// What an instruction line gives: `[TARGET =] OPERATION [; JCOND]`.
pub open spec fn instruction(t: Seq<char>) -> Option<(u16, Option<Seq<char>>)> {
    let sc = split_on(t, ';');
    let eqs = split_on(sc[0], '=');
    if sc.len() > 2 || eqs.len() > 2 || (sc.len() == 2 && !crate::text::lacks(sc[1], '=')) {
        None
    } else {
        let target = if eqs.len() == 2 {
            Register::named(trim(eqs[0]))
        } else {
            Some(Register::NoReg)
        };
        let jump = if sc.len() == 2 {
            Jumps::named(trim(sc[1]))
        } else {
            Some(Jumps::NoJump)
        };
        match (target, jump) {
            (Some(tg), Some(j)) => operation(eqs[eqs.len() - 1], tg, j),
            _ => None,
        }
    }
}

/// The state of the text pass: ROM so far, label definitions and label uses.
pub type TextState = (Seq<u16>, Seq<(Seq<char>, int)>, Seq<(Seq<char>, int)>);

pub open spec fn defines(defs: Seq<(Seq<char>, int)>, name: Seq<char>) -> bool {
    exists|i: int| 0 <= i < defs.len() && #[trigger] defs[i].0 == name
}

/// The text pass on one more line.
pub open spec fn text_step(st: TextState, line: Seq<char>) -> Option<TextState> {
    let (rom, defs, uses) = st;
    let t = trim(line);
    if t.len() == 0 || t[0] == '#' {
        Some(st)
    } else if starts_with(t, seq!['l', 'a', 'b', 'e', 'l']) {
        if t.last() == ':' {
            let name = trim(t.subrange(5, t.len() - 1));
            if is_name(name) && !defines(defs, name) {
                Some((rom, defs.push((name, rom.len() as int)), uses))
            } else {
                None
            }
        } else {
            None
        }
    } else if t == seq!['J', 'M', 'P'] {
        Some((rom.push(7u16), defs, uses))
    } else {
        match instruction(t) {
            Some((w, None)) => Some((rom.push(w), defs, uses)),
            Some((w, Some(name))) => Some((rom.push(w), defs, uses.push((name, rom.len() as int)))),
            None => None,
        }
    }
}

/// The text pass on lines.
pub open spec fn text_pass(lines: Seq<Seq<char>>) -> Option<TextState>
    decreases lines.len(),
{
    if lines.len() == 0 {
        Some((Seq::empty(), Seq::empty(), Seq::empty()))
    } else {
        match text_pass(lines.drop_last()) {
            Some(st) => text_step(st, lines.last()),
            None => None,
        }
    }
}

/// The result of the text pass: ROM with a final padding word, where labels are defined, where
/// they are used, and the index of the last line.
#[derive(Debug)]
pub struct AssemblerOutput {
    pub rom: Vec<u16>,
    pub label_definitions: Vec<(String, usize)>,
    pub label_uses: Vec<(String, usize)>,
    pub rom_lines: usize,
}

impl AssemblerOutput {
    /// No label is defined twice.
    pub open spec fn wf(&self) -> bool {
        unique_names(labels_view(self.label_definitions@))
    }
}

/// No name occurs twice.
pub open spec fn unique_names(defs: Seq<(Seq<char>, int)>) -> bool {
    forall|i: int, j: int| 0 <= i < defs.len() && 0 <= j < defs.len() && i != j ==> #[trigger] defs[i].0 != #[trigger] defs[j].0
}

pub open spec fn labels_view(v: Seq<(String, usize)>) -> Seq<(Seq<char>, int)> {
    Seq::new(v.len(), |i: int| (v[i].0@, v[i].1 as int))
}

/// An error that names the line it was found on.
/// The message of an error found on a line: its number, the line, and what is wrong.
pub open spec fn error_text(line_no: nat, line: Seq<char>, message: Seq<char>) -> Seq<char> {
    "error on line "@ + crate::text::dec_digits(line_no) + ": "@ + line + "\n"@ + message
}

/// `e` is an assembly error whose message names line `line_no` and quotes `line`.
pub open spec fn is_line_error(e: BError, line_no: nat, line: Seq<char>) -> bool {
    e matches BError::AsmParseError(m) && exists|msg: Seq<char>| m@ == #[trigger] error_text(line_no, line, msg)
}

/// The number of line `k` of a section whose first line has number `offset`.
pub open spec fn line_number(offset: usize, k: int) -> nat {
    if offset + k < usize::MAX {
        (offset + k) as nat
    } else {
        usize::MAX as nat
    }
}

pub(crate) fn line_error(line_no: usize, line: &[char], message: &str) -> (r: BError)
    ensures
        is_line_error(r, line_no as nat, line@),
{
    let mut text = chars_of("error on line ");
    append_chars(&mut text, crate::text::digits(line_no, 10).as_slice());
    append_chars(&mut text, chars_of(": ").as_slice());
    append_chars(&mut text, line);
    append_chars(&mut text, chars_of("\n").as_slice());
    append_chars(&mut text, chars_of(message).as_slice());
    let r = BError::AsmParseError(string_of(text.as_slice()));
    proof {
        assert(text@ =~= error_text(line_no as nat, line@, message@));
    }
    r
}

fn find_def(defs: &Vec<(String, usize)>, name: &String) -> (r: bool)
    ensures
        r == defines(labels_view(defs@), name@),
{
    let mut i: usize = 0;
    while i < defs.len()
        invariant
            i <= defs@.len(),
            forall|k: int| 0 <= k < i ==> defs@[k].0@ != name@,
        decreases defs@.len() - i,
    {
        if defs[i].0 == *name {
            proof {
                assert(labels_view(defs@)[i as int].0 == name@);
            }
            return true;
        }
        i += 1;
    }
    proof {
        if defines(labels_view(defs@), name@) {
            let k = choose|k: int| 0 <= k < labels_view(defs@).len() && #[trigger] labels_view(defs@)[k].0 == name@;
            assert(defs@[k].0@ == name@);
        }
    }
    false
}

/// The word of an instruction line, and the label it uses, if any.
fn parse_instruction(t: &[char], line_no: usize, line: &[char]) -> (r: Result<(u16, Option<Vec<char>>), BError>)
    ensures
        r is Ok <==> instruction(t@) is Some,
        r matches Ok((w, n)) ==> instruction(t@) == Some(
            (
                w,
                match n {
                    Some(v) => Some(v@),
                    None => None,
                },
            ),
        ),
        r matches Err(e) ==> is_line_error(e, line_no as nat, line@),
{
    let sc = split_chars(t, ';');
    proof {
        crate::text::lemma_split_on_len(t@, ';');
    }
    let eqs = split_chars(sc[0].as_slice(), '=');
    proof {
        crate::text::lemma_split_on_len(sc@[0]@, '=');
    }
    if sc.len() > 2 || eqs.len() > 2 {
        return Err(line_error(line_no, line, "sections wrong"));
    }
    if sc.len() == 2 && has_char(sc[1].as_slice(), '=') {
        return Err(line_error(line_no, line, "sections wrong"));
    }
    let target = if eqs.len() == 2 {
        match Register::from_chars(trim_chars(eqs[0].as_slice()).as_slice()) {
            Some(r) => r,
            None => {
                return Err(line_error(line_no, line, "improper target"));
            },
        }
    } else {
        Register::NoReg
    };
    let jump = if sc.len() == 2 {
        match Jumps::parse_str(trim_chars(sc[1].as_slice()).as_slice()) {
            Some(j) => j,
            None => {
                return Err(line_error(line_no, line, "improper jump"));
            },
        }
    } else {
        Jumps::NoJump
    };
    parse_operation(eqs[eqs.len() - 1].as_slice(), target, jump, line_no, line)
}

fn has_char(s: &[char], c: char) -> (r: bool)
    ensures
        r == !crate::text::lacks(s@, c),
{
    let mut k: usize = 0;
    while k < s.len()
        invariant
            k <= s@.len(),
            forall|j: int| 0 <= j < k ==> s@[j] != c,
        decreases s@.len() - k,
    {
        if s[k] == c {
            return true;
        }
        k += 1;
    }
    false
}

fn target_code(r: Register) -> (c: u16)
    ensures
        c == r.code(),
        c <= 7,
{
    r.to_code() as u16
}

fn parse_operation(op: &[char], target: Register, jump: Jumps, line_no: usize, line: &[char]) -> (r: Result<(u16, Option<Vec<char>>), BError>)
    ensures
        r is Ok <==> operation(op@, target, jump) is Some,
        r matches Ok((w, n)) ==> operation(op@, target, jump) == Some(
            (
                w,
                match n {
                    Some(v) => Some(v@),
                    None => None,
                },
            ),
        ),
        r matches Err(e) ==> is_line_error(e, line_no as nat, line@),
{
    let pieces = split_chars(op, ',');
    proof {
        crate::text::lemma_split_on_len(op@, ',');
    }
    let first = trim_chars(pieces[0].as_slice());
    let mut inputs: Vec<Vec<char>> = Vec::new();
    let mut i: usize = 1;
    while i < pieces.len()
        invariant
            1 <= i <= pieces@.len(),
            pieces@.len() == split_on(op@, ',').len(),
            forall|k: int| 0 <= k < pieces@.len() ==> #[trigger] pieces@[k]@ == split_on(op@, ',')[k],
            inputs@.len() == i - 1,
            forall|k: int| 0 <= k < i - 1 ==> #[trigger] inputs@[k]@ == trim(pieces@[k + 1]@),
        decreases pieces@.len() - i,
    {
        inputs.push(trim_chars(pieces[i].as_slice()));
        i += 1;
    }
    let ghost sp = split_on(op@, ',');
    let ghost spec_inputs = Seq::new((sp.len() - 1) as nat, |k: int| trim(sp[k + 1]));
    proof {
        assert forall|k: int| 0 <= k < inputs@.len() implies #[trigger] inputs@[k]@ == spec_inputs[k] by {
            assert(pieces@[k + 1]@ == sp[k + 1]);
        }
    }
    let (lt, eq, gt) = jump.flags();
    let tc = target_code(target);
    match Cmds::from_str(first.as_slice()) {
        Some(cmd) => {
            if inputs.len() != cmd.arg_num() {
                return Err(line_error(line_no, line, "wrong number of operands for operation"));
            }
            let (u, opc) = cmd.unit_and_op();
            if cmd.arg_num() == 2 {
                match parse_two(inputs[0].as_slice(), inputs[1].as_slice()) {
                    Some((x, sw, zx)) => {
                        if x == XOps::Zero {
                            return Err(line_error(line_no, line, "right operand may not be zero here"));
                        }
                        let inst = AluInstruction::from_fields(u, opc, x.source(), tc, zx, sw, lt, eq, gt);
                        Ok((inst.0, None))
                    },
                    None => Err(line_error(line_no, line, "one or both operands invalid")),
                }
            } else {
                match XOps::from_str(inputs[0].as_slice()) {
                    Some(x) => {
                        let zx = x == XOps::Zero;
                        let inst = AluInstruction::from_fields(u, opc, x.source(), tc, zx, false, lt, eq, gt);
                        Ok((inst.0, None))
                    },
                    None => Err(line_error(line_no, line, "invalid operand")),
                }
            }
        },
        None => {
            if first.len() == 0 || is_literal_syntax(first.as_slice()) {
                match literal_chars_to_u16(first.as_slice()) {
                    Ok(v) => {
                        if v > 0x7fff {
                            return Err(line_error(line_no, line, "number too large"));
                        }
                        Ok((v | 0x8000, None))
                    },
                    Err(_) => Err(line_error(line_no, line, "unable to parse number")),
                }
            } else if is_name_exec(first.as_slice()) {
                Ok((0x8000, Some(first)))
            } else {
                Err(line_error(line_no, line, "unable to parse operation"))
            }
        },
    }
}

/// Whether `s` has the syntax of a number literal, whatever its size.
pub(crate) fn is_literal_syntax(s: &[char]) -> (r: bool)
    ensures
        r == (literal_value(s@) is Some),
{
    crate::util::literal_syntax(s)
}

proof fn lemma_text_pass_none(ls: Seq<Seq<char>>, k: int)
    requires
        0 <= k <= ls.len(),
        text_pass(ls.take(k)) is None,
    ensures
        text_pass(ls) is None,
    decreases ls.len() - k,
{
    if k < ls.len() {
        assert(ls.take(k + 1).drop_last() =~= ls.take(k));
        lemma_text_pass_none(ls, k + 1);
    } else {
        assert(ls.take(k) =~= ls);
    }
}

/// Runs the text pass over the preprocessed `[text]` section. `code_offset` is the number of
/// the section's first line, for error messages.
#[verifier::rlimit(60)]
pub fn assemble(code: String, code_offset: usize) -> (r: Result<AssemblerOutput, BError>)
    ensures
        r is Ok <==> (text_pass(lines_of(code@)) matches Some(st) && st.0.len() + 1 <= 0xffff),
        r matches Ok(out) ==> text_pass(lines_of(code@)) matches Some(st) && {
            &&& out.rom@ == st.0.push(0x8000u16)
            &&& labels_view(out.label_definitions@) == st.1
            &&& labels_view(out.label_uses@) == st.2
        },
        r matches Err(e) ==> e is AsmParseError,
        r is Err && text_pass(lines_of(code@)) is None ==> exists|k: int|
            0 <= k < lines_of(code@).len() && #[trigger] is_line_error(
                r->Err_0,
                line_number(code_offset, k),
                lines_of(code@)[k],
            ),
        r matches Ok(out) ==> out.wf(),
        r matches Ok(out) ==> out.rom_lines == if lines_of(code@).len() > 0 {
            lines_of(code@).len() - 1
        } else {
            0
        },
{
    let chars = chars_of(code.as_str());
    let lines = split_lines(chars.as_slice());
    let ghost ls = lines_of(code@);
    let mut rom: Vec<u16> = Vec::new();
    let mut defs: Vec<(String, usize)> = Vec::new();
    let mut uses: Vec<(String, usize)> = Vec::new();
    let mut cline: usize = 0;

    let mut idx: usize = 0;
    proof {
        assert(ls.take(0) =~= Seq::<Seq<char>>::empty());
    }
    while idx < lines.len()
        invariant
            ls == lines_of(code@),
            idx <= lines@.len() == ls.len(),
            forall|k: int| 0 <= k < lines@.len() ==> #[trigger] lines@[k]@ == ls[k],
            text_pass(ls.take(idx as int)) == Some((rom@, labels_view(defs@), labels_view(uses@))),
            rom@.len() <= idx,
            idx > 0 ==> cline == idx - 1,
            idx == 0 ==> cline == 0,
            unique_names(labels_view(defs@)),
        decreases lines@.len() - idx,
    {
        cline = idx;
        let line = lines[idx].as_slice();
        let line_no = if code_offset < usize::MAX - idx { code_offset + idx } else { usize::MAX };
        proof {
            assert(ls.take(idx as int + 1).drop_last() =~= ls.take(idx as int));
            assert(ls.take(idx as int + 1).last() == line@);
        }
        let t = trim_chars(line);
        let ghost st = (rom@, labels_view(defs@), labels_view(uses@));
        proof {
            assert(text_pass(ls.take(idx as int + 1)) == text_step(st, line@));
        }
        let label_word = chars_of("label");
        proof {
            reveal_strlit("label");
            assert(label_word@ =~= seq!['l', 'a', 'b', 'e', 'l']);
        }
        if t.len() == 0 || t[0] == '#' {
        } else if starts_with_exec(t.as_slice(), label_word.as_slice()) {
            if t[t.len() - 1] != ':' {
                proof {
                    lemma_text_pass_none(ls, idx as int + 1);
                }
                let e = line_error(line_no, line, "incorrect label");
                proof {
                    assert(is_line_error(e, line_number(code_offset, idx as int), ls[idx as int]));
                }
                return Err(e);
            }
            proof {
                assert(t@.subrange(0, 5) == seq!['l', 'a', 'b', 'e', 'l']);
                assert(t@[4] == 'l');
            }
            let name = trim_chars(crate::text::sub_chars(t.as_slice(), 5, t.len() - 1).as_slice());
            if !is_name_exec(name.as_slice()) {
                proof {
                    assert(t@ == trim(line@));
                    assert(t@.last() == ':');
                    assert(starts_with(t@, seq!['l', 'a', 'b', 'e', 'l']));
                    assert(name@ == trim(t@.subrange(5, t@.len() - 1)));
                    assert(text_step(st, line@) is None);
                    lemma_text_pass_none(ls, idx as int + 1);
                }
                let e = line_error(line_no, line, "incorrect label");
                proof {
                    assert(is_line_error(e, line_number(code_offset, idx as int), ls[idx as int]));
                }
                return Err(e);
            }
            let name_s = string_of(name.as_slice());
            if find_def(&defs, &name_s) {
                proof {
                    lemma_text_pass_none(ls, idx as int + 1);
                }
                let e = line_error(line_no, line, "label already in use");
                proof {
                    assert(is_line_error(e, line_number(code_offset, idx as int), ls[idx as int]));
                }
                return Err(e);
            }
            let ghost before = defs@;
            defs.push((name_s, rom.len()));
            proof {
                assert(labels_view(defs@) =~= labels_view(before).push((name@, rom@.len() as int)));
                let lv = labels_view(defs@);
                assert forall|i: int, j: int| 0 <= i < lv.len() && 0 <= j < lv.len() && i != j implies #[trigger] lv[i].0 != #[trigger] lv[j].0 by {
                    if i == lv.len() - 1 && j < lv.len() - 1 {
                        assert(lv[j] == labels_view(before)[j]);
                    } else if j == lv.len() - 1 && i < lv.len() - 1 {
                        assert(lv[i] == labels_view(before)[i]);
                    } else if i < lv.len() - 1 && j < lv.len() - 1 {
                        assert(lv[i] == labels_view(before)[i] && lv[j] == labels_view(before)[j]);
                    }
                }
            }
        } else if t.len() == 3 && t[0] == 'J' && t[1] == 'M' && t[2] == 'P' {
            proof {
                assert(t@ =~= seq!['J', 'M', 'P']);
            }
            rom.push(7);
        } else {
            proof {
                if t@.len() == 3 {
                    assert(t@ != seq!['J', 'M', 'P']);
                }
            }
            match parse_instruction(t.as_slice(), line_no, line) {
                Ok((w, None)) => {
                    rom.push(w);
                },
                Ok((w, Some(name))) => {
                    let ghost before = uses@;
                    uses.push((string_of(name.as_slice()), rom.len()));
                    proof {
                        assert(labels_view(uses@) =~= labels_view(before).push((name@, rom@.len() as int)));
                    }
                    rom.push(w);
                },
                Err(e) => {
                    proof {
                        assert(is_line_error(e, line_number(code_offset, idx as int), ls[idx as int]));
                        assert(t@ == trim(line@));
                        assert(!starts_with(t@, seq!['l', 'a', 'b', 'e', 'l']));
                        assert(t@ != seq!['J', 'M', 'P']);
                        assert(instruction(t@) is None);
                        assert(text_step(st, line@) is None);
                        lemma_text_pass_none(ls, idx as int + 1);
                    }
                    return Err(e);
                },
            }
        }
        idx += 1;
    }
    proof {
        assert(ls.take(idx as int) =~= ls);
    }
    if rom.len() >= 0xffff {
        return Err(BError::AsmParseError(String::from_str("the program is too large")));
    }
    rom.push(0x8000);
    Ok(AssemblerOutput { rom, label_definitions: defs, label_uses: uses, rom_lines: cline })
}

} // verus!
