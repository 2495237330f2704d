//! The disassembler: one line of assembly text per ROM word.
use vstd::prelude::*;

use crate::text::{append_chars, digits, digits_of};
use crate::util::{string_of, BError};
use crate::vm::{bit_of, field_of, Register};

verus! {

/// The operand text `(x, y)` of an ALU word.
pub open spec fn operand_texts(w: u16) -> (Seq<char>, Seq<char>) {
    let src = Register::of_code(field_of(w, 12)).text();
    let (x, y) = if bit_of(w, 7) {
        (seq!['A'], src)
    } else {
        (src, seq!['A'])
    };
    (if bit_of(w, 6) {
        seq!['0']
    } else {
        x
    }, y)
}

pub open spec fn one(name: Seq<char>, x: Seq<char>) -> Seq<char> {
    name + seq![',', ' '] + x
}

pub open spec fn two(name: Seq<char>, a: Seq<char>, b: Seq<char>) -> Seq<char> {
    name + seq![',', ' '] + a + seq![',', ' '] + b
}

/// The mnemonic part of an ALU word; empty where the table has no operation.
pub open spec fn operation_text(w: u16) -> Seq<char> {
    let (x, y) = operand_texts(w);
    let op = field_of(w, 8) + if bit_of(w, 11) {
        8u16
    } else {
        0u16
    };
    if op == 0 {
        two(seq!['a', 'n', 'd'], y, x)
    } else if op == 1 {
        two(seq!['o', 'r'], y, x)
    } else if op == 2 {
        two(seq!['x', 'o', 'r'], y, x)
    } else if op == 3 {
        one(seq!['n', 'o', 't'], x)
    } else if op == 4 {
        one(seq!['l', 's', 'l'], x)
    } else if op == 5 {
        one(seq!['l', 's', 'r'], x)
    } else if op == 6 {
        one(seq!['r', 'o', 'l'], x)
    } else if op == 7 {
        one(seq!['r', 'o', 'r'], x)
    } else if op == 8 {
        two(seq!['a', 'd', 'd'], x, y)
    } else if op == 9 {
        two(seq!['s', 'u', 'b'], x, y)
    } else if op == 10 {
        one(seq!['i', 'n', 'c'], x)
    } else if op == 11 {
        one(seq!['d', 'e', 'c'], x)
    } else if op == 12 {
        one(seq!['a', 's', 'r'], x)
    } else {
        Seq::empty()
    }
}

/// The jump suffix of an ALU word.
pub open spec fn jump_text(w: u16) -> Seq<char> {
    let lt = bit_of(w, 2);
    let eq = bit_of(w, 1);
    let gt = bit_of(w, 0);
    let name = if lt && eq && gt {
        seq!['J', 'M', 'P']
    } else if lt && eq {
        seq!['J', 'L', 'E']
    } else if eq && gt {
        seq!['J', 'G', 'E']
    } else if lt && gt {
        seq!['J', 'N', 'E']
    } else if lt {
        seq!['J', 'L', 'T']
    } else if eq {
        seq!['J', 'E', 'Q']
    } else if gt {
        seq!['J', 'G', 'T']
    } else {
        Seq::empty()
    };
    if name.len() == 0 {
        name
    } else {
        seq![';', ' '] + name
    }
}

/// The text of one word.
pub open spec fn instruction_text(w: u16) -> Seq<char> {
    if w & 0x8000 == 0 {
        let target = Register::of_code(field_of(w, 3));
        let head = if target == Register::NoReg {
            Seq::empty()
        } else {
            target.text() + seq![' ', '=', ' ']
        };
        head + operation_text(w) + jump_text(w)
    } else {
        seq!['A', ' ', '=', ' '] + digits_of((w & 0x7fff) as nat, 10)
    }
}

fn mnemonic_chars(op: u16) -> (r: Vec<char>)
    ensures
        op == 0 ==> r@ == seq!['a', 'n', 'd'],
        op == 1 ==> r@ == seq!['o', 'r'],
        op == 2 ==> r@ == seq!['x', 'o', 'r'],
        op == 3 ==> r@ == seq!['n', 'o', 't'],
        op == 4 ==> r@ == seq!['l', 's', 'l'],
        op == 5 ==> r@ == seq!['l', 's', 'r'],
        op == 6 ==> r@ == seq!['r', 'o', 'l'],
        op == 7 ==> r@ == seq!['r', 'o', 'r'],
        op == 8 ==> r@ == seq!['a', 'd', 'd'],
        op == 9 ==> r@ == seq!['s', 'u', 'b'],
        op == 10 ==> r@ == seq!['i', 'n', 'c'],
        op == 11 ==> r@ == seq!['d', 'e', 'c'],
        op == 12 ==> r@ == seq!['a', 's', 'r'],
        op > 12 ==> r@.len() == 0,
{
    let r: Vec<char> = if op == 0 {
        vec!['a', 'n', 'd']
    } else if op == 1 {
        vec!['o', 'r']
    } else if op == 2 {
        vec!['x', 'o', 'r']
    } else if op == 3 {
        vec!['n', 'o', 't']
    } else if op == 4 {
        vec!['l', 's', 'l']
    } else if op == 5 {
        vec!['l', 's', 'r']
    } else if op == 6 {
        vec!['r', 'o', 'l']
    } else if op == 7 {
        vec!['r', 'o', 'r']
    } else if op == 8 {
        vec!['a', 'd', 'd']
    } else if op == 9 {
        vec!['s', 'u', 'b']
    } else if op == 10 {
        vec!['i', 'n', 'c']
    } else if op == 11 {
        vec!['d', 'e', 'c']
    } else if op == 12 {
        vec!['a', 's', 'r']
    } else {
        Vec::new()
    };
    proof {
        if op == 0 {
            assert(r@ =~= seq!['a', 'n', 'd']);
        } else if op == 1 {
            assert(r@ =~= seq!['o', 'r']);
        } else if op == 2 {
            assert(r@ =~= seq!['x', 'o', 'r']);
        } else if op == 3 {
            assert(r@ =~= seq!['n', 'o', 't']);
        } else if op == 4 {
            assert(r@ =~= seq!['l', 's', 'l']);
        } else if op == 5 {
            assert(r@ =~= seq!['l', 's', 'r']);
        } else if op == 6 {
            assert(r@ =~= seq!['r', 'o', 'l']);
        } else if op == 7 {
            assert(r@ =~= seq!['r', 'o', 'r']);
        } else if op == 8 {
            assert(r@ =~= seq!['a', 'd', 'd']);
        } else if op == 9 {
            assert(r@ =~= seq!['s', 'u', 'b']);
        } else if op == 10 {
            assert(r@ =~= seq!['i', 'n', 'c']);
        } else if op == 11 {
            assert(r@ =~= seq!['d', 'e', 'c']);
        } else if op == 12 {
            assert(r@ =~= seq!['a', 's', 'r']);
        }
    }
    r
}

#[verifier::rlimit(60)]
fn operation_chars(w: u16) -> (r: Vec<char>)
    requires
        w & 0x8000 == 0,
    ensures
        r@ == operation_text(w),
{
    let inst = crate::vm::AluInstruction(w);
    let source = Register::of_field(inst.get_source());
    let src = source.text_chars();
    let a = vec!['A'];
    let zx = inst.get_zx();
    let (mut x, y) = if inst.get_sw() {
        (a, src)
    } else {
        (src, a)
    };
    if zx {
        x = vec!['0'];
    }
    proof {
        assert(a@ =~= seq!['A']);
        assert(x@ == operand_texts(w).0 && y@ == operand_texts(w).1) by {
            if zx {
                assert(x@ =~= seq!['0']);
            }
        }
    }
    let op = (inst.get_op() as u16) + if inst.get_u() {
        8u16
    } else {
        0u16
    };
    let name = mnemonic_chars(op);
    proof {
        assert(op == field_of(w, 8) + if bit_of(w, 11) {
            8u16
        } else {
            0u16
        });
    }
    let mut out: Vec<char> = Vec::new();
    if name.len() > 0 {
        append_chars(&mut out, name.as_slice());
        out.push(',');
        out.push(' ');
        if op <= 2 {
            append_chars(&mut out, y.as_slice());
            out.push(',');
            out.push(' ');
            append_chars(&mut out, x.as_slice());
        } else if op == 8 || op == 9 {
            append_chars(&mut out, x.as_slice());
            out.push(',');
            out.push(' ');
            append_chars(&mut out, y.as_slice());
        } else {
            append_chars(&mut out, x.as_slice());
        }
    }
    proof {
        let (sx, sy) = operand_texts(w);
        if op <= 2 {
            assert(out@ =~= two(name@, sy, sx));
        } else if op == 8 || op == 9 {
            assert(out@ =~= two(name@, sx, sy));
        } else if op <= 12 {
            assert(out@ =~= one(name@, sx));
        } else {
            assert(out@ =~= Seq::<char>::empty());
        }
    }
    out
}

fn jump_chars(w: u16) -> (r: Vec<char>)
    ensures
        r@ == jump_text(w),
{
    let inst = crate::vm::AluInstruction(w);
    let lt = inst.get_lt();
    let eq = inst.get_eq();
    let gt = inst.get_gt();
    let jname: Vec<char> = if lt && eq && gt {
        vec!['J', 'M', 'P']
    } else if lt && eq {
        vec!['J', 'L', 'E']
    } else if eq && gt {
        vec!['J', 'G', 'E']
    } else if lt && gt {
        vec!['J', 'N', 'E']
    } else if lt {
        vec!['J', 'L', 'T']
    } else if eq {
        vec!['J', 'E', 'Q']
    } else if gt {
        vec!['J', 'G', 'T']
    } else {
        Vec::new()
    };
    let mut out: Vec<char> = Vec::new();
    if jname.len() > 0 {
        out.push(';');
        out.push(' ');
        append_chars(&mut out, jname.as_slice());
    }
    proof {
        if lt && eq && gt {
            assert(jname@ =~= seq!['J', 'M', 'P']);
        } else if lt && eq {
            assert(jname@ =~= seq!['J', 'L', 'E']);
        } else if eq && gt {
            assert(jname@ =~= seq!['J', 'G', 'E']);
        } else if lt && gt {
            assert(jname@ =~= seq!['J', 'N', 'E']);
        } else if lt {
            assert(jname@ =~= seq!['J', 'L', 'T']);
        } else if eq {
            assert(jname@ =~= seq!['J', 'E', 'Q']);
        } else if gt {
            assert(jname@ =~= seq!['J', 'G', 'T']);
        }
        assert(out@ =~= jump_text(w));
    }
    out
}

fn instruction_chars(w: u16) -> (r: Vec<char>)
    ensures
        r@ == instruction_text(w),
{
    let mut out: Vec<char> = Vec::new();
    if w & 0x8000 == 0 {
        let inst = crate::vm::AluInstruction(w);
        let target = Register::of_field(inst.get_target());
        if target != Register::NoReg {
            append_chars(&mut out, target.text_chars().as_slice());
            out.push(' ');
            out.push('=');
            out.push(' ');
        }
        let ghost head = out@;
        append_chars(&mut out, operation_chars(w).as_slice());
        append_chars(&mut out, jump_chars(w).as_slice());
        proof {
            if target == Register::NoReg {
                assert(head =~= Seq::<char>::empty());
            } else {
                assert(head =~= target.text() + seq![' ', '=', ' ']);
            }
            assert(out@ =~= instruction_text(w));
        }
    } else {
        out.push('A');
        out.push(' ');
        out.push('=');
        out.push(' ');
        append_chars(&mut out, digits((w & 0x7fff) as usize, 10).as_slice());
        proof {
            assert(out@ =~= instruction_text(w));
        }
    }
    out
}

/// Appends the text of one instruction word to `output`.
pub fn disassemble_inst(instruction: &u16, output: &mut String) -> (r: Result<(), BError>)
    ensures
        r is Ok,
        final(output)@ == old(output)@ + instruction_text(*instruction),
{
    let text = instruction_chars(*instruction);
    output.append(string_of(text.as_slice()).as_str());
    Ok(())
}

/// The line prefix `0x....:\t` of address `idx`: at least four hex digits.
pub open spec fn address_text(idx: nat) -> Seq<char> {
    let d = digits_of(idx, 16);
    let padded = if d.len() < 4 {
        Seq::new((4 - d.len()) as nat, |i: int| '0') + d
    } else {
        d
    };
    seq!['0', 'x'] + padded + seq![':', '\t']
}

/// The text of ROM words `ws[..k]`, with address prefixes when `lines` holds.
pub open spec fn listing(ws: Seq<u16>, lines: bool) -> Seq<char>
    decreases ws.len(),
{
    if ws.len() == 0 {
        Seq::empty()
    } else {
        let k = ws.len() - 1;
        listing(ws.drop_last(), lines) + (if lines {
            address_text(k as nat)
        } else {
            Seq::empty()
        }) + instruction_text(ws.last()) + seq!['\n']
    }
}

fn address_chars(idx: usize) -> (r: Vec<char>)
    ensures
        r@ == address_text(idx as nat),
{
    let d = digits(idx, 16);
    let mut out: Vec<char> = vec!['0', 'x'];
    let mut pad: usize = if d.len() < 4 { 4 - d.len() } else { 0 };
    let ghost start = out@;
    let mut k: usize = 0;
    while k < pad
        invariant
            k <= pad,
            out@ == start + Seq::new(k as nat, |i: int| '0'),
        decreases pad - k,
    {
        out.push('0');
        proof {
            assert(out@ =~= start + Seq::new((k + 1) as nat, |i: int| '0'));
        }
        k += 1;
    }
    append_chars(&mut out, d.as_slice());
    out.push(':');
    out.push('\t');
    proof {
        let padded = if d@.len() < 4 {
            Seq::new((4 - d@.len()) as nat, |i: int| '0') + d@
        } else {
            d@
        };
        if d@.len() >= 4 {
            assert(Seq::new(0nat, |i: int| '0') + d@ =~= d@);
        }
        assert(out@ =~= seq!['0', 'x'] + padded + seq![':', '\t']);
    }
    out
}

/// Disassembles every word of `input`, one line each; with `lines`, each line starts with the
/// word's address.
pub fn disassemble(input: &[u16], lines: bool) -> (r: Result<String, BError>)
    ensures
        r matches Ok(s) && s@ == listing(input@, lines),
{
    let mut out: Vec<char> = Vec::new();
    let mut idx: usize = 0;
    proof {
        assert(input@.take(0) =~= Seq::<u16>::empty());
    }
    while idx < input.len()
        invariant
            idx <= input@.len(),
            out@ == listing(input@.take(idx as int), lines),
        decreases input@.len() - idx,
    {
        proof {
            assert(input@.take(idx as int + 1).drop_last() =~= input@.take(idx as int));
            assert(input@.take(idx as int + 1).last() == input@[idx as int]);
        }
        let ghost before = out@;
        if lines {
            append_chars(&mut out, address_chars(idx).as_slice());
        }
        append_chars(&mut out, instruction_chars(input[idx]).as_slice());
        out.push('\n');
        proof {
            assert(out@ =~= listing(input@.take(idx as int + 1), lines));
        }
        idx += 1;
    }
    proof {
        assert(input@.take(idx as int) =~= input@);
    }
    Ok(string_of(out.as_slice()))
}

} // verus!
