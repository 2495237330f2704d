//! The constants pass: appends the `[consts N]` block to ROM, defines its labels, then
//! writes the address of each label into the words that use it.
use vstd::prelude::*;

use crate::assembler::text_processor::{defines, is_line_error, labels_view, line_error, line_number, AssemblerOutput};
use crate::text::{is_name, is_name_exec, lines_of, split_chars, split_lines, split_on, starts_with, starts_with_exec, trim, trim_chars};
use crate::util::{chars_of, literal_chars_to_u16, literal_value, literal_word, string_of, BError};
use crate::vm::VmDescription;

verus! {

/// The address of the first definition of `name`.
pub open spec fn lookup(defs: Seq<(Seq<char>, int)>, name: Seq<char>) -> Option<int>
    decreases defs.len(),
{
    if defs.len() == 0 {
        None
    } else {
        match lookup(defs.drop_last(), name) {
            Some(v) => Some(v),
            None => if defs.last().0 == name {
                Some(defs.last().1)
            } else {
                None
            },
        }
    }
}

/// The state of the constants pass: the constants so far and the label definitions.
pub type ConstState = (Seq<u16>, Seq<(Seq<char>, int)>);

/// The constants pass on one more line.
pub open spec fn const_step(st: ConstState, line: Seq<char>, mount: u16) -> Option<ConstState> {
    let (consts, defs) = st;
    let t = trim(line);
    if starts_with(t, seq!['l', 'a', 'b', 'e', 'l']) {
        if t.last() == ':' {
            let name = trim(t.subrange(5, t.len() - 1));
            if is_name(name) && !defines(defs, name) {
                Some((consts, defs.push((name, mount + consts.len()))))
            } else {
                None
            }
        } else {
            None
        }
    } else if t.len() > 0 && t[0] == 'M' {
        let parts = split_on(t, '=');
        if parts.len() < 2 {
            Some(st)
        } else {
            let num = trim(parts[1]);
            if num.len() == 0 || literal_value(num) is Some {
                match literal_word(num) {
                    Some(v) => Some((consts.push(v), defs)),
                    None => None,
                }
            } else {
                None
            }
        }
    } else if t.len() == 0 || t[0] == '#' {
        Some(st)
    } else {
        None
    }
}

pub open spec fn const_pass(lines: Seq<Seq<char>>, defs: Seq<(Seq<char>, int)>, mount: u16) -> Option<ConstState>
    decreases lines.len(),
{
    if lines.len() == 0 {
        Some((Seq::empty(), defs))
    } else {
        match const_pass(lines.drop_last(), defs, mount) {
            Some(st) => const_step(st, lines.last(), mount),
            None => None,
        }
    }
}

/// ROM after each use of a label got the label's address or-ed in.
pub open spec fn patch(rom: Seq<u16>, uses: Seq<(Seq<char>, int)>, defs: Seq<(Seq<char>, int)>) -> Option<Seq<u16>>
    decreases uses.len(),
{
    if uses.len() == 0 {
        Some(rom)
    } else {
        match patch(rom, uses.drop_last(), defs) {
            Some(r) => {
                let (name, pos) = uses.last();
                match lookup(defs, name) {
                    Some(v) => if 0 <= v <= 0x7fff && 0 <= pos < r.len() {
                        Some(r.update(pos, r[pos] | (v as u16)))
                    } else {
                        None
                    },
                    None => None,
                }
            },
            None => None,
        }
    }
}

/// The number of zero words that bring `n` to a multiple of 16.
pub open spec fn padding(n: int) -> int {
    if n % 16 == 0 {
        0
    } else {
        16 - n % 16
    }
}

/// What the constants pass makes of a text-pass result: ROM and the one ROM-to-RAM copy.
pub open spec fn placed(
    rom: Seq<u16>,
    defs: Seq<(Seq<char>, int)>,
    uses: Seq<(Seq<char>, int)>,
    lines: Seq<Seq<char>>,
    mount: u16,
) -> Option<(Seq<u16>, (u16, u16, u16))> {
    let start = rom.len() + padding(rom.len() as int);
    match const_pass(lines, defs, mount) {
        Some((consts, all_defs)) => {
            let full = rom + Seq::new(padding(rom.len() as int) as nat, |i: int| 0u16) + consts;
            if full.len() > 0xffff {
                None
            } else {
                match patch(full, uses, all_defs) {
                    Some(r) => Some((r, (start as u16, consts.len() as u16, mount))),
                    None => None,
                }
            }
        },
        None => None,
    }
}

fn find_label(defs: &Vec<(String, usize)>, name: &String) -> (r: Option<usize>)
    ensures
        r matches Some(v) ==> lookup(labels_view(defs@), name@) == Some(v as int),
        r is None ==> lookup(labels_view(defs@), name@) is None,
{
    let mut i: usize = 0;
    while i < defs.len()
        invariant
            i <= defs@.len(),
            lookup(labels_view(defs@).take(i as int), name@) is None,
        decreases defs@.len() - i,
    {
        proof {
            assert(labels_view(defs@).take(i as int + 1).drop_last() =~= labels_view(defs@).take(i as int));
        }
        if defs[i].0 == *name {
            proof {
                lemma_lookup_prefix(labels_view(defs@), i as int + 1, name@);
            }
            return Some(defs[i].1);
        }
        i += 1;
    }
    proof {
        assert(labels_view(defs@).take(i as int) =~= labels_view(defs@));
    }
    None
}

proof fn lemma_lookup_prefix(defs: Seq<(Seq<char>, int)>, k: int, name: Seq<char>)
    requires
        0 <= k <= defs.len(),
        lookup(defs.take(k), name) is Some,
    ensures
        lookup(defs, name) == lookup(defs.take(k), name),
    decreases defs.len() - k,
{
    if k < defs.len() {
        assert(defs.take(k + 1).drop_last() =~= defs.take(k));
        lemma_lookup_prefix(defs, k + 1, name);
    } else {
        assert(defs.take(k) =~= defs);
    }
}

proof fn lemma_const_pass_none(ls: Seq<Seq<char>>, defs: Seq<(Seq<char>, int)>, mount: u16, k: int)
    requires
        0 <= k <= ls.len(),
        const_pass(ls.take(k), defs, mount) is None,
    ensures
        const_pass(ls, defs, mount) is None,
    decreases ls.len() - k,
{
    if k < ls.len() {
        assert(ls.take(k + 1).drop_last() =~= ls.take(k));
        lemma_const_pass_none(ls, defs, mount, k + 1);
    } else {
        assert(ls.take(k) =~= ls);
    }
}

proof fn lemma_const_grows(ls: Seq<Seq<char>>, defs: Seq<(Seq<char>, int)>, mount: u16, k: int)
    requires
        0 <= k <= ls.len(),
        const_pass(ls.take(k), defs, mount) is Some,
        const_pass(ls, defs, mount) is Some,
    ensures
        const_pass(ls, defs, mount).unwrap().0.len() >= const_pass(ls.take(k), defs, mount).unwrap().0.len(),
    decreases ls.len() - k,
{
    if k < ls.len() {
        assert(ls.take(k + 1).drop_last() =~= ls.take(k));
        if const_pass(ls.take(k + 1), defs, mount) is None {
            lemma_const_pass_none(ls, defs, mount, k + 1);
        } else {
            lemma_const_grows(ls, defs, mount, k + 1);
        }
    } else {
        assert(ls.take(k) =~= ls);
    }
}

proof fn lemma_patch_none(rom: Seq<u16>, uses: Seq<(Seq<char>, int)>, defs: Seq<(Seq<char>, int)>, k: int)
    requires
        0 <= k <= uses.len(),
        patch(rom, uses.take(k), defs) is None,
    ensures
        patch(rom, uses, defs) is None,
    decreases uses.len() - k,
{
    if k < uses.len() {
        assert(uses.take(k + 1).drop_last() =~= uses.take(k));
        lemma_patch_none(rom, uses, defs, k + 1);
    } else {
        assert(uses.take(k) =~= uses);
    }
}

/// Builds the constants block, defines its labels at `mount_position` on, fills in every label
/// use and returns the image, with one copy of the constants block into RAM at
/// `mount_position`. `const_offset` is the number of the block's first line, for error messages.
pub fn find_and_place(assembled: AssemblerOutput, constants: &str, const_offset: usize, mount_position: u16) -> (r: Result<VmDescription, BError>)
    ensures
        ({
            let p = placed(
                assembled.rom@,
                labels_view(assembled.label_definitions@),
                labels_view(assembled.label_uses@),
                lines_of(constants@),
                mount_position,
            );
            &&& r is Ok <==> p is Some
            &&& r matches Ok(d) ==> {
                &&& d.wf()
                &&& p matches Some((rom, m)) && d.rom@ == rom && d.rom_mappings@ == seq![m]
                &&& d.pc == 0
                &&& d.regs@ == seq![0u16, 0u16, 0u16, 0u16, 0u16, 0u16]
                &&& d.mem@ == Seq::new(crate::vm::RAM_LEN as nat, |i: int| 0u16)
                &&& d.callbacks@.len() == 0
                &&& d.rom_blocks@.len() == 0
            }
            &&& r matches Err(e) ==> e is AsmParseError
            &&& r is Err && const_pass(lines_of(constants@), labels_view(assembled.label_definitions@), mount_position)
                is None ==> exists|k: int|
                0 <= k < lines_of(constants@).len() && #[trigger] is_line_error(
                    r->Err_0,
                    line_number(const_offset, k),
                    lines_of(constants@)[k],
                )
        }),
{
    let ghost rom0 = assembled.rom@;
    let ghost defs0 = labels_view(assembled.label_definitions@);
    let ghost uses0 = labels_view(assembled.label_uses@);
    let ghost ls = lines_of(constants@);
    let AssemblerOutput { rom, label_definitions, label_uses, rom_lines: _ } = assembled;
    let mut mem = rom;
    let mut defs = label_definitions;
    let len0 = mem.len();
    let more: usize = if len0 % 16 == 0 { 0 } else { 16 - len0 % 16 };
    let mut k: usize = 0;
    while k < more
        invariant
            rom0 == assembled.rom@,
            defs0 == labels_view(assembled.label_definitions@),
            uses0 == labels_view(assembled.label_uses@),
            k <= more,
            more == padding(len0 as int),
            len0 == rom0.len(),
            mem@ == rom0 + Seq::new(k as nat, |i: int| 0u16),
        decreases more - k,
    {
        mem.push(0);
        proof {
            assert(mem@ =~= rom0 + Seq::new((k + 1) as nat, |i: int| 0u16));
        }
        k += 1;
    }
    let consts_start = mem.len();
    let ghost base = mem@;
    let chars = chars_of(constants);
    let lines = split_lines(chars.as_slice());
    let label_word = chars_of("label");
    proof {
        reveal_strlit("label");
        assert(label_word@ =~= seq!['l', 'a', 'b', 'e', 'l']);
        assert(ls.take(0) =~= Seq::<Seq<char>>::empty());
        assert(base + Seq::<u16>::empty() =~= base);
    }
    let mut consts_amount: usize = 0;
    let mut idx: usize = 0;
    while idx < lines.len()
        invariant
            rom0 == assembled.rom@,
            defs0 == labels_view(assembled.label_definitions@),
            uses0 == labels_view(assembled.label_uses@),
            ls == lines_of(constants@),
            label_word@ == seq!['l', 'a', 'b', 'e', 'l'],
            idx <= lines@.len() == ls.len(),
            forall|j: int| 0 <= j < lines@.len() ==> #[trigger] lines@[j]@ == ls[j],
            const_pass(ls.take(idx as int), defs0, mount_position) matches Some(st) && {
                &&& mem@ == base + st.0
                &&& labels_view(defs@) == st.1
                &&& consts_amount == st.0.len()
            },
            consts_start == base.len(),
            consts_amount <= idx,
        decreases lines@.len() - idx,
    {
        let line = lines[idx].as_slice();
        let line_no = if const_offset < usize::MAX - idx { const_offset + idx } else { usize::MAX };
        let ghost st = const_pass(ls.take(idx as int), defs0, mount_position).unwrap();
        proof {
            assert(ls.take(idx as int + 1).drop_last() =~= ls.take(idx as int));
            assert(ls.take(idx as int + 1).last() == line@);
            assert(const_pass(ls.take(idx as int + 1), defs0, mount_position) == const_step(st, line@, mount_position));
        }
        let t = trim_chars(line);
        if starts_with_exec(t.as_slice(), label_word.as_slice()) {
            if t[t.len() - 1] != ':' {
                proof {
                    lemma_const_pass_none(ls, defs0, mount_position, idx as int + 1);
                }
                let e = line_error(line_no, line, "incorrect label");
                proof {
                    assert(is_line_error(e, line_number(const_offset, idx as int), ls[idx as int]));
                }
                return Err(e);
            }
            proof {
                assert(t@[4] == t@.subrange(0, 5)[4]);
            }
            let name = trim_chars(crate::text::sub_chars(t.as_slice(), 5, t.len() - 1).as_slice());
            if !is_name_exec(name.as_slice()) {
                proof {
                    lemma_const_pass_none(ls, defs0, mount_position, idx as int + 1);
                }
                let e = line_error(line_no, line, "incorrect label");
                proof {
                    assert(is_line_error(e, line_number(const_offset, idx as int), ls[idx as int]));
                }
                return Err(e);
            }
            let name_s = string_of(name.as_slice());
            if find_label(&defs, &name_s).is_some() {
                proof {
                    let v = lookup(labels_view(defs@), name@);
                    lemma_lookup_defines(labels_view(defs@), name@);
                    lemma_const_pass_none(ls, defs0, mount_position, idx as int + 1);
                }
                let e = line_error(line_no, line, "label already in use");
                proof {
                    assert(is_line_error(e, line_number(const_offset, idx as int), ls[idx as int]));
                }
                return Err(e);
            }
            proof {
                lemma_lookup_defines(labels_view(defs@), name@);
            }
            if consts_amount > 0xffff {
                proof {
                    if const_pass(ls, defs0, mount_position) is Some {
                        lemma_const_grows(ls, defs0, mount_position, idx as int);
                    }
                }
                let e = line_error(line_no, line, "the constants block is too large");
                proof {
                    assert(is_line_error(e, line_number(const_offset, idx as int), ls[idx as int]));
                }
                return Err(e);
            }
            let ghost before = defs@;
            defs.push((name_s, mount_position as usize + consts_amount));
            proof {
                assert(labels_view(defs@) =~= labels_view(before).push((name@, mount_position + st.0.len())));
            }
        } else if t.len() > 0 && t[0] == 'M' {
            let parts = split_chars(t.as_slice(), '=');
            if parts.len() >= 2 {
                let num = trim_chars(parts[1].as_slice());
                if !(num.len() == 0 || crate::util::literal_syntax(num.as_slice())) {
                    proof {
                        lemma_const_pass_none(ls, defs0, mount_position, idx as int + 1);
                    }
                    let e = line_error(line_no, line, "invalid number");
                proof {
                    assert(is_line_error(e, line_number(const_offset, idx as int), ls[idx as int]));
                }
                return Err(e);
                }
                match literal_chars_to_u16(num.as_slice()) {
                    Ok(v) => {
                        mem.push(v);
                        consts_amount += 1;
                        proof {
                            assert(mem@ =~= base + st.0.push(v));
                        }
                    },
                    Err(_) => {
                        proof {
                            lemma_const_pass_none(ls, defs0, mount_position, idx as int + 1);
                        }
                        let e = line_error(line_no, line, "invalid number");
                proof {
                    assert(is_line_error(e, line_number(const_offset, idx as int), ls[idx as int]));
                }
                return Err(e);
                    },
                }
            }
        } else if t.len() == 0 || t[0] == '#' {
        } else {
            proof {
                lemma_const_pass_none(ls, defs0, mount_position, idx as int + 1);
            }
            let e = line_error(line_no, line, "only comments, labels and memory allowed");
                proof {
                    assert(is_line_error(e, line_number(const_offset, idx as int), ls[idx as int]));
                }
                return Err(e);
        }
        idx += 1;
    }
    proof {
        assert(ls.take(idx as int) =~= ls);
    }
    let ghost cst = const_pass(ls, defs0, mount_position).unwrap();
    let memlen = mem.len();
    if memlen > 0xffff {
        return Err(BError::AsmParseError(String::from_str("the program is too large")));
    }
    let ghost full = mem@;
    proof {
        assert(full == rom0 + Seq::new(padding(rom0.len() as int) as nat, |i: int| 0u16) + cst.0);
    }
    let nu = label_uses.len();
    let mut u: usize = 0;
    proof {
        assert(uses0.take(0) =~= Seq::<(Seq<char>, int)>::empty());
    }
    while u < nu
        invariant
            rom0 == assembled.rom@,
            defs0 == labels_view(assembled.label_definitions@),
            uses0 == labels_view(assembled.label_uses@),
            ls == lines_of(constants@),
            const_pass(ls, defs0, mount_position) == Some(cst),
            full == rom0 + Seq::new(padding(rom0.len() as int) as nat, |i: int| 0u16) + cst.0,
            full.len() <= 0xffff,
            nu == label_uses@.len() == uses0.len(),
            uses0 == labels_view(label_uses@),
            u <= nu,
            labels_view(defs@) == cst.1,
            patch(full, uses0.take(u as int), cst.1) == Some(mem@),
            mem@.len() == full.len(),
        decreases nu - u,
    {
        proof {
            assert(uses0.take(u as int + 1).drop_last() =~= uses0.take(u as int));
            assert(uses0.take(u as int + 1).last() == uses0[u as int]);
        }
        let (ref name, pos) = label_uses[u];
        let value = match find_label(&defs, name) {
            Some(v) => v,
            None => {
                proof {
                    lemma_patch_none(full, uses0, cst.1, u as int + 1);
                }
                return Err(BError::AsmParseError(String::from_str("a label is used but not defined")));
            },
        };
        if value > 0x7fff || pos >= mem.len() {
            proof {
                lemma_patch_none(full, uses0, cst.1, u as int + 1);
            }
            return Err(BError::AsmParseError(String::from_str("a label address does not fit in 15 bits")));
        }
        let old_word = mem[pos];
        mem.set(pos, old_word | (value as u16));
        u += 1;
    }
    proof {
        assert(uses0.take(nu as int) =~= uses0);
    }
    let consts_len = memlen - consts_start;
    let mapping = (consts_start as u16, consts_len as u16, mount_position);
    let mut d = VmDescription::default();
    d.rom = mem;
    d.rom_mappings = vec![mapping];
    proof {
        assert(d.rom_mappings@ =~= seq![mapping]);
    }
    Ok(d)
}

proof fn lemma_lookup_defines(defs: Seq<(Seq<char>, int)>, name: Seq<char>)
    ensures
        lookup(defs, name) is Some <==> defines(defs, name),
    decreases defs.len(),
{
    if defs.len() > 0 {
        lemma_lookup_defines(defs.drop_last(), name);
        if defines(defs.drop_last(), name) {
            let i = choose|i: int| 0 <= i < defs.drop_last().len() && #[trigger] defs.drop_last()[i].0 == name;
            assert(defs[i].0 == name);
        }
        if defines(defs, name) {
            let i = choose|i: int| 0 <= i < defs.len() && #[trigger] defs[i].0 == name;
            if i < defs.len() - 1 {
                assert(defs.drop_last()[i].0 == name);
            }
        }
        if defs.last().0 == name {
            assert(defs[defs.len() - 1].0 == name);
        }
    }
}

} // verus!
