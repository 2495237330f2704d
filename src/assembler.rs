//! The assembler: preprocessing, the text pass and the constants pass.
use vstd::prelude::*;

pub mod const_processor;
pub mod preprocessor;
pub mod text_processor;

use crate::assembler::const_processor::placed;
use crate::assembler::preprocessor::{expand, join_lines, join_sep, lines_view, macro_section, subst_defines, MAX_EXPANSIONS};
use crate::assembler::text_processor::text_pass;
use crate::text::{append_chars, is_space, lines_of, split_lines, starts_with, starts_with_exec, trim, trim_chars};
use crate::util::{chars_of, literal_chars_to_u16, literal_syntax, literal_value, literal_word, string_of, BError};
use crate::vm::{VmDescription, RAM_LEN};

verus! {

/// The RAM address that the constants block is copied to when `[consts N]` is absent.
pub const DEFAULT_MOUNT: u16 = 0xfff0;

/// The first index from `from` on of a line that reads `word` once trimmed.
pub open spec fn first_line(lines: Seq<Seq<char>>, from: int, word: Seq<char>) -> Option<int>
    decreases lines.len() - from,
{
    if from < 0 || from >= lines.len() {
        None
    } else if trim(lines[from]) == word {
        Some(from)
    } else {
        first_line(lines, from + 1, word)
    }
}

fn find_marker(lines: &Vec<Vec<char>>, from: usize, word: &[char]) -> (r: Option<usize>)
    ensures
        match r {
            Some(i) => first_line(lines_view(lines@), from as int, word@) == Some(i as int),
            None => first_line(lines_view(lines@), from as int, word@) is None,
        },
{
    let ghost ls = lines_view(lines@);
    let mut i = from;
    while i < lines.len()
        invariant
            ls == lines_view(lines@),
            from <= i,
            first_line(ls, from as int, word@) == first_line(ls, i as int, word@),
        decreases lines@.len() - i,
    {
        let t = trim_chars(lines[i].as_slice());
        proof {
            assert(ls[i as int] == lines@[i as int]@);
        }
        if crate::text::eq_chars(t.as_slice(), word) {
            return Some(i);
        }
        i += 1;
    }
    None
}

/// What a line says as a `[consts N]` marker: `None` for another line, `Some(None)` for a
/// marker whose number is malformed or too large, `Some(Some(n))` for mount point `n`.
pub open spec fn consts_marker_spec(line: Seq<char>) -> Option<Option<u16>> {
    let t = trim(line);
    let n = t.len() as int;
    if !starts_with(t, seq!['[', 'c', 'o', 'n', 's', 't', 's']) || n < 8 || t[n - 1] != ']' || !is_space(t[7]) {
        None
    } else {
        let number = trim(t.subrange(7, n - 1));
        if number.len() == 0 || literal_value(number) is None {
            Some(None)
        } else {
            Some(literal_word(number))
        }
    }
}

/// The first marker line from `from` on.
pub open spec fn first_consts(lines: Seq<Seq<char>>, from: int) -> Option<(int, Option<u16>)>
    decreases lines.len() - from,
{
    if from < 0 || from >= lines.len() {
        None
    } else {
        match consts_marker_spec(lines[from]) {
            Some(v) => Some((from, v)),
            None => first_consts(lines, from + 1),
        }
    }
}

fn consts_marker(line: &[char]) -> (r: Option<Result<u16, ()>>)
    ensures
        match r {
            None => consts_marker_spec(line@) is None,
            Some(Ok(v)) => consts_marker_spec(line@) == Some(Some(v)),
            Some(Err(_)) => consts_marker_spec(line@) == Some(None::<u16>),
        },
{
    let t = trim_chars(line);
    let head = chars_of("[consts");
    proof {
        reveal_strlit("[consts");
        assert(head@ =~= seq!['[', 'c', 'o', 'n', 's', 't', 's']);
    }
    let n = t.len();
    if !starts_with_exec(t.as_slice(), head.as_slice()) || n < 8 || t[n - 1] != ']' {
        return None;
    }
    if head.len() != 7 || !crate::text::is_space_exec(t[7]) {
        return None;
    }
    let number = trim_chars(crate::text::sub_chars(t.as_slice(), 7, n - 1).as_slice());
    if number.len() == 0 || !literal_syntax(number.as_slice()) {
        return Some(Err(()));
    }
    Some(literal_chars_to_u16(number.as_slice()))
}

/// `n + 1`, held at the largest value.
fn succ(n: usize) -> (r: usize)
    ensures
        n < usize::MAX ==> r == n + 1,
        r >= n,
{
    if n < usize::MAX {
        n + 1
    } else {
        n
    }
}

/// The lines `from .. to`, each followed by a newline.
fn join_section(lines: &Vec<Vec<char>>, from: usize, to: usize) -> (r: String)
    requires
        from <= to <= lines@.len(),
    ensures
        r@ == join_lines(lines_view(lines@).subrange(from as int, to as int)),
{
    let ghost ls = lines_view(lines@);
    let mut out: Vec<char> = Vec::new();
    let mut i = from;
    proof {
        assert(ls.subrange(from as int, from as int) =~= Seq::<Seq<char>>::empty());
    }
    while i < to
        invariant
            ls == lines_view(lines@),
            from <= i <= to <= lines@.len(),
            out@ == join_lines(ls.subrange(from as int, i as int)),
        decreases to - i,
    {
        append_chars(&mut out, lines[i].as_slice());
        out.push('\n');
        proof {
            assert(ls.subrange(from as int, i as int + 1).drop_last() =~= ls.subrange(from as int, i as int));
            assert(ls.subrange(from as int, i as int + 1).last() == lines@[i as int]@);
            assert(out@ =~= join_lines(ls.subrange(from as int, i as int + 1)));
        }
        i += 1;
    }
    string_of(out.as_slice())
}

/// Where the sections of a source begin: the first line of `[macros]`, the `[text]` marker, the
/// `[consts N]` marker (or the end) and the mount point.
pub open spec fn sections(ls: Seq<Seq<char>>) -> Option<(int, int, int, u16)> {
    let mstart = match first_line(ls, 0, seq!['[', 'm', 'a', 'c', 'r', 'o', 's', ']']) {
        Some(m) => m + 1,
        None => 0,
    };
    if marker_before(ls, mstart - 1) {
        None
    } else {
    match first_line(ls, mstart, seq!['[', 't', 'e', 'x', 't', ']']) {
        None => None,
        Some(t) => match first_consts(ls, t + 1) {
            None => Some((mstart, t, ls.len() as int, DEFAULT_MOUNT)),
            Some((c, Some(v))) => Some((mstart, t, c, v)),
            Some((_, None)) => None,
        },
    }
    }
}

/// A `[text]` or `[consts N]` marker stands before line `m`: the sections are out of order.
pub open spec fn marker_before(ls: Seq<Seq<char>>, m: int) -> bool {
    exists|k: int|
        0 <= k < m && k < ls.len() && (trim(#[trigger] ls[k]) == seq!['[', 't', 'e', 'x', 't', ']']
            || consts_marker_spec(ls[k]) is Some)
}

fn has_marker_before(lines: &Vec<Vec<char>>, m: usize, text_word: &[char]) -> (r: bool)
    requires
        m <= lines@.len(),
        text_word@ == seq!['[', 't', 'e', 'x', 't', ']'],
    ensures
        r == marker_before(lines_view(lines@), m as int),
{
    let ghost ls = lines_view(lines@);
    let mut k: usize = 0;
    while k < m
        invariant
            ls == lines_view(lines@),
            m <= lines@.len(),
            text_word@ == seq!['[', 't', 'e', 'x', 't', ']'],
            k <= m,
            forall|j: int| 0 <= j < k ==> !(trim(#[trigger] ls[j]) == seq!['[', 't', 'e', 'x', 't', ']']
                || consts_marker_spec(ls[j]) is Some),
        decreases m - k,
    {
        proof {
            assert(ls[k as int] == lines@[k as int]@);
        }
        let t = trim_chars(lines[k].as_slice());
        if crate::text::eq_chars(t.as_slice(), text_word) || consts_marker(lines[k].as_slice()).is_some() {
            return true;
        }
        k += 1;
    }
    false
}

/// What the whole assembler makes of a source: ROM and the copy of the constants block.
pub open spec fn assembled(a: Seq<char>) -> Option<(Seq<u16>, (u16, u16, u16))> {
    let ls = lines_of(a);
    match sections(ls) {
        None => None,
        Some((mstart, t, c, mount)) => {
            let macros_text = join_lines(ls.subrange(mstart, t));
            let code = join_lines(ls.subrange(t + 1, c));
            let consts = if c < ls.len() {
                join_lines(ls.subrange(c + 1, ls.len() as int))
            } else {
                Seq::empty()
            };
            match macro_section(lines_of(macros_text)) {
                None => None,
                Some((defs, ms)) => match expand(crate::text::split_on(code, '\n'), 0, ms, MAX_EXPANSIONS as nat) {
                    None => None,
                    Some(el) => {
                        let pre = subst_defines(join_sep(el), defs);
                        match text_pass(lines_of(pre)) {
                            None => None,
                            Some(st) => if st.0.len() + 1 > 0xffff {
                                None
                            } else {
                                placed(st.0.push(0x8000u16), st.1, st.2, lines_of(consts), mount)
                            },
                        }
                    },
                },
            }
        },
    }
}

/// Runs the whole assembler on a source with the sections `[macros]` (optional), `[text]` and
/// `[consts N]` (optional, `N` defaults to `0xfff0`), in that order.
pub fn run(assembly: &str) -> (r: Result<VmDescription, BError>)
    ensures
        r is Ok <==> assembled(assembly@) is Some,
        r matches Ok(d) ==> {
            &&& d.wf()
            &&& assembled(assembly@) matches Some((rom, m)) && d.rom@ == rom && d.rom_mappings@ == seq![m]
            &&& d.pc == 0
            &&& d.regs@ == seq![0u16, 0u16, 0u16, 0u16, 0u16, 0u16]
            &&& d.mem@ == Seq::new(RAM_LEN as nat, |i: int| 0u16)
            &&& d.callbacks@.len() == 0
            &&& d.rom_blocks@.len() == 0
        },
        r matches Err(e) ==> e is AsmParseError,
{
    let chars = chars_of(assembly);
    let lines = split_lines(chars.as_slice());
    let ghost ls = lines_of(assembly@);
    proof {
        assert(lines_view(lines@) =~= ls);
    }
    let macros_word = chars_of("[macros]");
    let text_word = chars_of("[text]");
    proof {
        reveal_strlit("[text]");
        reveal_strlit("[macros]");
        assert(text_word@ =~= seq!['[', 't', 'e', 'x', 't', ']']);
        assert(macros_word@ =~= seq!['[', 'm', 'a', 'c', 'r', 'o', 's', ']']);
    }
    let macros_start = match find_marker(&lines, 0, macros_word.as_slice()) {
        Some(m) => {
            proof {
                lemma_first_line_range(ls, 0, macros_word@);
            }
            succ(m)
        },
        None => 0,
    };
    if macros_start > 0 && has_marker_before(&lines, macros_start - 1, text_word.as_slice()) {
        return Err(BError::AsmParseError(String::from_str("bad section ordering")));
    }
    proof {
        if macros_start == 0 {
            assert(!marker_before(ls, -1));
        }
    }
    let text_line = match find_marker(&lines, macros_start, text_word.as_slice()) {
        Some(t) => t,
        None => {
            return Err(
                BError::AsmParseError(String::from_str("bad section ordering or `[text]` section is missing")),
            );
        },
    };
    proof {
        lemma_first_line_range(ls, macros_start as int, text_word@);
    }
    let mut consts_line = lines.len();
    let mut mount: u16 = DEFAULT_MOUNT;
    let mut i = text_line + 1;
    while i < lines.len()
        invariant_except_break
            ls == lines_of(assembly@),
            text_word@ == seq!['[', 't', 'e', 'x', 't', ']'],
            macros_word@ == seq!['[', 'm', 'a', 'c', 'r', 'o', 's', ']'],
            first_line(ls, macros_start as int, text_word@) == Some(text_line as int),
            macros_start as int == match first_line(ls, 0, macros_word@) {
                Some(m) => m + 1,
                None => 0,
            },
            ls == lines_view(lines@),
            macros_start <= text_line < i <= lines@.len(),
            consts_line == lines@.len(),
            mount == DEFAULT_MOUNT,
            first_consts(ls, text_line + 1) == first_consts(ls, i as int),
        ensures
            ls == lines_of(assembly@),
            text_word@ == seq!['[', 't', 'e', 'x', 't', ']'],
            macros_word@ == seq!['[', 'm', 'a', 'c', 'r', 'o', 's', ']'],
            first_line(ls, macros_start as int, text_word@) == Some(text_line as int),
            macros_start as int == match first_line(ls, 0, macros_word@) {
                Some(m) => m + 1,
                None => 0,
            },
            ls == lines_view(lines@),
            macros_start <= text_line < lines@.len(),
            consts_line <= lines@.len(),
            consts_line == lines@.len() ==> mount == DEFAULT_MOUNT && first_consts(ls, text_line + 1) is None,
            consts_line < lines@.len() ==> text_line < consts_line && first_consts(ls, text_line + 1) == Some(
                (consts_line as int, Some(mount)),
            ),
        decreases lines@.len() - i,
    {
        proof {
            assert(ls[i as int] == lines@[i as int]@);
        }
        match consts_marker(lines[i].as_slice()) {
            Some(Ok(v)) => {
                consts_line = i;
                mount = v;
                break;
            },
            Some(Err(())) => {
                proof {
                    assert(sections(ls) is None);
                }
                return Err(BError::AsmParseError(String::from_str("the number of the consts section is not valid")));
            },
            None => {},
        }
        i += 1;
    }
    proof {
        assert(sections(ls) == Some((macros_start as int, text_line as int, consts_line as int, mount)));
    }
    let macros_text = join_section(&lines, macros_start, text_line);
    let code = join_section(&lines, text_line + 1, consts_line);
    let consts_text = if consts_line < lines.len() {
        join_section(&lines, consts_line + 1, lines.len())
    } else {
        String::new()
    };
    let (preprocessed, _) = preprocessor::preprocess(macros_text.as_str(), code.as_str())?;
    let assembled = text_processor::assemble(preprocessed, succ(succ(text_line)))?;
    let const_offset = if consts_line < lines.len() {
        succ(succ(consts_line))
    } else {
        0
    };
    const_processor::find_and_place(assembled, consts_text.as_str(), const_offset, mount)
}

proof fn lemma_first_line_range(ls: Seq<Seq<char>>, from: int, word: Seq<char>)
    ensures
        first_line(ls, from, word) matches Some(i) ==> 0 <= from <= i < ls.len(),
    decreases ls.len() - from,
{
    if 0 <= from < ls.len() {
        lemma_first_line_range(ls, from + 1, word);
    }
}

} // verus!
