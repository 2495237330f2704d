//! The preprocessor: reads `define` and `begin .. end` macro definitions from the `[macros]`
//! section and expands them in the `[text]` section.
use vstd::prelude::*;

use crate::assembler::text_processor::{is_line_error, line_error, Cmds};
use crate::text::{
    append_chars, is_name, is_name_exec, is_space, is_space_exec, lines_of, split_chars, split_lines,
    split_on, trim, trim_chars, trim_start,
};
use crate::util::{chars_of, literal_chars_to_u16, literal_syntax, literal_value, literal_word, string_of, BError};
use crate::vm::Register;

verus! {

/// The whitespace-separated tokens of `s` (`str::split_whitespace`).
pub open spec fn tokens(s: Seq<char>) -> Seq<Seq<char>>
    decreases s.len(),
{
    if s.len() == 0 {
        Seq::empty()
    } else {
        let rest = tokens(s.drop_last());
        if is_space(s.last()) {
            rest
        } else if s.len() >= 2 && !is_space(s[s.len() - 2]) && rest.len() > 0 {
            rest.update(rest.len() - 1, rest.last().push(s.last()))
        } else {
            rest.push(seq![s.last()])
        }
    }
}

fn split_whitespace(s: &[char]) -> (r: Vec<Vec<char>>)
    ensures
        r@.len() == tokens(s@).len(),
        forall|i: int| 0 <= i < r@.len() ==> #[trigger] r@[i]@ == tokens(s@)[i],
{
    let mut out: Vec<Vec<char>> = Vec::new();
    let mut i: usize = 0;
    proof {
        assert(s@.subrange(0, 0) =~= Seq::<char>::empty());
    }
    while i < s.len()
        invariant
            i <= s@.len(),
            tokens(s@.subrange(0, i as int)) == Seq::new(out@.len(), |k: int| out@[k]@),
            i > 0 && !is_space(s@[i - 1]) ==> out@.len() > 0,
        decreases s@.len() - i,
    {
        let ghost before = Seq::new(out@.len(), |k: int| out@[k]@);
        proof {
            assert(s@.subrange(0, i as int + 1).drop_last() =~= s@.subrange(0, i as int));
        }
        let c = s[i];
        if is_space_exec(c) {
        } else if i > 0 && !is_space_exec(s[i - 1]) {
            let last = out.len() - 1;
            let mut tok = out.remove(last);
            tok.push(c);
            out.push(tok);
            proof {
                assert(Seq::new(out@.len(), |k: int| out@[k]@) =~= before.update(
                    before.len() - 1,
                    before.last().push(c),
                ));
            }
        } else {
            out.push(vec![c]);
            proof {
                assert(out@[out@.len() - 1]@ =~= seq![c]);
                assert(Seq::new(out@.len(), |k: int| out@[k]@) =~= before.push(seq![c]));
            }
        }
        i += 1;
    }
    proof {
        assert(s@.subrange(0, i as int) =~= s@);
        assert forall|k: int| 0 <= k < out@.len() implies #[trigger] out@[k]@ == tokens(s@)[k] by {
            assert(Seq::new(out@.len(), |k: int| out@[k]@)[k] == out@[k]@);
        }
    }
    out
}

/// The names that defines and macros may not take: registers, keywords and mnemonics.
pub open spec fn reserved(name: Seq<char>) -> bool {
    Register::named(name) is Some || name == seq!['b', 'e', 'g', 'i', 'n'] || name == seq!['e', 'n', 'd']
        || name == seq!['l', 'a', 'b', 'e', 'l'] || Cmds::named(name) is Some
}

fn is_reserved(name: &[char]) -> (r: bool)
    ensures
        r == reserved(name@),
{
    let begin_word = chars_of("begin");
    let end_word = chars_of("end");
    let label_word = chars_of("label");
    proof {
        reveal_strlit("begin");
        reveal_strlit("end");
        reveal_strlit("label");
        assert(begin_word@ =~= seq!['b', 'e', 'g', 'i', 'n']);
        assert(end_word@ =~= seq!['e', 'n', 'd']);
        assert(label_word@ =~= seq!['l', 'a', 'b', 'e', 'l']);
    }
    Register::from_chars(name).is_some() || crate::text::eq_chars(name, begin_word.as_slice())
        || crate::text::eq_chars(name, end_word.as_slice()) || crate::text::eq_chars(
        name,
        label_word.as_slice(),
    ) || Cmds::from_str(name).is_some()
}

/// A macro: its name, its formal arguments and its body, one entry per line.
pub struct Macro {
    pub name: Vec<char>,
    pub args: Vec<Vec<char>>,
    pub body: Vec<Vec<char>>,
}

/// The characters of each entry.
pub open spec fn lines_view(v: Seq<Vec<char>>) -> Seq<Seq<char>> {
    Seq::new(v.len(), |i: int| v[i]@)
}

/// A macro as values: name, formal arguments, body lines.
pub type MacroSpec = (Seq<char>, Seq<Seq<char>>, Seq<Seq<char>>);

impl Macro {
    pub open spec fn spec(&self) -> MacroSpec {
        (self.name@, lines_view(self.args@), lines_view(self.body@))
    }

    /// A macro with an empty body.
    pub fn new(name: Vec<char>, args: Vec<Vec<char>>) -> (r: Self)
        ensures
            r.spec() == (name@, lines_view(args@), Seq::<Seq<char>>::empty()),
    {
        let body: Vec<Vec<char>> = Vec::new();
        proof {
            assert(lines_view(body@) =~= Seq::<Seq<char>>::empty());
        }
        Macro { name, args, body }
    }
}

pub open spec fn macros_view(v: Seq<Macro>) -> Seq<MacroSpec> {
    Seq::new(v.len(), |i: int| v[i].spec())
}

pub open spec fn defines_view(v: Seq<(Vec<char>, u16)>) -> Seq<(Seq<char>, u16)> {
    Seq::new(v.len(), |i: int| (v[i].0@, v[i].1))
}

/// `s` with every `= NAME` that is followed by whitespace or `;` written as `= VALUE`.
pub open spec fn substitute(s: Seq<char>, name: Seq<char>, value: Seq<char>) -> Seq<char>
    decreases s.len(),
{
    if s.len() == 0 {
        s
    } else if matches_at(s, name) {
        seq!['=', ' '] + value + substitute(s.subrange(2 + name.len() as int, s.len() as int), name, value)
    } else {
        seq![s[0]] + substitute(s.drop_first(), name, value)
    }
}

/// `s` begins with `=`, one whitespace character and `name`, followed by whitespace or `;`.
pub open spec fn matches_at(s: Seq<char>, name: Seq<char>) -> bool {
    let e = 2 + name.len();
    &&& name.len() > 0
    &&& s.len() > e
    &&& s[0] == '='
    &&& is_space(s[1])
    &&& s.subrange(2, e as int) == name
    &&& (is_space(s[e as int]) || s[e as int] == ';')
}

fn matches_at_exec(s: &[char], from: usize, name: &[char]) -> (r: bool)
    requires
        from <= s@.len(),
    ensures
        r == matches_at(s@.subrange(from as int, s@.len() as int), name@),
{
    let ghost t = s@.subrange(from as int, s@.len() as int);
    let n = s.len();
    let k = name.len();
    if k == 0 || n - from < 3 || n - from - 3 < k {
        return false;
    }
    if s[from] != '=' || !is_space_exec(s[from + 1]) {
        return false;
    }
    let mut j: usize = 0;
    while j < k
        invariant
            t == s@.subrange(from as int, s@.len() as int),
            j <= k == name@.len(),
            from + 2 + k < n == s@.len(),
            forall|q: int| 0 <= q < j ==> s@[from + 2 + q] == name@[q],
        decreases k - j,
    {
        if s[from + 2 + j] != name[j] {
            proof {
                assert(t[2 + j as int] == s@[from + 2 + j as int]);
                assert(t.subrange(2, 2 + k as int)[j as int] != name@[j as int]);
            }
            return false;
        }
        j += 1;
    }
    proof {
        assert(t.subrange(2, 2 + k as int) =~= name@);
    }
    let e = from + 2 + k;
    is_space_exec(s[e]) || s[e] == ';'
}

/// Writes `= VALUE` for every `= NAME` in `s`, as `substitute` says.
pub fn substitute_line(s: &[char], name: &[char], value: &[char]) -> (r: Vec<char>)
    ensures
        r@ == substitute(s@, name@, value@),
{
    let n = s.len();
    let mut out: Vec<char> = Vec::new();
    let mut i: usize = 0;
    proof {
        assert(s@.subrange(0, n as int) =~= s@);
    }
    while i < n
        invariant
            i <= n == s@.len(),
            out@ + substitute(s@.subrange(i as int, n as int), name@, value@) == substitute(
                s@,
                name@,
                value@,
            ),
        decreases n - i,
    {
        let ghost t = s@.subrange(i as int, n as int);
        if matches_at_exec(s, i, name) {
            let ghost before = out@;
            out.push('=');
            out.push(' ');
            append_chars(&mut out, value);
            proof {
                let rest = t.subrange(2 + name@.len() as int, t.len() as int);
                assert(rest =~= s@.subrange(i + 2 + name@.len() as int, n as int));
                assert(substitute(t, name@, value@) == seq!['=', ' '] + value@ + substitute(rest, name@, value@));
                assert(out@ =~= before + seq!['=', ' '] + value@);
                assert(before + substitute(t, name@, value@) =~= out@ + substitute(rest, name@, value@));
            }
            i = i + 2 + name.len();
        } else {
            let ghost before = out@;
            out.push(s[i]);
            proof {
                assert(t.drop_first() =~= s@.subrange(i + 1, n as int));
                assert(before + substitute(t, name@, value@) =~= out@ + substitute(
                    s@.subrange(i + 1, n as int),
                    name@,
                    value@,
                ));
            }
            i += 1;
        }
    }
    proof {
        assert(s@.subrange(n as int, n as int) =~= Seq::<char>::empty());
        assert(out@ + Seq::<char>::empty() =~= out@);
    }
    out
}

pub open spec fn has_define(defs: Seq<(Seq<char>, u16)>, name: Seq<char>) -> bool {
    exists|i: int| 0 <= i < defs.len() && #[trigger] defs[i].0 == name
}

pub open spec fn has_macro(ms: Seq<MacroSpec>, name: Seq<char>) -> bool {
    exists|i: int| 0 <= i < ms.len() && #[trigger] ms[i].0 == name
}

fn find_macro(macros: &Vec<Macro>, name: &[char]) -> (r: bool)
    ensures
        r == has_macro(macros_view(macros@), name@),
{
    let mut i: usize = 0;
    while i < macros.len()
        invariant
            i <= macros@.len(),
            forall|k: int| 0 <= k < i ==> macros@[k].name@ != name@,
        decreases macros@.len() - i,
    {
        if crate::text::eq_chars(macros[i].name.as_slice(), name) {
            proof {
                assert(macros_view(macros@)[i as int].0 == name@);
            }
            return true;
        }
        i += 1;
    }
    proof {
        if has_macro(macros_view(macros@), name@) {
            let k = choose|k: int| 0 <= k < macros_view(macros@).len() && #[trigger] macros_view(macros@)[k].0 == name@;
            assert(macros@[k].name@ == name@);
        }
    }
    false
}

fn find_define(defines: &Vec<(Vec<char>, u16)>, name: &[char]) -> (r: bool)
    ensures
        r == has_define(defines_view(defines@), name@),
{
    let mut i: usize = 0;
    while i < defines.len()
        invariant
            i <= defines@.len(),
            forall|k: int| 0 <= k < i ==> #[trigger] defines@[k].0@ != name@,
        decreases defines@.len() - i,
    {
        if crate::text::eq_chars(defines[i].0.as_slice(), name) {
            proof {
                assert(defines_view(defines@)[i as int].0 == name@);
            }
            return true;
        }
        i += 1;
    }
    proof {
        if has_define(defines_view(defines@), name@) {
            let k = choose|k: int| 0 <= k < defines_view(defines@).len() && #[trigger] defines_view(defines@)[k].0 == name@;
            assert(defines@[k].0@ == name@);
        }
    }
    false
}

/// The first index of `c` in `s`.
pub open spec fn first_of(s: Seq<char>, c: char) -> Option<int>
    decreases s.len(),
{
    if s.len() == 0 {
        None
    } else if s[0] == c {
        Some(0)
    } else {
        match first_of(s.drop_first(), c) {
            Some(k) => Some(k + 1),
            None => None,
        }
    }
}

proof fn lemma_first_of(s: Seq<char>, c: char, i: int)
    requires
        0 <= i <= s.len(),
        crate::text::lacks(s.subrange(0, i), c),
        i < s.len() ==> s[i] == c,
    ensures
        i < s.len() ==> first_of(s, c) == Some(i),
        i == s.len() ==> first_of(s, c) is None,
    decreases s.len(),
{
    if s.len() > 0 && i > 0 {
        assert(s.subrange(0, i)[0] == s[0]);
        let t = s.drop_first();
        assert forall|k: int| 0 <= k < i - 1 implies #[trigger] t.subrange(0, i - 1)[k] != c by {
            assert(t.subrange(0, i - 1)[k] == s.subrange(0, i)[k + 1]);
        }
        lemma_first_of(t, c, i - 1);
    }
}

/// The name and formal arguments of `begin NAME(a, b, ..)`, from the text after `begin`
/// without whitespace.
pub open spec fn macro_head_spec(c: Seq<char>) -> Option<(Seq<char>, Seq<Seq<char>>)> {
    match first_of(c, '(') {
        None => None,
        Some(open) => if c.last() != ')' || open + 1 > c.len() - 1 {
            None
        } else {
            let inner = c.subrange(open + 1, c.len() - 1);
            Some(
                (
                    c.subrange(0, open),
                    if inner.len() == 0 {
                        Seq::empty()
                    } else {
                        split_on(inner, ',')
                    },
                ),
            )
        },
    }
}

fn macro_head(compact: &[char]) -> (r: Option<(Vec<char>, Vec<Vec<char>>)>)
    ensures
        match r {
            Some((n, a)) => macro_head_spec(compact@) == Some((n@, lines_view(a@))),
            None => macro_head_spec(compact@) is None,
        },
{
    let mut open: usize = 0;
    while open < compact.len() && compact[open] != '('
        invariant
            open <= compact@.len(),
            crate::text::lacks(compact@.subrange(0, open as int), '('),
        decreases compact@.len() - open,
    {
        proof {
            assert(compact@.subrange(0, open as int + 1) =~= compact@.subrange(0, open as int).push(compact@[open as int]));
        }
        open += 1;
    }
    proof {
        lemma_first_of(compact@, '(', open as int);
    }
    if open == compact.len() || compact[compact.len() - 1] != ')' || open + 1 > compact.len() - 1 {
        return None;
    }
    let name = crate::text::sub_chars(compact, 0, open);
    let inner = crate::text::sub_chars(compact, open + 1, compact.len() - 1);
    let args = if inner.len() == 0 {
        Vec::new()
    } else {
        split_chars(inner.as_slice(), ',')
    };
    proof {
        if inner@.len() == 0 {
            assert(lines_view(args@) =~= Seq::<Seq<char>>::empty());
        } else {
            assert(lines_view(args@) =~= split_on(inner@, ','));
        }
    }
    Some((name, args))
}

/// The characters of the tokens, one after another.
pub open spec fn concat(ts: Seq<Seq<char>>) -> Seq<char>
    decreases ts.len(),
{
    if ts.len() == 0 {
        Seq::empty()
    } else {
        concat(ts.drop_last()) + ts.last()
    }
}

/// The state of reading the `[macros]` section: defines, finished macros, the macro being read.
pub type MacroState = (Seq<(Seq<char>, u16)>, Seq<MacroSpec>, Option<MacroSpec>);

pub open spec fn define_word() -> Seq<char> {
    seq!['d', 'e', 'f', 'i', 'n', 'e']
}

pub open spec fn begin_word() -> Seq<char> {
    seq!['b', 'e', 'g', 'i', 'n']
}

pub open spec fn end_word() -> Seq<char> {
    seq!['e', 'n', 'd']
}

/// Reading one more line of the `[macros]` section.
pub open spec fn macro_step(st: MacroState, line: Seq<char>) -> Option<MacroState> {
    let (defs, ms, cur) = st;
    match cur {
        Some(m) => if crate::text::starts_with(trim(line), end_word()) {
            Some((defs, ms.push(m), None))
        } else {
            Some((defs, ms, Some((m.0, m.1, m.2.push(line)))))
        },
        None => {
            let toks = tokens(line);
            if toks.len() == 0 {
                Some(st)
            } else if toks[0] == define_word() {
                if toks.len() < 3 || !is_name(toks[1]) || literal_value(toks[2]) is None || reserved(
                    toks[1],
                ) || has_define(defs, toks[1]) || has_macro(ms, toks[1]) || literal_word(toks[2]) is None
                    || toks.len() > 3 {
                    None
                } else {
                    Some((defs.push((toks[1], literal_word(toks[2]).unwrap())), ms, None))
                }
            } else if toks[0] == begin_word() {
                match macro_head_spec(concat(toks.drop_first())) {
                    Some((name, args)) => if is_name(name) && !reserved(name) && !has_define(defs, name)
                        && !has_macro(ms, name) {
                        Some((defs, ms, Some((name, args, Seq::empty()))))
                    } else {
                        None
                    },
                    None => None,
                }
            } else if toks[0] == seq!['#'] {
                Some(st)
            } else {
                None
            }
        },
    }
}

pub open spec fn macro_fold(lines: Seq<Seq<char>>) -> Option<MacroState>
    decreases lines.len(),
{
    if lines.len() == 0 {
        Some((Seq::empty(), Seq::empty(), None))
    } else {
        match macro_fold(lines.drop_last()) {
            Some(st) => macro_step(st, lines.last()),
            None => None,
        }
    }
}

/// The defines and macros of a `[macros]` section; a macro without `end` is dropped.
pub open spec fn macro_section(lines: Seq<Seq<char>>) -> Option<(Seq<(Seq<char>, u16)>, Seq<MacroSpec>)> {
    match macro_fold(lines) {
        Some((defs, ms, _)) => Some((defs, ms)),
        None => None,
    }
}

proof fn lemma_macro_fold_none(ls: Seq<Seq<char>>, k: int)
    requires
        0 <= k <= ls.len(),
        macro_fold(ls.take(k)) is None,
    ensures
        macro_fold(ls) is None,
    decreases ls.len() - k,
{
    if k < ls.len() {
        assert(ls.take(k + 1).drop_last() =~= ls.take(k));
        lemma_macro_fold_none(ls, k + 1);
    } else {
        assert(ls.take(k) =~= ls);
    }
}

pub open spec fn current_spec(c: Option<Macro>) -> Option<MacroSpec> {
    match c {
        Some(m) => Some(m.spec()),
        None => None,
    }
}

/// Reads the `[macros]` section: its defines and its macros.
pub fn read_macros(lines: &Vec<Vec<char>>) -> (r: Result<(Vec<(Vec<char>, u16)>, Vec<Macro>), BError>)
    ensures
        r is Ok <==> macro_section(lines_view(lines@)) is Some,
        r matches Ok((d, m)) ==> macro_section(lines_view(lines@)) == Some((defines_view(d@), macros_view(m@))),
        r matches Err(e) ==> e is AsmParseError,
        r is Err ==> exists|k: int|
            0 <= k < lines@.len() && #[trigger] is_line_error(r->Err_0, (k + 1) as nat, lines@[k]@),
{
    let ghost ls = lines_view(lines@);
    let mut macros: Vec<Macro> = Vec::new();
    let mut defines: Vec<(Vec<char>, u16)> = Vec::new();
    let mut current: Option<Macro> = None;
    let define_w = chars_of("define");
    let begin_w = chars_of("begin");
    let end_w = chars_of("end");
    let hash_w = chars_of("#");
    proof {
        reveal_strlit("define");
        reveal_strlit("begin");
        reveal_strlit("end");
        reveal_strlit("#");
        assert(define_w@ =~= define_word());
        assert(begin_w@ =~= begin_word());
        assert(end_w@ =~= end_word());
        assert(hash_w@ =~= seq!['#']);
        assert(ls.take(0) =~= Seq::<Seq<char>>::empty());
    }
    let mut idx: usize = 0;
    while idx < lines.len()
        invariant
            ls == lines_view(lines@),
            define_w@ == define_word(),
            begin_w@ == begin_word(),
            end_w@ == end_word(),
            hash_w@ == seq!['#'],
            idx <= lines@.len(),
            macro_fold(ls.take(idx as int)) == Some(
                (defines_view(defines@), macros_view(macros@), current_spec(current)),
            ),
        decreases lines@.len() - idx,
    {
        let line = lines[idx].as_slice();
        let ghost st = (defines_view(defines@), macros_view(macros@), current_spec(current));
        proof {
            assert(ls.take(idx as int + 1).drop_last() =~= ls.take(idx as int));
            assert(ls.take(idx as int + 1).last() == line@);
            assert(macro_fold(ls.take(idx as int + 1)) == macro_step(st, line@));
        }
        match current {
            Some(mut m) => {
                let lead = trim_chars(line);
                if crate::text::starts_with_exec(lead.as_slice(), end_w.as_slice()) {
                    let ghost mv = macros@;
                    macros.push(m);
                    current = None;
                    proof {
                        assert(macros_view(macros@) =~= macros_view(mv).push(macros@[macros@.len() - 1].spec()));
                    }
                } else {
                    let ghost old_m = m.spec();
                    let ghost bv = m.body@;
                    m.body.push(crate::text::sub_chars(line, 0, line.len()));
                    proof {
                        assert(line@.subrange(0, line@.len() as int) =~= line@);
                        assert(lines_view(m.body@) =~= lines_view(bv).push(line@));
                    }
                    current = Some(m);
                }
                idx += 1;
                continue;
            },
            None => {},
        }
        let toks = split_whitespace(line);
        proof {
            assert(lines_view(toks@) =~= tokens(line@));
        }
        if toks.len() > 0 {
            let mode = toks[0].as_slice();
            if crate::text::eq_chars(mode, define_w.as_slice()) {
                if toks.len() < 3 {
                    proof {
                        lemma_macro_fold_none(ls, idx as int + 1);
                    }
                    let e = line_error(idx + 1, line, "no name or value for define");
                    proof {
                        assert(is_line_error(e, (idx + 1) as nat, lines@[idx as int]@));
                    }
                    return Err(e);
                }
                let name = toks[1].as_slice();
                let value = toks[2].as_slice();
                let bad = !is_name_exec(name) || !literal_syntax(value) || is_reserved(name) || find_define(&defines, name)
                    || find_macro(&macros, name);
                if bad {
                    proof {
                        lemma_macro_fold_none(ls, idx as int + 1);
                    }
                    let e = line_error(idx + 1, line, "invalid define, or its name is already in use");
                    proof {
                        assert(is_line_error(e, (idx + 1) as nat, lines@[idx as int]@));
                    }
                    return Err(e);
                }
                let number = match literal_chars_to_u16(value) {
                    Ok(v) => v,
                    Err(_) => {
                        proof {
                            lemma_macro_fold_none(ls, idx as int + 1);
                        }
                        let e = line_error(idx + 1, line, "the number does not fit in a word");
                    proof {
                        assert(is_line_error(e, (idx + 1) as nat, lines@[idx as int]@));
                    }
                    return Err(e);
                    },
                };
                if toks.len() > 3 {
                    proof {
                        lemma_macro_fold_none(ls, idx as int + 1);
                    }
                    let e = line_error(idx + 1, line, "the line contains unnecessary text");
                    proof {
                        assert(is_line_error(e, (idx + 1) as nat, lines@[idx as int]@));
                    }
                    return Err(e);
                }
                let ghost dv = defines@;
                defines.push((crate::text::sub_chars(name, 0, name.len()), number));
                proof {
                    assert(name@.subrange(0, name@.len() as int) =~= name@);
                    assert(defines_view(defines@) =~= defines_view(dv).push((name@, number)));
                }
            } else if crate::text::eq_chars(mode, begin_w.as_slice()) {
                let mut rest: Vec<char> = Vec::new();
                let mut t: usize = 1;
                proof {
                    assert(lines_view(toks@).drop_first().take(0) =~= Seq::<Seq<char>>::empty());
                }
                while t < toks.len()
                    invariant
                        1 <= t <= toks@.len(),
                        rest@ == concat(lines_view(toks@).drop_first().take(t - 1)),
                    decreases toks@.len() - t,
                {
                    proof {
                        let ts = lines_view(toks@).drop_first();
                        assert(ts.take(t as int).drop_last() =~= ts.take(t - 1));
                        assert(ts.take(t as int).last() == toks@[t as int]@);
                    }
                    append_chars(&mut rest, toks[t].as_slice());
                    t += 1;
                }
                proof {
                    assert(lines_view(toks@).drop_first().take(t - 1) =~= lines_view(toks@).drop_first());
                }
                let (name, args) = match macro_head(rest.as_slice()) {
                    Some(h) => h,
                    None => {
                        proof {
                            lemma_macro_fold_none(ls, idx as int + 1);
                        }
                        let e = line_error(idx + 1, line, "invalid macro name or arguments");
                    proof {
                        assert(is_line_error(e, (idx + 1) as nat, lines@[idx as int]@));
                    }
                    return Err(e);
                    },
                };
                if !is_name_exec(name.as_slice()) || is_reserved(name.as_slice()) || find_define(&defines, name.as_slice())
                    || find_macro(&macros, name.as_slice()) {
                    proof {
                        lemma_macro_fold_none(ls, idx as int + 1);
                    }
                    let e = line_error(idx + 1, line, "invalid macro name, or it is already in use");
                    proof {
                        assert(is_line_error(e, (idx + 1) as nat, lines@[idx as int]@));
                    }
                    return Err(e);
                }
                current = Some(Macro::new(name, args));
            } else if crate::text::eq_chars(mode, hash_w.as_slice()) {
            } else {
                proof {
                    lemma_macro_fold_none(ls, idx as int + 1);
                }
                let e = line_error(idx + 1, line, "invalid text in the macros section");
                    proof {
                        assert(is_line_error(e, (idx + 1) as nat, lines@[idx as int]@));
                    }
                    return Err(e);
            }
        }
        idx += 1;
    }
    proof {
        assert(ls.take(idx as int) =~= ls);
    }
    Ok((defines, macros))
}

/// The arguments of a line that calls the macro `name`: `NAME(a, b, ..)`, each argument trimmed.
pub open spec fn call_spec(line: Seq<char>, name: Seq<char>) -> Option<Seq<Seq<char>>> {
    let t = trim(line);
    let k = name.len() as int;
    if k == 0 || t.len() < 2 || t.len() - 2 < k || t.last() != ')' || t.subrange(0, k) != name {
        None
    } else {
        let p = t.len() - trim_start(t.subrange(k, t.len() as int)).len();
        if p >= t.len() - 1 || t[p] != '(' {
            None
        } else {
            let inner = t.subrange(p + 1, t.len() - 1);
            if inner.len() == 0 {
                Some(Seq::empty())
            } else {
                let pieces = split_on(inner, ',');
                Some(Seq::new(pieces.len(), |i: int| trim(pieces[i])))
            }
        }
    }
}

fn call_args(line: &[char], name: &[char]) -> (r: Option<Vec<Vec<char>>>)
    ensures
        match r {
            Some(a) => call_spec(line@, name@) == Some(lines_view(a@)),
            None => call_spec(line@, name@) is None,
        },
{
    let t = trim_chars(line);
    let k = name.len();
    if k == 0 || t.len() < 2 || t.len() - 2 < k || t[t.len() - 1] != ')' {
        return None;
    }
    let mut j: usize = 0;
    while j < k
        invariant
            t@ == trim(line@),
            j <= k == name@.len(),
            k + 2 <= t@.len(),
            t@.last() == ')',
            forall|q: int| 0 <= q < j ==> t@[q] == name@[q],
        decreases k - j,
    {
        if t[j] != name[j] {
            proof {
                assert(t@.subrange(0, k as int)[j as int] != name@[j as int]);
            }
            return None;
        }
        j += 1;
    }
    proof {
        assert(t@.subrange(0, k as int) =~= name@);
        assert(t@.subrange(k as int, t@.len() as int) =~= t@.subrange(k as int, t@.len() as int));
    }
    let n = t.len();
    let mut p = k;
    while p < n && is_space_exec(t[p])
        invariant
            t@ == trim(line@),
            k == name@.len(),
            k + 2 <= t@.len(),
            t@.last() == ')',
            t@.subrange(0, k as int) == name@,
            k <= p <= n == t@.len(),
            trim_start(t@.subrange(k as int, n as int)) == trim_start(t@.subrange(p as int, n as int)),
        decreases n - p,
    {
        proof {
            assert(t@.subrange(p as int, n as int).drop_first() =~= t@.subrange(p as int + 1, n as int));
        }
        p += 1;
    }
    proof {
        assert(trim_start(t@.subrange(p as int, n as int)) == t@.subrange(p as int, n as int));
    }
    if p >= n - 1 || t[p] != '(' {
        return None;
    }
    let inner = crate::text::sub_chars(t.as_slice(), p + 1, n - 1);
    if inner.len() == 0 {
        let none: Vec<Vec<char>> = Vec::new();
        proof {
            assert(lines_view(none@) =~= Seq::<Seq<char>>::empty());
        }
        return Some(none);
    }
    let pieces = split_chars(inner.as_slice(), ',');
    let mut args: Vec<Vec<char>> = Vec::new();
    let mut q: usize = 0;
    while q < pieces.len()
        invariant
            t@ == trim(line@),
            k == name@.len(),
            k + 2 <= t@.len(),
            t@.last() == ')',
            t@.subrange(0, k as int) == name@,
            p == t@.len() - trim_start(t@.subrange(k as int, t@.len() as int)).len(),
            p < t@.len() - 1,
            t@[p as int] == '(',
            inner@ == t@.subrange(p + 1, t@.len() - 1),
            inner@.len() > 0,
            q <= pieces@.len(),
            pieces@.len() == split_on(inner@, ',').len(),
            forall|i: int| 0 <= i < pieces@.len() ==> #[trigger] pieces@[i]@ == split_on(inner@, ',')[i],
            args@.len() == q,
            forall|i: int| 0 <= i < q ==> #[trigger] args@[i]@ == trim(pieces@[i]@),
        decreases pieces@.len() - q,
    {
        args.push(trim_chars(pieces[q].as_slice()));
        q += 1;
    }
    proof {
        let sp = split_on(inner@, ',');
        assert(lines_view(args@) =~= Seq::new(sp.len(), |i: int| trim(sp[i])));
    }
    Some(args)
}

/// The first macro, from `k` on, that `line` calls, with the call's arguments.
pub open spec fn call_from(line: Seq<char>, ms: Seq<MacroSpec>, k: int) -> Option<(int, Seq<Seq<char>>)>
    decreases ms.len() - k,
{
    if k < 0 || k >= ms.len() {
        None
    } else {
        match call_spec(line, ms[k].0) {
            Some(a) => Some((k, a)),
            None => call_from(line, ms, k + 1),
        }
    }
}

fn find_call(line: &[char], macros: &Vec<Macro>) -> (r: Option<(usize, Vec<Vec<char>>)>)
    ensures
        match r {
            Some((k, a)) => call_from(line@, macros_view(macros@), 0) == Some((k as int, lines_view(a@))),
            None => call_from(line@, macros_view(macros@), 0) is None,
        },
{
    let ghost ms = macros_view(macros@);
    let mut k: usize = 0;
    while k < macros.len()
        invariant
            ms == macros_view(macros@),
            k <= macros@.len(),
            call_from(line@, ms, 0) == call_from(line@, ms, k as int),
        decreases macros@.len() - k,
    {
        proof {
            assert(ms[k as int].0 == macros@[k as int].name@);
        }
        match call_args(line, macros[k].name.as_slice()) {
            Some(actual) => {
                return Some((k, actual));
            },
            None => {},
        }
        k += 1;
    }
    None
}

/// `line` with the formal arguments `args[..n]` replaced by `actual[..n]`, one after another.
pub open spec fn subst_args(line: Seq<char>, args: Seq<Seq<char>>, actual: Seq<Seq<char>>, n: int) -> Seq<char>
    decreases n,
{
    if n <= 0 {
        line
    } else {
        subst_in_line(subst_args(line, args, actual, n - 1), args[n - 1], actual[n - 1])
    }
}

/// `substitute` on a body line, whose end counts as the newline that follows it in the body.
pub open spec fn subst_in_line(line: Seq<char>, name: Seq<char>, value: Seq<char>) -> Seq<char> {
    let t = substitute(line.push('\n'), name, value);
    if t.len() > 0 {
        t.drop_last()
    } else {
        t
    }
}

/// The body of macro `m` with its arguments replaced.
pub open spec fn instantiate_spec(m: MacroSpec, actual: Seq<Seq<char>>) -> Seq<Seq<char>> {
    let n = if m.1.len() < actual.len() {
        m.1.len() as int
    } else {
        actual.len() as int
    };
    Seq::new(m.2.len(), |i: int| subst_args(m.2[i], m.1, actual, n))
}

impl Macro {
    /// The body with the formal arguments replaced by `actual`.
    pub fn replace_args(&self, actual: &Vec<Vec<char>>) -> (r: Vec<Vec<char>>)
        ensures
            lines_view(r@) == instantiate_spec(self.spec(), lines_view(actual@)),
    {
        let m = self;
        let n = if m.args.len() < actual.len() {
            m.args.len()
        } else {
            actual.len()
        };
        let mut out: Vec<Vec<char>> = Vec::new();
        let mut l: usize = 0;
        while l < m.body.len()
            invariant
                l <= m.body@.len(),
                n <= m.args@.len(),
                n <= actual@.len(),
                n == if m.args@.len() < actual@.len() {
                    m.args@.len()
                } else {
                    actual@.len()
                },
                out@.len() == l,
                forall|i: int| 0 <= i < l ==> #[trigger] out@[i]@ == subst_args(m.body@[i]@, lines_view(m.args@), lines_view(actual@), n as int),
            decreases m.body@.len() - l,
        {
            let mut line = crate::text::sub_chars(m.body[l].as_slice(), 0, m.body[l].len());
            proof {
                assert(m.body@[l as int]@.subrange(0, m.body@[l as int]@.len() as int) =~= m.body@[l as int]@);
            }
            let mut a: usize = 0;
            while a < n
                invariant
                    a <= n <= m.args@.len(),
                    n <= actual@.len(),
                    line@ == subst_args(m.body@[l as int]@, lines_view(m.args@), lines_view(actual@), a as int),
                decreases n - a,
            {
                line.push('\n');
                let mut t = substitute_line(line.as_slice(), m.args[a].as_slice(), actual[a].as_slice());
                if t.len() > 0 {
                    t.pop();
                }
                line = t;
                a += 1;
            }
            out.push(line);
            l += 1;
        }
        proof {
            assert(lines_view(out@) =~= instantiate_spec(m.spec(), lines_view(actual@)));
        }
        out
    }
}

/// The most macro calls that one expansion performs.
pub const MAX_EXPANSIONS: usize = 100000;

/// Expanding macro calls from line `pos` on, each call line replaced by the macro's body, with at
/// most `budget` more expansions.
pub open spec fn expand(lines: Seq<Seq<char>>, pos: int, ms: Seq<MacroSpec>, budget: nat) -> Option<Seq<Seq<char>>>
    decreases budget, lines.len() - pos,
{
    if pos < 0 || pos >= lines.len() {
        Some(lines)
    } else {
        match call_from(lines[pos], ms, 0) {
            Some((k, actual)) => if budget == 0 {
                None
            } else {
                expand(
                    lines.subrange(0, pos) + instantiate_spec(ms[k], actual) + lines.subrange(
                        pos + 1,
                        lines.len() as int,
                    ),
                    pos,
                    ms,
                    (budget - 1) as nat,
                )
            },
            None => expand(lines, pos + 1, ms, budget),
        }
    }
}

proof fn lemma_call_from_range(line: Seq<char>, ms: Seq<MacroSpec>, k: int)
    ensures
        call_from(line, ms, k) matches Some((j, _)) ==> k <= j < ms.len(),
    decreases ms.len() - k,
{
    if 0 <= k < ms.len() {
        lemma_call_from_range(line, ms, k + 1);
    }
}

/// Expands the macro calls in `lines`.
fn expand_macros(input: Vec<Vec<char>>, macros: &Vec<Macro>) -> (r: Result<Vec<Vec<char>>, BError>)
    ensures
        r is Ok <==> expand(lines_view(input@), 0, macros_view(macros@), MAX_EXPANSIONS as nat) is Some,
        r matches Ok(out) ==> expand(lines_view(input@), 0, macros_view(macros@), MAX_EXPANSIONS as nat) == Some(
            lines_view(out@),
        ),
        r matches Err(e) ==> e is AsmParseError,
{
    let ghost ms = macros_view(macros@);
    let ghost goal = expand(lines_view(input@), 0, ms, MAX_EXPANSIONS as nat);
    let mut lines = input;
    let mut budget: usize = MAX_EXPANSIONS;
    let mut pos: usize = 0;
    while pos < lines.len()
        invariant
            ms == macros_view(macros@),
            goal == expand(lines_view(input@), 0, ms, MAX_EXPANSIONS as nat),
            pos <= lines@.len(),
            budget <= MAX_EXPANSIONS,
            goal == expand(lines_view(lines@), pos as int, ms, budget as nat),
        decreases budget, lines@.len() - pos,
    {
        match find_call(lines[pos].as_slice(), macros) {
            Some((k, actual)) => {
                proof {
                    lemma_call_from_range(lines@[pos as int]@, ms, 0);
                }
                if budget == 0 {
                    proof {
                        assert(lines_view(lines@)[pos as int] == lines@[pos as int]@);
                        assert(call_from(lines_view(lines@)[pos as int], ms, 0) is Some);
                        assert(expand(lines_view(lines@), pos as int, ms, 0) is None);
                    }
                    return Err(BError::AsmParseError(String::from_str("macro expansion does not end")));
                }
                let ghost lv = lines_view(lines@);
                let body = macros[k].replace_args(&actual);
                let tail = lines.split_off(pos + 1);
                lines.pop();
                let mut b: usize = 0;
                let ghost base = lines@;
                while b < body.len()
                    invariant
                        b <= body@.len(),
                        lines@.len() == base.len() + b,
                        forall|i: int| 0 <= i < base.len() ==> #[trigger] lines@[i] == base[i],
                        forall|i: int| 0 <= i < b ==> #[trigger] lines@[base.len() + i]@ == body@[i]@,
                    decreases body@.len() - b,
                {
                    lines.push(crate::text::sub_chars(body[b].as_slice(), 0, body[b].len()));
                    proof {
                        assert(body@[b as int]@.subrange(0, body@[b as int]@.len() as int) =~= body@[b as int]@);
                    }
                    b += 1;
                }
                let ghost mid = lines@;
                proof {
                    assert forall|j: int| 0 <= j < body@.len() implies #[trigger] mid[base.len() + j]@ == body@[j]@ by {
                        assert(lines@[base.len() + j]@ == body@[j]@);
                    }
                    assert forall|j: int| 0 <= j < base.len() implies #[trigger] mid[j] == base[j] by {
                        assert(lines@[j] == base[j]);
                    }
                }
                let mut tl: usize = 0;
                while tl < tail.len()
                    invariant
                        tl <= tail@.len(),
                        lines@.len() == mid.len() + tl,
                        forall|i: int| 0 <= i < mid.len() ==> #[trigger] lines@[i] == mid[i],
                        forall|i: int| 0 <= i < tl ==> #[trigger] lines@[mid.len() + i]@ == tail@[i]@,
                    decreases tail@.len() - tl,
                {
                    lines.push(crate::text::sub_chars(tail[tl].as_slice(), 0, tail[tl].len()));
                    proof {
                        assert(tail@[tl as int]@.subrange(0, tail@[tl as int]@.len() as int) =~= tail@[tl as int]@);
                    }
                    tl += 1;
                }
                proof {
                    assert(lines_view(lines@) =~= lv.subrange(0, pos as int) + instantiate_spec(ms[k as int], lines_view(actual@))
                        + lv.subrange(pos as int + 1, lv.len() as int)) by {
                        assert(base.len() == pos);
                        assert forall|i: int| 0 <= i < lines@.len() implies #[trigger] lines_view(lines@)[i] == (lv.subrange(0, pos as int) + instantiate_spec(ms[k as int], lines_view(actual@))
                            + lv.subrange(pos as int + 1, lv.len() as int))[i] by {
                            if i < pos {
                                assert(lines@[i] == mid[i]);
                                assert(mid[i] == base[i]);
                            } else if i < pos + body@.len() {
                                assert(lines@[i] == mid[i]);
                                assert(mid[base.len() + (i - pos)]@ == body@[i - pos]@);
                            } else {
                                assert(lines@[mid.len() + (i - mid.len())]@ == tail@[i - mid.len()]@);
                            }
                        }
                    }
                }
                budget -= 1;
            },
            None => {
                pos += 1;
            },
        }
    }
    Ok(lines)
}

/// `line` with every define substituted, in the order the defines were read.
pub open spec fn subst_defines(line: Seq<char>, defs: Seq<(Seq<char>, u16)>) -> Seq<char>
    decreases defs.len(),
{
    if defs.len() == 0 {
        line
    } else {
        substitute(subst_defines(line, defs.drop_last()), defs.last().0, crate::text::dec_digits(defs.last().1 as nat))
    }
}

/// The pieces with a newline between each two of them (the inverse of splitting at newlines).
pub open spec fn join_sep(ps: Seq<Seq<char>>) -> Seq<char>
    decreases ps.len(),
{
    if ps.len() == 0 {
        Seq::empty()
    } else if ps.len() == 1 {
        ps[0]
    } else {
        join_sep(ps.drop_last()) + seq!['\n'] + ps.last()
    }
}

proof fn lemma_join_push_char(ps: Seq<Seq<char>>, c: char)
    requires
        ps.len() >= 1,
    ensures
        join_sep(ps.update(ps.len() - 1, ps.last().push(c))) == join_sep(ps).push(c),
{
    let q = ps.update(ps.len() - 1, ps.last().push(c));
    if ps.len() > 1 {
        assert(q.drop_last() =~= ps.drop_last());
        assert(join_sep(q) =~= join_sep(ps).push(c));
    }
}

/// Splitting text at its newlines and joining the pieces with newlines gives the text back:
/// code without macro calls or defines comes out of the preprocessor unchanged.
pub proof fn lemma_split_join(s: Seq<char>)
    ensures
        join_sep(split_on(s, '\n')) == s,
    decreases s.len(),
{
    if s.len() > 0 {
        let p = split_on(s.drop_last(), '\n');
        lemma_split_join(s.drop_last());
        crate::text::lemma_split_on_len(s.drop_last(), '\n');
        if s.last() == '\n' {
            let q = p.push(Seq::<char>::empty());
            assert(q.drop_last() =~= p);
            assert(join_sep(q) =~= s);
        } else {
            lemma_join_push_char(p, s.last());
            assert(s.drop_last().push(s.last()) =~= s);
        }
    }
}

/// The lines, each followed by a newline.
pub open spec fn join_lines(ls: Seq<Seq<char>>) -> Seq<char>
    decreases ls.len(),
{
    if ls.len() == 0 {
        Seq::empty()
    } else {
        join_lines(ls.drop_last()) + ls.last() + seq!['\n']
    }
}

/// Reads the `[macros]` section and expands its macros and defines in `code`. Returns the
/// expanded text and the index of the last line of the `[macros]` section.
pub fn preprocess(macros_text: &str, code: &str) -> (r: Result<(String, usize), BError>)
    ensures
        r is Ok <==> (macro_section(lines_of(macros_text@)) matches Some((defs, ms)) && expand(
            split_on(code@, '\n'),
            0,
            ms,
            MAX_EXPANSIONS as nat,
        ) is Some),
        r matches Ok((out, _)) ==> macro_section(lines_of(macros_text@)) matches Some((defs, ms))
            && expand(split_on(code@, '\n'), 0, ms, MAX_EXPANSIONS as nat) matches Some(ls) && out@
            == subst_defines(join_sep(ls), defs),
        r matches Ok((_, n)) ==> n == if lines_of(macros_text@).len() > 0 {
            lines_of(macros_text@).len() - 1
        } else {
            0
        },
        r matches Err(e) ==> e is AsmParseError,
        r is Err && macro_section(lines_of(macros_text@)) is None ==> exists|k: int|
            0 <= k < lines_of(macros_text@).len() && #[trigger] is_line_error(
                r->Err_0,
                (k + 1) as nat,
                lines_of(macros_text@)[k],
            ),
{
    let mchars = chars_of(macros_text);
    let mlines = split_lines(mchars.as_slice());
    proof {
        assert(lines_view(mlines@) =~= lines_of(macros_text@));
    }
    let (defines, macros) = match read_macros(&mlines) {
        Ok(dm) => dm,
        Err(e) => {
            proof {
                let k = choose|k: int| 0 <= k < mlines@.len() && #[trigger] is_line_error(e, (k + 1) as nat, mlines@[k]@);
                assert(lines_view(mlines@)[k] == mlines@[k]@);
                assert(is_line_error(e, (k + 1) as nat, lines_of(macros_text@)[k]));
            }
            return Err(e);
        },
    };
    let mline = if mlines.len() > 0 {
        mlines.len() - 1
    } else {
        0
    };
    let cchars = chars_of(code);
    let clines = split_chars(cchars.as_slice(), '\n');
    proof {
        assert(lines_view(clines@) =~= split_on(code@, '\n'));
    }
    let lines = expand_macros(clines, &macros)?;
    let ghost dv = defines_view(defines@);
    let ghost ls = lines_view(lines@);
    let mut out: Vec<char> = Vec::new();
    if lines.len() > 0 {
        append_chars(&mut out, lines[0].as_slice());
        let mut l: usize = 1;
        proof {
            assert(ls.take(1).len() == 1);
            assert(out@ =~= join_sep(ls.take(1)));
        }
        while l < lines.len()
            invariant
                1 <= l <= lines@.len(),
                ls == lines_view(lines@),
                out@ == join_sep(ls.take(l as int)),
            decreases lines@.len() - l,
        {
            out.push('\n');
            append_chars(&mut out, lines[l].as_slice());
            proof {
                assert(ls.take(l as int + 1).drop_last() =~= ls.take(l as int));
                assert(ls.take(l as int + 1).last() == lines@[l as int]@);
                assert(out@ =~= join_sep(ls.take(l as int + 1)));
            }
            l += 1;
        }
        proof {
            assert(ls.take(l as int) =~= ls);
        }
    } else {
        proof {
            assert(out@ =~= join_sep(ls));
        }
    }
    let ghost joined = out@;
    let mut d: usize = 0;
    proof {
        assert(dv.take(0) =~= Seq::<(Seq<char>, u16)>::empty());
    }
    while d < defines.len()
        invariant
            d <= defines@.len(),
            dv == defines_view(defines@),
            out@ == subst_defines(joined, dv.take(d as int)),
        decreases defines@.len() - d,
    {
        let digits = crate::text::digits(defines[d].1 as usize, 10);
        out = substitute_line(out.as_slice(), defines[d].0.as_slice(), digits.as_slice());
        proof {
            assert(dv.take(d as int + 1).drop_last() =~= dv.take(d as int));
            assert(dv.take(d as int + 1).last() == dv[d as int]);
        }
        d += 1;
    }
    proof {
        assert(dv.take(d as int) =~= dv);
    }
    Ok((string_of(out.as_slice()), mline))
}

} // verus!
