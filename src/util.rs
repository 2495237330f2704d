use vstd::prelude::*;
use vstd::std_specs::iter::IteratorSpec;

verus! {

broadcast use vstd::string::group_string_axioms;

/// The errors of the machine and of its tools.
#[derive(Debug)]
pub enum BError {
    /// A decoded field holds a value outside its range.
    InstParseError { value: u16, message: String },
    /// The program counter points past the end of ROM.
    ExecutionHaltedError { value: u16 },
    /// The `(u, op)` combination of an ALU word is not in the operation table.
    InvalidInstructionError { instruction: u16 },
    /// A region map could not be built.
    MapError(String),
    /// A span does not fit into the structure it is written to.
    OutOfBoundsError(u16, usize, usize),
    /// Writing text failed.
    IoError(String),
    /// The assembly source is malformed.
    AsmParseError(String),
    /// A value could not be encoded.
    SerializationError(String),
    /// A byte stream could not be decoded.
    DeserializationError(String),
}

/// The characters of `s`, in order.
pub(crate) fn chars_of(s: &str) -> (r: Vec<char>)
    ensures
        r@ == s@,
{
    let mut it = s.chars();
    let mut out: Vec<char> = Vec::new();
    loop
        invariant
            out@ + it.remaining() == s@,
            it.obeys_prophetic_iter_laws(),
            it.decrease() is Some,
        ensures
            out@ == s@,
        decreases it.decrease()->0,
    {
        match it.next() {
            Some(c) => {
                out.push(c);
            },
            None => {
                proof {
                    assert(out@ + it.remaining() == s@);
                    assert(out@ =~= s@);
                }
                break;
            },
        }
    }
    out
}

/// Relies on `String`'s `FromIterator<char>`: the characters, in order.
#[verifier::external_body]
pub(crate) fn string_of(c: &[char]) -> (r: String)
    ensures
        r@ == c@,
{
    c.iter().collect()
}

/// The access level of a stretch of memory.
#[derive(Debug, Clone, Copy, PartialEq, Eq, Structural)]
pub enum AccessLevels {
    ReadWrite,
    Read,
    NoAccess,
}

/// A labelled closed interval `[start, end]` of addresses.
#[derive(Debug, Clone, Copy, PartialEq, Eq, Structural)]
pub struct Region {
    pub start: u16,
    pub end: u16,
    pub label: AccessLevels,
}

impl Region {
    pub fn new(start: u16, end: u16, label: AccessLevels) -> (r: Self)
        ensures
            r == (Region { start, end, label }),
    {
        Self { start, end, label }
    }
}

pub open spec fn region_contains(r: Region, p: int) -> bool {
    r.start <= p <= r.end
}

pub open spec fn regions_disjoint(a: Region, b: Region) -> bool {
    a.end < b.start || b.end < a.start
}

/// Every region has `start <= end` and no two of them (at distinct indices) overlap.
pub open spec fn regions_valid(s: Seq<Region>) -> bool {
    &&& forall|i: int| 0 <= i < s.len() ==> #[trigger] s[i].start <= s[i].end
    &&& forall|i: int, j: int|
        0 <= i < s.len() && 0 <= j < s.len() && i != j ==> regions_disjoint(
            #[trigger] s[i],
            #[trigger] s[j],
        )
}

/// The label of the region of `s` that holds `p`, if any.
pub open spec fn region_lookup(s: Seq<Region>, p: int) -> Option<AccessLevels> {
    if exists|i: int| 0 <= i < s.len() && region_contains(#[trigger] s[i], p) {
        let i = choose|i: int| 0 <= i < s.len() && region_contains(#[trigger] s[i], p);
        Some(s[i].label)
    } else {
        None
    }
}

/// The starts of `s` strictly increase.
pub open spec fn sorted_by_start(s: Seq<Region>) -> bool {
    forall|i: int, j: int| 0 <= i < j < s.len() ==> (#[trigger] s[i]).start < (#[trigger] s[j]).start
}

/// Two valid sequences of regions with the same elements give every address the same label.
proof fn lemma_lookup_same(a: Seq<Region>, b: Seq<Region>, p: int)
    requires
        regions_valid(a),
        regions_valid(b),
        forall|r: Region| a.contains(r) <==> b.contains(r),
    ensures
        region_lookup(a, p) == region_lookup(b, p),
{
    if exists|i: int| 0 <= i < a.len() && region_contains(#[trigger] a[i], p) {
        let ia = choose|i: int| 0 <= i < a.len() && region_contains(#[trigger] a[i], p);
        assert(a.contains(a[ia]));
        assert(b.contains(a[ia]));
        let j = choose|j: int| 0 <= j < b.len() && b[j] == a[ia];
        assert(region_contains(b[j], p));
        let ib = choose|i: int| 0 <= i < b.len() && region_contains(#[trigger] b[i], p);
        if ib != j {
            assert(regions_disjoint(b[ib], b[j]));
        }
    } else {
        if exists|i: int| 0 <= i < b.len() && region_contains(#[trigger] b[i], p) {
            let ib = choose|i: int| 0 <= i < b.len() && region_contains(#[trigger] b[i], p);
            assert(b.contains(b[ib]));
            assert(a.contains(b[ib]));
            let k = choose|k: int| 0 <= k < a.len() && a[k] == b[ib];
            assert(region_contains(a[k], p));
        }
    }
}

/// A set of pairwise disjoint labelled regions, kept sorted by start for lookup by bisection.
pub struct RegionMap {
    regions: Vec<Region>,
    given: Ghost<Seq<Region>>,
}

impl View for RegionMap {
    type V = Seq<Region>;

    /// The regions in the order they were given.
    closed spec fn view(&self) -> Seq<Region> {
        self.given@
    }
}

impl RegionMap {
    /// The sorted copy holds the same regions.
    pub closed spec fn sorted_ok(&self) -> bool {
        &&& regions_valid(self.regions@)
        &&& sorted_by_start(self.regions@)
        &&& forall|r: Region| self.regions@.contains(r) <==> self.given@.contains(r)
    }

    pub open spec fn wf(&self) -> bool {
        regions_valid(self@) && self.sorted_ok()
    }

    /// A map without regions.
    pub fn empty() -> (r: Self)
        ensures
            r.wf(),
            r@ == Seq::<Region>::empty(),
    {
        Self { regions: Vec::new(), given: Ghost(Seq::empty()) }
    }

    /// Builds a map from regions that have `start <= end` and do not overlap.
    pub fn try_from(value: Vec<Region>) -> (r: Result<Self, BError>)
        ensures
            r is Ok <==> regions_valid(value@),
            r matches Ok(m) ==> m.wf() && m@ == value@,
            r matches Err(e) ==> e is MapError,
    {
        let n = value.len();
        let mut i: usize = 0;
        while i < n
            invariant
                n == value@.len(),
                i <= n,
                forall|k: int| 0 <= k < i ==> #[trigger] value@[k].start <= value@[k].end,
            decreases n - i,
        {
            if value[i].start > value[i].end {
                return Err(BError::MapError(String::from_str("a region has start > end")));
            }
            i += 1;
        }
        let mut i: usize = 0;
        while i < n
            invariant
                n == value@.len(),
                i <= n,
                forall|a: int, b: int|
                    0 <= a < i && 0 <= b < n && a != b ==> regions_disjoint(
                        #[trigger] value@[a],
                        #[trigger] value@[b],
                    ),
            decreases n - i,
        {
            let mut j: usize = 0;
            while j < n
                invariant
                    n == value@.len(),
                    i < n,
                    j <= n,
                    forall|a: int, b: int|
                        0 <= a < i && 0 <= b < n && a != b ==> regions_disjoint(
                            #[trigger] value@[a],
                            #[trigger] value@[b],
                        ),
                    forall|b: int|
                        0 <= b < j && i != b ==> regions_disjoint(value@[i as int], #[trigger] value@[b]),
                decreases n - j,
            {
                if i != j && !(value[i].end < value[j].start || value[j].end < value[i].start) {
                    proof {
                        assert(!regions_disjoint(value@[i as int], value@[j as int]));
                    }
                    return Err(BError::MapError(String::from_str("two regions overlap")));
                }
                j += 1;
            }
            i += 1;
        }
        proof {
            assert(regions_valid(value@));
        }
        let sorted = sort_regions(&value);
        Ok(Self { regions: sorted, given: Ghost(value@) })
    }

    /// The label of the region that holds `position`, if any, found by bisection.
    pub fn find_region(&self, position: u16) -> (r: Option<&AccessLevels>)
        requires
            self.wf(),
        ensures
            r matches Some(l) ==> region_lookup(self@, position as int) == Some(*l),
            r is None ==> region_lookup(self@, position as int) is None,
    {
        proof {
            lemma_lookup_same(self.regions@, self.given@, position as int);
        }
        let s = &self.regions;
        let ghost p = position as int;
        let mut low: usize = 0;
        let mut high: usize = s.len();
        while low < high
            invariant
                p == position as int,
                region_lookup(s@, p) == region_lookup(self@, p),
                s@ == self.regions@,
                regions_valid(s@),
                sorted_by_start(s@),
                low <= high <= s@.len(),
                forall|k: int| 0 <= k < low ==> !region_contains(#[trigger] s@[k], p),
                forall|k: int| high <= k < s@.len() ==> !region_contains(#[trigger] s@[k], p),
            decreases high - low,
        {
            let mid = low + (high - low) / 2;
            let region = &s[mid];
            proof {
                assert(*region == s@[mid as int]);
            }
            if position < region.start {
                proof {
                    assert forall|k: int| mid <= k < s@.len() implies !region_contains(#[trigger] s@[k], p) by {
                        if k > mid {
                            assert(s@[mid as int].start < s@[k].start);
                        }
                    }
                }
                high = mid;
            } else if position > region.end {
                proof {
                    assert forall|k: int| 0 <= k <= mid implies !region_contains(#[trigger] s@[k], p) by {
                        if k < mid {
                            assert(s@[k].start < s@[mid as int].start);
                            assert(regions_disjoint(s@[k], s@[mid as int]));
                        }
                    }
                }
                low = mid + 1;
            } else {
                proof {
                    let c = choose|c: int| 0 <= c < s@.len() && region_contains(#[trigger] s@[c], p);
                    assert(region_contains(s@[mid as int], p));
                    if c != mid as int {
                        assert(regions_disjoint(s@[c], s@[mid as int]));
                    }
                }
                return Some(&region.label);
            }
        }
        None
    }
}

/// The regions of a valid sequence, sorted by start (insertion sort).
fn sort_regions(value: &Vec<Region>) -> (r: Vec<Region>)
    requires
        regions_valid(value@),
    ensures
        regions_valid(r@),
        sorted_by_start(r@),
        forall|x: Region| r@.contains(x) <==> value@.contains(x),
{
    let n = value.len();
    let mut out: Vec<Region> = Vec::new();
    let mut i: usize = 0;
    while i < n
        invariant
            n == value@.len(),
            i <= n,
            regions_valid(value@),
            regions_valid(out@),
            sorted_by_start(out@),
            forall|x: Region| out@.contains(x) <==> value@.take(i as int).contains(x),
        decreases n - i,
    {
        let x = value[i];
        proof {
            assert forall|k: int| 0 <= k < out@.len() implies regions_disjoint(#[trigger] out@[k], x) by {
                assert(out@.contains(out@[k]));
                let j = choose|j: int| 0 <= j < value@.take(i as int).len() && value@.take(i as int)[j] == out@[k];
                assert(value@[j] == out@[k]);
                assert(regions_disjoint(value@[j], value@[i as int]));
            }
        }
        let mut q: usize = 0;
        while q < out.len() && out[q].start < x.start
            invariant
                q <= out@.len(),
                forall|k: int| 0 <= k < q ==> (#[trigger] out@[k]).start < x.start,
            decreases out@.len() - q,
        {
            q += 1;
        }
        let ghost before = out@;
        proof {
            assert(forall|z: Region| before.contains(z) <==> value@.take(i as int).contains(z));
        }
        out.insert(q, x);
        proof {
            assert(out@ =~= before.subrange(0, q as int).push(x) + before.subrange(q as int, before.len() as int));
            assert forall|k: int| q < k < out@.len() implies (#[trigger] out@[k]).start > x.start by {
                assert(out@[k] == before[k - 1]);
                assert(before[q as int].start >= x.start);
                if k - 1 > q {
                    assert(before[q as int].start < before[k - 1].start);
                }
                assert(regions_disjoint(before[k - 1], x));
            }
            assert forall|a: int, b: int| 0 <= a < b < out@.len() implies (#[trigger] out@[a]).start < (#[trigger] out@[b]).start by {
                if a < q && b < q {
                    assert(out@[a] == before[a] && out@[b] == before[b]);
                } else if a < q && b == q {
                } else if a < q {
                    assert(out@[a] == before[a] && out@[b] == before[b - 1]);
                    assert(before[a].start < x.start);
                } else if a == q {
                } else {
                    assert(out@[a] == before[a - 1] && out@[b] == before[b - 1]);
                }
            }
            assert forall|a: int| 0 <= a < out@.len() implies #[trigger] out@[a].start <= out@[a].end by {
                if a < q {
                    assert(out@[a] == before[a]);
                } else if a > q {
                    assert(out@[a] == before[a - 1]);
                } else {
                    assert(value@[i as int].start <= value@[i as int].end);
                }
            }
            assert forall|a: int, b: int| 0 <= a < out@.len() && 0 <= b < out@.len() && a != b implies regions_disjoint(
                #[trigger] out@[a],
                #[trigger] out@[b],
            ) by {
                let a2 = if a < q { a } else { a - 1 };
                let b2 = if b < q { b } else { b - 1 };
                if a != q && b != q {
                    assert(out@[a] == before[a2] && out@[b] == before[b2]);
                } else if a == q {
                    assert(out@[b] == before[b2]);
                } else {
                    assert(out@[a] == before[a2]);
                }
            }
            assert forall|y: Region| out@.contains(y) <==> value@.take(i as int + 1).contains(y) by {
                let t0 = value@.take(i as int);
                let t1 = value@.take(i as int + 1);
                assert(t1 =~= t0.push(x));
                if out@.contains(y) {
                    let k = choose|k: int| 0 <= k < out@.len() && out@[k] == y;
                    if k < q {
                        assert(before[k] == y);
                        assert(before.contains(y));
                    } else if k > q {
                        assert(before[k - 1] == y);
                        assert(before.contains(y));
                    } else {
                        assert(t1[i as int] == y);
                    }
                    if before.contains(y) {
                        let j = choose|j: int| 0 <= j < t0.len() && t0[j] == y;
                        assert(t1[j] == y);
                    }
                }
                if t1.contains(y) {
                    let j = choose|j: int| 0 <= j < t1.len() && t1[j] == y;
                    if j < i {
                        assert(t0[j] == y);
                        assert(t0.contains(y));
                        assert(before.contains(y));
                        let k = choose|k: int| 0 <= k < before.len() && before[k] == y;
                        if k < q {
                            assert(out@[k] == y);
                        } else {
                            assert(out@[k + 1] == y);
                        }
                    } else {
                        assert(out@[q as int] == y);
                    }
                }
            }
        }
        i += 1;
    }
    proof {
        assert(value@.take(n as int) =~= value@);
    }
    out
}

/// The big-endian word of two bytes.
pub open spec fn be_word(hi: u8, lo: u8) -> u16 {
    (hi as u16 * 256 + lo as u16) as u16
}

/// The big-endian bytes of a word.
pub open spec fn word_bytes(w: u16) -> Seq<u8> {
    seq![(w / 256) as u8, (w % 256) as u8]
}

pub(crate) fn u16_from_be(hi: u8, lo: u8) -> (r: u16)
    ensures
        r == be_word(hi, lo),
{
    (hi as u16) * 256 + (lo as u16)
}

/// The value of digit `c` in `radix`, if it is one.
pub open spec fn digit_value(c: char, radix: nat) -> Option<nat> {
    let v: nat = if '0' <= c <= '9' {
        (c as nat - '0' as nat) as nat
    } else if 'a' <= c <= 'f' {
        (c as nat - 'a' as nat + 10) as nat
    } else if 'A' <= c <= 'F' {
        (c as nat - 'A' as nat + 10) as nat
    } else {
        16
    };
    if v < radix {
        Some(v)
    } else {
        None
    }
}

pub open spec fn all_digits(s: Seq<char>, radix: nat) -> bool {
    forall|i: int| 0 <= i < s.len() ==> #[trigger] digit_value(s[i], radix) is Some
}

/// The value of a string of digits, most significant first.
pub open spec fn digits_value(s: Seq<char>, radix: nat) -> nat
    decreases s.len(),
{
    if s.len() == 0 {
        0
    } else {
        digits_value(s.drop_last(), radix) * radix + digit_value(s.last(), radix).unwrap_or(0)
    }
}

pub open spec fn digits_literal(s: Seq<char>, radix: nat) -> Option<nat> {
    if s.len() > 0 && all_digits(s, radix) {
        Some(digits_value(s, radix))
    } else {
        None
    }
}

/// The value of a number literal `0x[0-9a-fA-F]+`, `0b[01]+` or `[0-9]+`.
pub open spec fn literal_value(s: Seq<char>) -> Option<nat> {
    if s.len() >= 2 && s[0] == '0' && s[1] == 'x' {
        digits_literal(s.subrange(2, s.len() as int), 16)
    } else if s.len() >= 2 && s[0] == '0' && s[1] == 'b' {
        digits_literal(s.subrange(2, s.len() as int), 2)
    } else {
        digits_literal(s, 10)
    }
}

/// The word that a number literal denotes, if it denotes one.
pub open spec fn literal_word(s: Seq<char>) -> Option<u16> {
    match literal_value(s) {
        Some(v) => if v <= 0xffff {
            Some(v as u16)
        } else {
            None
        },
        None => None,
    }
}

fn digit_of(c: char, radix: u32) -> (r: Option<u32>)
    requires
        radix == 2 || radix == 10 || radix == 16,
    ensures
        r matches Some(v) ==> digit_value(c, radix as nat) == Some(v as nat),
        r is None ==> digit_value(c, radix as nat) is None,
{
    let v: u32 = if '0' <= c && c <= '9' {
        (c as u32) - ('0' as u32)
    } else if 'a' <= c && c <= 'f' {
        (c as u32) - ('a' as u32) + 10
    } else if 'A' <= c && c <= 'F' {
        (c as u32) - ('A' as u32) + 10
    } else {
        16
    };
    if v < radix {
        Some(v)
    } else {
        None
    }
}

/// Reads the digits of `s[from..]` in `radix`; the result saturates at `0x10000`.
fn digits_to_u32(s: &[char], from: usize, radix: u32) -> (r: Option<u32>)
    requires
        from <= s@.len(),
        radix == 2 || radix == 10 || radix == 16,
    ensures
        r matches Some(v) ==> all_digits(s@.subrange(from as int, s@.len() as int), radix as nat)
            && v as nat == if digits_value(s@.subrange(from as int, s@.len() as int), radix as nat)
            < 0x10000 {
            digits_value(s@.subrange(from as int, s@.len() as int), radix as nat)
        } else {
            0x10000
        },
        r is None ==> !all_digits(s@.subrange(from as int, s@.len() as int), radix as nat),
{
    let ghost d = s@.subrange(from as int, s@.len() as int);
    let mut acc: u32 = 0;
    let mut i: usize = from;
    while i < s.len()
        invariant
            from <= i <= s@.len(),
            d == s@.subrange(from as int, s@.len() as int),
            radix == 2 || radix == 10 || radix == 16,
            all_digits(d.take(i - from), radix as nat),
            acc as nat == if digits_value(d.take(i - from), radix as nat) < 0x10000 {
                digits_value(d.take(i - from), radix as nat)
            } else {
                0x10000
            },
        decreases s@.len() - i,
    {
        let k: Ghost<int> = Ghost(i - from);
        match digit_of(s[i], radix) {
            None => {
                proof {
                    assert(d[k@] == s@[i as int]);
                }
                return None;
            }
            Some(dv) => {
                proof {
                    assert(d.take(k@ + 1).drop_last() =~= d.take(k@));
                    assert(d.take(k@ + 1).last() == s@[i as int]);
                    let old_v = digits_value(d.take(k@), radix as nat);
                    let new_v = digits_value(d.take(k@ + 1), radix as nat);
                    assert(new_v == old_v * radix as nat + dv as nat);
                    assert(old_v * radix as nat >= old_v) by (nonlinear_arith)
                        requires
                            radix >= 2,
                    ;
                    if old_v < 0x10000 {
                        assert(old_v * radix as nat <= 0x10000 * 16) by (nonlinear_arith)
                            requires
                                old_v < 0x10000,
                                radix <= 16,
                        ;
                    }
                    assert forall|j: int| 0 <= j < d.take(k@ + 1).len() implies #[trigger] digit_value(
                        d.take(k@ + 1)[j],
                        radix as nat,
                    ) is Some by {
                        if j < k@ {
                            assert(d.take(k@ + 1)[j] == d.take(k@)[j]);
                        }
                    }
                }
                let next = acc * radix + dv;
                acc = if next < 0x10000 {
                    next
                } else {
                    0x10000
                };
            }
        }
        i += 1;
    }
    proof {
        assert(d.take(i - from) =~= d);
    }
    Some(acc)
}

/// Reads a number literal given as characters.
pub(crate) fn literal_chars_to_u16(s: &[char]) -> (r: Result<u16, ()>)
    ensures
        r is Ok <==> literal_word(s@) is Some,
        r matches Ok(v) ==> literal_word(s@) == Some(v),
{
    let n = s.len();
    let (from, radix): (usize, u32) = if n >= 2 && s[0] == '0' && s[1] == 'x' {
        (2, 16)
    } else if n >= 2 && s[0] == '0' && s[1] == 'b' {
        (2, 2)
    } else {
        (0, 10)
    };
    proof {
        if from == 0 {
            assert(s@.subrange(0, n as int) =~= s@);
        }
    }
    if from == n {
        return Err(());
    }
    match digits_to_u32(s, from, radix) {
        Some(v) => {
            if v <= 0xffff {
                Ok(v as u16)
            } else {
                Err(())
            }
        },
        None => Err(()),
    }
}

/// Whether the characters have the syntax of a number literal, whatever its size.
pub(crate) fn literal_syntax(s: &[char]) -> (r: bool)
    ensures
        r == (literal_value(s@) is Some),
{
    let n = s.len();
    let (from, radix): (usize, u32) = if n >= 2 && s[0] == '0' && s[1] == 'x' {
        (2, 16)
    } else if n >= 2 && s[0] == '0' && s[1] == 'b' {
        (2, 2)
    } else {
        (0, 10)
    };
    proof {
        if from == 0 {
            assert(s@.subrange(0, n as int) =~= s@);
        }
    }
    if from == n {
        return false;
    }
    digits_to_u32(s, from, radix).is_some()
}

/// Gets the word of a number literal looking like `0xabc`, `0b01` or `10`.
pub fn number_literal_to_u16(input: &str) -> (r: Result<u16, ()>)
    ensures
        r is Ok <==> literal_word(input@) is Some,
        r matches Ok(v) ==> literal_word(input@) == Some(v),
{
    let c = chars_of(input);
    literal_chars_to_u16(c.as_slice())
}

} // verus!
