use vstd::prelude::*;

use crate::util::{be_word, u16_from_be, word_bytes, BError};
use crate::vm::{VmDescription, RAM_LEN};

verus! {

/// The big-endian bytes of words, in order.
pub open spec fn words_bytes(ws: Seq<u16>) -> Seq<u8>
    decreases ws.len(),
{
    if ws.len() == 0 {
        Seq::empty()
    } else {
        words_bytes(ws.drop_last()) + word_bytes(ws.last())
    }
}

/// The bytes of one ROM-to-RAM copy: ROM address, length, RAM address, separator.
pub open spec fn mapping_bytes(m: (u16, u16, u16)) -> Seq<u8> {
    word_bytes(m.0) + word_bytes(m.1) + word_bytes(m.2) + seq![0u8]
}

pub open spec fn mappings_bytes(ms: Seq<(u16, u16, u16)>) -> Seq<u8>
    decreases ms.len(),
{
    if ms.len() == 0 {
        Seq::empty()
    } else {
        mappings_bytes(ms.drop_last()) + mapping_bytes(ms.last())
    }
}

/// Magic, PC, latches and the head of the mapping section.
pub open spec fn image_head(d: &VmDescription) -> Seq<u8> {
    let r = d.regs@;
    let m = d.rom_mappings@.len() as u16;
    seq![0x42u8, 0x56u8, 0x4du8, 0u8] + word_bytes(d.pc) + seq![0u8] + word_bytes(r[0]) + word_bytes(
        r[1],
    ) + word_bytes(r[2]) + word_bytes(r[3]) + word_bytes(r[4]) + word_bytes(r[5]) + seq![
        0u8,
        0x52u8,
        0x4du8,
        0x50u8,
        0u8,
    ] + word_bytes(m) + seq![0u8]
}

/// The head of the ROM section.
pub open spec fn rom_head(d: &VmDescription) -> Seq<u8> {
    seq![0u8, 0x52u8, 0x4fu8, 0x4du8, 0u8] + word_bytes(d.rom@.len() as u16) + seq![0u8]
}

/// The head of the RAM section.
pub open spec fn ram_head() -> Seq<u8> {
    seq![0u8, 0x52u8, 0x41u8, 0x4du8, 0u8]
}

/// The `.bvm` bytes of a description.
pub open spec fn image_bytes(d: &VmDescription) -> Seq<u8> {
    image_head(d) + mappings_bytes(d.rom_mappings@) + rom_head(d) + words_bytes(d.rom@) + ram_head()
        + words_bytes(d.mem@)
}

/// A description that the format can hold.
pub open spec fn image_fits(d: &VmDescription) -> bool {
    &&& d.wf()
    &&& d.rom_mappings@.len() <= 0xffff
    &&& d.rom@.len() <= 0xffff
}

/// The number of mappings that the bytes announce.
pub open spec fn announced_mappings(b: Seq<u8>) -> int {
    be_word(b[24], b[25]) as int
}

/// The number of ROM words that the bytes announce.
pub open spec fn announced_rom(b: Seq<u8>) -> int {
    let m = announced_mappings(b);
    be_word(b[32 + 7 * m], b[33 + 7 * m]) as int
}

/// The bytes have the layout of a `.bvm` image: magics, separators and lengths.
pub open spec fn image_shape(b: Seq<u8>) -> bool {
    &&& b.len() >= 27
    &&& b[0] == 0x42 && b[1] == 0x56 && b[2] == 0x4d && b[3] == 0
    &&& b[6] == 0
    &&& b[19] == 0
    &&& b[20] == 0x52 && b[21] == 0x4d && b[22] == 0x50 && b[23] == 0
    &&& b[26] == 0
    &&& b.len() >= 35 + 7 * announced_mappings(b)
    &&& forall|j: int| 0 <= j < announced_mappings(b) ==> #[trigger] b[27 + 7 * j + 6] == 0
    &&& ({
        let o = 27 + 7 * announced_mappings(b);
        &&& b[o] == 0 && b[o + 1] == 0x52 && b[o + 2] == 0x4f && b[o + 3] == 0x4d && b[o + 4] == 0
        &&& b[o + 7] == 0
        &&& b.len() == o + 8 + 2 * announced_rom(b) + 5 + 2 * RAM_LEN
        &&& ({
            let q = o + 8 + 2 * announced_rom(b);
            b[q] == 0 && b[q + 1] == 0x52 && b[q + 2] == 0x41 && b[q + 3] == 0x4d && b[q + 4] == 0
        })
    })
}

proof fn lemma_word_bytes(w: u16)
    ensures
        word_bytes(w).len() == 2,
        be_word(word_bytes(w)[0], word_bytes(w)[1]) == w,
{
}

proof fn lemma_be_word_bytes(hi: u8, lo: u8)
    ensures
        word_bytes(be_word(hi, lo)) == seq![hi, lo],
{
    assert(word_bytes(be_word(hi, lo)) =~= seq![hi, lo]);
}

proof fn lemma_words_bytes(ws: Seq<u16>)
    ensures
        words_bytes(ws).len() == 2 * ws.len(),
        forall|i: int|
            0 <= i < ws.len() ==> words_bytes(ws)[2 * i] == word_bytes(#[trigger] ws[i])[0]
                && words_bytes(ws)[2 * i + 1] == word_bytes(ws[i])[1],
    decreases ws.len(),
{
    if ws.len() > 0 {
        lemma_words_bytes(ws.drop_last());
        assert forall|i: int| 0 <= i < ws.len() implies words_bytes(ws)[2 * i] == word_bytes(
            #[trigger] ws[i],
        )[0] && words_bytes(ws)[2 * i + 1] == word_bytes(ws[i])[1] by {
            if i < ws.len() - 1 {
                assert(ws.drop_last()[i] == ws[i]);
            }
        }
    }
}

proof fn lemma_mappings_bytes(ms: Seq<(u16, u16, u16)>)
    ensures
        mappings_bytes(ms).len() == 7 * ms.len(),
        forall|j: int|
            0 <= j < ms.len() ==> mappings_bytes(ms).subrange(7 * j, 7 * j + 7) == mapping_bytes(
                #[trigger] ms[j],
            ),
    decreases ms.len(),
{
    if ms.len() > 0 {
        let p = ms.drop_last();
        lemma_mappings_bytes(p);
        assert forall|j: int| 0 <= j < ms.len() implies mappings_bytes(ms).subrange(7 * j, 7 * j + 7)
            == mapping_bytes(#[trigger] ms[j]) by {
            if j < ms.len() - 1 {
                assert(p[j] == ms[j]);
                assert(mappings_bytes(ms).subrange(7 * j, 7 * j + 7) =~= mappings_bytes(p).subrange(
                    7 * j,
                    7 * j + 7,
                ));
            } else {
                assert(mappings_bytes(ms).subrange(7 * j, 7 * j + 7) =~= mapping_bytes(ms[j]));
            }
        }
    }
}

/// The pieces of an image, each at its offset.
proof fn lemma_image_parts(d: &VmDescription)
    ensures
        ({
            let b = image_bytes(d);
            let m = d.rom_mappings@.len() as int;
            let r = d.rom@.len() as int;
            let o = 27 + 7 * m;
            let q = o + 8 + 2 * r;
            &&& image_head(d).len() == 27
            &&& rom_head(d).len() == 8
            &&& b.len() == q + 5 + 2 * d.mem@.len()
            &&& b.subrange(0, 27) == image_head(d)
            &&& b.subrange(27, o) == mappings_bytes(d.rom_mappings@)
            &&& b.subrange(o, o + 8) == rom_head(d)
            &&& b.subrange(o + 8, q) == words_bytes(d.rom@)
            &&& b.subrange(q, q + 5) == ram_head()
            &&& b.subrange(q + 5, b.len() as int) == words_bytes(d.mem@)
        }),
{
    lemma_mappings_bytes(d.rom_mappings@);
    lemma_words_bytes(d.rom@);
    lemma_words_bytes(d.mem@);
    let b = image_bytes(d);
    let m = d.rom_mappings@.len() as int;
    let r = d.rom@.len() as int;
    let o = 27 + 7 * m;
    let q = o + 8 + 2 * r;
    let h = image_head(d);
    let mb = mappings_bytes(d.rom_mappings@);
    let rh = rom_head(d);
    let rw = words_bytes(d.rom@);
    let mw = words_bytes(d.mem@);
    assert(h.len() == 27);
    assert(rh.len() == 8);
    assert(b == h + mb + rh + rw + ram_head() + mw);
    assert(b.subrange(0, 27) =~= h);
    assert(b.subrange(27, o) =~= mb);
    assert(b.subrange(o, o + 8) =~= rh);
    assert(b.subrange(o + 8, q) =~= rw);
    assert(b.subrange(q, q + 5) =~= ram_head());
    assert(b.subrange(q + 5, b.len() as int) =~= mw);
}

proof fn lemma_map_separators(d: &VmDescription)
    ensures
        forall|j: int|
            0 <= j < d.rom_mappings@.len() ==> #[trigger] image_bytes(d)[27 + 7 * j + 6] == 0,
{
    lemma_image_parts(d);
    lemma_mappings_bytes(d.rom_mappings@);
    let b = image_bytes(d);
    let m = d.rom_mappings@.len() as int;
    let o = 27 + 7 * m;
    assert forall|j: int| 0 <= j < m implies #[trigger] b[27 + 7 * j + 6] == 0 by {
        let mb = mappings_bytes(d.rom_mappings@);
        let mm = d.rom_mappings@[j];
        assert(b[27 + 7 * j + 6] == b.subrange(27, o)[7 * j + 6]);
        assert(mb[7 * j + 6] == mb.subrange(7 * j, 7 * j + 7)[6]);
        assert(mb.subrange(7 * j, 7 * j + 7) == mapping_bytes(mm));
        assert(mapping_bytes(mm)[6] == 0);
    }
}

/// The image of every description that the format can hold has the `.bvm` layout.
pub proof fn lemma_image_has_shape(d: &VmDescription)
    requires
        image_fits(d),
    ensures
        image_shape(image_bytes(d)),
        announced_mappings(image_bytes(d)) == d.rom_mappings@.len(),
        announced_rom(image_bytes(d)) == d.rom@.len(),
{
    lemma_image_parts(d);
    let b = image_bytes(d);
    let m = d.rom_mappings@.len() as int;
    let r = d.rom@.len() as int;
    let o = 27 + 7 * m;
    let q = o + 8 + 2 * r;
    lemma_word_bytes(m as u16);
    lemma_word_bytes(r as u16);
    assert(b[24] == b.subrange(0, 27)[24]);
    assert(b[25] == b.subrange(0, 27)[25]);
    assert(announced_mappings(b) == m);
    assert(b[o + 5] == b.subrange(o, o + 8)[5]);
    assert(b[o + 6] == b.subrange(o, o + 8)[6]);
    assert(announced_rom(b) == r);
    lemma_map_separators(d);
    assert(b[o] == b.subrange(o, o + 8)[0]);
    assert(b[o + 1] == b.subrange(o, o + 8)[1]);
    assert(b[o + 2] == b.subrange(o, o + 8)[2]);
    assert(b[o + 3] == b.subrange(o, o + 8)[3]);
    assert(b[o + 4] == b.subrange(o, o + 8)[4]);
    assert(b[o + 7] == b.subrange(o, o + 8)[7]);
    assert(b[q] == b.subrange(q, q + 5)[0]);
    assert(b[q + 1] == b.subrange(q, q + 5)[1]);
    assert(b[q + 2] == b.subrange(q, q + 5)[2]);
    assert(b[q + 3] == b.subrange(q, q + 5)[3]);
    assert(b[q + 4] == b.subrange(q, q + 5)[4]);
    let h = b.subrange(0, 27);
    assert(b[0] == h[0] && b[1] == h[1] && b[2] == h[2] && b[3] == h[3]);
    assert(b[6] == h[6] && b[19] == h[19] && b[26] == h[26]);
    assert(b[20] == h[20] && b[21] == h[21] && b[22] == h[22] && b[23] == h[23]);
}

proof fn lemma_same_head(d: &VmDescription, e: &VmDescription)
    requires
        image_head(d) == image_head(e),
        d.regs@.len() == 6,
        e.regs@.len() == 6,
    ensures
        e.pc == d.pc,
        e.regs@ == d.regs@,
{
    let hd = image_head(d);
    let he = image_head(e);
    lemma_word_bytes(d.pc);
    lemma_word_bytes(e.pc);
    assert(hd[4] == he[4] && hd[5] == he[5]);
    let rd = d.regs@;
    let re = e.regs@;
    assert forall|i: int| 0 <= i < 6 implies rd[i] == re[i] by {
        lemma_word_bytes(rd[i]);
        lemma_word_bytes(re[i]);
        assert(hd[7 + 2 * i] == he[7 + 2 * i] && hd[8 + 2 * i] == he[8 + 2 * i]);
    }
    assert(rd =~= re);
}

proof fn lemma_same_words(a: Seq<u16>, c: Seq<u16>)
    requires
        words_bytes(a) == words_bytes(c),
    ensures
        a == c,
{
    lemma_words_bytes(a);
    lemma_words_bytes(c);
    assert forall|i: int| 0 <= i < a.len() implies a[i] == c[i] by {
        lemma_word_bytes(a[i]);
        lemma_word_bytes(c[i]);
    }
    assert(a =~= c);
}

proof fn lemma_same_mappings(a: Seq<(u16, u16, u16)>, c: Seq<(u16, u16, u16)>)
    requires
        mappings_bytes(a) == mappings_bytes(c),
    ensures
        a == c,
{
    lemma_mappings_bytes(a);
    lemma_mappings_bytes(c);
    let md = mappings_bytes(a);
    assert forall|j: int| 0 <= j < a.len() implies a[j] == c[j] by {
        let x = a[j];
        let y = c[j];
        let pa = md.subrange(7 * j, 7 * j + 7);
        assert(pa == mapping_bytes(x));
        assert(pa == mapping_bytes(y));
        lemma_word_bytes(x.0);
        lemma_word_bytes(x.1);
        lemma_word_bytes(x.2);
        lemma_word_bytes(y.0);
        lemma_word_bytes(y.1);
        lemma_word_bytes(y.2);
        assert(pa[0] == mapping_bytes(x)[0] && pa[1] == mapping_bytes(x)[1]);
        assert(pa[2] == mapping_bytes(x)[2] && pa[3] == mapping_bytes(x)[3]);
        assert(pa[4] == mapping_bytes(x)[4] && pa[5] == mapping_bytes(x)[5]);
    }
    assert(a =~= c);
}

/// Two descriptions that the format can hold and that have the same image agree on PC,
/// latches, ROM, RAM and mappings.
pub proof fn lemma_image_injective(d: &VmDescription, e: &VmDescription)
    requires
        image_fits(d),
        image_fits(e),
        image_bytes(d) == image_bytes(e),
    ensures
        e.pc == d.pc,
        e.regs@ == d.regs@,
        e.rom@ == d.rom@,
        e.mem@ == d.mem@,
        e.rom_mappings@ == d.rom_mappings@,
{
    lemma_image_has_shape(d);
    lemma_image_has_shape(e);
    lemma_image_parts(d);
    lemma_image_parts(e);
    let b = image_bytes(d);
    let m = d.rom_mappings@.len() as int;
    let r = d.rom@.len() as int;
    let o = 27 + 7 * m;
    let q = o + 8 + 2 * r;
    lemma_same_head(d, e);
    lemma_same_mappings(d.rom_mappings@, e.rom_mappings@);
    lemma_same_words(d.rom@, e.rom@);
    lemma_same_words(d.mem@, e.mem@);
}

/// Deserializing what serializing gave returns the same PC, latches, ROM, RAM and mappings:
/// the bytes of `d` have the layout of an image, and whatever description `e` the format can
/// hold has the same bytes agrees with `d` on each of them.
pub proof fn lemma_round_trip(d: &VmDescription, e: &VmDescription)
    requires
        image_fits(d),
        image_fits(e),
        image_bytes(e) == image_bytes(d),
    ensures
        image_shape(image_bytes(d)),
        e.pc == d.pc,
        e.regs@ == d.regs@,
        e.rom@ == d.rom@,
        e.mem@ == d.mem@,
        e.rom_mappings@ == d.rom_mappings@,
{
    lemma_image_has_shape(d);
    lemma_image_injective(d, e);
}

fn push_word(out: &mut Vec<u8>, w: u16)
    ensures
        final(out)@ == old(out)@ + word_bytes(w),
{
    out.push((w / 256) as u8);
    out.push((w % 256) as u8);
    proof {
        assert(final(out)@ =~= old(out)@ + word_bytes(w));
    }
}

fn push_words(out: &mut Vec<u8>, ws: &[u16])
    ensures
        final(out)@ == old(out)@ + words_bytes(ws@),
{
    let ghost start = out@;
    let mut i: usize = 0;
    while i < ws.len()
        invariant
            i <= ws@.len(),
            out@ == start + words_bytes(ws@.take(i as int)),
        decreases ws@.len() - i,
    {
        proof {
            assert(ws@.take(i as int + 1).drop_last() =~= ws@.take(i as int));
            assert(ws@.take(i as int + 1).last() == ws@[i as int]);
        }
        push_word(out, ws[i]);
        proof {
            assert(out@ =~= start + words_bytes(ws@.take(i as int + 1)));
        }
        i += 1;
    }
    proof {
        assert(ws@.take(i as int) =~= ws@);
    }
}

impl VmDescription {
    /// The `.bvm` bytes of the description; read-only blocks and callbacks are not kept.
    /// Fails when there are more than `0xffff` mappings or ROM words.
    pub fn serialize(&self) -> (r: Result<Vec<u8>, BError>)
        ensures
            r is Ok <==> self.rom_mappings@.len() <= 0xffff && self.rom@.len() <= 0xffff,
            r matches Ok(b) ==> b@ == image_bytes(self),
            r matches Err(e) ==> e is SerializationError,
    {
        let map_no = self.rom_mappings.len();
        if map_no > 0xffff {
            return Err(BError::SerializationError(String::from_str("too many ROM mappings")));
        }
        let rom_len = self.rom.len();
        if rom_len > 0xffff {
            return Err(BError::SerializationError(String::from_str("ROM too large")));
        }
        let mut output: Vec<u8> = Vec::new();
        output.push(0x42);
        output.push(0x56);
        output.push(0x4d);
        output.push(0);
        push_word(&mut output, self.pc);
        output.push(0);
        push_word(&mut output, self.regs[0]);
        push_word(&mut output, self.regs[1]);
        push_word(&mut output, self.regs[2]);
        push_word(&mut output, self.regs[3]);
        push_word(&mut output, self.regs[4]);
        push_word(&mut output, self.regs[5]);
        output.push(0);
        output.push(0x52);
        output.push(0x4d);
        output.push(0x50);
        output.push(0);
        push_word(&mut output, map_no as u16);
        output.push(0);
        proof {
            assert(output@ =~= image_head(self));
        }
        let ghost head = output@;
        let mut j: usize = 0;
        while j < map_no
            invariant
                map_no == self.rom_mappings@.len(),
                j <= map_no,
                output@ == head + mappings_bytes(self.rom_mappings@.take(j as int)),
            decreases map_no - j,
        {
            let (rom_addr, length, ram_addr) = self.rom_mappings[j];
            proof {
                assert(self.rom_mappings@.take(j as int + 1).drop_last() =~= self.rom_mappings@.take(
                    j as int,
                ));
                assert(self.rom_mappings@.take(j as int + 1).last() == self.rom_mappings@[j as int]);
            }
            push_word(&mut output, rom_addr);
            push_word(&mut output, length);
            push_word(&mut output, ram_addr);
            output.push(0);
            proof {
                assert(output@ =~= head + mappings_bytes(self.rom_mappings@.take(j as int + 1)));
            }
            j += 1;
        }
        proof {
            assert(self.rom_mappings@.take(map_no as int) =~= self.rom_mappings@);
        }
        let ghost before_rom = output@;
        output.push(0);
        output.push(0x52);
        output.push(0x4f);
        output.push(0x4d);
        output.push(0);
        push_word(&mut output, rom_len as u16);
        output.push(0);
        proof {
            assert(output@ =~= before_rom + rom_head(self));
        }
        push_words(&mut output, self.rom.as_slice());
        let ghost before_ram = output@;
        output.push(0);
        output.push(0x52);
        output.push(0x41);
        output.push(0x4d);
        output.push(0);
        proof {
            assert(output@ =~= before_ram + ram_head());
        }
        push_words(&mut output, self.mem.as_slice());
        proof {
            assert(output@ =~= image_bytes(self));
        }
        Ok(output)
    }

    /// Reads a description from `.bvm` bytes. It succeeds exactly on bytes with the layout of
    /// an image, and then returns the description whose image they are.
    pub fn deserialize(input: &[u8]) -> (r: Result<Self, BError>)
        ensures
            r is Ok <==> image_shape(input@),
            r matches Ok(d) ==> {
                &&& image_fits(&d)
                &&& image_bytes(&d) == input@
                &&& d.callbacks@ == Seq::<u16>::empty()
                &&& d.rom_blocks@ == Seq::<(u16, u16)>::empty()
            },
            r matches Err(e) ==> e is SerializationError || e is DeserializationError,
    {
        let b = input;
        let n = b.len();
        if n < 27 {
            return Err(BError::SerializationError(String::from_str("file too short or part missing")));
        }
        if !(b[0] == 0x42 && b[1] == 0x56 && b[2] == 0x4d && b[3] == 0) {
            return Err(BError::DeserializationError(String::from_str("invalid file format")));
        }
        if !(b[6] == 0 && b[19] == 0 && b[26] == 0) {
            return Err(BError::DeserializationError(String::from_str("invalid region separators")));
        }
        if !(b[20] == 0x52 && b[21] == 0x4d && b[22] == 0x50 && b[23] == 0) {
            return Err(BError::DeserializationError(String::from_str("no ROM mappings")));
        }
        let m = u16_from_be(b[24], b[25]) as usize;
        if n < 35 + 7 * m {
            return Err(BError::SerializationError(String::from_str("file too short or part missing")));
        }
        let mut mappings: Vec<(u16, u16, u16)> = Vec::new();
        let mut j: usize = 0;
        while j < m
            invariant
                b@ == input@,
                n == b@.len(),
                m == announced_mappings(b@),
                n >= 35 + 7 * m,
                j <= m,
                mappings@.len() == j,
                forall|k: int| 0 <= k < j ==> #[trigger] b@[27 + 7 * k + 6] == 0,
                forall|k: int|
                    0 <= k < j ==> #[trigger] mappings@[k] == (
                        be_word(b@[27 + 7 * k], b@[28 + 7 * k]),
                        be_word(b@[29 + 7 * k], b@[30 + 7 * k]),
                        be_word(b@[31 + 7 * k], b@[32 + 7 * k]),
                    ),
            decreases m - j,
        {
            let o = 27 + 7 * j;
            if b[o + 6] != 0 {
                proof {
                    assert(b@[27 + 7 * (j as int) + 6] != 0);
                }
                return Err(BError::DeserializationError(String::from_str("invalid region separators")));
            }
            let rom_addr = u16_from_be(b[o], b[o + 1]);
            let length = u16_from_be(b[o + 2], b[o + 3]);
            let ram_addr = u16_from_be(b[o + 4], b[o + 5]);
            mappings.push((rom_addr, length, ram_addr));
            j += 1;
        }
        let o = 27 + 7 * m;
        if !(b[o] == 0 && b[o + 1] == 0x52 && b[o + 2] == 0x4f && b[o + 3] == 0x4d && b[o + 4] == 0
            && b[o + 7] == 0) {
            return Err(BError::DeserializationError(String::from_str("no ROM")));
        }
        let rn = u16_from_be(b[o + 5], b[o + 6]) as usize;
        if n != o + 8 + 2 * rn + 5 + 2 * RAM_LEN {
            return Err(BError::DeserializationError(String::from_str("invalid length")));
        }
        let q = o + 8 + 2 * rn;
        if !(b[q] == 0 && b[q + 1] == 0x52 && b[q + 2] == 0x41 && b[q + 3] == 0x4d && b[q + 4] == 0) {
            return Err(BError::DeserializationError(String::from_str("no RAM")));
        }
        let rom = read_words(b, o + 8, rn);
        let mem = read_words(b, q + 5, RAM_LEN);
        let regs: [u16; 6] = [
            u16_from_be(b[7], b[8]),
            u16_from_be(b[9], b[10]),
            u16_from_be(b[11], b[12]),
            u16_from_be(b[13], b[14]),
            u16_from_be(b[15], b[16]),
            u16_from_be(b[17], b[18]),
        ];
        let d = VmDescription {
            pc: u16_from_be(b[4], b[5]),
            rom,
            mem,
            callbacks: Vec::new(),
            rom_mappings: mappings,
            regs,
            rom_blocks: Vec::new(),
        };
        proof {
            lemma_deserialized(b@, &d);
            assert(d.rom@.len() <= 0xffff);
        }
        Ok(d)
    }
}

/// The `count` big-endian words at `from`.
fn read_words(b: &[u8], from: usize, count: usize) -> (r: Vec<u16>)
    requires
        from + 2 * count <= b@.len(),
    ensures
        r@.len() == count,
        forall|k: int| 0 <= k < count ==> #[trigger] r@[k] == be_word(b@[from + 2 * k], b@[from + 2 * k + 1]),
{
    let mut out: Vec<u16> = Vec::new();
    let n = b.len();
    let mut i: usize = 0;
    while i < count
        invariant
            n == b@.len(),
            from + 2 * count <= b@.len(),
            i <= count,
            out@.len() == i,
            forall|k: int| 0 <= k < i ==> #[trigger] out@[k] == be_word(b@[from + 2 * k], b@[from + 2 * k + 1]),
        decreases count - i,
    {
        out.push(u16_from_be(b[from + 2 * i], b[from + 2 * i + 1]));
        i += 1;
    }
    out
}

proof fn lemma_words_match(b: Seq<u8>, from: int, ws: Seq<u16>)
    requires
        0 <= from,
        from + 2 * ws.len() <= b.len(),
        forall|k: int| 0 <= k < ws.len() ==> #[trigger] ws[k] == be_word(b[from + 2 * k], b[from + 2 * k + 1]),
    ensures
        words_bytes(ws) == b.subrange(from, from + 2 * ws.len()),
{
    lemma_words_bytes(ws);
    assert forall|i: int| 0 <= i < 2 * ws.len() implies words_bytes(ws)[i] == b.subrange(
        from,
        from + 2 * ws.len(),
    )[i] by {
        let k = i / 2;
        lemma_be_word_bytes(b[from + 2 * k], b[from + 2 * k + 1]);
        assert(ws[k] == be_word(b[from + 2 * k], b[from + 2 * k + 1]));
        if i % 2 == 0 {
            assert(i == 2 * k);
        } else {
            assert(i == 2 * k + 1);
        }
    }
    assert(words_bytes(ws) =~= b.subrange(from, from + 2 * ws.len()));
}

proof fn lemma_deserialized(b: Seq<u8>, d: &VmDescription)
    requires
        image_shape(b),
        d.mem@.len() == RAM_LEN,
        d.pc == be_word(b[4], b[5]),
        d.regs@ == seq![
            be_word(b[7], b[8]),
            be_word(b[9], b[10]),
            be_word(b[11], b[12]),
            be_word(b[13], b[14]),
            be_word(b[15], b[16]),
            be_word(b[17], b[18]),
        ],
        d.rom_mappings@.len() == announced_mappings(b),
        forall|k: int|
            0 <= k < announced_mappings(b) ==> #[trigger] d.rom_mappings@[k] == (
                be_word(b[27 + 7 * k], b[28 + 7 * k]),
                be_word(b[29 + 7 * k], b[30 + 7 * k]),
                be_word(b[31 + 7 * k], b[32 + 7 * k]),
            ),
        d.rom@.len() == announced_rom(b),
        forall|k: int|
            0 <= k < announced_rom(b) ==> #[trigger] d.rom@[k] == be_word(
                b[35 + 7 * announced_mappings(b) + 2 * k],
                b[35 + 7 * announced_mappings(b) + 2 * k + 1],
            ),
        forall|k: int|
            0 <= k < RAM_LEN ==> #[trigger] d.mem@[k] == be_word(
                b[40 + 7 * announced_mappings(b) + 2 * announced_rom(b) + 2 * k],
                b[40 + 7 * announced_mappings(b) + 2 * announced_rom(b) + 2 * k + 1],
            ),
    ensures
        image_bytes(d) == b,
{
    let m = announced_mappings(b);
    let r = announced_rom(b);
    let o = 27 + 7 * m;
    let q = o + 8 + 2 * r;
    lemma_image_parts(d);
    lemma_heads_match(b, d);
    lemma_words_match(b, o + 8, d.rom@);
    lemma_words_match(b, q + 5, d.mem@);
    lemma_mappings_match(b, d.rom_mappings@);
    assert(b =~= b.subrange(0, 27) + b.subrange(27, o) + b.subrange(o, o + 8) + b.subrange(o + 8, q)
        + b.subrange(q, q + 5) + b.subrange(q + 5, b.len() as int));
    assert(image_bytes(d) =~= b);
}

proof fn lemma_heads_match(b: Seq<u8>, d: &VmDescription)
    requires
        image_shape(b),
        d.pc == be_word(b[4], b[5]),
        d.regs@ == seq![
            be_word(b[7], b[8]),
            be_word(b[9], b[10]),
            be_word(b[11], b[12]),
            be_word(b[13], b[14]),
            be_word(b[15], b[16]),
            be_word(b[17], b[18]),
        ],
        d.rom_mappings@.len() == announced_mappings(b),
        d.rom@.len() == announced_rom(b),
    ensures
        image_head(d) == b.subrange(0, 27),
        rom_head(d) == b.subrange(27 + 7 * announced_mappings(b), 35 + 7 * announced_mappings(b)),
        ram_head() == b.subrange(
            35 + 7 * announced_mappings(b) + 2 * announced_rom(b),
            40 + 7 * announced_mappings(b) + 2 * announced_rom(b),
        ),
{
    let m = announced_mappings(b);
    let r = announced_rom(b);
    let o = 27 + 7 * m;
    let q = o + 8 + 2 * r;
    lemma_be_word_bytes(b[4], b[5]);
    lemma_be_word_bytes(b[7], b[8]);
    lemma_be_word_bytes(b[9], b[10]);
    lemma_be_word_bytes(b[11], b[12]);
    lemma_be_word_bytes(b[13], b[14]);
    lemma_be_word_bytes(b[15], b[16]);
    lemma_be_word_bytes(b[17], b[18]);
    lemma_be_word_bytes(b[24], b[25]);
    lemma_be_word_bytes(b[o + 5], b[o + 6]);
    assert(d.rom_mappings@.len() as u16 == be_word(b[24], b[25]));
    assert(d.rom@.len() as u16 == be_word(b[o + 5], b[o + 6]));
    assert(image_head(d) =~= b.subrange(0, 27));
    assert(rom_head(d) =~= b.subrange(o, o + 8));
    assert(ram_head() =~= b.subrange(q, q + 5));
}

proof fn lemma_mappings_match(b: Seq<u8>, ms: Seq<(u16, u16, u16)>)
    requires
        27 + 7 * ms.len() <= b.len(),
        forall|k: int| 0 <= k < ms.len() ==> #[trigger] b[27 + 7 * k + 6] == 0,
        forall|k: int|
            0 <= k < ms.len() ==> #[trigger] ms[k] == (
                be_word(b[27 + 7 * k], b[28 + 7 * k]),
                be_word(b[29 + 7 * k], b[30 + 7 * k]),
                be_word(b[31 + 7 * k], b[32 + 7 * k]),
            ),
    ensures
        mappings_bytes(ms) == b.subrange(27, 27 + 7 * ms.len() as int),
{
    lemma_mappings_bytes(ms);
    let m = ms.len() as int;
    let mb = mappings_bytes(ms);
    assert forall|i: int| 0 <= i < 7 * m implies mb[i] == b.subrange(27, 27 + 7 * m)[i] by {
        let j = i / 7;
        let t = i % 7;
        assert(i == 7 * j + t);
        let mm = ms[j];
        assert(mb.subrange(7 * j, 7 * j + 7) == mapping_bytes(mm));
        assert(mb[i] == mapping_bytes(mm)[t]);
        lemma_be_word_bytes(b[27 + 7 * j], b[28 + 7 * j]);
        lemma_be_word_bytes(b[29 + 7 * j], b[30 + 7 * j]);
        lemma_be_word_bytes(b[31 + 7 * j], b[32 + 7 * j]);
        assert(b[27 + 7 * j + 6] == 0);
    }
    assert(mb =~= b.subrange(27, 27 + 7 * m));
}

} // verus!
