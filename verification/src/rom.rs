//! ROM chips in HDL, generated from machine words.
use crate::error::N2VError;
use crate::fmt::{decimal, push_decimal, push_str};
use vstd::prelude::*;

verus! {

/// Bit `j` of `byte`, counting from the least significant bit.
pub open spec fn bit_of(byte: u8, j: u8) -> bool {
    (byte >> j) & 1u8 == 1u8
}

/// The eight bits of `byte`, least significant first.
pub fn u8_to_bools(byte: &u8) -> (r: Vec<bool>)
    ensures
        r@.len() == 8,
        forall|j: int| 0 <= j < 8 ==> #[trigger] r@[j] == bit_of(*byte, j as u8),
{
    let mut v: Vec<bool> = Vec::new();
    let mut j: u8 = 0;
    while j < 8
        invariant
            j <= 8,
            v@.len() == j,
            forall|k: int| 0 <= k < j ==> #[trigger] v@[k] == bit_of(*byte, k as u8),
        decreases 8 - j,
    {
        v.push((*byte >> j) & 1u8 == 1u8);
        j = j + 1;
    }
    v
}

/// `'1'` for a set bit, `'0'` for a clear one.
pub open spec fn bit_char(b: bool) -> char {
    if b {
        '1'
    } else {
        '0'
    }
}

/// The bits written most significant first: the last bit of `bools` leads.
pub fn bools_bin_str(bools: &[bool]) -> (r: String)
    ensures
        r@.len() == bools@.len(),
        forall|i: int| 0 <= i < bools@.len() ==> #[trigger] r@[i] == bit_char(bools@[bools@.len() - 1 - i]),
{
    let mut s = String::new();
    let n = bools.len();
    let mut i: usize = 0;
    while i < n
        invariant
            n == bools@.len(),
            i <= n,
            s@.len() == i,
            forall|k: int| 0 <= k < i ==> #[trigger] s@[k] == bit_char(bools@[n - 1 - k]),
        decreases n - i,
    {
        if bools[n - 1 - i] {
            push_str(&mut s, "1");
            proof { reveal_strlit("1"); }
        } else {
            push_str(&mut s, "0");
            proof { reveal_strlit("0"); }
        }
        i = i + 1;
    }
    s
}

/// How a bit is written in HDL: `true` or `false`.
pub open spec fn bool_text(b: bool) -> Seq<char> {
    if b {
        "true"@
    } else {
        "false"@
    }
}

/// The port mappings `in[k]=bit,` of one word, from bit `from` on.
pub open spec fn mappings_text(inst: Seq<bool>, from: nat) -> Seq<char>
    decreases inst.len() - from,
{
    if from >= inst.len() {
        Seq::empty()
    } else {
        "in["@ + decimal(from) + "]="@ + bool_text(inst[from as int]) + ",\n\t"@ + mappings_text(inst, from + 1)
    }
}

/// The buffer that drives word `idx` of a ROM chip.
pub open spec fn buffer_text(idx: nat, inst: Seq<bool>) -> Seq<char> {
    "BufferGen<16>(\n\t"@ + mappings_text(inst, 0) + "out=rom"@ + decimal(idx) + "\n"@ + "\t);\n\n"@
}

/// The buffers of words `from` on.
pub open spec fn buffers_text(chunk: Seq<Seq<bool>>, from: nat) -> Seq<char>
    decreases chunk.len() - from,
{
    if from >= chunk.len() {
        Seq::empty()
    } else {
        buffer_text(from, chunk[from as int]) + buffers_text(chunk, from + 1)
    }
}

/// The opening of every ROM chip.
pub open spec fn rom_header() -> Seq<char> {
    "CHIP ROM"@ + decimal(0) + " {"@ + "\n"@ + "\tIN addr1[3], addr2[3];"@ + "\n"@
        + "\tOUT out1[16], out2[16];\n"@ + "\n"@ + "\tPARTS:\n"@ + "\n"@
}

/// The multiplexer that selects a word by the first address (`addr1`, to
/// `out1`) or the second (`addr2`, to `out2`).
pub open spec fn mux_text(first: bool) -> Seq<char> {
    "\tMux8Way<16>("@ + "\n"@ + "\t\tin000=rom0, in001=rom1, in010=rom2, in011=rom3,"@ + "\n"@
        + "\t\tin100=rom4, in101=rom5, in110=rom6, in111=rom7,"@ + "\n"@ + "\t\tsel="@ + (if first {
        "addr1"@
    } else {
        "addr2"@
    }) + "[0..2],"@ + "\n"@ + "\t\tout="@ + (if first {
        "out1"@
    } else {
        "out2"@
    }) + "\n"@ + "\t);"@ + "\n"@
}

/// The HDL of a ROM chip holding the words of `chunk`.
pub open spec fn rom_text(chunk: Seq<Seq<bool>>) -> Seq<char> {
    rom_header() + buffers_text(chunk, 0) + mux_text(true) + mux_text(false) + "}"@ + "\n"@
}

/// The words after padding: as many 16-bit zero words are appended as the
/// remainder of the word count divided by 8.
pub open spec fn padded_words(bools: Seq<Vec<bool>>) -> Seq<Seq<bool>> {
    bools.map_values(|w: Vec<bool>| w@) + Seq::new(
        (bools.len() % 8) as nat,
        |i: int| Seq::new(16, |j: int| false),
    )
}

/// Chunk `c` of eight words (the last one may hold fewer).
pub open spec fn chunk_of(words: Seq<Seq<bool>>, c: int) -> Seq<Seq<bool>> {
    words.subrange(8 * c, if 8 * c + 8 <= words.len() {
        8 * c + 8
    } else {
        words.len() as int
    })
}

fn push_bool(s: &mut String, b: bool)
    ensures
        final(s)@ == old(s)@ + bool_text(b),
{
    if b {
        push_str(s, "true");
    } else {
        push_str(s, "false");
    }
}

fn push_buffer(s: &mut String, idx: usize, inst: &Vec<bool>)
    ensures
        final(s)@ == old(s)@ + buffer_text(idx as nat, inst@),
{
    let ghost s0 = s@;
    push_str(s, "BufferGen<16>(\n\t");
    let ghost s1 = s@;
    let mut k: usize = 0;
    while k < inst.len()
        invariant
            k <= inst@.len(),
            s@ + mappings_text(inst@, k as nat) == s1 + mappings_text(inst@, 0),
        decreases inst@.len() - k,
    {
        let ghost before = s@;
        push_str(s, "in[");
        push_decimal(s, k);
        push_str(s, "]=");
        push_bool(s, inst[k]);
        push_str(s, ",\n\t");
        proof {
            assert(s@ =~= before + ("in["@ + decimal(k as nat) + "]="@ + bool_text(inst@[k as int]) + ",\n\t"@));
            assert(mappings_text(inst@, k as nat) == "in["@ + decimal(k as nat) + "]="@ + bool_text(inst@[k as int]) + ",\n\t"@ + mappings_text(inst@, (k + 1) as nat));
            assert(s@ + mappings_text(inst@, (k + 1) as nat) =~= before + mappings_text(inst@, k as nat));
        }
        k = k + 1;
    }
    assert(mappings_text(inst@, k as nat) == Seq::<char>::empty());
    assert(s@ =~= s1 + mappings_text(inst@, 0));
    push_str(s, "out=rom");
    push_decimal(s, idx);
    push_str(s, "\n");
    push_str(s, "\t);\n\n");
    assert(s@ =~= s0 + buffer_text(idx as nat, inst@));
}

fn push_mux(s: &mut String, first: bool)
    ensures
        final(s)@ == old(s)@ + mux_text(first),
{
    let ghost s0 = s@;
    push_str(s, "\tMux8Way<16>(");
    push_str(s, "\n");
    push_str(s, "\t\tin000=rom0, in001=rom1, in010=rom2, in011=rom3,");
    push_str(s, "\n");
    push_str(s, "\t\tin100=rom4, in101=rom5, in110=rom6, in111=rom7,");
    push_str(s, "\n");
    push_str(s, "\t\tsel=");
    if first {
        push_str(s, "addr1");
    } else {
        push_str(s, "addr2");
    }
    push_str(s, "[0..2],");
    push_str(s, "\n");
    push_str(s, "\t\tout=");
    if first {
        push_str(s, "out1");
    } else {
        push_str(s, "out2");
    }
    push_str(s, "\n");
    push_str(s, "\t);");
    push_str(s, "\n");
    assert(s@ =~= s0 + mux_text(first));
}

fn rom_chip(words: &Vec<Vec<bool>>, start: usize, end: usize) -> (r: String)
    requires
        start <= end <= words@.len(),
    ensures
        r@ == rom_text(words@.map_values(|w: Vec<bool>| w@).subrange(start as int, end as int)),
{
    let ghost chunk = words@.map_values(|w: Vec<bool>| w@).subrange(start as int, end as int);
    let mut rom = String::new();
    push_str(&mut rom, "CHIP ROM");
    push_decimal(&mut rom, 0);
    push_str(&mut rom, " {");
    push_str(&mut rom, "\n");
    push_str(&mut rom, "\tIN addr1[3], addr2[3];");
    push_str(&mut rom, "\n");
    push_str(&mut rom, "\tOUT out1[16], out2[16];\n");
    push_str(&mut rom, "\n");
    push_str(&mut rom, "\tPARTS:\n");
    push_str(&mut rom, "\n");
    assert(rom@ =~= rom_header());
    let mut i: usize = start;
    while i < end
        invariant
            start <= i <= end <= words@.len(),
            chunk == words@.map_values(|w: Vec<bool>| w@).subrange(start as int, end as int),
            rom@ + buffers_text(chunk, (i - start) as nat) == rom_header() + buffers_text(chunk, 0),
        decreases end - i,
    {
        let ghost before = rom@;
        push_buffer(&mut rom, i - start, &words[i]);
        proof {
            assert(chunk[(i - start) as int] == words@[i as int]@);
            assert(buffers_text(chunk, (i - start) as nat) == buffer_text((i - start) as nat, chunk[(i - start) as int]) + buffers_text(chunk, (i + 1 - start) as nat));
            assert(rom@ + buffers_text(chunk, (i + 1 - start) as nat) =~= before + buffers_text(chunk, (i - start) as nat));
        }
        i = i + 1;
    }
    assert(buffers_text(chunk, (end - start) as nat) == Seq::<char>::empty());
    assert(rom@ =~= rom_header() + buffers_text(chunk, 0));
    push_mux(&mut rom, true);
    push_mux(&mut rom, false);
    push_str(&mut rom, "}");
    push_str(&mut rom, "\n");
    assert(rom@ =~= rom_text(chunk));
    rom
}

/// HDL for ROM chips holding `bools`, eight words per chip.
pub fn create_rom(bools: &Vec<Vec<bool>>) -> (r: Result<Vec<String>, N2VError>)
    requires
        bools@.len() + 8 <= usize::MAX,
    ensures
        r is Ok,
        r.unwrap()@.len() == (padded_words(bools@).len() + 7) / 8,
        forall|c: int| 0 <= c < r.unwrap()@.len() ==> #[trigger] r.unwrap()@[c]@ == rom_text(chunk_of(padded_words(bools@), c)),
{
    let mut padded: Vec<Vec<bool>> = Vec::new();
    let mut i: usize = 0;
    while i < bools.len()
        invariant
            i <= bools@.len(),
            padded@.len() == i,
            forall|k: int| 0 <= k < i ==> #[trigger] padded@[k]@ == bools@[k]@,
        decreases bools@.len() - i,
    {
        let mut w: Vec<bool> = Vec::new();
        let mut j: usize = 0;
        while j < bools[i].len()
            invariant
                i < bools@.len(),
                j <= bools@[i as int]@.len(),
                w@ == bools@[i as int]@.subrange(0, j as int),
            decreases bools@[i as int]@.len() - j,
        {
            w.push(bools[i][j]);
            assert(w@ =~= bools@[i as int]@.subrange(0, j + 1));
            j = j + 1;
        }
        assert(w@ =~= bools@[i as int]@);
        padded.push(w);
        i = i + 1;
    }
    let extra = bools.len() % 8;
    let mut e: usize = 0;
    while e < extra
        invariant
            e <= extra,
            extra == bools@.len() % 8,
            padded@.len() == bools@.len() + e,
            forall|k: int| 0 <= k < bools@.len() ==> #[trigger] padded@[k]@ == bools@[k]@,
            forall|k: int| bools@.len() <= k < padded@.len() ==> #[trigger] padded@[k]@ == Seq::new(16, |j: int| false),
        decreases extra - e,
    {
        let mut w: Vec<bool> = Vec::new();
        let mut j: usize = 0;
        while j < 16
            invariant
                j <= 16,
                w@ == Seq::new(j as nat, |k: int| false),
            decreases 16 - j,
        {
            w.push(false);
            assert(w@ =~= Seq::new((j + 1) as nat, |k: int| false));
            j = j + 1;
        }
        padded.push(w);
        e = e + 1;
    }
    let ghost words = padded_words(bools@);
    assert(padded@.map_values(|w: Vec<bool>| w@) =~= words);
    let n = padded.len();
    let mut roms: Vec<String> = Vec::new();
    let mut start: usize = 0;
    while start < n
        invariant
            n == padded@.len(),
            padded@.map_values(|w: Vec<bool>| w@) == words,
            start <= n,
            start < n ==> start == 8 * roms@.len(),
            start == n ==> 8 * roms@.len() >= n && 8 * roms@.len() < n + 8,
            forall|c: int| 0 <= c < roms@.len() ==> #[trigger] roms@[c]@ == rom_text(chunk_of(words, c)),
        decreases n - start,
    {
        let end = if n - start > 8 { start + 8 } else { n };
        let rom = rom_chip(&padded, start, end);
        let ghost c = roms@.len() as int;
        roms.push(rom);
        assert(roms@[c]@ == rom_text(chunk_of(words, c)));
        start = end;
    }
    assert(roms@.len() == (words.len() + 7) / 8) by (nonlinear_arith)
        requires
            n == words.len(),
            8 * roms@.len() >= n,
            8 * roms@.len() < n + 8,
    ;
    Ok(roms)
}

} // verus!
