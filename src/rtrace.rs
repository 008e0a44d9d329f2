//! Decoding of RISC-V function prologues for stack walking: how far the
//! first instruction moves `sp` down, where the second one stores `ra`, and
//! which symbol a return address falls in.
use vstd::prelude::*;

verus! {

/// Bits `[lo, lo + len)` of `x`.
pub open spec fn field(x: u32, lo: u32, len: u32) -> int {
    ((x >> lo) & (((1u32 << len) - 1) as u32)) as int
}

/// `v`, read as a two's-complement number of `bits` bits.
pub open spec fn sext(v: int, bits: nat) -> int {
    if v >= pow2((bits - 1) as nat) {
        v - pow2(bits)
    } else {
        v
    }
}

pub open spec fn pow2(n: nat) -> int
    decreases n,
{
    if n == 0 {
        1
    } else {
        2 * pow2((n - 1) as nat)
    }
}

/// Immediate of an `addi` (I-type), signed.
pub open spec fn addi_imm(ins: u32) -> int {
    sext(field(ins, 20, 12), 12)
}

/// Immediate of a `c.addi`, signed.
pub open spec fn c_addi_imm(ins: u32) -> int {
    sext(field(ins, 2, 5) + 32 * field(ins, 12, 1), 6)
}

/// Immediate of a `c.addi16sp`, signed.
pub open spec fn c_addi16sp_imm(ins: u32) -> int {
    sext(
        512 * field(ins, 12, 1) + 256 * field(ins, 4, 1) + 128 * field(ins, 3, 1) + 64 * field(ins, 5, 1) + 32
            * field(ins, 2, 1) + 16 * field(ins, 6, 1),
        10,
    )
}

/// Immediate of an `sd` (S-type), signed.
pub open spec fn sd_imm(ins: u32) -> int {
    sext(field(ins, 7, 5) + 32 * field(ins, 25, 7), 12)
}

/// The prologue's first instruction, as far as stack walking cares.
#[derive(PartialEq, Eq, Structural, Debug, Clone, Copy)]
pub enum InstructionSp {
    /// `addi` moving `sp` down by this many bytes.
    Addi(u32),
    /// `c.addi sp` moving `sp` down by this many bytes.
    CAddi(u32),
    /// `c.addi16sp` moving `sp` down by this many bytes.
    CAddi16Sp(u32),
    Unknown,
}

/// The instruction kinds that `InstructionSp::new` tells apart.
pub open spec fn sp_kind(ins: u32) -> int {
    if field(ins, 0, 7) == 0x13 {
        0
    } else if field(ins, 13, 3) == 0 && field(ins, 0, 2) == 1 && field(ins, 7, 5) == 2 {
        1
    } else if field(ins, 13, 3) == 3 && field(ins, 0, 2) == 1 && field(ins, 7, 5) == 2 {
        2
    } else {
        3
    }
}

/// A prologue instruction whose stack adjustment is a decrement, as a
/// prologue's is; others cannot be decoded.
pub open spec fn sp_decodable(ins: u32) -> bool {
    &&& sp_kind(ins) == 0 ==> addi_imm(ins) < 0
    &&& sp_kind(ins) == 1 ==> c_addi_imm(ins) < 0
    &&& sp_kind(ins) == 2 ==> c_addi16sp_imm(ins) < 0
}

fn bits_of(x: u32, lo: u32, len: u32) -> (r: u32)
    requires
        lo < 32,
        1 <= len < 32,
    ensures
        r as int == field(x, lo, len),
        (r as int) < pow2(len as nat),
{
    proof {
        lemma_pow2_shift(len);
    }
    let mask: u32 = (1u32 << len) - 1;
    proof {
        assert((x >> lo) & mask <= mask) by (bit_vector);
    }
    (x >> lo) & mask
}

proof fn lemma_pow2_shift(len: u32)
    requires
        1 <= len < 32,
    ensures
        (1u32 << len) as int == pow2(len as nat),
        ((1u32 << len) - 1) as int == pow2(len as nat) - 1,
        (1u32 << len) >= 2,
    decreases len,
{
    if len == 1 {
        assert((1u32 << 1u32) == 2) by (bit_vector);
        assert(pow2(1) == 2 * pow2(0));
    } else {
        lemma_pow2_shift((len - 1) as u32);
        let l1 = (len - 1) as u32;
        assert((1u32 << len) == 2 * (1u32 << l1)) by (bit_vector)
            requires
                1 <= l1 < 31,
                len == l1 + 1,
        ;
    }
}

impl InstructionSp {
    /// Decodes how far the instruction `ins` moves `sp` down.
    pub fn new(ins: u32) -> (r: Self)
        requires
            sp_decodable(ins),
        ensures
            r == if sp_kind(ins) == 0 {
                InstructionSp::Addi((-addi_imm(ins)) as u32)
            } else if sp_kind(ins) == 1 {
                InstructionSp::CAddi((-c_addi_imm(ins)) as u32)
            } else if sp_kind(ins) == 2 {
                InstructionSp::CAddi16Sp((-c_addi16sp_imm(ins)) as u32)
            } else {
                InstructionSp::Unknown
            },
    {
        proof {
            assert(pow2(0) == 1);
            assert(pow2(1) == 2);
            assert(pow2(2) == 4);
            assert(pow2(3) == 8);
            assert(pow2(4) == 16);
            assert(pow2(5) == 32);
            assert(pow2(6) == 64);
            assert(pow2(7) == 128);
            assert(pow2(8) == 256);
            assert(pow2(9) == 512);
            assert(pow2(10) == 1024);
            assert(pow2(11) == 2048);
            assert(pow2(12) == 4096);
        }
        let opcode = bits_of(ins, 0, 7);
        if opcode == 0x13 {
            let raw = bits_of(ins, 20, 12) as i64;
            let imm: i64 = if raw >= 2048 { raw - 4096 } else { raw };
            return InstructionSp::Addi((-imm) as u32);
        }
        let high = bits_of(ins, 13, 3);
        let low = bits_of(ins, 0, 2);
        if high == 0 && low == 1 {
            let rd = bits_of(ins, 7, 5);
            if rd != 2 {
                return InstructionSp::Unknown;
            }
            let raw = (bits_of(ins, 2, 5) + 32 * bits_of(ins, 12, 1)) as i64;
            let imm: i64 = if raw >= 32 { raw - 64 } else { raw };
            InstructionSp::CAddi((-imm) as u32)
        } else if high == 3 && low == 1 {
            let flag = bits_of(ins, 7, 5);
            if flag != 2 {
                return InstructionSp::Unknown;
            }
            let raw = (512 * bits_of(ins, 12, 1) + 256 * bits_of(ins, 4, 1) + 128 * bits_of(ins, 3, 1) + 64 * bits_of(
                ins,
                5,
                1,
            ) + 32 * bits_of(ins, 2, 1) + 16 * bits_of(ins, 6, 1)) as i64;
            let imm: i64 = if raw >= 512 { raw - 1024 } else { raw };
            InstructionSp::CAddi16Sp((-imm) as u32)
        } else {
            InstructionSp::Unknown
        }
    }
}

/// Kinds of store that `sd_ra` tells apart.
pub open spec fn sd_kind(ins: u32) -> int {
    if field(ins, 0, 7) == 0x23 {
        if field(ins, 12, 3) == 3 && field(ins, 15, 5) == 2 && field(ins, 20, 5) == 1 {
            0
        } else {
            3
        }
    } else if field(ins, 13, 3) == 7 && field(ins, 0, 2) == 2 {
        1
    } else {
        3
    }
}

/// Offset from `sp` at which the store `ins` saves `ra`: `sd ra, imm(sp)`
/// or `c.sdsp`; none for any other instruction.
pub fn sd_ra(ins: u32) -> (r: Option<u32>)
    requires
        sd_kind(ins) == 0 ==> sd_imm(ins) > 0,
    ensures
        r == if sd_kind(ins) == 0 {
            Some(sd_imm(ins) as u32)
        } else if sd_kind(ins) == 1 {
            Some((8 * field(ins, 10, 3) + 64 * field(ins, 7, 3)) as u32)
        } else {
            None::<u32>
        },
{
    proof {
        assert(pow2(0) == 1);
        assert(pow2(1) == 2);
        assert(pow2(2) == 4);
        assert(pow2(3) == 8);
        assert(pow2(4) == 16);
        assert(pow2(5) == 32);
        assert(pow2(6) == 64);
        assert(pow2(7) == 128);
        assert(pow2(8) == 256);
        assert(pow2(9) == 512);
        assert(pow2(10) == 1024);
        assert(pow2(11) == 2048);
        assert(pow2(12) == 4096);
    }
    let opcode = bits_of(ins, 0, 7);
    if opcode == 0x23 {
        let func = bits_of(ins, 12, 3);
        if func != 3 {
            return None;
        }
        let rd = bits_of(ins, 15, 5);
        let rt = bits_of(ins, 20, 5);
        if rd != 2 || rt != 1 {
            return None;
        }
        let raw = bits_of(ins, 7, 5) + 32 * bits_of(ins, 25, 7);
        let imm: u32 = if raw >= 2048 { 0 } else { raw };
        return Some(imm);
    }
    let high = bits_of(ins, 13, 3);
    let low = bits_of(ins, 0, 2);
    if high == 7 && low == 2 {
        Some(8 * bits_of(ins, 10, 3) + 64 * bits_of(ins, 7, 3))
    } else {
        None
    }
}

/// Whether `InstructionSp::new` can decode `ins`.
pub fn is_sp_decodable(ins: u32) -> (r: bool)
    ensures
        r == sp_decodable(ins),
{
    proof {
        assert(pow2(0) == 1);
        assert(pow2(1) == 2);
        assert(pow2(2) == 4);
        assert(pow2(3) == 8);
        assert(pow2(4) == 16);
        assert(pow2(5) == 32);
        assert(pow2(6) == 64);
        assert(pow2(7) == 128);
        assert(pow2(8) == 256);
        assert(pow2(9) == 512);
        assert(pow2(10) == 1024);
        assert(pow2(11) == 2048);
        assert(pow2(12) == 4096);
    }
    if bits_of(ins, 0, 7) == 0x13 {
        return bits_of(ins, 20, 12) >= 2048;
    }
    let high = bits_of(ins, 13, 3);
    let low = bits_of(ins, 0, 2);
    let rd = bits_of(ins, 7, 5);
    if high == 0 && low == 1 && rd == 2 {
        let raw = bits_of(ins, 2, 5) + 32 * bits_of(ins, 12, 1);
        raw >= 32
    } else if high == 3 && low == 1 && rd == 2 {
        let raw = 512 * bits_of(ins, 12, 1) + 256 * bits_of(ins, 4, 1) + 128 * bits_of(ins, 3, 1) + 64 * bits_of(
            ins,
            5,
            1,
        ) + 32 * bits_of(ins, 2, 1) + 16 * bits_of(ins, 6, 1);
        raw >= 512
    } else {
        true
    }
}

/// Whether `sd_ra` can decode `ins`.
pub fn is_sd_decodable(ins: u32) -> (r: bool)
    ensures
        r == (sd_kind(ins) == 0 ==> sd_imm(ins) > 0),
{
    proof {
        assert(pow2(0) == 1);
        assert(pow2(1) == 2);
        assert(pow2(2) == 4);
        assert(pow2(3) == 8);
        assert(pow2(4) == 16);
        assert(pow2(5) == 32);
        assert(pow2(6) == 64);
        assert(pow2(7) == 128);
        assert(pow2(8) == 256);
        assert(pow2(9) == 512);
        assert(pow2(10) == 1024);
        assert(pow2(11) == 2048);
        assert(pow2(12) == 4096);
    }
    if bits_of(ins, 0, 7) == 0x23 && bits_of(ins, 12, 3) == 3 && bits_of(ins, 15, 5) == 2 && bits_of(ins, 20, 5) == 1 {
        let raw = bits_of(ins, 7, 5) + 32 * bits_of(ins, 25, 7);
        raw > 0 && raw < 2048
    } else {
        true
    }
}

/// A symbol of the kernel image: a start address and a name.
pub trait Symbol {
    fn addr(&self) -> usize;

    fn name(&self) -> &str;
}

/// Index of the first symbol whose address is `ra` or whose range up to
/// the next symbol's address holds `ra`.
pub open spec fn symbol_holds(addrs: Seq<usize>, i: int, ra: usize) -> bool {
    addrs[i] == ra || (i + 1 < addrs.len() && addrs[i] <= ra < addrs[i + 1])
}

/// The symbol a return address `ra` falls in, as the stack walk looks it
/// up: the first whose address is `ra` or whose range holds it.
pub fn find_symbol(addrs: &Vec<usize>, ra: usize) -> (r: Option<usize>)
    ensures
        r is None ==> forall|i: int| 0 <= i < addrs@.len() ==> !#[trigger] symbol_holds(addrs@, i, ra),
        r matches Some(i) ==> i < addrs@.len() && symbol_holds(addrs@, i as int, ra) && forall|j: int|
            0 <= j < i ==> !#[trigger] symbol_holds(addrs@, j, ra),
{
    let mut i: usize = 0;
    while i < addrs.len()
        invariant
            i <= addrs@.len(),
            forall|j: int| 0 <= j < i ==> !#[trigger] symbol_holds(addrs@, j, ra),
        decreases addrs@.len() - i,
    {
        if addrs[i] == ra || (i + 1 < addrs.len() && addrs[i] <= ra && ra < addrs[i + 1]) {
            return Some(i);
        }
        i += 1;
    }
    None
}

} // verus!
