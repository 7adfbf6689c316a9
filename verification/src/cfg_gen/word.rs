use vstd::prelude::*;

verus! {

/// A 256-bit unsigned integer, held as its upper and lower 128 bits.
#[derive(Clone, Copy, Debug, PartialEq, Eq, Hash, Structural)]
pub struct Word {
    pub hi: u128,
    pub lo: u128,
}

/// `256` to the power `n`.
pub open spec fn pow256(n: nat) -> nat
    decreases n,
{
    if n == 0 {
        1
    } else {
        256 * pow256((n - 1) as nat)
    }
}

/// The number that the bytes `s` spell in big-endian order.
pub open spec fn be_value(s: Seq<u8>) -> nat
    decreases s.len(),
{
    if s.len() == 0 {
        0
    } else {
        be_value(s.drop_last()) * 256 + s.last() as nat
    }
}

/// The 32 bytes of the stack word that a push of `size` bytes leaves when
/// the code holds the bytes `imm` of its immediate: the immediate is
/// right-aligned in the word, and a missing tail reads as zero bytes.
pub open spec fn immediate_bytes32(imm: Seq<u8>, size: int) -> Seq<u8> {
    Seq::new(
        32,
        |j: int|
            if 32 - size <= j && j - (32 - size) < imm.len() {
                imm[j - (32 - size)]
            } else {
                0u8
            },
    )
}

/// The stack word that a push of `size` bytes with immediate `imm` leaves.
pub open spec fn immediate_word(imm: Seq<u8>, size: int) -> Word {
    let bytes = immediate_bytes32(imm, size);
    Word {
        hi: be_value(bytes.subrange(0, 16)) as u128,
        lo: be_value(bytes.subrange(16, 32)) as u128,
    }
}

proof fn lemma_pow256_monotonic(a: nat, b: nat)
    requires
        a <= b,
    ensures
        pow256(a) <= pow256(b),
        pow256(a) > 0,
    decreases b,
{
    if a < b {
        lemma_pow256_monotonic(a, (b - 1) as nat);
    } else if a > 0 {
        lemma_pow256_monotonic((a - 1) as nat, (a - 1) as nat);
    }
}

proof fn lemma_pow256_16()
    ensures
        pow256(16) == 0x1_0000_0000_0000_0000_0000_0000_0000_0000,
{
    reveal_with_fuel(pow256, 17);
}

/// A big-endian number of `n` bytes is below `256^n`.
pub proof fn lemma_be_value_bound(s: Seq<u8>)
    ensures
        be_value(s) < pow256(s.len()),
    decreases s.len(),
{
    if s.len() > 0 {
        lemma_be_value_bound(s.drop_last());
    }
}

impl Word {
    /// The number that the word holds.
    pub open spec fn value(self) -> nat {
        self.hi as nat * 0x1_0000_0000_0000_0000_0000_0000_0000_0000 + self.lo as nat
    }

    /// The program counter that the word names, if it fits in 16 bits.
    pub open spec fn pc(self) -> Option<u16> {
        if self.hi == 0 && self.lo <= 0xffff {
            Some(self.lo as u16)
        } else {
            None
        }
    }

    /// The word that holds zero.
    pub fn zero() -> (w: Word)
        ensures
            w == (Word { hi: 0, lo: 0 }),
    {
        Word { hi: 0, lo: 0 }
    }

    /// The word that holds `v`.
    pub fn from_u64(v: u64) -> (w: Word)
        ensures
            w == (Word { hi: 0, lo: v as u128 }),
    {
        Word { hi: 0, lo: v as u128 }
    }

    /// The program counter that the word names: `Some` exactly when the
    /// value is at most `0xffff`.
    pub fn as_pc(&self) -> (pc: Option<u16>)
        ensures
            pc == self.pc(),
    {
        if self.hi == 0 && self.lo <= 0xffff {
            Some(self.lo as u16)
        } else {
            None
        }
    }

    /// Big-endian value of 16 consecutive bytes of the padded immediate.
    fn half(imm: &Vec<u8>, size: u8, from: usize) -> (v: u128)
        requires
            1 <= size <= 32,
            imm.len() <= size,
            from == 0 || from == 16,
        ensures
            v == be_value(immediate_bytes32(imm@, size as int).subrange(from as int, from + 16)),
    {
        let ghost bytes = immediate_bytes32(imm@, size as int);
        let lead: usize = 32 - size as usize;
        let mut acc: u128 = 0;
        let mut j: usize = 0;
        while j < 16
            invariant
                j <= 16,
                1 <= size <= 32,
                imm.len() <= size,
                lead == 32 - size,
                from == 0 || from == 16,
                bytes == immediate_bytes32(imm@, size as int),
                acc == be_value(bytes.subrange(from as int, from + j)),
            decreases 16 - j,
        {
            let at: usize = from + j;
            let byte: u8 = if at >= lead && at - lead < imm.len() {
                imm[at - lead]
            } else {
                0
            };
            proof {
                let prev = bytes.subrange(from as int, from + j);
                let next = bytes.subrange(from as int, from + j + 1);
                assert(next.drop_last() =~= prev);
                assert(next.last() == byte);
                lemma_be_value_bound(prev);
                lemma_be_value_bound(next);
                lemma_pow256_monotonic((j + 1) as nat, 16);
                lemma_pow256_16();
            }
            acc = acc * 256 + byte as u128;
            j = j + 1;
        }
        acc
    }

    /// The stack word of a push of `size` bytes whose immediate bytes, as
    /// far as the code holds them, are `imm`.
    pub fn from_immediate(imm: &Vec<u8>, size: u8) -> (w: Word)
        requires
            1 <= size <= 32,
            imm.len() <= size,
        ensures
            w == immediate_word(imm@, size as int),
    {
        let hi = Word::half(imm, size, 0);
        let lo = Word::half(imm, size, 16);
        Word { hi, lo }
    }
}

} // verus!
