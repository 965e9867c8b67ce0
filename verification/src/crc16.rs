//! The FBB CRC-16 accumulator: reflected polynomial 0x8408, zero seed,
//! updated one byte at a time. The B2 frame parser checks the CRC of
//! `uncompressed_size (LE u32) || compressed_bytes` against the value
//! carried in the frame.

use vstd::prelude::*;

verus! {

/// One shift-and-reduce round of the reflected CRC-16.
pub open spec fn crc16_bit(r: u16) -> u16 {
    if r & 1 == 1 {
        (r >> 1) ^ 0x8408
    } else {
        r >> 1
    }
}

/// `n` shift-and-reduce rounds.
pub open spec fn crc16_bits(r: u16, n: nat) -> u16
    decreases n,
{
    if n == 0 {
        r
    } else {
        crc16_bit(crc16_bits(r, (n - 1) as nat))
    }
}

/// The register after folding one more byte into it.
pub open spec fn crc16_byte(r: u16, b: u8) -> u16 {
    crc16_bits(r ^ (b as u16), 8)
}

/// Stateful CRC-16 accumulator.
pub struct Crc16 {
    reg: u16,
}

impl Crc16 {
    /// The current register value.
    pub closed spec fn view(&self) -> u16 {
        self.reg
    }

    pub fn new() -> (r: Crc16)
        ensures
            r@ == 0,
    {
        Crc16 { reg: 0 }
    }

    /// Fold one byte into the register.
    pub fn update(&mut self, b: u8)
        ensures
            final(self)@ == crc16_byte(old(self)@, b),
    {
        let mut r: u16 = self.reg ^ (b as u16);
        let mut i: usize = 0;
        while i < 8
            invariant
                i <= 8,
                r == crc16_bits(old(self)@ ^ (b as u16), i as nat),
                self == old(self),
            decreases 8 - i,
        {
            if r & 1 == 1 {
                r = (r >> 1) ^ 0x8408;
            } else {
                r = r >> 1;
            }
            i = i + 1;
        }
        self.reg = r;
    }

    /// Return the register without consuming it.
    pub fn finish(&self) -> (r: u16)
        ensures
            r == self@,
    {
        self.reg
    }
}

} // verus!
