use vstd::prelude::*;

verus! {

use crate::fmt::{append_hex, hex_seq};
use vstd::string::StringExecFns;

/// A 32-bit virtual address of the simulated MIPS32 process.
#[derive(Clone, Copy, Debug, PartialEq, Eq, Structural)]
pub struct Address(pub u32);

impl Address {
    /// Wraps a 32-bit unsigned integer as an address.
    pub fn new(address: u32) -> (r: Address)
        ensures
            r.0 == address,
    {
        Address(address)
    }

    /// The first address of the page with the given page number.
    pub fn from_page_number(page_number: u32) -> (r: Address)
        requires
            page_number < 0x100000,
        ensures
            r.0 == page_number * 4096,
    {
        proof {
            assert((page_number << 12) == page_number * 4096) by (bit_vector)
                requires
                    page_number < 0x100000u32,
            ;
        }
        Address(page_number << 12)
    }

    /// The raw 32-bit value of the address.
    pub fn unwrap(&self) -> (r: u32)
        ensures
            r == self.0,
    {
        self.0
    }

    /// The page number: the address divided by the 4096-byte page size.
    pub fn page_number(&self) -> (r: u32)
        ensures
            r == self.0 / 4096,
    {
        let x: u32 = self.0;
        proof {
            assert(x >> 12 == x / 4096) by (bit_vector);
        }
        x >> 12
    }

    /// The offset of the address within its page.
    pub fn page_offset(&self) -> (r: u32)
        ensures
            r == self.0 % 4096,
    {
        let x: u32 = self.0;
        proof {
            assert(x & 0xFFF == x % 4096) by (bit_vector);
        }
        x & 0xFFF
    }
}

impl Address {
    /// An address read from four little-endian bytes.
    pub fn from_le_bytes(bytes: [u8; 4]) -> (r: Address)
        ensures
            r.0 == bytes[0] + bytes[1] * 0x100 + bytes[2] * 0x1_0000 + bytes[3] * 0x100_0000,
    {
        Address(
            (bytes[0] as u32) + (bytes[1] as u32) * 0x100 + (bytes[2] as u32) * 0x1_0000 + (
            bytes[3] as u32) * 0x100_0000,
        )
    }

    /// The address as four little-endian bytes.
    pub fn to_le_bytes(&self) -> (r: [u8; 4])
        ensures
            r[0] == self.0 % 0x100,
            r[1] == (self.0 / 0x100) % 0x100,
            r[2] == (self.0 / 0x1_0000) % 0x100,
            r[3] == self.0 / 0x100_0000,
    {
        [
            (self.0 % 0x100) as u8,
            ((self.0 / 0x100) % 0x100) as u8,
            ((self.0 / 0x1_0000) % 0x100) as u8,
            (self.0 / 0x100_0000) as u8,
        ]
    }

    /// The address moved by a signed byte distance, wrapping at the ends of
    /// the 32-bit space.
    pub fn offset(&self, offset: i32) -> (r: Address)
        ensures
            r.0 == (self.0 + offset + 0x1_0000_0000) % 0x1_0000_0000,
    {
        let base: i64 = self.0 as i64;
        let d: i64 = offset as i64;
        Address((((base + d + 0x1_0000_0000i64) % 0x1_0000_0000i64)) as u32)
    }

    /// The address written as eight hexadecimal digits after `0x`.
    pub fn show(&self) -> (r: String)
        ensures
            r@ == "0x"@ + hex_seq(self.0 as nat, 8),
    {
        let mut s = String::from_str("0x");
        append_hex(&mut s, self.0, 8);
        s
    }
}

} // verus!
