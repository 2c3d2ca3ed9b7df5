use vstd::prelude::*;

use crate::material::Material;

verus! {

/// A 64-bit payload whose fields are laid out back to back, lowest bits
/// first, in the order in which they were written.
#[derive(Debug, Clone, Copy, PartialEq, Eq, PartialOrd, Ord, Hash, Structural)]
pub struct PackedData(pub u64);

/// The `width` bits of `bits` that start at bit `at`.
pub open spec fn field(bits: u64, at: nat, width: nat) -> u64
    recommends
        at + width <= 64,
{
    if width >= 64 {
        bits
    } else {
        (bits >> (at as u64)) & (((1u64 << (width as u64)) - 1) as u64)
    }
}

/// The bits of `bits` below bit `at`.
pub open spec fn low_bits(bits: u64, at: nat) -> u64
    recommends
        at <= 64,
{
    if at >= 64 {
        bits
    } else {
        bits & (((1u64 << (at as u64)) - 1) as u64)
    }
}

/// Writes fields into a payload, one after the other.
pub struct PackedDataEncoder {
    data: u64,
    current_bit: u8,
}

/// Reads the fields of a payload back in the order they were written.
pub struct PackedDataDecoder {
    data: u64,
    current_bit: u8,
}

impl PackedData {
    pub open spec fn bits(self) -> u64 {
        self.0
    }

    pub fn builder() -> (encoder: PackedDataEncoder)
        ensures
            encoder.bits() == 0,
            encoder.cursor() == 0,
            encoder.wf(),
    {
        assert(0u64 & (((1u64 << 0u64) - 1) as u64) == 0) by (bit_vector);
        PackedDataEncoder { data: 0, current_bit: 0 }
    }

    pub fn decode(self) -> (decoder: PackedDataDecoder)
        ensures
            decoder.bits() == self.bits(),
            decoder.cursor() == 0,
    {
        PackedDataDecoder { data: self.0, current_bit: 0 }
    }
}

proof fn lemma_write_8(d: u64, c: u64, v: u64)
    by (bit_vector)
    requires
        c <= 56,
        v < 0x100,
        d & (((1u64 << c) - 1) as u64) == d,
    ensures
        ((d | (v << c)) >> c) & 0xff == v,
        (d | (v << c)) & (((1u64 << c) - 1) as u64) == d,
        c + 8 < 64 ==> (d | (v << c)) & (((1u64 << ((c + 8) as u64)) - 1) as u64) == (d | (v << c)),
{
}

proof fn lemma_write_16(d: u64, c: u64, v: u64)
    by (bit_vector)
    requires
        c <= 48,
        v < 0x10000,
        d & (((1u64 << c) - 1) as u64) == d,
    ensures
        ((d | (v << c)) >> c) & 0xffff == v,
        (d | (v << c)) & (((1u64 << c) - 1) as u64) == d,
        c + 16 < 64 ==> (d | (v << c)) & (((1u64 << ((c + 16) as u64)) - 1) as u64) == (d | (v
            << c)),
{
}

proof fn lemma_write_32(d: u64, c: u64, v: u64)
    by (bit_vector)
    requires
        c <= 32,
        v < 0x1_0000_0000,
        d & (((1u64 << c) - 1) as u64) == d,
    ensures
        ((d | (v << c)) >> c) & 0xffff_ffff == v,
        (d | (v << c)) & (((1u64 << c) - 1) as u64) == d,
        c + 32 < 64 ==> (d | (v << c)) & (((1u64 << ((c + 32) as u64)) - 1) as u64) == (d | (v
            << c)),
{
}

proof fn lemma_write_64(d: u64, v: u64)
    by (bit_vector)
    requires
        d & (((1u64 << 0u64) - 1) as u64) == d,
    ensures
        d | (v << 0u64) == v,
{
}

proof fn lemma_keep_fields(d: u64, c: u64, v: u64, at: u64, width: u64)
    by (bit_vector)
    requires
        c < 64,
        width < 64,
        at + width <= c,
    ensures
        ((d | (v << c)) >> at) & (((1u64 << width) - 1) as u64) == (d >> at) & (((1u64 << width)
            - 1) as u64),
{
}

/// Writing a field at bit `c` leaves every field below bit `c` as it is.
proof fn lemma_fields_kept(d: u64, c: nat, v: u64)
    requires
        c < 64,
    ensures
        forall|at: nat, width: nat|
            at + width <= c ==> #[trigger] field(d | (v << (c as u64)), at, width) == field(
                d,
                at,
                width,
            ),
{
    assert forall|at: nat, width: nat| at + width <= c implies #[trigger] field(
        d | (v << (c as u64)),
        at,
        width,
    ) == field(d, at, width) by {
        lemma_keep_fields(d, c as u64, v, at as u64, width as u64);
    }
}

proof fn lemma_masks()
    by (bit_vector)
    ensures
        ((1u64 << 8u64) - 1) as u64 == 0xffu64,
        ((1u64 << 16u64) - 1) as u64 == 0xffffu64,
        ((1u64 << 32u64) - 1) as u64 == 0xffff_ffffu64,
        ((1u64 << 0u64) - 1) as u64 == 0u64,
{
}

proof fn lemma_read(d: u64, c: u64)
    by (bit_vector)
    requires
        c < 64,
    ensures
        (d >> c) as u8 == (d >> c) & 0xff,
        (d >> c) as u16 == (d >> c) & 0xffff,
        (d >> c) as u32 == (d >> c) & 0xffff_ffff,
        d & 0 == 0,
        d | 0 == d,
        d << 0 == d,
        d >> 0 == d,
{
}

impl PackedDataEncoder {
    /// The payload written so far.
    pub closed spec fn bits(&self) -> u64 {
        self.data
    }

    /// The bit at which the next field starts.
    pub closed spec fn cursor(&self) -> nat {
        self.current_bit as nat
    }

    /// Nothing has been written at or above the cursor.
    pub closed spec fn wf(&self) -> bool {
        &&& self.current_bit <= 64
        &&& low_bits(self.data, self.current_bit as nat) == self.data
    }

    pub fn with_u8(self, value: u8) -> (encoder: PackedDataEncoder)
        requires
            self.wf(),
            self.cursor() + 8 <= 64,
        ensures
            encoder.wf(),
            encoder.cursor() == self.cursor() + 8,
            encoder.bits() == self.bits() | ((value as u64) << (self.cursor() as u64)),
            field(encoder.bits(), self.cursor(), 8) == value,
            low_bits(encoder.bits(), self.cursor()) == self.bits(),
            forall|at: nat, width: nat|
                at + width <= self.cursor() ==> #[trigger] field(encoder.bits(), at, width)
                    == field(self.bits(), at, width),
    {
        let mut this = self;
        proof {
            lemma_write_8(this.data, this.current_bit as u64, value as u64);
            lemma_masks();
            lemma_fields_kept(this.data, this.current_bit as nat, value as u64);
        }
        this.data |= (value as u64) << this.current_bit;
        this.current_bit += 8;
        this
    }

    pub fn with_u16(self, value: u16) -> (encoder: PackedDataEncoder)
        requires
            self.wf(),
            self.cursor() + 16 <= 64,
        ensures
            encoder.wf(),
            encoder.cursor() == self.cursor() + 16,
            encoder.bits() == self.bits() | ((value as u64) << (self.cursor() as u64)),
            field(encoder.bits(), self.cursor(), 16) == value,
            low_bits(encoder.bits(), self.cursor()) == self.bits(),
            forall|at: nat, width: nat|
                at + width <= self.cursor() ==> #[trigger] field(encoder.bits(), at, width)
                    == field(self.bits(), at, width),
    {
        let mut this = self;
        proof {
            lemma_write_16(this.data, this.current_bit as u64, value as u64);
            lemma_masks();
            lemma_fields_kept(this.data, this.current_bit as nat, value as u64);
        }
        this.data |= (value as u64) << this.current_bit;
        this.current_bit += 16;
        this
    }

    pub fn with_u32(self, value: u32) -> (encoder: PackedDataEncoder)
        requires
            self.wf(),
            self.cursor() + 32 <= 64,
        ensures
            encoder.wf(),
            encoder.cursor() == self.cursor() + 32,
            encoder.bits() == self.bits() | ((value as u64) << (self.cursor() as u64)),
            field(encoder.bits(), self.cursor(), 32) == value,
            low_bits(encoder.bits(), self.cursor()) == self.bits(),
            forall|at: nat, width: nat|
                at + width <= self.cursor() ==> #[trigger] field(encoder.bits(), at, width)
                    == field(self.bits(), at, width),
    {
        let mut this = self;
        proof {
            lemma_write_32(this.data, this.current_bit as u64, value as u64);
            lemma_masks();
            lemma_fields_kept(this.data, this.current_bit as nat, value as u64);
        }
        this.data |= (value as u64) << this.current_bit;
        this.current_bit += 32;
        this
    }

    /// A 64-bit field fills the whole payload, so it can only be the first
    /// and only field.
    pub fn with_u64(self, value: u64) -> (encoder: PackedDataEncoder)
        requires
            self.wf(),
            self.cursor() + 64 <= 64,
        ensures
            encoder.wf(),
            encoder.cursor() == 64,
            encoder.bits() == value,
            field(encoder.bits(), 0, 64) == value,
    {
        let mut this = self;
        proof {
            lemma_write_64(this.data, value);
        }
        this.data |= value << this.current_bit;
        this.current_bit += 64;
        this
    }

    /// A flag takes a whole byte: 1 for `true`, 0 for `false`.
    pub fn with_bool(self, value: bool) -> (encoder: PackedDataEncoder)
        requires
            self.wf(),
            self.cursor() + 8 <= 64,
        ensures
            encoder.wf(),
            encoder.cursor() == self.cursor() + 8,
            encoder.bits() == self.bits() | ((if value { 1u64 } else { 0u64 }) << (
            self.cursor() as u64)),
            field(encoder.bits(), self.cursor(), 8) == (if value { 1u64 } else { 0u64 }),
            low_bits(encoder.bits(), self.cursor()) == self.bits(),
            forall|at: nat, width: nat|
                at + width <= self.cursor() ==> #[trigger] field(encoder.bits(), at, width)
                    == field(self.bits(), at, width),
    {
        self.with_u8(if value { 1 } else { 0 })
    }

    /// A material is written as its 16-bit number.
    pub fn with_material(self, material: Material) -> (encoder: PackedDataEncoder)
        requires
            self.wf(),
            self.cursor() + 16 <= 64,
        ensures
            encoder.wf(),
            encoder.cursor() == self.cursor() + 16,
            encoder.bits() == self.bits() | ((material.number() as u64) << (self.cursor() as u64)),
            field(encoder.bits(), self.cursor(), 16) == material.number(),
            low_bits(encoder.bits(), self.cursor()) == self.bits(),
            forall|at: nat, width: nat|
                at + width <= self.cursor() ==> #[trigger] field(encoder.bits(), at, width)
                    == field(self.bits(), at, width),
    {
        self.with_u16(material.to_u16())
    }

    pub fn build(self) -> (data: PackedData)
        ensures
            data.bits() == self.bits(),
    {
        PackedData(self.data)
    }
}

impl PackedDataDecoder {
    /// The payload being read.
    pub closed spec fn bits(&self) -> u64 {
        self.data
    }

    /// The bit at which the next field starts.
    pub closed spec fn cursor(&self) -> nat {
        self.current_bit as nat
    }

    pub fn new(data: PackedData) -> (decoder: PackedDataDecoder)
        ensures
            decoder.bits() == data.bits(),
            decoder.cursor() == 0,
    {
        PackedDataDecoder { data: data.0, current_bit: 0 }
    }

    pub fn take_u8(&mut self) -> (value: u8)
        requires
            old(self).cursor() + 8 <= 64,
        ensures
            value == field(old(self).bits(), old(self).cursor(), 8),
            final(self).bits() == old(self).bits(),
            final(self).cursor() == old(self).cursor() + 8,
    {
        proof {
            lemma_read(self.data, self.current_bit as u64);
            lemma_masks();
        }
        let value = (self.data >> self.current_bit) as u8;
        self.current_bit += 8;
        value
    }

    pub fn take_u16(&mut self) -> (value: u16)
        requires
            old(self).cursor() + 16 <= 64,
        ensures
            value == field(old(self).bits(), old(self).cursor(), 16),
            final(self).bits() == old(self).bits(),
            final(self).cursor() == old(self).cursor() + 16,
    {
        proof {
            lemma_read(self.data, self.current_bit as u64);
            lemma_masks();
        }
        let value = (self.data >> self.current_bit) as u16;
        self.current_bit += 16;
        value
    }

    pub fn take_u32(&mut self) -> (value: u32)
        requires
            old(self).cursor() + 32 <= 64,
        ensures
            value == field(old(self).bits(), old(self).cursor(), 32),
            final(self).bits() == old(self).bits(),
            final(self).cursor() == old(self).cursor() + 32,
    {
        proof {
            lemma_read(self.data, self.current_bit as u64);
            lemma_masks();
        }
        let value = (self.data >> self.current_bit) as u32;
        self.current_bit += 32;
        value
    }

    pub fn take_u64(&mut self) -> (value: u64)
        requires
            old(self).cursor() + 64 <= 64,
        ensures
            value == old(self).bits(),
            final(self).bits() == old(self).bits(),
            final(self).cursor() == 64,
    {
        proof {
            lemma_read(self.data, 0);
        }
        let value = self.data >> self.current_bit;
        self.current_bit += 64;
        value
    }

    /// Reads a flag. The byte read must be 0 or 1.
    pub fn take_bool(&mut self) -> (value: bool)
        requires
            old(self).cursor() + 8 <= 64,
            field(old(self).bits(), old(self).cursor(), 8) <= 1,
        ensures
            value == (field(old(self).bits(), old(self).cursor(), 8) == 1),
            final(self).bits() == old(self).bits(),
            final(self).cursor() == old(self).cursor() + 8,
    {
        let value = self.take_u8();
        value == 1
    }

    /// Reads a material. The number read must be that of a material.
    pub fn take_material(&mut self) -> (material: Material)
        requires
            old(self).cursor() + 16 <= 64,
            Material::of_number(field(old(self).bits(), old(self).cursor(), 16) as u16) is Some,
        ensures
            Some(material) == Material::of_number(
                field(old(self).bits(), old(self).cursor(), 16) as u16,
            ),
            final(self).bits() == old(self).bits(),
            final(self).cursor() == old(self).cursor() + 16,
    {
        let number = self.take_u16();
        match Material::from_u16(number) {
            Some(material) => material,
            None => Material::Shale,
        }
    }
}

} // verus!
