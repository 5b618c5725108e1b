//! Decoding of palette lumps: 768 raw bytes interpreted as 256 RGB triples.

use vstd::prelude::*;

verus! {

/// Number of entries in a palette.
pub const PALETTE_ENTRIES: usize = 256;

/// Number of bytes a palette lump must provide: 256 entries of 3 bytes each.
pub const PALETTE_BYTES: usize = 768;

/// One palette entry: a red, green, blue triple.
#[derive(Clone, Copy, PartialEq, Eq, Structural, Debug)]
pub struct Rgb {
    pub r: u8,
    pub g: u8,
    pub b: u8,
}

/// Failure of palette decoding.
#[derive(Clone, Copy, PartialEq, Eq, Structural, Debug)]
pub enum PaletteError {
    /// Fewer than [`PALETTE_BYTES`] bytes were available.
    Truncated,
}

/// The entry a correct decode puts at position `i`: the `i`-th byte triple,
/// in raw R, G, B order.
pub open spec fn palette_entry(bytes: Seq<u8>, i: int) -> Rgb {
    Rgb { r: bytes[3 * i], g: bytes[3 * i + 1], b: bytes[3 * i + 2] }
}

/// A decoded palette: exactly 256 RGB entries.
pub struct Palette {
    entries: Vec<Rgb>,
}

impl View for Palette {
    type V = Seq<Rgb>;

    closed spec fn view(&self) -> Seq<Rgb> {
        self.entries@
    }
}

impl Palette {
    #[verifier::type_invariant]
    spec fn inv(self) -> bool {
        self.entries@.len() == 256
    }

    /// Interpret the first 768 bytes of a lump as 256 consecutive RGB
    /// triples. Decoding is pure: it succeeds exactly when enough bytes
    /// are available, and the entries copy the input bytes in order.
    pub fn decode(bytes: &[u8]) -> (r: Result<Palette, PaletteError>)
        ensures
            r is Ok <==> bytes@.len() >= PALETTE_BYTES,
            r matches Ok(p) ==> {
                &&& p@.len() == PALETTE_ENTRIES
                &&& forall|i: int| 0 <= i < 256 ==> p@[i] == palette_entry(bytes@, i)
            },
            r matches Err(e) ==> e == PaletteError::Truncated,
    {
        if bytes.len() < PALETTE_BYTES {
            return Err(PaletteError::Truncated);
        }
        let mut entries: Vec<Rgb> = Vec::new();
        for i in 0..PALETTE_ENTRIES
            invariant
                bytes@.len() >= 768,
                entries@.len() == i,
                forall|j: int| 0 <= j < i ==> entries@[j] == palette_entry(bytes@, j),
        {
            entries.push(Rgb { r: bytes[3 * i], g: bytes[3 * i + 1], b: bytes[3 * i + 2] });
        }
        Ok(Palette { entries })
    }

    /// The number of entries: always 256.
    pub fn len(&self) -> (n: usize)
        ensures
            n == self@.len(),
            n == PALETTE_ENTRIES,
    {
        proof {
            use_type_invariant(self);
        }
        self.entries.len()
    }

    /// Look an index up in the palette. Every byte is a valid index,
    /// since the palette always holds 256 entries.
    pub fn get(&self, i: u8) -> (e: Rgb)
        ensures
            e == self@[i as int],
    {
        proof {
            use_type_invariant(self);
        }
        self.entries[i as usize]
    }
}

} // verus!
