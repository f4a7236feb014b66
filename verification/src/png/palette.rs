//! PLTE and tRNS payloads.
use vstd::prelude::*;
use super::types::{IhdrColorType, PaletteEntry, PngParseError, Transparency};
use super::chunk;

verus! {

/// A PLTE payload holds one to 256 three-byte entries.
pub open spec fn plte_length_ok(len: int) -> bool {
    len > 0 && len % 3 == 0 && len <= 768
}

/// The palette entry at position `i` of a PLTE payload.
pub open spec fn plte_entry(p: Seq<u8>, i: int) -> PaletteEntry {
    PaletteEntry { red: p[3 * i], green: p[3 * i + 1], blue: p[3 * i + 2] }
}

/// Splits a PLTE payload into palette entries.
pub fn parse_plte(payload: &[u8]) -> (r: Result<Vec<PaletteEntry>, PngParseError>)
    ensures
        match r {
            Ok(v) => plte_length_ok(payload@.len() as int) && v@.len() == payload@.len() / 3
                && forall|i: int| 0 <= i < v@.len() ==> #[trigger] v@[i] == plte_entry(payload@, i),
            Err(e) => !plte_length_ok(payload@.len() as int)
                && e == (PngParseError::InvalidPlteLength { length: payload@.len() as usize }),
        },
{
    let len = payload.len();
    if len == 0 || len % 3 != 0 || len > 768 {
        return Err(PngParseError::InvalidPlteLength { length: len });
    }
    let count = len / 3;
    let mut entries: Vec<PaletteEntry> = Vec::new();
    let mut i: usize = 0;
    while i < count
        invariant
            count == payload@.len() / 3,
            payload@.len() % 3 == 0,
            len == payload@.len(),
            i <= count,
            entries@.len() == i,
            forall|k: int| 0 <= k < i ==> #[trigger] entries@[k] == plte_entry(payload@, k),
        decreases count - i,
    {
        assert(3 * i + 2 < payload@.len()) by (nonlinear_arith)
            requires
                i < count,
                count == payload@.len() / 3,
                payload@.len() % 3 == 0,
        ;
        let base = i + i + i;
        entries.push(PaletteEntry { red: payload[base], green: payload[base + 1], blue: payload[base + 2] });
        i = i + 1;
    }
    Ok(entries)
}

/// What parsing a tRNS payload for `color_type` gives.
pub open spec fn trns_result(p: Seq<u8>, color_type: IhdrColorType, r: Result<Transparency, PngParseError>) -> bool {
    match color_type {
        IhdrColorType::Grayscale => if p.len() != 2 {
            r == Err::<Transparency, PngParseError>(PngParseError::InvalidTrnsLength { color_type: 0, length: p.len() as usize })
        } else {
            r == Ok::<Transparency, PngParseError>(Transparency::Grayscale { sample: p[1] })
        },
        IhdrColorType::Truecolor => if p.len() != 6 {
            r == Err::<Transparency, PngParseError>(PngParseError::InvalidTrnsLength { color_type: 2, length: p.len() as usize })
        } else {
            r == Ok::<Transparency, PngParseError>(Transparency::Truecolor { red: p[1], green: p[3], blue: p[5] })
        },
        IhdrColorType::Indexed => if p.len() == 0 || p.len() > 256 {
            r == Err::<Transparency, PngParseError>(PngParseError::InvalidTrnsLength { color_type: 3, length: p.len() as usize })
        } else {
            r matches Ok(Transparency::Indexed { alpha }) && alpha@ == p
        },
        _ => r == Err::<Transparency, PngParseError>(PngParseError::TrnsNotAllowed { color_type: chunk::color_byte(color_type) }),
    }
}

/// A tRNS chunk's contents, as values.
pub enum TransparencyModel {
    Grayscale { sample: u8 },
    Truecolor { red: u8, green: u8, blue: u8 },
    Indexed { alpha: Seq<u8> },
}

impl View for Transparency {
    type V = TransparencyModel;

    open spec fn view(&self) -> TransparencyModel {
        match self {
            Transparency::Grayscale { sample } => TransparencyModel::Grayscale { sample: *sample },
            Transparency::Truecolor { red, green, blue } => TransparencyModel::Truecolor { red: *red, green: *green, blue: *blue },
            Transparency::Indexed { alpha } => TransparencyModel::Indexed { alpha: alpha@ },
        }
    }
}

/// The value of a tRNS parse result.
pub open spec fn trns_view(r: Result<Transparency, PngParseError>) -> Result<TransparencyModel, PngParseError> {
    match r {
        Ok(t) => Ok(t@),
        Err(e) => Err(e),
    }
}

/// What parsing a tRNS payload for `color_type` gives, as a value.
pub open spec fn trns_value(p: Seq<u8>, color_type: IhdrColorType) -> Result<TransparencyModel, PngParseError> {
    match color_type {
        IhdrColorType::Grayscale => if p.len() != 2 {
            Err(PngParseError::InvalidTrnsLength { color_type: 0, length: p.len() as usize })
        } else {
            Ok(TransparencyModel::Grayscale { sample: p[1] })
        },
        IhdrColorType::Truecolor => if p.len() != 6 {
            Err(PngParseError::InvalidTrnsLength { color_type: 2, length: p.len() as usize })
        } else {
            Ok(TransparencyModel::Truecolor { red: p[1], green: p[3], blue: p[5] })
        },
        IhdrColorType::Indexed => if p.len() == 0 || p.len() > 256 {
            Err(PngParseError::InvalidTrnsLength { color_type: 3, length: p.len() as usize })
        } else {
            Ok(TransparencyModel::Indexed { alpha: p })
        },
        _ => Err(PngParseError::TrnsNotAllowed { color_type: chunk::color_byte(color_type) }),
    }
}

/// Reads a tRNS payload for an image of `color_type`. Sixteen-bit samples
/// keep their low byte.
pub fn parse_trns(payload: &[u8], color_type: IhdrColorType) -> (r: Result<Transparency, PngParseError>)
    ensures
        trns_result(payload@, color_type, r),
        trns_view(r) == trns_value(payload@, color_type),
{
    match color_type {
        IhdrColorType::Grayscale => {
            if payload.len() != 2 {
                return Err(PngParseError::InvalidTrnsLength { color_type: 0, length: payload.len() });
            }
            Ok(Transparency::Grayscale { sample: payload[1] })
        },
        IhdrColorType::Truecolor => {
            if payload.len() != 6 {
                return Err(PngParseError::InvalidTrnsLength { color_type: 2, length: payload.len() });
            }
            Ok(Transparency::Truecolor { red: payload[1], green: payload[3], blue: payload[5] })
        },
        IhdrColorType::Indexed => {
            if payload.len() == 0 || payload.len() > 256 {
                return Err(PngParseError::InvalidTrnsLength { color_type: 3, length: payload.len() });
            }
            Ok(Transparency::Indexed { alpha: vstd::slice::slice_to_vec(payload) })
        },
        _ => Err(PngParseError::TrnsNotAllowed { color_type: color_type.byte() }),
    }
}

} // verus!
