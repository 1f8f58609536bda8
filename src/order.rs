//! The chunk-ordering rules of a PNG file, as a state machine over chunk
//! kinds.

use vstd::prelude::*;

use crate::chunk::{BACKGROUND, IMAGE_DATA, PALETTE, PHYSICAL, TIME, TRANSPARENCY};
use crate::error::DecodeError;

verus! {

/// Where in the file the walk stands.
#[derive(Clone, Copy, Debug, PartialEq, Eq, Structural)]
pub enum Phase {
    /// Before IHDR.
    AwaitHeader,
    /// After IHDR, before the first IDAT.
    Aux,
    /// In the run of IDAT chunks.
    InData,
    /// After the IDAT run, before IEND.
    Trailing,
    /// After IEND.
    Done,
}

/// What the ordering rules distinguish of a chunk.
#[derive(Clone, Copy, Debug)]
pub enum ChunkKind {
    Header,
    Palette,
    Data,
    End,
    Transparency,
    Background,
    Physical,
    Time,
    Text,
    /// An unknown chunk that is safe to ignore (lowercase first letter).
    Ancillary,
    /// An unknown chunk that the image needs (uppercase first letter).
    Critical([u8; 4]),
}

/// The walk's state: the phase and which single-occurrence chunks were seen.
#[derive(Clone, Copy, Debug, PartialEq, Eq, Structural)]
pub struct Order {
    pub phase: Phase,
    pub palette_image: bool,
    pub has_palette: bool,
    pub has_transparency: bool,
    pub has_background: bool,
    pub has_physical: bool,
    pub has_time: bool,
}

/// The state before the first chunk.
pub open spec fn order_start() -> Order {
    Order {
        phase: Phase::AwaitHeader,
        palette_image: false,
        has_palette: false,
        has_transparency: false,
        has_background: false,
        has_physical: false,
        has_time: false,
    }
}

/// A singleton chunk: a second one is a `Multiple` error.
pub open spec fn single(seen: bool, name: [u8; 4], s: Order) -> Result<Order, DecodeError> {
    if seen {
        Err(DecodeError::Multiple(name))
    } else {
        Ok(s)
    }
}

/// The state after a chunk of kind `k`; `palette_image` says whether the
/// header, where `k` is it, declares a palette image.
pub open spec fn order_next(s: Order, k: ChunkKind, palette_image: bool) -> Result<Order, DecodeError> {
    match s.phase {
        Phase::AwaitHeader => match k {
            ChunkKind::Header => Ok(Order { phase: Phase::Aux, palette_image, ..s }),
            _ => Err(DecodeError::ChunkOrder),
        },
        Phase::Done => Err(DecodeError::TrailingChunk),
        Phase::Aux => match k {
            ChunkKind::Header => Err(DecodeError::ChunkOrder),
            ChunkKind::Palette => if s.has_palette {
                Err(DecodeError::Multiple(PALETTE))
            } else if s.has_transparency || s.has_background {
                Err(DecodeError::ChunkOrder)
            } else {
                Ok(Order { has_palette: true, ..s })
            },
            ChunkKind::Data => if s.palette_image && !s.has_palette {
                Err(DecodeError::ChunkOrder)
            } else {
                Ok(Order { phase: Phase::InData, ..s })
            },
            ChunkKind::End => Err(DecodeError::NoImageData),
            ChunkKind::Transparency => single(s.has_transparency, TRANSPARENCY, Order { has_transparency: true, ..s }),
            ChunkKind::Background => single(s.has_background, BACKGROUND, Order { has_background: true, ..s }),
            ChunkKind::Physical => single(s.has_physical, PHYSICAL, Order { has_physical: true, ..s }),
            ChunkKind::Time => single(s.has_time, TIME, Order { has_time: true, ..s }),
            ChunkKind::Text | ChunkKind::Ancillary => Ok(s),
            ChunkKind::Critical(n) => Err(DecodeError::UnknownChunkType(n)),
        },
        Phase::InData | Phase::Trailing => match k {
            ChunkKind::Data => if s.phase == Phase::InData {
                Ok(s)
            } else {
                Err(DecodeError::ChunkOrder)
            },
            ChunkKind::End => Ok(Order { phase: Phase::Done, ..s }),
            ChunkKind::Time => single(s.has_time, TIME, Order { phase: Phase::Trailing, has_time: true, ..s }),
            ChunkKind::Text | ChunkKind::Ancillary => Ok(Order { phase: Phase::Trailing, ..s }),
            ChunkKind::Critical(n) => Err(DecodeError::UnknownChunkType(n)),
            _ => Err(DecodeError::ChunkOrder),
        },
    }
}

impl Order {
    /// The state before the first chunk.
    pub fn new() -> (r: Order)
        ensures
            r == order_start(),
    {
        Order {
            phase: Phase::AwaitHeader,
            palette_image: false,
            has_palette: false,
            has_transparency: false,
            has_background: false,
            has_physical: false,
            has_time: false,
        }
    }

    /// Takes a chunk of kind `k`.
    pub fn advance(self, k: ChunkKind, palette_image: bool) -> (r: Result<Order, DecodeError>)
        ensures
            r == order_next(self, k, palette_image),
    {
        let s = self;
        match s.phase {
            Phase::AwaitHeader => match k {
                ChunkKind::Header => Ok(Order { phase: Phase::Aux, palette_image, ..s }),
                _ => Err(DecodeError::ChunkOrder),
            },
            Phase::Done => Err(DecodeError::TrailingChunk),
            Phase::Aux => match k {
                ChunkKind::Header => Err(DecodeError::ChunkOrder),
                ChunkKind::Palette => if s.has_palette {
                    Err(DecodeError::Multiple(PALETTE))
                } else if s.has_transparency || s.has_background {
                    Err(DecodeError::ChunkOrder)
                } else {
                    Ok(Order { has_palette: true, ..s })
                },
                ChunkKind::Data => if s.palette_image && !s.has_palette {
                    Err(DecodeError::ChunkOrder)
                } else {
                    Ok(Order { phase: Phase::InData, ..s })
                },
                ChunkKind::End => Err(DecodeError::NoImageData),
                ChunkKind::Transparency => if s.has_transparency {
                    Err(DecodeError::Multiple(TRANSPARENCY))
                } else {
                    Ok(Order { has_transparency: true, ..s })
                },
                ChunkKind::Background => if s.has_background {
                    Err(DecodeError::Multiple(BACKGROUND))
                } else {
                    Ok(Order { has_background: true, ..s })
                },
                ChunkKind::Physical => if s.has_physical {
                    Err(DecodeError::Multiple(PHYSICAL))
                } else {
                    Ok(Order { has_physical: true, ..s })
                },
                ChunkKind::Time => if s.has_time {
                    Err(DecodeError::Multiple(TIME))
                } else {
                    Ok(Order { has_time: true, ..s })
                },
                ChunkKind::Text | ChunkKind::Ancillary => Ok(s),
                ChunkKind::Critical(n) => Err(DecodeError::UnknownChunkType(n)),
            },
            Phase::InData | Phase::Trailing => match k {
                ChunkKind::Data => if s.phase == Phase::InData {
                    Ok(s)
                } else {
                    Err(DecodeError::ChunkOrder)
                },
                ChunkKind::End => Ok(Order { phase: Phase::Done, ..s }),
                ChunkKind::Time => if s.has_time {
                    Err(DecodeError::Multiple(TIME))
                } else {
                    Ok(Order { phase: Phase::Trailing, has_time: true, ..s })
                },
                ChunkKind::Text | ChunkKind::Ancillary => Ok(Order { phase: Phase::Trailing, ..s }),
                ChunkKind::Critical(n) => Err(DecodeError::UnknownChunkType(n)),
                _ => Err(DecodeError::ChunkOrder),
            },
        }
    }
}

} // verus!
