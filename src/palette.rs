//! The three colours of a frame, from the packed bits of its header byte.
use vstd::prelude::*;
use crate::error::PpmError;

verus! {

/// An RGB colour.
pub type Rgb = (u8, u8, u8);

pub open spec fn black() -> Rgb {
    (0x0E, 0x0E, 0x0E)
}

pub open spec fn white() -> Rgb {
    (0xFF, 0xFF, 0xFF)
}

pub open spec fn red() -> Rgb {
    (0xFF, 0x2A, 0x2A)
}

pub open spec fn blue() -> Rgb {
    (0x0A, 0x39, 0xFF)
}

/// The pen colour of index `idx` on paper colour bit `paper`: index 0 names
/// no pen, index 1 the colour opposite to the paper.
pub open spec fn pen_color(idx: u8, paper: u8) -> Option<Rgb> {
    if idx == 1 {
        Some(
            if paper == 1 {
                black()
            } else {
                white()
            },
        )
    } else if idx == 2 {
        Some(red())
    } else if idx == 3 {
        Some(blue())
    } else {
        None
    }
}

/// Paper, layer-one pen and layer-two pen colours of the header byte `h`;
/// an error where a layer's pen index is zero.
pub open spec fn palette_of(h: u8) -> Result<Seq<Rgb>, PpmError> {
    let paper = h & 1u8;
    match (pen_color((h >> 1u8) & 3u8, paper), pen_color((h >> 3u8) & 3u8, paper)) {
        (Some(a), Some(b)) => Ok(
            seq![
                if paper == 1 {
                    white()
                } else {
                    black()
                },
                a,
                b,
            ],
        ),
        _ => Err(PpmError::InvalidPenIndex),
    }
}

fn pen(idx: u8, paper: u8) -> (r: Option<Rgb>)
    ensures
        r == pen_color(idx, paper),
{
    if idx == 1 {
        if paper == 1 {
            Some((0x0E, 0x0E, 0x0E))
        } else {
            Some((0xFF, 0xFF, 0xFF))
        }
    } else if idx == 2 {
        Some((0xFF, 0x2A, 0x2A))
    } else if idx == 3 {
        Some((0x0A, 0x39, 0xFF))
    } else {
        None
    }
}

/// The palette of a frame whose header byte is `h`.
pub fn palette(h: u8) -> (r: Result<Vec<Rgb>, PpmError>)
    ensures
        match palette_of(h) {
            Ok(s) => r is Ok && r->Ok_0@ == s,
            Err(e) => r == Err::<Vec<Rgb>, PpmError>(e),
        },
{
    let paper = h & 1u8;
    let a = pen((h >> 1u8) & 3u8, paper);
    let b = pen((h >> 3u8) & 3u8, paper);
    match (a, b) {
        (Some(a), Some(b)) => {
            let paper_color: Rgb = if paper == 1 {
                (0xFF, 0xFF, 0xFF)
            } else {
                (0x0E, 0x0E, 0x0E)
            };
            let v = vec![paper_color, a, b];
            assert(v@ =~= palette_of(h)->Ok_0);
            Ok(v)
        },
        _ => Err(PpmError::InvalidPenIndex),
    }
}

/// A palette has three colours, and its paper colour is white exactly when
/// bit 0 of the header byte is set, black otherwise.
pub proof fn lemma_paper_color(h: u8)
    ensures
        palette_of(h) is Ok ==> {
            let s = palette_of(h)->Ok_0;
            &&& s.len() == 3
            &&& (s[0] == white() <==> h & 1u8 == 1)
            &&& (h & 1u8 == 0 ==> s[0] == black())
        },
{
    assert(h & 1u8 == 0 || h & 1u8 == 1) by (bit_vector);
}

} // verus!
