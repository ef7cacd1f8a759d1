//! The visible color of a position: the pixels of the tiles stacked at it,
//! composited from the bottom up.

use vstd::prelude::*;
use crate::color::{blend, Rgba};
use crate::pixel::PixelPosition;
use crate::store::{PixelMap, Pixels};

verus! {

/// The color `c` laid over what lies below it.
pub open spec fn laid_over(below: Option<Rgba>, c: Rgba) -> Rgba {
    match below {
        Some(d) => blend(c, d),
        None => c,
    }
}

/// The pixels that `m` holds at `positions`, composited in their order:
/// the first is the lowest. Nothing where `m` holds none of them.
pub open spec fn composite(m: PixelMap, positions: Seq<PixelPosition>) -> Option<Rgba>
    decreases positions.len(),
{
    if positions.len() == 0 {
        None
    } else if m.contains_key(positions.last()) {
        Some(laid_over(composite(m, positions.drop_last()), m[positions.last()]))
    } else {
        composite(m, positions.drop_last())
    }
}

/// `below` with the pixel at `position` laid over it at the alpha
/// `alpha` in place of its own; `below` alone where `alpha` is zero or
/// there is no pixel.
pub open spec fn with_alpha(
    m: PixelMap,
    below: Option<Rgba>,
    position: PixelPosition,
    alpha: u8,
) -> Option<Rgba> {
    if alpha != 0 && m.contains_key(position) {
        Some(
            laid_over(
                below,
                Rgba { r: m[position].r, g: m[position].g, b: m[position].b, a: alpha },
            ),
        )
    } else {
        below
    }
}

impl Pixels {
    /// The pixels at `positions`, composited from the first up.
    pub fn composite(&self, positions: &Vec<PixelPosition>) -> (color: Option<Rgba>)
        ensures
            color == composite(self@, positions@),
    {
        let mut color: Option<Rgba> = None;
        let mut i: usize = 0;
        while i < positions.len()
            invariant
                i <= positions.len(),
                color == composite(self@, positions@.take(i as int)),
            decreases positions.len() - i,
        {
            proof {
                assert(positions@.take(i + 1).drop_last() =~= positions@.take(i as int));
            }
            match self.get_pixel(positions[i]) {
                Some(c) => {
                    color = Some(
                        match color {
                            Some(d) => c.alpha_blend(d),
                            None => c,
                        },
                    );
                },
                None => {},
            }
            i += 1;
        }
        proof {
            assert(positions@.take(i as int) =~= positions@);
        }
        color
    }

    /// `below` with the pixel at `position` laid over it at the alpha
    /// `alpha`.
    pub fn composite_with_alpha(
        &self,
        below: Option<Rgba>,
        position: PixelPosition,
        alpha: u8,
    ) -> (color: Option<Rgba>)
        ensures
            color == with_alpha(self@, below, position, alpha),
    {
        if alpha == 0 {
            return below;
        }
        match self.get_pixel(position) {
            Some(own) => {
                let c = Rgba::new(own.r, own.g, own.b, alpha);
                Some(
                    match below {
                        Some(d) => c.alpha_blend(d),
                        None => c,
                    },
                )
            },
            None => below,
        }
    }
}

} // verus!
