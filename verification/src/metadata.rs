//! The dimensions of the video that a file is drawn onto.

use vstd::prelude::*;

verus! {

/// The dimensions of the video, in pixels and in squares.
#[derive(Debug)]
pub struct Metadata {
    pub w: u16,
    pub h: u16,
    /// width of the frame in squares
    pub sw: u16,
    /// height of the frame in squares
    pub sh: u16,
    /// square size in pixels
    pub ss: u16,
    /// frames per second
    pub fps: u8,
    /// number of bytes read per file read
    pub buffer_size: usize,
}

/// Why video dimensions are refused.
#[derive(Debug, PartialEq, Eq, Structural)]
pub enum MetadataError {
    /// The square size is 0, or does not divide the width and the height.
    InvalidSquare,
    /// The height is smaller than the square size.
    InvalidHeight,
    /// The width is 0.
    InvalidWidth,
}

/// The error, if any, with which the dimensions `w`×`h` with squares of side
/// `ss` are refused; the checks are made in this order.
pub open spec fn metadata_error(w: u16, h: u16, ss: u16) -> Option<MetadataError> {
    if ss < 1 || w % ss != 0 || h % ss != 0 {
        Some(MetadataError::InvalidSquare)
    } else if h < ss {
        Some(MetadataError::InvalidHeight)
    } else if w < 1 {
        Some(MetadataError::InvalidWidth)
    } else {
        None
    }
}

impl Metadata {
    /// The dimensions are those that [`Metadata::new`] accepts, and the
    /// counts of squares match them.
    pub open spec fn valid(&self) -> bool {
        &&& metadata_error(self.w, self.h, self.ss) is None
        &&& self.sw == self.w / self.ss
        &&& self.sh == self.h / self.ss
    }

    /// Checks the dimensions and counts the squares across and down a frame.
    pub fn new(w: u16, h: u16, fps: u8, ss: u16, buffer_size: usize) -> (r: Result<
        Self,
        MetadataError,
    >)
        ensures
            match r {
                Ok(m) => {
                    &&& metadata_error(w, h, ss) is None
                    &&& m == (Metadata { w, h, sw: w / ss, sh: h / ss, ss, fps, buffer_size })
                    &&& m.valid()
                    &&& m.sw * m.ss == w
                    &&& m.sh * m.ss == h
                    &&& m.sw >= 1
                    &&& m.sh >= 1
                },
                Err(e) => metadata_error(w, h, ss) == Some(e),
            },
            r is Ok <==> (ss >= 1 && w >= 1 && h >= 1 && w % ss == 0 && h % ss == 0),
            r == Err::<Metadata, MetadataError>(MetadataError::InvalidHeight) <==> (ss >= 1 && w
                % ss == 0 && h == 0),
            r == Err::<Metadata, MetadataError>(MetadataError::InvalidWidth) <==> (ss >= 1 && h
                >= 1 && h % ss == 0 && w == 0),
    {
        proof {
            lemma_metadata_accepts(w, h, ss);
        }
        if ss < 1 || w % ss != 0 || h % ss != 0 {
            return Err(MetadataError::InvalidSquare);
        }
        if h < ss {
            return Err(MetadataError::InvalidHeight);
        }
        if w < 1 {
            return Err(MetadataError::InvalidWidth);
        }
        proof {
            lemma_exact_division(w as int, ss as int);
            lemma_exact_division(h as int, ss as int);
        }
        Ok(Self { w, h, sw: w / ss, sh: h / ss, ss, fps, buffer_size })
    }
}

/// Which dimensions are accepted, and why the others are refused, in plain
/// arithmetic: a square size of at least 1 that divides a positive width and
/// a positive height is accepted; a zero height (with a square that divides
/// the width) is too small; a zero width (with a valid height) is too
/// narrow; everything else has a square that does not fit.
pub proof fn lemma_metadata_accepts(w: u16, h: u16, ss: u16)
    ensures
        metadata_error(w, h, ss) is None <==> (ss >= 1 && w >= 1 && h >= 1 && w % ss == 0 && h
            % ss == 0),
        metadata_error(w, h, ss) == Some(MetadataError::InvalidHeight) <==> (ss >= 1 && w % ss
            == 0 && h == 0),
        metadata_error(w, h, ss) == Some(MetadataError::InvalidWidth) <==> (ss >= 1 && h >= 1
            && h % ss == 0 && w == 0),
        metadata_error(w, h, ss) == Some(MetadataError::InvalidSquare) <==> (ss == 0 || w % ss
            != 0 || h % ss != 0),
{
    if ss >= 1 {
        vstd::arithmetic::div_mod::lemma_fundamental_div_mod_converse(0, ss as int, 0, 0);
    }
    if ss >= 1 && h >= 1 && h % ss == 0 {
        lemma_exact_division(h as int, ss as int);
        assert(h >= ss) by (nonlinear_arith)
            requires (h / ss) * ss == h, h / ss >= 1, ss >= 1;
    }
}

/// A positive multiple `x` of `d` is `d` times a positive quotient.
proof fn lemma_exact_division(x: int, d: int)
    requires
        d >= 1,
        x >= 1,
        x % d == 0,
    ensures
        (x / d) * d == x,
        x / d >= 1,
{
    vstd::arithmetic::div_mod::lemma_fundamental_div_mod(x, d);
    assert((x / d) * d == x) by (nonlinear_arith)
        requires x == d * (x / d) + x % d, x % d == 0;
    assert(x / d >= 1) by (nonlinear_arith)
        requires (x / d) * d == x, x >= 1, d >= 1;
}

} // verus!
