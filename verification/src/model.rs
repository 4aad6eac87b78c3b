//! What a request is made of: stickers, and the ways in which one can be
//! malformed.
//!
//! A sticker's placement is in hundredths of a pixel, its size in whole
//! pixels. A request is checked as a whole before any raster is touched.

use crate::geometry::{Rotation, COORD_LIMIT};
use vstd::prelude::*;

verus! {

/// Why a request cannot be composed.
#[derive(Clone, Copy, Debug, PartialEq, Eq, Structural)]
pub enum ValidationError {
    /// A sticker's width or height is zero.
    EmptySize,
    /// A sticker's position is beyond the coordinate limit, or the cosine or
    /// sine of its rotation is beyond one.
    OutOfRange,
    /// Two stickers of one request have the same identifier.
    DuplicateId,
    /// An image is larger than can be resampled, or a raster or a coverage
    /// mask would be more than a vector can hold.
    TooLarge,
    /// The rasters handed in are not one for each sticker.
    RasterCount,
    /// A layer was built for a canvas of another size.
    CanvasMismatch,
}

/// A sticker as a request describes it.
#[derive(Clone, Debug)]
pub struct Sticker {
    /// Identifier, unique within a request.
    pub id: String,
    /// Reference to the source image.
    pub file: String,
    /// Horizontal position of the top-left corner, in hundredths of a pixel.
    pub x: i64,
    /// Vertical position of the top-left corner, in hundredths of a pixel.
    pub y: i64,
    /// Rotation about the sticker's center, counter-clockwise positive.
    pub rotation: Rotation,
    /// Target width in pixels.
    pub width: u32,
    /// Target height in pixels.
    pub height: u32,
}

/// A request: a background and the stickers to lay on it, bottommost first.
#[derive(Clone, Debug)]
pub struct InputData {
    /// Reference to the background image.
    pub background: String,
    /// The stickers, bottommost first.
    pub stickers: Vec<Sticker>,
    /// The name to write the composed image under, if the caller has one.
    pub output_name: Option<String>,
}

impl Sticker {
    /// Neither width nor height is zero.
    pub open spec fn has_size(&self) -> bool {
        self.width > 0 && self.height > 0
    }

    /// The position is within the coordinate limit, and the cosine and sine
    /// of the rotation are within one.
    pub open spec fn in_range(&self) -> bool {
        &&& -COORD_LIMIT <= self.x <= COORD_LIMIT
        &&& -COORD_LIMIT <= self.y <= COORD_LIMIT
        &&& self.rotation.wf()
    }

    /// The sticker has a size, a position within the coordinate limit and a
    /// rotation whose cosine and sine are within one.
    pub open spec fn valid(&self) -> bool {
        self.has_size() && self.in_range()
    }

    /// What is wrong with the sticker, if anything: its size is looked at
    /// first.
    pub open spec fn defect(&self) -> Option<ValidationError> {
        if !self.has_size() {
            Some(ValidationError::EmptySize)
        } else if !self.in_range() {
            Some(ValidationError::OutOfRange)
        } else {
            None
        }
    }

    /// Checks the sticker on its own.
    pub fn validate(&self) -> (r: Result<(), ValidationError>)
        ensures
            r == match self.defect() {
                Some(e) => Err::<(), ValidationError>(e),
                None => Ok(()),
            },
            r is Ok <==> self.valid(),
    {
        if self.width == 0 || self.height == 0 {
            Err(ValidationError::EmptySize)
        } else if self.x < -COORD_LIMIT || self.x > COORD_LIMIT || self.y < -COORD_LIMIT || self.y
            > COORD_LIMIT || !self.rotation.is_wf() {
            Err(ValidationError::OutOfRange)
        } else {
            Ok(())
        }
    }

    /// The sticker as it is placed on one of the two canvases: on the
    /// transposed one, its horizontal and vertical position change places.
    pub open spec fn spec_placed(self, swap_xy: bool) -> Sticker {
        if swap_xy {
            Sticker { x: self.y, y: self.x, ..self }
        } else {
            self
        }
    }

    /// The sticker as it is placed on one of the two canvases.
    pub fn placed(&self, swap_xy: bool) -> (s: Sticker)
        ensures
            s == self.spec_placed(swap_xy),
            s.valid() == self.valid(),
    {
        let copy = self.duplicate();
        if swap_xy {
            Sticker {
                id: copy.id,
                file: copy.file,
                x: copy.y,
                y: copy.x,
                rotation: copy.rotation,
                width: copy.width,
                height: copy.height,
            }
        } else {
            copy
        }
    }

    /// A copy of the sticker.
    pub fn duplicate(&self) -> (s: Sticker)
        ensures
            s == *self,
    {
        Sticker {
            id: self.id.clone(),
            file: self.file.clone(),
            x: self.x,
            y: self.y,
            rotation: self.rotation,
            width: self.width,
            height: self.height,
        }
    }
}

impl InputData {
    /// What is wrong with sticker `i` of a request, if anything: its own
    /// defect, or else an identifier that an earlier sticker has already.
    pub open spec fn problem_at(stickers: Seq<Sticker>, i: int) -> Option<ValidationError> {
        if stickers[i].defect() is Some {
            stickers[i].defect()
        } else if exists|j: int| 0 <= j < i && (#[trigger] stickers[j]).id@ == stickers[i].id@ {
            Some(ValidationError::DuplicateId)
        } else {
            None
        }
    }

    /// The problem of the first sticker, among the first `n`, that has one.
    pub open spec fn first_problem(stickers: Seq<Sticker>, n: int) -> Option<ValidationError>
        decreases n,
    {
        if n <= 0 {
            None
        } else if InputData::first_problem(stickers, n - 1) is Some {
            InputData::first_problem(stickers, n - 1)
        } else {
            InputData::problem_at(stickers, n - 1)
        }
    }

    /// Every sticker is valid and no identifier occurs twice.
    pub open spec fn valid(&self) -> bool {
        &&& forall|i: int| 0 <= i < self.stickers.len() ==> (#[trigger] self.stickers[i]).valid()
        &&& forall|i: int, j: int|
            0 <= j < i < self.stickers.len() ==> (#[trigger] self.stickers[j]).id@ != (
            #[trigger] self.stickers[i]).id@
    }

    /// A request with a problem is not valid, and one without is.
    pub proof fn lemma_problem_free(stickers: Seq<Sticker>, n: int)
        requires
            0 <= n <= stickers.len(),
        ensures
            InputData::first_problem(stickers, n) is None <==> forall|i: int|
                0 <= i < n ==> InputData::problem_at(stickers, i) is None,
        decreases n,
    {
        if n > 0 {
            InputData::lemma_problem_free(stickers, n - 1);
        }
    }

    /// Checks the request before any raster work: the stickers in their
    /// order, each first on its own and then against the identifiers of
    /// those before it. The first problem found is the one reported.
    pub fn validate(&self) -> (r: Result<(), ValidationError>)
        ensures
            r == match InputData::first_problem(self.stickers@, self.stickers.len() as int) {
                Some(e) => Err::<(), ValidationError>(e),
                None => Ok(()),
            },
            r is Ok <==> self.valid(),
    {
        let n = self.stickers.len();
        let mut i: usize = 0;
        while i < n
            invariant
                n == self.stickers.len(),
                i <= n,
                InputData::first_problem(self.stickers@, i as int) is None,
            decreases n - i,
        {
            match self.stickers[i].validate() {
                Err(e) => {
                    proof {
                        InputData::lemma_first_problem_stays(self.stickers@, i + 1, n as int);
                    }
                    return Err(e);
                },
                Ok(_) => {},
            }
            let mut j: usize = 0;
            while j < i
                invariant
                    n == self.stickers.len(),
                    i < n,
                    j <= i,
                    self.stickers[i as int].defect() is None,
                    InputData::first_problem(self.stickers@, i as int) is None,
                    forall|k: int| 0 <= k < j ==> (#[trigger] self.stickers[k]).id@ != self.stickers[i as int].id@,
                decreases i - j,
            {
                if self.stickers[j].id == self.stickers[i].id {
                    proof {
                        InputData::lemma_first_problem_stays(self.stickers@, i + 1, n as int);
                    }
                    return Err(ValidationError::DuplicateId);
                }
                j = j + 1;
            }
            i = i + 1;
        }
        proof {
            InputData::lemma_problem_free(self.stickers@, n as int);
            assert forall|i: int| 0 <= i < n implies (#[trigger] self.stickers[i]).valid() by {
                assert(InputData::problem_at(self.stickers@, i) is None);
            }
            assert forall|i: int, j: int| 0 <= j < i < n implies (#[trigger] self.stickers[j]).id@
                != (#[trigger] self.stickers[i]).id@ by {
                assert(InputData::problem_at(self.stickers@, i) is None);
            }
        }
        Ok(())
    }

    /// Once a problem is found among the first `n` stickers, it stays the
    /// first problem however many more are looked at.
    pub proof fn lemma_first_problem_stays(stickers: Seq<Sticker>, n: int, m: int)
        requires
            0 <= n <= m,
            InputData::first_problem(stickers, n) is Some,
        ensures
            InputData::first_problem(stickers, m) == InputData::first_problem(stickers, n),
        decreases m - n,
    {
        if n < m {
            InputData::lemma_first_problem_stays(stickers, n, m - 1);
        }
    }
}

} // verus!
