use vstd::prelude::*;

verus! {

/// An 8-bit single-channel image over an owned buffer: sample (`col`, `row`)
/// is at `row * row_stride + col * sample_stride`.
pub struct Image {
    pub data: Vec<u8>,
    pub width: usize,
    pub height: usize,
    pub sample_stride: usize,
    pub row_stride: usize,
}

impl Image {
    pub open spec fn index(&self, col: int, row: int) -> int {
        row * self.row_stride + col * self.sample_stride
    }

    /// Every sample lies inside the buffer.
    pub open spec fn wf(&self) -> bool {
        (self.width > 0 && self.height > 0) ==> self.index(self.width - 1, self.height - 1)
            < self.data@.len()
    }

    pub fn sample(&self, col: usize, row: usize) -> (r: u8)
        requires
            self.wf(),
            col < self.width,
            row < self.height,
        ensures
            r == self.data@[self.index(col as int, row as int)],
    {
        // an index below the buffer's length fits in usize
        let _len = self.data.len();
        proof {
            let w = self.width as int;
            let h = self.height as int;
            assert(0 <= row * self.row_stride <= (h - 1) * self.row_stride) by (nonlinear_arith)
                requires
                    0 <= row <= h - 1,
            ;
            assert(0 <= col * self.sample_stride <= (w - 1) * self.sample_stride) by (nonlinear_arith)
                requires
                    0 <= col <= w - 1,
            ;
        }
        self.data[row * self.row_stride + col * self.sample_stride]
    }
}

} // verus!
