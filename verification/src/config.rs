use vstd::prelude::*;

verus! {

/// Pixel coordinates of the OCR region of interest: columns `x1..x2`, rows `y1..y2`.
#[derive(Debug, Clone, Copy)]
pub struct RoiPixels {
    pub x1: u32,
    pub x2: u32,
    pub y1: u32,
    pub y2: u32,
}

impl RoiPixels {
    /// The region runs left to right and top to bottom.
    pub open spec fn wf(&self) -> bool {
        self.x1 <= self.x2 && self.y1 <= self.y2
    }

    /// Width of the region in pixels.
    pub fn width(&self) -> (w: u32)
        requires
            self.x1 <= self.x2,
        ensures
            w == self.x2 - self.x1,
    {
        self.x2 - self.x1
    }

    /// Height of the region in pixels.
    pub fn height(&self) -> (h: u32)
        requires
            self.y1 <= self.y2,
        ensures
            h == self.y2 - self.y1,
    {
        self.y2 - self.y1
    }
}


/// Which A4 half goes on each page of the output, by slot name
/// (`A_right`, `A_left`, `B_right`, `B_left`).
#[derive(Debug, Clone)]
pub struct PageOrderConfig {
    pub page1: String,
    pub page2: String,
    pub page3: String,
    pub page4: String,
}

/// JPEG quality used when none is configured.
pub fn default_jpeg_quality() -> (q: u8)
    ensures
        q == 70,
{
    70
}

/// Default slot of page 1: the right half of the outer sheet.
pub fn default_a_right() -> (s: String)
    ensures
        s@ == "A_right"@,
{
    String::from_str("A_right")
}

/// Default slot of page 2: the right half of the inner sheet.
pub fn default_b_right() -> (s: String)
    ensures
        s@ == "B_right"@,
{
    String::from_str("B_right")
}

/// Default slot of page 3: the left half of the inner sheet.
pub fn default_b_left() -> (s: String)
    ensures
        s@ == "B_left"@,
{
    String::from_str("B_left")
}

/// Default slot of page 4: the left half of the outer sheet.
pub fn default_a_left() -> (s: String)
    ensures
        s@ == "A_left"@,
{
    String::from_str("A_left")
}

impl Default for PageOrderConfig {
    /// The booklet order: outer right, inner right, inner left, outer left.
    fn default() -> (r: Self)
        ensures
            r.page1@ == "A_right"@,
            r.page2@ == "B_right"@,
            r.page3@ == "B_left"@,
            r.page4@ == "A_left"@,
    {
        PageOrderConfig {
            page1: default_a_right(),
            page2: default_b_right(),
            page3: default_b_left(),
            page4: default_a_left(),
        }
    }
}

} // verus!
