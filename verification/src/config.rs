use vstd::prelude::*;

verus! {

/// Image processing parameters.
pub struct ImageProcessingConfig;

impl ImageProcessingConfig {
    /// Gaussian blur kernel size.
    pub const GAUSSIAN_KERNEL_SIZE: u32 = 5;
    /// Width that an A4 sheet is scaled to.
    pub const TARGET_WIDTH_A4: u32 = 2400;
    /// Width that an A3 sheet is scaled to.
    pub const TARGET_WIDTH_A3: u32 = 4000;
    /// Block size of the adaptive threshold.
    pub const BLOCK_SIZE: u32 = 51;
    /// Constant of the adaptive threshold.
    pub const C: i32 = 5;
    /// Kernel size of the morphological closing.
    pub const MORPH_KERNEL: u32 = 3;
    /// Kernel size of the opening used for locating the sheet.
    pub const MORPH_KERNEL_OPEN_FOR_LOCATION: u32 = 3;
    /// Kernel size of the closing used for locating the sheet.
    pub const MORPH_KERNEL_CLOSE_FOR_LOCATION: u32 = 5;
    /// How far past the boundary a transformed image is kept.
    pub const BOUNDARY_EXTEND_SIZE: i32 = 40;
}

/// Parameters for finding the assist marks of a page.
pub struct AssistLocationPageConfig;

impl AssistLocationPageConfig {
    pub fn assist_area_extend_size_h() -> (r: i32)
        ensures
            r == 35,
    {
        35
    }

    pub fn assist_area_extend_size_w() -> (r: i32)
        ensures
            r == 20,
    {
        20
    }

    pub fn assist_point_min_size() -> (r: i32)
        ensures
            r == 8,
    {
        8
    }

    pub fn assist_point_max_size() -> (r: i32)
        ensures
            r == 15,
    {
        15
    }

    /// Smallest area of an assist mark's box, in square pixels.
    pub fn assist_point_min_area() -> (r: i32)
        ensures
            r == 80,
    {
        80
    }

    /// Largest area of an assist mark's box, in square pixels.
    pub fn assist_point_max_area() -> (r: i32)
        ensures
            r == 170,
    {
        170
    }

    pub fn assist_point_whdiff_max() -> (r: i32)
        ensures
            r == 4,
    {
        4
    }

    pub fn assist_point_x_median_diff() -> (r: i32)
        ensures
            r == 18,
    {
        18
    }
}

/// Parameters for reading filled options.
pub struct FillPageConfig;

impl FillPageConfig {
    pub fn refine_coor_range() -> (r: i32)
        ensures
            r == 4,
    {
        4
    }
}

/// Parameters shared by several steps.
pub struct CommonConfig;

impl CommonConfig {
    /// How far the page-number marks are searched around their marked place.
    pub const PAGE_NUMBER_EXTEND_SIZE: i32 = 20;
}

/// Parameters for reading single-line (V/X) marks.
pub struct VxPageConfig;

impl VxPageConfig {
    pub fn vx_model_channels() -> (r: i32)
        ensures
            r == 1,
    {
        1
    }

    pub fn vx_model_height() -> (r: i32)
        ensures
            r == 36,
    {
        36
    }

    pub fn vx_model_width() -> (r: i32)
        ensures
            r == 50,
    {
        50
    }

    pub fn vx_model_padding_value() -> (r: i32)
        ensures
            r == 0,
    {
        0
    }

    pub fn vx_box_expand_size() -> (r: i32)
        ensures
            r == 4,
    {
        4
    }
}

} // verus!
