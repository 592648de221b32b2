//! Images held as raw RGBA pixel data.
use vstd::prelude::*;

verus! {

/// An image: its size in pixels and its RGBA pixel data.
#[derive(Clone, Debug)]
pub struct Image {
    width: u32,
    height: u32,
    data: Vec<u8>,
}

impl Image {
    pub closed spec fn spec_width(&self) -> u32 {
        self.width
    }

    pub closed spec fn spec_height(&self) -> u32 {
        self.height
    }

    pub closed spec fn spec_data(&self) -> Seq<u8> {
        self.data@
    }

    /// An image of the given size holding a copy of `pixel_data`.
    pub fn from_rgba(width: u32, height: u32, pixel_data: &[u8]) -> (r: Image)
        ensures
            r.spec_width() == width,
            r.spec_height() == height,
            r.spec_data() == pixel_data@,
    {
        let mut data: Vec<u8> = Vec::with_capacity(pixel_data.len());
        let mut i: usize = 0;
        while i < pixel_data.len()
            invariant
                i <= pixel_data@.len(),
                data@ == pixel_data@.subrange(0, i as int),
            decreases pixel_data@.len() - i,
        {
            data.push(pixel_data[i]);
            i += 1;
            assert(data@ =~= pixel_data@.subrange(0, i as int));
        }
        assert(pixel_data@.subrange(0, i as int) =~= pixel_data@);
        Image { width, height, data }
    }

    /// The image's pixel data.
    pub fn data(&self) -> (r: &Vec<u8>)
        ensures
            r@ == self.spec_data(),
    {
        &self.data
    }
}

} // verus!
