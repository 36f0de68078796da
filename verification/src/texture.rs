use vstd::prelude::*;

verus! {

/// A texture of one colour everywhere.
#[derive(Clone, Copy)]
pub struct Solid<C> {
    color: C,
}

impl<C> View for Solid<C> {
    type V = C;

    closed spec fn view(&self) -> C {
        self.color
    }
}

impl<C> Solid<C> {
    /// The texture of colour `color`.
    pub fn new(color: C) -> (s: Solid<C>)
        ensures
            s@ == color,
    {
        Solid { color }
    }
}

impl<C: Copy> Solid<C> {
    /// The colour at any point: always the texture's one colour.
    pub fn value(&self) -> (c: C)
        ensures
            c == self@,
    {
        self.color
    }
}

/// A pixel index pulled back into an image `n` pixels wide: indices past the
/// last pixel select the last pixel.
pub fn clamp_pixel(i: u32, n: u32) -> (r: u32)
    requires
        n > 0,
    ensures
        r == if i >= n {
            (n - 1) as u32
        } else {
            i
        },
        r < n,
{
    if i >= n {
        n - 1
    } else {
        i
    }
}

} // verus!
