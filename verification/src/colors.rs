//! Colors and the user-editable palette.

use vstd::prelude::*;

verus! {

/// An RGBA color with straight (non-premultiplied) alpha.
#[derive(Clone, Copy, PartialEq, Eq, Structural, Debug)]
pub struct Color {
    pub r: u8,
    pub g: u8,
    pub b: u8,
    pub a: u8,
}

impl Color {
    /// Builds a color from its four channels.
    pub fn rgba(r: u8, g: u8, b: u8, a: u8) -> (c: Color)
        ensures
            c == (Color { r, g, b, a }),
    {
        Color { r, g, b, a }
    }
}

/// Copies a color vector element by element.
pub fn copy_colors(cs: &Vec<Color>) -> (r: Vec<Color>)
    ensures
        r@ == cs@,
{
    let mut out: Vec<Color> = Vec::new();
    let mut i: usize = 0;
    while i < cs.len()
        invariant
            i <= cs@.len(),
            out@ == cs@.take(i as int),
        decreases cs@.len() - i,
    {
        out.push(cs[i]);
        proof {
            assert(cs@.take(i + 1 as int) =~= cs@.take(i as int).push(cs@[i as int]));
        }
        i = i + 1;
    }
    proof {
        assert(cs@.take(cs@.len() as int) =~= cs@);
    }
    out
}

/// The ordered color palette plus the index of the active color.
pub struct ColorPalette {
    pub colors: Vec<Color>,
    pub active_color_index: usize,
}

impl ColorPalette {
    /// A palette is well-formed when it has at least one color and the
    /// active index points into it.
    pub open spec fn wf(self) -> bool {
        self.colors@.len() >= 1 && self.active_color_index < self.colors@.len()
    }

    /// Builds a palette over the given colors with the first one active.
    pub fn from_colors(colors: Vec<Color>) -> (p: ColorPalette)
        requires
            colors@.len() >= 1,
        ensures
            p.colors@ == colors@,
            p.active_color_index == 0,
            p.wf(),
    {
        ColorPalette { colors, active_color_index: 0 }
    }

    /// Makes the color in slot `index` active; an out-of-range index is
    /// silently ignored.
    pub fn set_active_color_index(&mut self, index: usize)
        ensures
            final(self).colors@ == old(self).colors@,
            index < old(self).colors@.len() ==> final(self).active_color_index == index,
            index >= old(self).colors@.len() ==> final(self).active_color_index == old(
                self,
            ).active_color_index,
    {
        if index < self.colors.len() {
            self.active_color_index = index;
        }
    }

    /// The currently active color.
    pub fn get_current_color(&self) -> (c: Color)
        requires
            self.wf(),
        ensures
            c == self.colors@[self.active_color_index as int],
    {
        self.colors[self.active_color_index]
    }

    /// All palette colors in order.
    pub fn get_palette_vec(&self) -> (r: &Vec<Color>)
        ensures
            r@ == self.colors@,
    {
        &self.colors
    }

    /// Recolors slot `index`; an out-of-range index is silently ignored.
    pub fn set_color_at(&mut self, index: usize, color: Color)
        ensures
            final(self).active_color_index == old(self).active_color_index,
            index < old(self).colors@.len() ==> final(self).colors@ == old(self).colors@.update(
                index as int,
                color,
            ),
            index >= old(self).colors@.len() ==> final(self).colors@ == old(self).colors@,
    {
        if index < self.colors.len() {
            self.colors[index] = color;
        }
    }

    /// Appends a new slot holding the currently active color and makes the
    /// new slot active.
    pub fn add_color(&mut self)
        requires
            old(self).wf(),
        ensures
            final(self).colors@ == old(self).colors@.push(
                old(self).colors@[old(self).active_color_index as int],
            ),
            final(self).active_color_index == old(self).colors@.len(),
            final(self).wf(),
    {
        let c = self.get_current_color();
        self.colors.push(c);
        self.active_color_index = self.colors.len() - 1;
    }
}

impl Default for ColorPalette {
    /// The default palette: white, red, yellow, green, blue, with white
    /// active.
    fn default() -> (p: ColorPalette)
        ensures
            p.colors@ =~= seq![
                Color { r: 255, g: 255, b: 255, a: 255 },
                Color { r: 255, g: 0, b: 0, a: 255 },
                Color { r: 255, g: 255, b: 0, a: 255 },
                Color { r: 0, g: 255, b: 0, a: 255 },
                Color { r: 0, g: 0, b: 255, a: 255 },
            ],
            p.active_color_index == 0,
            p.wf(),
    {
        let colors = vec![
            Color { r: 255, g: 255, b: 255, a: 255 },
            Color { r: 255, g: 0, b: 0, a: 255 },
            Color { r: 255, g: 255, b: 0, a: 255 },
            Color { r: 0, g: 255, b: 0, a: 255 },
            Color { r: 0, g: 0, b: 255, a: 255 },
        ];
        ColorPalette { colors, active_color_index: 0 }
    }
}

} // verus!
