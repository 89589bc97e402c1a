use vstd::prelude::*;

verus! {

/// RGBA color
#[derive(Clone, Copy, Debug, PartialEq, Eq, Structural)]
pub struct Color {
    pub r: u8,
    pub g: u8,
    pub b: u8,
    pub a: u8,
}

impl Color {
    pub fn new(r: u8, g: u8, b: u8, a: u8) -> (c: Self)
        ensures
            c == (Color { r, g, b, a }),
    {
        Color { r, g, b, a }
    }

    /// The channels in `r, g, b, a` order.
    pub fn as_slice(&self) -> (s: [u8; 4])
        ensures
            s@ == seq![self.r, self.g, self.b, self.a],
    {
        let s = [self.r, self.g, self.b, self.a];
        assert(s@ =~= seq![self.r, self.g, self.b, self.a]);
        s
    }
}

impl Default for Color {
    fn default() -> (c: Self)
        ensures
            c == (Color { r: 0, g: 0, b: 0, a: 0 }),
    {
        Color { r: 0, g: 0, b: 0, a: 0 }
    }
}

/// The fully transparent black `(0, 0, 0, 0)`.
pub open spec fn empty_color() -> Color {
    Color { r: 0, g: 0, b: 0, a: 0 }
}

/// Color palette
pub struct Palette {
    /// The number of colors in the palette
    pub count: u32,
    /// The palette colors
    pub entries: [Color; 256],
}

impl Palette {
    /// The meaningful colors of the palette, the first `count` entries.
    pub open spec fn colors(&self) -> Seq<Color> {
        self.entries@.subrange(0, self.count as int)
    }

    pub open spec fn wf(&self) -> bool {
        self.count <= 256
    }

    /// Builds a palette holding `colors` in order; unused entries are
    /// `(0, 0, 0, 0)`.
    pub fn from_colors(colors: &Vec<Color>) -> (p: Palette)
        requires
            colors@.len() <= 256,
        ensures
            p.wf(),
            p.colors() == colors@,
            forall|i: int| colors@.len() <= i < 256 ==> p.entries@[i] == empty_color(),
    {
        let empty = Color { r: 0, g: 0, b: 0, a: 0 };
        let mut entries = [empty; 256];
        let mut i: usize = 0;
        while i < colors.len()
            invariant
                i <= colors@.len() <= 256,
                entries@.len() == 256,
                forall|j: int| 0 <= j < i ==> entries@[j] == colors@[j],
                forall|j: int| i <= j < 256 ==> entries@[j] == empty_color(),
            decreases colors@.len() - i,
        {
            entries[i] = colors[i];
            i += 1;
        }
        let p = Palette { count: colors.len() as u32, entries };
        assert(p.colors() =~= colors@);
        p
    }
}

} // verus!
