use std::collections::HashMap;
use vstd::prelude::*;

use crate::image::{normalized, pixel_at, pixel_count, read_pixel, Image};
use crate::palette::Color;

verus! {

broadcast use vstd::std_specs::hash::group_hash_axioms;

/// A unique color and the number of pixels that hold it.
#[derive(Clone, Copy, Debug, PartialEq, Eq, Structural)]
pub struct HistogramEntry {
    pub color: Color,
    pub weight: u32,
}

/// The four channels packed little-endian into a `u32`.
pub open spec fn color_key(c: Color) -> u32 {
    (c.r as int + c.g as int * 256 + c.b as int * 65536 + c.a as int * 16777216) as u32
}

proof fn lemma_color_key_injective(c: Color, d: Color)
    requires
        color_key(c) == color_key(d),
    ensures
        c == d,
{
}

fn key_of(c: Color) -> (k: u32)
    ensures
        k == color_key(c),
{
    c.r as u32 + c.g as u32 * 256 + c.b as u32 * 65536 + c.a as u32 * 16777216
}

/// How many of the first `n` pixels of `data` have the normalized color `c`.
pub open spec fn color_count(data: Seq<u8>, n: int, c: Color) -> nat
    decreases n,
{
    if n <= 0 {
        0
    } else {
        color_count(data, n - 1, c) + if normalized(pixel_at(data, n - 1)) == c {
            1nat
        } else {
            0nat
        }
    }
}

/// `x` capped at `u32::MAX`.
pub open spec fn saturate(x: int) -> u32 {
    if x > u32::MAX {
        u32::MAX
    } else {
        x as u32
    }
}

/// The weight of `c` in `m`, zero where `c` is absent.
pub open spec fn weight_or_zero(m: Map<Color, u32>, c: Color) -> int {
    if m.contains_key(c) {
        m[c] as int
    } else {
        0
    }
}

/// The weights `m` after counting the first `n` pixels of `data`, each weight
/// saturating at `u32::MAX`.
pub open spec fn add_pixels(m: Map<Color, u32>, data: Seq<u8>, n: int) -> Map<Color, u32> {
    Map::new(
        |c: Color| m.contains_key(c) || color_count(data, n, c) > 0,
        |c: Color| saturate(weight_or_zero(m, c) + color_count(data, n, c)),
    )
}

/// The colors of histogram entries, in order.
pub open spec fn entry_colors(e: Seq<HistogramEntry>) -> Seq<Color> {
    e.map_values(|x: HistogramEntry| x.color)
}

/// The normalized colors of the first `n` pixels of `data` that neither
/// `known` nor an earlier pixel holds, in order of first appearance.
pub open spec fn first_seen(known: Seq<Color>, data: Seq<u8>, n: int) -> Seq<Color>
    decreases n,
{
    if n <= 0 {
        seq![]
    } else {
        let s = first_seen(known, data, n - 1);
        let c = normalized(pixel_at(data, n - 1));
        if (known + s).contains(c) {
            s
        } else {
            s.push(c)
        }
    }
}

/// Color histogram
pub struct Histogram {
    map: HashMap<u32, usize>,
    entries: Vec<HistogramEntry>,
}

impl View for Histogram {
    type V = Map<Color, u32>;

    /// The weight of every color seen so far.
    closed spec fn view(&self) -> Map<Color, u32> {
        Map::new(
            |c: Color|
                self.map@.contains_key(color_key(c)) && self.map@[color_key(c)] < self.entries@.len()
                    && self.entries@[self.map@[color_key(c)] as int].color == c,
            |c: Color| self.entries@[self.map@[color_key(c)] as int].weight,
        )
    }
}

impl Histogram {
    /// The entries in the order in which their colors were first seen.
    pub closed spec fn entries_view(&self) -> Seq<HistogramEntry> {
        self.entries@
    }

    pub closed spec fn wf(&self) -> bool {
        &&& forall|i: int|
            #![trigger self.entries@[i]]
            0 <= i < self.entries@.len() ==> self.map@.contains_key(color_key(self.entries@[i].color))
                && self.map@[color_key(self.entries@[i].color)] == i && self.entries@[i].weight >= 1
        &&& forall|k: u32| #[trigger]
            self.map@.contains_key(k) ==> self.map@[k] < self.entries@.len() && color_key(
                self.entries@[self.map@[k] as int].color,
            ) == k
    }

    /// The entries list exactly the colors of the view, once each, with their weights.
    pub open spec fn consistent(&self) -> bool {
        let e = self.entries_view();
        &&& forall|i: int, j: int|
            0 <= i < j < e.len() ==> (#[trigger] e[i]).color != (#[trigger] e[j]).color
        &&& forall|i: int|
            0 <= i < e.len() ==> self@.contains_key((#[trigger] e[i]).color) && self@[e[i].color]
                == e[i].weight && e[i].weight >= 1
        &&& forall|c: Color| #[trigger]
            self@.contains_key(c) ==> exists|i: int| 0 <= i < e.len() && (#[trigger] e[i]).color == c
    }

    pub proof fn lemma_consistent(&self)
        requires
            self.wf(),
        ensures
            self.consistent(),
    {
        let e = self.entries@;
        assert forall|i: int, j: int| 0 <= i < j < e.len() implies (#[trigger] e[i]).color != (
        #[trigger] e[j]).color by {
            if e[i].color == e[j].color {
                assert(self.map@[color_key(e[i].color)] == i);
                assert(self.map@[color_key(e[j].color)] == j);
            }
        }
        assert forall|i: int| 0 <= i < e.len() implies self@.contains_key((#[trigger] e[i]).color)
            && self@[e[i].color] == e[i].weight && e[i].weight >= 1 by {
            assert(self.map@[color_key(e[i].color)] == i);
        }
        assert forall|c: Color| #[trigger] self@.contains_key(c) implies exists|i: int|
            0 <= i < e.len() && (#[trigger] e[i]).color == c by {
            let i = self.map@[color_key(c)] as int;
            assert(e[i].color == c);
        }
    }

    /// The entries number the unique colors.
    pub proof fn lemma_len_is_unique_count(&self)
        requires
            self.wf(),
        ensures
            self.entries_view().len() == self@.dom().len(),
    {
        self.lemma_consistent();
        let e = self.entries@;
        let cs = e.map_values(|x: HistogramEntry| x.color);
        assert(cs.no_duplicates()) by {
            assert forall|i: int, j: int| 0 <= i < cs.len() && 0 <= j < cs.len() && i != j implies cs[i]
                != cs[j] by {
                assert(cs[i] == e[i].color && cs[j] == e[j].color);
                if i < j {
                    assert(e[i].color != e[j].color);
                } else {
                    assert(e[j].color != e[i].color);
                }
            }
        }
        cs.unique_seq_to_set();
        assert forall|c: Color| #[trigger] cs.to_set().contains(c) <==> self@.dom().contains(c) by {
            if self@.contains_key(c) {
                let i = choose|i: int| 0 <= i < e.len() && (#[trigger] e[i]).color == c;
                assert(cs[i] == c);
            }
            if cs.to_set().contains(c) {
                let i = choose|i: int| 0 <= i < cs.len() && cs[i] == c;
                assert(e[i].color == c);
            }
        }
        assert(cs.to_set() =~= self@.dom());
        assert(cs.len() == e.len());
    }

    /// Creates new empty [`Histogram`]
    pub fn new() -> (h: Self)
        ensures
            h.wf(),
            h@ == Map::<Color, u32>::empty(),
            h.entries_view().len() == 0,
    {
        let h = Histogram { map: HashMap::new(), entries: Vec::new() };
        assert(h@ =~= Map::<Color, u32>::empty());
        h
    }

    /// Number of unique colors.
    pub fn len(&self) -> (n: usize)
        ensures
            n == self.entries_view().len(),
    {
        self.entries.len()
    }

    /// The unique colors with their weights, in order of first appearance.
    pub fn entries(&self) -> (e: &Vec<HistogramEntry>)
        ensures
            e@ == self.entries_view(),
    {
        &self.entries
    }

    /// Adds colors from [`Image`] to the histogram
    ///
    /// Each pixel counts once towards its color, a fully transparent pixel
    /// towards `(0, 0, 0, 0)`; weights saturate at `u32::MAX`. Colors seen
    /// before keep their place, new ones follow in order of appearance.
    pub fn add_image(&mut self, image: &Image)
        requires
            old(self).wf(),
            image.wf(),
        ensures
            final(self).wf(),
            final(self)@ == add_pixels(old(self)@, image.data@, pixel_count(image.width, image.height)),
            final(self).entries_view().len() >= old(self).entries_view().len(),
            forall|i: int|
                0 <= i < old(self).entries_view().len() ==> #[trigger] final(self).entries_view()[i].color
                    == old(self).entries_view()[i].color,
            entry_colors(final(self).entries_view()) == entry_colors(old(self).entries_view()) + first_seen(
                entry_colors(old(self).entries_view()),
                image.data@,
                pixel_count(image.width, image.height),
            ),
    {
        let ghost old_view = self@;
        let ghost old_entries = self.entries@;
        let ghost data = image.data@;
        let len = image.data.len();
        proof {
            assert(image.width * image.height <= len) by (nonlinear_arith)
                requires
                    len >= 4 * (image.width as int * image.height as int),
            ;
        }
        let size = image.width * image.height;
        let to_reserve = if self.map.len() == 0 {
            size / 7
        } else {
            size / 21
        };
        let to_reserve = if to_reserve > 512 * 512 {
            512 * 512
        } else {
            to_reserve
        };
        self.map.reserve(to_reserve);
        assert(self@ =~= add_pixels(old_view, data, 0));
        let ghost old_colors = entry_colors(old_entries);
        assert(entry_colors(self.entries@) =~= old_colors + first_seen(old_colors, data, 0));
        let mut i: usize = 0;
        while i < size
            invariant
                self.wf(),
                image.wf(),
                data == image.data@,
                size == pixel_count(image.width, image.height),
                i <= size,
                self@ == add_pixels(old_view, data, i as int),
                self.entries@.len() >= old_entries.len(),
                forall|j: int|
                    0 <= j < old_entries.len() ==> #[trigger] self.entries@[j].color == old_entries[j].color,
                old_colors == entry_colors(old_entries),
                entry_colors(self.entries@) == old_colors + first_seen(old_colors, data, i as int),
            decreases size - i,
        {
            let ghost before = self@;
            let ghost prev = self.entries@;
            let color = read_pixel(image.data, i);
            let key = key_of(color);
            let ghost cnt = color_count(data, i as int, color);
            proof {
                assert forall|c: Color| c != color implies color_count(data, i + 1, c) == color_count(
                    data,
                    i as int,
                    c,
                ) by {}
                assert(color_count(data, i + 1, color) == cnt + 1);
            }
            match self.map.get(&key) {
                Some(idx) => {
                    let idx = *idx;
                    let mut e = self.entries[idx];
                    proof {
                        lemma_color_key_injective(e.color, color);
                        assert(before.contains_key(color));
                    }
                    e.weight = e.weight.saturating_add(1);
                    self.entries.set(idx, e);
                    proof {
                        lemma_saturate_twice(weight_or_zero(old_view, color) + cnt, 1);
                        let next = add_pixels(old_view, data, i + 1);
                        assert forall|j: int| 0 <= j < self.entries@.len() implies self.map@.contains_key(
                            color_key((#[trigger] self.entries@[j]).color),
                        ) && self.map@[color_key(self.entries@[j].color)] == j
                            && self.entries@[j].weight >= 1 by {
                            if j != idx {
                                assert(self.entries@[j] == prev[j]);
                            }
                        }
                        assert forall|c: Color| #[trigger]
                            self@.contains_key(c) == next.contains_key(c) && (self@.contains_key(c)
                                ==> self@[c] == next[c]) by {
                            assert(before == add_pixels(old_view, data, i as int));
                            if c != color {
                                assert(color_count(data, i + 1, c) == color_count(data, i as int, c));
                                assert(next.contains_key(c) == before.contains_key(c));
                                assert(before.contains_key(c) ==> next[c] == before[c]);
                                if self.map@.contains_key(color_key(c)) {
                                    let j = self.map@[color_key(c)] as int;
                                    if j == idx {
                                        assert(color_key(c) == color_key(color));
                                        assert(!self@.contains_key(c));
                                        assert(!before.contains_key(c));
                                    } else {
                                        assert(self.entries@[j] == prev[j]);
                                        assert(self@.contains_key(c) == before.contains_key(c));
                                        assert(self@.contains_key(c) ==> self@[c] == before[c]);
                                    }
                                } else {
                                    assert(!before.contains_key(c));
                                }
                            } else {
                                assert(self@[c] == self.entries@[idx as int].weight);
                                assert(before[c] == prev[idx as int].weight);
                                assert(self@.contains_key(c));
                                assert(next.contains_key(c));
                                assert(self@[c] == next[c]);
                            }
                        }
                        assert(self@ =~= next);
                        assert(entry_colors(prev)[idx as int] == color);
                        assert(entry_colors(self.entries@) =~= entry_colors(prev));
                        assert(first_seen(old_colors, data, i + 1) == first_seen(old_colors, data, i as int));
                    }
                },
                None => {
                    let n = self.entries.len();
                    self.entries.push(HistogramEntry { color, weight: 1 });
                    self.map.insert(key, n);
                    proof {
                        let next = add_pixels(old_view, data, i + 1);
                        assert(!before.contains_key(color));
                        assert forall|c: Color| #[trigger]
                            self@.contains_key(c) == next.contains_key(c) && (self@.contains_key(c)
                                ==> self@[c] == next[c]) by {
                            assert(before == add_pixels(old_view, data, i as int));
                            if c != color {
                                assert(color_count(data, i + 1, c) == color_count(data, i as int, c));
                                assert(next.contains_key(c) == before.contains_key(c));
                                assert(before.contains_key(c) ==> next[c] == before[c]);
                                if color_key(c) == key {
                                    assert(self.entries@[n as int].color == color);
                                    assert(!before.contains_key(c));
                                } else if self.map@.contains_key(color_key(c)) {
                                    let j = self.map@[color_key(c)] as int;
                                    assert(j < n);
                                    assert(self.entries@[j] == prev[j]);
                                    assert(self@.contains_key(c) == before.contains_key(c));
                                    assert(self@.contains_key(c) ==> self@[c] == before[c]);
                                } else {
                                    assert(!before.contains_key(c));
                                }
                            } else {
                                assert(self@.contains_key(c));
                                assert(next.contains_key(c));
                                assert(self@[c] == 1);
                                assert(next[c] == 1);
                            }
                        }
                        assert(self@ =~= next);
                        assert(!entry_colors(prev).contains(color)) by {
                            if entry_colors(prev).contains(color) {
                                let j = choose|j: int| 0 <= j < prev.len() && entry_colors(prev)[j] == color;
                                assert(prev[j].color == color);
                            }
                        }
                        assert(entry_colors(self.entries@) =~= entry_colors(prev).push(color));
                        assert(first_seen(old_colors, data, i + 1) == first_seen(old_colors, data, i as int).push(color));
                        assert(old_colors + first_seen(old_colors, data, i + 1) =~= entry_colors(prev).push(color));
                    }
                },
            }
            i += 1;
        }
    }
}

/// Every pixel among the first `n` counts towards its own normalized color.
pub proof fn lemma_pixel_counted(data: Seq<u8>, n: int, i: int)
    requires
        0 <= i < n,
    ensures
        color_count(data, n, normalized(pixel_at(data, i))) > 0,
    decreases n,
{
    if i < n - 1 {
        lemma_pixel_counted(data, n - 1, i);
    }
}

proof fn lemma_saturate_twice(x: int, y: int)
    requires
        x >= 0,
        y >= 0,
    ensures
        saturate(saturate(x) + y) == saturate(x + y),
{
}

/// Adding two images to a histogram gives the same weights in either order.
pub proof fn lemma_add_image_commutes(m: Map<Color, u32>, a: Seq<u8>, na: int, b: Seq<u8>, nb: int)
    ensures
        add_pixels(add_pixels(m, a, na), b, nb) == add_pixels(add_pixels(m, b, nb), a, na),
{
    let ab = add_pixels(add_pixels(m, a, na), b, nb);
    let ba = add_pixels(add_pixels(m, b, nb), a, na);
    assert forall|c: Color| #[trigger] ab.contains_key(c) implies ab[c] == ba[c] by {
        let w = weight_or_zero(m, c);
        let ca = color_count(a, na, c) as int;
        let cb = color_count(b, nb, c) as int;
        assert(weight_or_zero(add_pixels(m, a, na), c) == saturate(w + ca));
        assert(weight_or_zero(add_pixels(m, b, nb), c) == saturate(w + cb));
        lemma_saturate_twice(w + ca, cb);
        lemma_saturate_twice(w + cb, ca);
    }
    assert(ab =~= ba);
}

/// A fully transparent pixel counts as `(0, 0, 0, 0)`: two buffers that differ
/// only in the color channels of fully transparent pixels give the same
/// histogram.
pub proof fn lemma_transparent_pixels_collapse(m: Map<Color, u32>, a: Seq<u8>, b: Seq<u8>, n: int)
    requires
        forall|i: int|
            0 <= i < n ==> #[trigger] pixel_at(a, i) == pixel_at(b, i) || (pixel_at(a, i).a == 0
                && pixel_at(b, i).a == 0),
    ensures
        forall|i: int| 0 <= i < n ==> #[trigger] normalized(pixel_at(a, i)) == normalized(pixel_at(b, i)),
        forall|c: Color| #[trigger] color_count(a, n, c) == color_count(b, n, c),
        add_pixels(m, a, n) == add_pixels(m, b, n),
{
    assert forall|c: Color| #[trigger] color_count(a, n, c) == color_count(b, n, c) by {
        lemma_count_normalized_equal(a, b, n, c);
    }
    assert(add_pixels(m, a, n) =~= add_pixels(m, b, n));
}

proof fn lemma_count_normalized_equal(a: Seq<u8>, b: Seq<u8>, n: int, c: Color)
    requires
        forall|i: int|
            0 <= i < n ==> #[trigger] pixel_at(a, i) == pixel_at(b, i) || (pixel_at(a, i).a == 0
                && pixel_at(b, i).a == 0),
    ensures
        color_count(a, n, c) == color_count(b, n, c),
    decreases n,
{
    if n > 0 {
        lemma_count_normalized_equal(a, b, n - 1, c);
        assert(pixel_at(a, n - 1) == pixel_at(b, n - 1) || (pixel_at(a, n - 1).a == 0 && pixel_at(b, n
            - 1).a == 0));
    }
}

} // verus!
