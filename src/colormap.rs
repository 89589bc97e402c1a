use vstd::prelude::*;

use crate::error::Error;
use crate::histogram::{add_pixels, entry_colors, lemma_pixel_counted, Histogram, HistogramEntry};
use crate::image::{normalized, pixel_at, pixel_count, read_pixel, Image};
use crate::options::Options;
use crate::palette::{Color, Palette};
use crate::distance::{dist_sq, is_nearest, lemma_nearest_exact, lemma_nearest_in_unique, nearest_in};
use crate::vpsearch::{point_key, SearchIdx, SearchTree};

verus! {

/// Whether entry `i` of `colors` comes before entry `j` when ordered by
/// alpha, equal alphas keeping their input order.
pub open spec fn alpha_before(colors: Seq<Color>, i: int, j: int) -> bool {
    colors[i].a < colors[j].a || (colors[i].a == colors[j].a && i < j)
}

/// Some position of `order` holds `j`.
pub open spec fn lists(order: Seq<usize>, j: int) -> bool {
    exists|k: int| 0 <= k < order.len() && order[k] as int == j
}

/// `order` lists every index of `colors` once, sorted by alpha with ties
/// kept in their input order.
pub open spec fn is_alpha_order(colors: Seq<Color>, order: Seq<usize>) -> bool {
    &&& order.len() == colors.len()
    &&& forall|k: int| 0 <= k < order.len() ==> #[trigger] order[k] < colors.len()
    &&& forall|k: int, l: int|
        0 <= k < l < order.len() ==> alpha_before(colors, #[trigger] order[k] as int, #[trigger] order[l] as int)
    &&& forall|j: int| 0 <= j < colors.len() ==> #[trigger] lists(order, j)
}

/// `colors` rearranged by `order`.
pub open spec fn reorder(colors: Seq<Color>, order: Seq<usize>) -> Seq<Color> {
    order.map_values(|j: usize| colors[j as int])
}

/// How many of the first `m` colors have an alpha below `a`.
spec fn count_alpha_below(s: Seq<Color>, m: int, a: int) -> nat
    decreases m,
{
    if m <= 0 {
        0
    } else {
        count_alpha_below(s, m - 1, a) + if s[m - 1].a < a {
            1nat
        } else {
            0nat
        }
    }
}

/// How many of the first `m` colors have alpha `a`.
spec fn count_alpha_eq(s: Seq<Color>, m: int, a: int) -> nat
    decreases m,
{
    if m <= 0 {
        0
    } else {
        count_alpha_eq(s, m - 1, a) + if s[m - 1].a == a {
            1nat
        } else {
            0nat
        }
    }
}

proof fn lemma_count_alpha_step(s: Seq<Color>, m: int, a: int)
    ensures
        count_alpha_below(s, m, a + 1) == count_alpha_below(s, m, a) + count_alpha_eq(s, m, a),
    decreases m,
{
    if m > 0 {
        lemma_count_alpha_step(s, m - 1, a);
    }
}

proof fn lemma_count_alpha_none(s: Seq<Color>, m: int)
    ensures
        count_alpha_below(s, m, 0) == 0,
    decreases m,
{
    if m > 0 {
        lemma_count_alpha_none(s, m - 1);
    }
}

proof fn lemma_count_alpha_all(s: Seq<Color>, m: int)
    requires
        0 <= m <= s.len(),
    ensures
        count_alpha_below(s, m, 256) == m,
    decreases m,
{
    if m > 0 {
        lemma_count_alpha_all(s, m - 1);
    }
}

/// The stable ordering of `colors` by ascending alpha.
pub fn alpha_order(colors: &Vec<Color>) -> (order: Vec<usize>)
    ensures
        is_alpha_order(colors@, order@),
{
    let n = colors.len();
    let mut order: Vec<usize> = Vec::new();
    let mut a: u16 = 0;
    proof {
        lemma_count_alpha_none(colors@, n as int);
    }
    while a < 256
        invariant
            n == colors@.len(),
            a <= 256,
            order@.len() == count_alpha_below(colors@, n as int, a as int),
            forall|k: int| 0 <= k < order@.len() ==> #[trigger] order@[k] < n && colors@[order@[k] as int].a < a,
            forall|k: int, l: int|
                0 <= k < l < order@.len() ==> alpha_before(colors@, #[trigger] order@[k] as int, #[trigger] order@[l] as int),
            forall|j: int| 0 <= j < n && colors@[j].a < a ==> #[trigger] lists(order@, j),
        decreases 256 - a,
    {
        let mut j: usize = 0;
        while j < n
            invariant
                n == colors@.len(),
                a < 256,
                j <= n,
                order@.len() == count_alpha_below(colors@, n as int, a as int) + count_alpha_eq(colors@, j as int, a as int),
                forall|k: int|
                    0 <= k < order@.len() ==> #[trigger] order@[k] < n && (colors@[order@[k] as int].a < a || (
                    colors@[order@[k] as int].a == a && order@[k] < j)),
                forall|k: int, l: int|
                    0 <= k < l < order@.len() ==> alpha_before(colors@, #[trigger] order@[k] as int, #[trigger] order@[l] as int),
                forall|x: int|
                    0 <= x < n && (colors@[x].a < a || (colors@[x].a == a && x < j)) ==> #[trigger] lists(order@, x),
            decreases n - j,
        {
            if colors[j].a as u16 == a {
                let ghost prev = order@;
                order.push(j);
                proof {
                    assert forall|x: int|
                        0 <= x < n && (colors@[x].a < a || (colors@[x].a == a && x < j + 1)) implies #[trigger] lists(order@, x) by {
                        if x == j {
                            assert(order@[prev.len() as int] == j);
                        } else {
                            assert(lists(prev, x));
                            let k = choose|k: int| 0 <= k < prev.len() && prev[k] as int == x;
                            assert(order@[k] as int == x);
                        }
                    }
                }
            }
            j += 1;
        }
        proof {
            lemma_count_alpha_step(colors@, n as int, a as int);
        }
        a += 1;
    }
    proof {
        lemma_count_alpha_all(colors@, n as int);
    }
    order
}


/// What an alpha ordering of `colors` gives: the same colors, by ascending alpha.
pub proof fn lemma_alpha_order_facts(colors: Seq<Color>, order: Seq<usize>)
    requires
        is_alpha_order(colors, order),
    ensures
        reorder(colors, order).len() == colors.len(),
        forall|k: int, l: int|
            0 <= k < l < colors.len() ==> #[trigger] reorder(colors, order)[k].a <= #[trigger] reorder(
                colors,
                order,
            )[l].a,
        forall|j: int| 0 <= j < colors.len() ==> reorder(colors, order).contains(#[trigger] colors[j]),
        forall|k: int| 0 <= k < colors.len() ==> colors.contains(#[trigger] reorder(colors, order)[k]),
{
    let r = reorder(colors, order);
    assert forall|j: int| 0 <= j < colors.len() implies r.contains(#[trigger] colors[j]) by {
        assert(lists(order, j));
        let k = choose|k: int| 0 <= k < order.len() && order[k] as int == j;
        assert(r[k] == colors[order[k] as int]);
    }
    assert forall|k: int| 0 <= k < colors.len() implies colors.contains(#[trigger] r[k]) by {
        assert(order[k] < colors.len());
        assert(colors[order[k] as int] == r[k]);
    }
}

/// What building a colormap from histogram entries gives: the entries'
/// colors in their stable alpha order.
pub open spec fn palette_of_entries(e: Seq<HistogramEntry>, pal: Seq<Color>) -> bool {
    exists|order: Seq<usize>| is_alpha_order(entry_colors(e), order) && pal == reorder(entry_colors(e), order)
}

/// Where the buffer for remapping `image` is large enough.
pub open spec fn remap_buffer_fits(image: &Image, len: int) -> bool {
    len >= pixel_count(image.width, image.height)
}

/// Checks that an output buffer of `len` bytes can hold one index per pixel
/// of `image`.
pub fn check_remap_buffer(image: &Image, len: usize) -> (r: Result<(), Error>)
    requires
        image.wf(),
    ensures
        r is Ok <==> remap_buffer_fits(image, len as int),
        r is Err ==> r == Err::<(), Error>(Error::BufferTooSmall),
{
    let dlen = image.data.len();
    proof {
        assert(image.width * image.height <= dlen) by (nonlinear_arith)
            requires
                dlen >= 4 * (image.width as int * image.height as int),
        ;
    }
    if len < image.width * image.height {
        return Err(Error::BufferTooSmall);
    }
    Ok(())
}

/// A palette ready for remapping images.
pub struct Colormap {
    palette: Palette,
    tree: SearchTree,
}

impl Colormap {
    /// The palette colors, in palette order.
    pub closed spec fn colors(&self) -> Seq<Color> {
        self.palette.colors()
    }

    pub closed spec fn wf(&self) -> bool {
        &&& self.palette.wf()
        &&& self.tree.wf()
        &&& forall|q: SearchIdx| #[trigger]
            self.tree.holds(q) <==> (q.ind as int) < self.palette.count && q.color
                == self.palette.entries@[q.ind as int]
    }

    /// Builds a colormap from colors, their weights and their alpha
    /// ordering: the palette holds the colors in that order, and heavier
    /// colors are found sooner.
    pub fn from_colors(colors: &Vec<Color>, weights: &Vec<u32>, order: &Vec<usize>) -> (c: Colormap)
        requires
            colors@.len() <= 256,
            weights@.len() == colors@.len(),
            is_alpha_order(colors@, order@),
        ensures
            c.wf(),
            c.colors() == reorder(colors@, order@),
    {
        let mut sorted: Vec<Color> = Vec::new();
        let mut sorted_weights: Vec<u32> = Vec::new();
        let mut k: usize = 0;
        while k < order.len()
            invariant
                is_alpha_order(colors@, order@),
                weights@.len() == colors@.len(),
                k <= order@.len(),
                sorted@ == reorder(colors@, order@).subrange(0, k as int),
                sorted_weights@.len() == k,
            decreases order@.len() - k,
        {
            sorted.push(colors[order[k]]);
            sorted_weights.push(weights[order[k]]);
            k += 1;
            assert(sorted@ =~= reorder(colors@, order@).subrange(0, k as int));
        }
        assert(sorted@ =~= reorder(colors@, order@));
        let palette = Palette::from_colors(&sorted);
        let tree = SearchTree::new(&sorted, &sorted_weights);
        Colormap { palette, tree }
    }

    /// Builds a colormap holding every color of the histogram, ordered by
    /// ascending alpha, colors of equal alpha in order of first appearance.
    pub fn from_histogram(hist: &Histogram) -> (c: Colormap)
        requires
            hist.wf(),
            hist.entries_view().len() <= 256,
        ensures
            c.wf(),
            palette_of_entries(hist.entries_view(), c.colors()),
            c.colors().len() == hist.entries_view().len(),
            forall|k: int, l: int|
                0 <= k < l < c.colors().len() ==> #[trigger] c.colors()[k].a <= #[trigger] c.colors()[l].a,
            forall|x: Color| hist@.contains_key(x) <==> #[trigger] c.colors().contains(x),
    {
        let entries = hist.entries();
        let mut colors: Vec<Color> = Vec::new();
        let mut weights: Vec<u32> = Vec::new();
        let mut i: usize = 0;
        while i < entries.len()
            invariant
                i <= entries@.len(),
                colors@ == entry_colors(entries@).subrange(0, i as int),
                weights@.len() == i,
            decreases entries@.len() - i,
        {
            colors.push(entries[i].color);
            weights.push(entries[i].weight);
            i += 1;
            assert(colors@ =~= entry_colors(entries@).subrange(0, i as int));
        }
        assert(colors@ =~= entry_colors(entries@));
        let order = alpha_order(&colors);
        let c = Colormap::from_colors(&colors, &weights, &order);
        proof {
            hist.lemma_consistent();
            lemma_alpha_order_facts(colors@, order@);
            let e = hist.entries_view();
            assert forall|x: Color| hist@.contains_key(x) <==> #[trigger] c.colors().contains(x) by {
                if hist@.contains_key(x) {
                    let i = choose|i: int| 0 <= i < e.len() && (#[trigger] e[i]).color == x;
                    assert(colors@[i] == x);
                }
                if c.colors().contains(x) {
                    let k = choose|k: int| 0 <= k < c.colors().len() && c.colors()[k] == x;
                    assert(colors@.contains(c.colors()[k]));
                    let i = choose|i: int| 0 <= i < colors@.len() && colors@[i] == x;
                    assert(e[i].color == x);
                }
            }
        }
        c
    }

    /// The palette.
    pub fn get_palette(&self) -> (p: &Palette)
        requires
            self.wf(),
        ensures
            p.wf(),
            p.colors() == self.colors(),
    {
        &self.palette
    }

    /// Index of the palette color nearest to `c`, the earliest of equally
    /// near colors; `0` for an empty palette.
    pub fn nearest_ind(&self, c: Color) -> (r: u8)
        requires
            self.wf(),
        ensures
            self.colors().len() > 0 ==> r == nearest_in(self.colors(), c, self.colors().len() as int),
            self.colors().len() > 0 ==> is_nearest(self.colors(), c, r as int),
            self.colors().len() == 0 ==> r == 0,
    {
        match self.tree.find_nearest(c) {
            Some(q) => {
                proof {
                    let pal = self.colors();
                    assert forall|k: int| 0 <= k < pal.len() implies dist_sq(pal[q.ind as int], c)
                        <= dist_sq(#[trigger] pal[k], c) by {
                        assert(self.tree.holds(SearchIdx { ind: k as u8, color: pal[k] }));
                        assert(point_key(q, c) <= point_key(SearchIdx { ind: k as u8, color: pal[k] }, c));
                    }
                    assert forall|k: int| 0 <= k < q.ind implies dist_sq(pal[q.ind as int], c) < dist_sq(
                        #[trigger] pal[k],
                        c,
                    ) by {
                        assert(self.tree.holds(SearchIdx { ind: k as u8, color: pal[k] }));
                        assert(point_key(q, c) <= point_key(SearchIdx { ind: k as u8, color: pal[k] }, c));
                    }
                    lemma_nearest_in_unique(pal, c, q.ind as int);
                }
                q.ind
            },
            None => {
                proof {
                    if self.colors().len() > 0 {
                        assert(self.tree.holds(SearchIdx { ind: 0, color: self.colors()[0] }));
                    }
                }
                0
            },
        }
    }

    /// Writes, for each pixel of `image`, the index of the nearest palette
    /// color, the earliest of equally near ones (a fully transparent pixel
    /// counting as `(0, 0, 0, 0)`): each index depends on its own pixel alone.
    ///
    /// Returns [`Error::BufferTooSmall`], leaving `buf` unchanged, if `buf`
    /// is shorter than `image.width * image.height`. Bytes past the image are
    /// left unchanged.
    pub fn remap_image_no_dither(&self, image: &Image, buf: &mut [u8]) -> (r: Result<(), Error>)
        requires
            self.wf(),
            image.wf(),
        ensures
            r is Ok <==> remap_buffer_fits(image, old(buf)@.len() as int),
            r is Err ==> r == Err::<(), Error>(Error::BufferTooSmall) && final(buf)@ == old(buf)@,
            final(buf)@.len() == old(buf)@.len(),
            r is Ok && self.colors().len() > 0 ==> forall|i: int|
                0 <= i < pixel_count(image.width, image.height) ==> #[trigger] final(buf)@[i] as int
                    == nearest_in(self.colors(), image.pixel(i), self.colors().len() as int),
            r is Ok && self.colors().len() == 0 ==> forall|i: int|
                0 <= i < pixel_count(image.width, image.height) ==> #[trigger] final(buf)@[i] == 0,
            r is Ok ==> forall|i: int|
                pixel_count(image.width, image.height) <= i < old(buf)@.len() ==> #[trigger] final(buf)@[i] == old(buf)@[i],
    {
        match check_remap_buffer(image, buf.len()) {
            Err(e) => {
                return Err(e);
            },
            Ok(()) => {},
        }
        let size = image.width * image.height;
        let mut point: usize = 0;
        while point < size
            invariant
                self.wf(),
                image.wf(),
                size == pixel_count(image.width, image.height),
                size <= buf@.len(),
                buf@.len() == old(buf)@.len(),
                point <= size,
                self.colors().len() > 0 ==> forall|i: int|
                    0 <= i < point ==> #[trigger] buf@[i] as int == nearest_in(
                        self.colors(),
                        image.pixel(i),
                        self.colors().len() as int,
                    ),
                self.colors().len() == 0 ==> forall|i: int| 0 <= i < point ==> #[trigger] buf@[i] == 0,
                forall|i: int| size <= i < buf@.len() ==> #[trigger] buf@[i] == old(buf)@[i],
            decreases size - point,
        {
            let dlen = image.data.len();
            proof {
                assert(4 * point + 4 <= dlen) by (nonlinear_arith)
                    requires
                        point < size,
                        dlen >= 4 * size,
                ;
            }
            let pix = read_pixel(image.data, point);
            buf[point] = self.nearest_ind(pix);
            point += 1;
        }
        Ok(())
    }
}

/// The palette built from a histogram depends on the histogram's weights
/// alone, up to the order of colors of equal alpha: two histograms with equal
/// weights give palettes of the same length and the same colors, each sorted
/// by alpha.
pub proof fn lemma_palette_determined_by_weights(h1: &Histogram, h2: &Histogram, p1: Seq<Color>, p2: Seq<Color>)
    requires
        h1.wf(),
        h2.wf(),
        h1@ == h2@,
        palette_of_entries(h1.entries_view(), p1),
        palette_of_entries(h2.entries_view(), p2),
    ensures
        p1.len() == p2.len(),
        forall|x: Color| #[trigger] p1.contains(x) <==> p2.contains(x),
        forall|k: int, l: int| 0 <= k < l < p1.len() ==> #[trigger] p1[k].a <= #[trigger] p1[l].a,
        forall|k: int, l: int| 0 <= k < l < p2.len() ==> #[trigger] p2[k].a <= #[trigger] p2[l].a,
{
    lemma_palette_colors(h1, p1);
    lemma_palette_colors(h2, p2);
    h1.lemma_len_is_unique_count();
    h2.lemma_len_is_unique_count();
}

proof fn lemma_palette_colors(h: &Histogram, p: Seq<Color>)
    requires
        h.wf(),
        palette_of_entries(h.entries_view(), p),
    ensures
        p.len() == h.entries_view().len(),
        forall|x: Color| #[trigger] p.contains(x) <==> h@.contains_key(x),
        forall|k: int, l: int| 0 <= k < l < p.len() ==> #[trigger] p[k].a <= #[trigger] p[l].a,
{
    let e = h.entries_view();
    let colors = entry_colors(e);
    let order = choose|order: Seq<usize>| is_alpha_order(colors, order) && p == reorder(colors, order);
    h.lemma_consistent();
    lemma_alpha_order_facts(colors, order);
    assert forall|x: Color| #[trigger] p.contains(x) <==> h@.contains_key(x) by {
        if h@.contains_key(x) {
            let i = choose|i: int| 0 <= i < e.len() && (#[trigger] e[i]).color == x;
            assert(colors[i] == x);
        }
        if p.contains(x) {
            let k = choose|k: int| 0 <= k < p.len() && p[k] == x;
            assert(colors.contains(p[k]));
            let i = choose|i: int| 0 <= i < colors.len() && colors[i] == x;
            assert(e[i].color == x);
        }
    }
}

/// Round trip: where the palette holds exactly the colors of an image, the
/// palette color at each pixel's nearest index is that pixel's color (a fully
/// transparent pixel reading as `(0, 0, 0, 0)`).
pub proof fn lemma_round_trip(data: Seq<u8>, n: int, pal: Seq<Color>)
    requires
        forall|x: Color| #[trigger] add_pixels(Map::empty(), data, n).contains_key(x) <==> pal.contains(x),
    ensures
        forall|i: int|
            0 <= i < n ==> pal[nearest_in(pal, #[trigger] normalized(pixel_at(data, i)), pal.len() as int)]
                == normalized(pixel_at(data, i)),
{
    assert forall|i: int| 0 <= i < n implies pal[nearest_in(pal, #[trigger] normalized(pixel_at(data, i)), pal.len() as int)]
        == normalized(pixel_at(data, i)) by {
        let c = normalized(pixel_at(data, i));
        lemma_pixel_counted(data, n, i);
        assert(add_pixels(Map::empty(), data, n).contains_key(c));
        lemma_nearest_exact(pal, c);
    }
}

/// Builds the colormap directly from the histogram when it holds no more
/// unique colors than `opts` allows; `None` when it holds more.
pub fn quantize_unique(hist: &Histogram, opts: &Options) -> (r: Option<Colormap>)
    requires
        hist.wf(),
        opts.wf(),
    ensures
        r is Some <==> hist.entries_view().len() <= opts.max_colors_spec(),
        r matches Some(c) ==> c.wf() && palette_of_entries(hist.entries_view(), c.colors())
            && c.colors().len() == hist.entries_view().len()
            && c.colors().len() <= opts.max_colors_spec() && c.colors().len() <= 256
            && (forall|x: Color| hist@.contains_key(x) <==> #[trigger] c.colors().contains(x))
            && (forall|k: int, l: int|
                0 <= k < l < c.colors().len() ==> #[trigger] c.colors()[k].a <= #[trigger] c.colors()[l].a),
{
    let max_colors = opts.get_max_colors();
    if hist.len() <= max_colors as usize {
        Some(Colormap::from_histogram(hist))
    } else {
        None
    }
}

} // verus!
