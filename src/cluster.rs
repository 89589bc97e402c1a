use vstd::multiset::Multiset;
use vstd::prelude::*;

use crate::histogram::HistogramEntry;
use crate::palette::Color;

verus! {

broadcast use {vstd::seq_lib::group_to_multiset_ensures, vstd::multiset::group_multiset_axioms};

/// Channel `ch` of a color: 0 red, 1 green, 2 blue, 3 alpha.
pub open spec fn channel(c: Color, ch: int) -> u8 {
    if ch == 0 {
        c.r
    } else if ch == 1 {
        c.g
    } else if ch == 2 {
        c.b
    } else {
        c.a
    }
}

/// Channel `ch` of a color: 0 red, 1 green, 2 blue, 3 alpha.
pub fn get_channel(c: Color, ch: usize) -> (v: u8)
    requires
        ch < 4,
    ensures
        v == channel(c, ch as int),
{
    match ch {
        0 => c.r,
        1 => c.g,
        2 => c.b,
        _ => c.a,
    }
}

/// Total weight of the entries at positions `lo..hi`.
pub open spec fn range_weight(s: Seq<HistogramEntry>, lo: int, hi: int) -> int
    decreases hi - lo,
{
    if hi <= lo {
        0
    } else {
        range_weight(s, lo, hi - 1) + s[hi - 1].weight
    }
}

proof fn lemma_range_weight_prepend(s: Seq<HistogramEntry>, lo: int, hi: int)
    requires
        lo < hi,
    ensures
        range_weight(s, lo, hi) == s[lo].weight + range_weight(s, lo + 1, hi),
    decreases hi - lo,
{
    if hi - 1 > lo {
        lemma_range_weight_prepend(s, lo, hi - 1);
        assert(range_weight(s, lo + 1, hi) == range_weight(s, lo + 1, hi - 1) + s[hi - 1].weight);
    } else {
        assert(range_weight(s, lo, lo) == 0);
        assert(range_weight(s, lo + 1, hi) == 0);
    }
}

proof fn lemma_range_weight_frame(s: Seq<HistogramEntry>, t: Seq<HistogramEntry>, lo: int, hi: int)
    requires
        forall|k: int| lo <= k < hi ==> s[k] == t[k],
    ensures
        range_weight(s, lo, hi) == range_weight(t, lo, hi),
    decreases hi - lo,
{
    if hi > lo {
        lemma_range_weight_frame(s, t, lo, hi - 1);
    }
}

proof fn lemma_range_weight_bound(s: Seq<HistogramEntry>, lo: int, hi: int)
    requires
        lo <= hi,
    ensures
        0 <= range_weight(s, lo, hi) <= (hi - lo) * 0xffff_ffff,
    decreases hi - lo,
{
    if hi > lo {
        lemma_range_weight_bound(s, lo, hi - 1);
    }
}

/// The layout that splitting along channel `ch` leaves: positions `..lt` hold
/// values below `below`, `lt..mid` values in `[below, above]`, `mid..` values
/// above `above`.
pub open spec fn partitioned(s: Seq<HistogramEntry>, ch: int, below: int, above: int, lt: int, mid: int) -> bool {
    &&& 0 <= lt <= mid <= s.len()
    &&& forall|k: int| 0 <= k < lt ==> (channel(#[trigger] s[k].color, ch) as int) < below
    &&& forall|k: int|
        lt <= k < mid ==> below <= (channel(#[trigger] s[k].color, ch) as int) <= above
    &&& forall|k: int| mid <= k < s.len() ==> (channel(#[trigger] s[k].color, ch) as int) > above
}

/// What splitting `before` along channel `ch` with mean bounds `below` and
/// `above` leaves: the same entries rearranged into the three bands of
/// [`partitioned`], and the position `split` dividing the two new clusters,
/// at the end of the band under the mean where that band outweighs the band
/// over it, at the start of the band over the mean otherwise.
pub open spec fn split_outcome(
    before: Seq<HistogramEntry>,
    ch: int,
    below: int,
    above: int,
    after: Seq<HistogramEntry>,
    split: int,
) -> bool {
    &&& after.to_multiset() == before.to_multiset()
    &&& after.len() == before.len()
    &&& exists|lt: int, mid: int|
        #[trigger] partitioned(after, ch, below, above, lt, mid) && split == if range_weight(after, 0, lt)
            > range_weight(after, mid, after.len() as int) {
            lt
        } else {
            mid
        }
}

fn swap_entries(v: &mut Vec<HistogramEntry>, a: usize, b: usize)
    requires
        a < old(v)@.len(),
        b < old(v)@.len(),
    ensures
        final(v)@ == old(v)@.update(a as int, old(v)@[b as int]).update(b as int, old(v)@[a as int]),
        final(v)@.to_multiset() == old(v)@.to_multiset(),
{
    let ghost s = v@;
    let x = v[a];
    let y = v[b];
    v.set(a, y);
    v.set(b, x);
    proof {
        broadcast use vstd::seq_lib::to_multiset_update;

        let s1 = s.update(a as int, y);
        assert(s1.to_multiset() =~= s.to_multiset().remove(x).insert(y));
        assert(s1[b as int] == y);
        assert(v@.to_multiset() =~= s1.to_multiset().remove(y).insert(x));
        assert(v@.to_multiset() =~= s.to_multiset());
    }
}

/// Splits a cluster's entries along channel `ch` around its mean `m`, given
/// as `below`, the least integer not under `m`, and `above`, the greatest
/// integer not over `m`.
///
/// The entries are rearranged into those under the mean, those equal to it
/// and those over it. The returned position divides the two new clusters:
/// everything under the mean goes first; where the entries under the mean
/// weigh more than those over it, the ones equal to it go with the second
/// cluster, otherwise with the first.
pub fn split_entries(entries: &mut Vec<HistogramEntry>, ch: usize, below: u32, above: u32) -> (split: usize)
    requires
        ch < 4,
        below <= above + 1,
    ensures
        split_outcome(old(entries)@, ch as int, below as int, above as int, final(entries)@, split as int),
{
    let n = entries.len();
    let mut i: usize = 0;
    let mut lt: usize = 0;
    let mut gt: usize = n;
    let mut lt_weight: u128 = 0;
    let mut gt_weight: u128 = 0;
    let ghost orig = entries@;
    while i < gt
        invariant
            n == entries@.len(),
            ch < 4,
            below <= above + 1,
            0 <= lt <= i <= gt <= n,
            n <= usize::MAX,
            entries@.to_multiset() == orig.to_multiset(),
            forall|k: int| 0 <= k < lt ==> (channel(#[trigger] entries@[k].color, ch as int) as int) < below,
            forall|k: int|
                lt <= k < i ==> below <= (channel(#[trigger] entries@[k].color, ch as int) as int) <= above,
            forall|k: int| gt <= k < n ==> (channel(#[trigger] entries@[k].color, ch as int) as int) > above,
            lt_weight == range_weight(entries@, 0, lt as int),
            gt_weight == range_weight(entries@, gt as int, n as int),
        decreases gt - i,
    {
        let e = entries[i];
        let v = get_channel(e.color, ch) as u32;
        let ghost s = entries@;
        if v < below {
            proof {
                lemma_range_weight_bound(s, 0, lt as int);
                assert(lt * 0xffff_ffffu128 <= 0xffff_ffff_ffff_ffff * 0xffff_ffffu128) by (nonlinear_arith)
                    requires
                        lt <= 0xffff_ffff_ffff_ffffu128,
                ;
            }
            lt_weight = lt_weight + e.weight as u128;
            swap_entries(entries, lt, i);
            proof {
                lemma_range_weight_frame(s, entries@, 0, lt as int);
                assert(range_weight(entries@, 0, lt + 1) == range_weight(entries@, 0, lt as int)
                    + entries@[lt as int].weight);
                lemma_range_weight_frame(s, entries@, gt as int, n as int);
            }
            lt += 1;
            i += 1;
        } else if v > above {
            proof {
                lemma_range_weight_bound(s, gt as int, n as int);
                assert((n - gt) * 0xffff_ffffu128 <= 0xffff_ffff_ffff_ffff * 0xffff_ffffu128) by (nonlinear_arith)
                    requires
                        n - gt <= 0xffff_ffff_ffff_ffffu128,
                ;
            }
            gt_weight = gt_weight + e.weight as u128;
            gt -= 1;
            swap_entries(entries, gt, i);
            proof {
                lemma_range_weight_frame(s, entries@, 0, lt as int);
                lemma_range_weight_frame(s, entries@, gt + 1, n as int);
                lemma_range_weight_prepend(entries@, gt as int, n as int);
            }
        } else {
            i += 1;
        }
    }
    let split = if lt_weight > gt_weight {
        lt
    } else {
        i
    };
    assert(partitioned(entries@, ch as int, below as int, above as int, lt as int, i as int));
    split
}

/// Every entry of the clusters `cs`, with multiplicity.
pub open spec fn entries_of(cs: Seq<Vec<HistogramEntry>>) -> Multiset<HistogramEntry>
    decreases cs.len(),
{
    if cs.len() == 0 {
        Multiset::empty()
    } else {
        entries_of(cs.drop_last()).add(cs.last()@.to_multiset())
    }
}

/// How many of `s` are set.
pub open spec fn num_set(s: Seq<bool>) -> nat
    decreases s.len(),
{
    if s.len() == 0 {
        0
    } else {
        num_set(s.drop_last()) + if s.last() {
            1nat
        } else {
            0nat
        }
    }
}

proof fn lemma_entries_of_update(cs: Seq<Vec<HistogramEntry>>, i: int, v: Vec<HistogramEntry>)
    requires
        0 <= i < cs.len(),
    ensures
        entries_of(cs.update(i, v)).add(cs[i]@.to_multiset()) == entries_of(cs).add(v@.to_multiset()),
    decreases cs.len(),
{
    let u = cs.update(i, v);
    assert(entries_of(u) == entries_of(u.drop_last()).add(u.last()@.to_multiset()));
    assert(entries_of(cs) == entries_of(cs.drop_last()).add(cs.last()@.to_multiset()));
    if i == cs.len() - 1 {
        assert(u.drop_last() =~= cs.drop_last());
        assert(u.last() == v);
    } else {
        assert(u.drop_last() =~= cs.drop_last().update(i, v));
        assert(u.last() == cs.last());
        assert(cs.drop_last()[i] == cs[i]);
        lemma_entries_of_update(cs.drop_last(), i, v);
        let a = entries_of(u.drop_last());
        let b = entries_of(cs.drop_last());
        assert(a.add(cs[i]@.to_multiset()) == b.add(v@.to_multiset()));
        assert forall|x: HistogramEntry|
            #[trigger] entries_of(u).add(cs[i]@.to_multiset()).count(x) == entries_of(cs).add(
                v@.to_multiset(),
            ).count(x) by {
            assert(a.add(cs[i]@.to_multiset()).count(x) == b.add(v@.to_multiset()).count(x));
        }
    }
    assert(entries_of(u).add(cs[i]@.to_multiset()) =~= entries_of(cs).add(v@.to_multiset()));
}

proof fn lemma_entries_of_push(cs: Seq<Vec<HistogramEntry>>, v: Vec<HistogramEntry>)
    ensures
        entries_of(cs.push(v)) == entries_of(cs).add(v@.to_multiset()),
{
    assert(cs.push(v).drop_last() =~= cs);
}

proof fn lemma_entries_of_swap_remove(cs: Seq<Vec<HistogramEntry>>, i: int)
    requires
        0 <= i < cs.len(),
    ensures
        entries_of(cs.update(i, cs.last()).drop_last()).add(cs[i]@.to_multiset()) == entries_of(cs),
{
    let u = cs.update(i, cs.last());
    lemma_entries_of_update(cs, i, cs.last());
    assert(u.last() == cs.last());
    assert(entries_of(u) == entries_of(u.drop_last()).add(cs.last()@.to_multiset()));
    assert(entries_of(cs).add(cs.last()@.to_multiset()) == entries_of(u.drop_last()).add(
        cs.last()@.to_multiset(),
    ).add(cs[i]@.to_multiset()));
    assert(entries_of(u.drop_last()).add(cs[i]@.to_multiset()) =~= entries_of(cs)) by {
        let a = entries_of(u.drop_last()).add(cs[i]@.to_multiset());
        let b = entries_of(cs);
        let l = cs.last()@.to_multiset();
        assert forall|x: HistogramEntry| a.count(x) == b.count(x) by {
            assert(b.add(l).count(x) == a.add(l).count(x));
        }
    }
}

proof fn lemma_num_set_update(s: Seq<bool>, i: int, v: bool)
    requires
        0 <= i < s.len(),
    ensures
        num_set(s.update(i, v)) + (if s[i] {
            1int
        } else {
            0int
        }) == num_set(s) + (if v {
            1int
        } else {
            0int
        }),
    decreases s.len(),
{
    let u = s.update(i, v);
    if i == s.len() - 1 {
        assert(u.drop_last() =~= s.drop_last());
    } else {
        assert(u.drop_last() =~= s.drop_last().update(i, v));
        lemma_num_set_update(s.drop_last(), i, v);
    }
}

proof fn lemma_num_set_swap_remove(s: Seq<bool>, i: int)
    requires
        0 <= i < s.len(),
    ensures
        num_set(s.update(i, s.last()).drop_last()) + (if s[i] {
            1int
        } else {
            0int
        }) == num_set(s),
{
    let u = s.update(i, s.last());
    lemma_num_set_update(s, i, s.last());
    assert(u.last() == s.last());
}

proof fn lemma_num_set_push(s: Seq<bool>, v: bool)
    ensures
        num_set(s.push(v)) == num_set(s) + if v {
            1int
        } else {
            0int
        },
{
    assert(s.push(v).drop_last() =~= s);
}

/// There are no more clusters than entries where none is empty.
pub proof fn lemma_clusters_at_most_entries(cs: Seq<Vec<HistogramEntry>>)
    requires
        forall|i: int| 0 <= i < cs.len() ==> (#[trigger] cs[i])@.len() > 0,
    ensures
        cs.len() <= entries_of(cs).len(),
    decreases cs.len(),
{
    broadcast use vstd::seq_lib::to_multiset_len;

    if cs.len() > 0 {
        lemma_clusters_at_most_entries(cs.drop_last());
        assert(cs.last()@.len() > 0);
    }
}

/// The contents of each cluster.
pub open spec fn views(cs: Seq<Vec<HistogramEntry>>) -> Seq<Seq<HistogramEntry>> {
    cs.map_values(|v: Vec<HistogramEntry>| v@)
}

/// Bounds that [`split_entries`] accepts: a channel index and
/// `below <= above + 1`.
pub open spec fn bounds_usable(b: (usize, u32, u32)) -> bool {
    b.0 < 4 && b.1 <= b.2 + 1
}

/// `cs` without cluster `i`, the last cluster taking its place.
pub open spec fn without<T>(cs: Seq<T>, i: int) -> Seq<T> {
    cs.update(i, cs.last()).drop_last()
}

/// One round of splitting: cluster `i` of `cs` (open flags `open`) is taken
/// out and, with bounds `b`, gives `cs2` and `open2`. Unusable bounds put it
/// back closed. Otherwise it is split as [`split_entries`] does; where one
/// side is empty the other comes back closed, else both sides come back open.
pub open spec fn split_round(
    cs: Seq<Seq<HistogramEntry>>,
    open: Seq<bool>,
    i: int,
    b: (usize, u32, u32),
    cs2: Seq<Seq<HistogramEntry>>,
    open2: Seq<bool>,
) -> bool {
    let rest = without(cs, i);
    let rest_open = without(open, i);
    if !bounds_usable(b) {
        cs2 == rest.push(cs[i]) && open2 == rest_open.push(false)
    } else {
        exists|parted: Seq<HistogramEntry>, pos: int|
            #[trigger] split_outcome(cs[i], b.0 as int, b.1 as int, b.2 as int, parted, pos) && {
                let lo = parted.subrange(0, pos);
                let hi = parted.subrange(pos, parted.len() as int);
                if lo.len() == 0 {
                    cs2 == rest.push(hi) && open2 == rest_open.push(false)
                } else if hi.len() == 0 {
                    cs2 == rest.push(lo) && open2 == rest_open.push(false)
                } else {
                    cs2 == rest.push(lo).push(hi) && open2 == rest_open.push(true).push(true)
                }
            }
    }
}

/// `pick`'s answer `r` declines to split: it names no open cluster.
pub open spec fn declines(r: Option<usize>, len: int, open: Seq<bool>) -> bool {
    match r {
        None => true,
        Some(i) => i >= len || !open[i as int],
    }
}

/// State `t` follows state `s` by one round at the cluster that `pick`
/// chose in `s`, with the bounds that `bounds` gave for it.
pub open spec fn chosen_round<P, B>(
    pick: P,
    bounds: B,
    s: (Vec<Vec<HistogramEntry>>, Vec<bool>),
    t: (Vec<Vec<HistogramEntry>>, Vec<bool>),
) -> bool where
    P: Fn(&Vec<Vec<HistogramEntry>>, &Vec<bool>) -> Option<usize>,
    B: Fn(&Vec<HistogramEntry>) -> (usize, u32, u32),
 {
    exists|i: usize, b: (usize, u32, u32)|
        #![trigger call_ensures(pick, (&s.0, &s.1), Some(i)), call_ensures(bounds, (&s.0@[i as int],), b)]
        call_ensures(pick, (&s.0, &s.1), Some(i)) && i < s.0@.len() && s.1@[i as int] && call_ensures(
            bounds,
            (&s.0@[i as int],),
            b,
        ) && split_round(views(s.0@), s.1@, i as int, b, views(t.0@), t.1@)
}

/// `trace` runs from the single open cluster `root` to `last`, each state
/// following the one before by a [`chosen_round`].
pub open spec fn is_split_trace<P, B>(
    pick: P,
    bounds: B,
    root: Seq<HistogramEntry>,
    trace: Seq<(Vec<Vec<HistogramEntry>>, Vec<bool>)>,
    last: (Vec<Vec<HistogramEntry>>, Vec<bool>),
) -> bool where
    P: Fn(&Vec<Vec<HistogramEntry>>, &Vec<bool>) -> Option<usize>,
    B: Fn(&Vec<HistogramEntry>) -> (usize, u32, u32),
 {
    &&& trace.len() >= 1
    &&& views(trace[0].0@) == seq![root]
    &&& trace[0].1@ == seq![true]
    &&& trace.last() == last
    &&& forall|t: int| 0 <= t < trace.len() - 1 ==> #[trigger] chosen_round(pick, bounds, trace[t], trace[t + 1])
}

proof fn lemma_views_round(cs: Seq<Vec<HistogramEntry>>, i: int, x: Vec<HistogramEntry>, y: Vec<HistogramEntry>)
    requires
        0 <= i < cs.len(),
    ensures
        views(without(cs, i).push(x)) == without(views(cs), i).push(x@),
        views(without(cs, i).push(x).push(y)) == without(views(cs), i).push(x@).push(y@),
{
    assert(views(without(cs, i).push(x)) =~= without(views(cs), i).push(x@));
    assert(views(without(cs, i).push(x).push(y)) =~= without(views(cs), i).push(x@).push(y@));
}

/// Repeatedly splits clusters, starting from the single cluster `root`, until
/// `max_colors` clusters exist or `pick` declines; returns the clusters and
/// whether each may still be split.
///
/// Each round `pick` chooses, among the clusters and whether each may still
/// be split, the one to split, or none to stop; `bounds` gives that cluster's
/// widest channel and the bounds of its mean there (see [`split_entries`]).
/// The chosen cluster is replaced by the two sides of its split; where one
/// side is empty, the other side returns as a cluster that is not split
/// again, and bounds that are out of range keep the cluster whole for good.
pub fn split_clusters<P, B>(root: Vec<HistogramEntry>, max_colors: usize, pick: P, bounds: B) -> (r: (
    Vec<Vec<HistogramEntry>>,
    Vec<bool>,
)) where P: Fn(&Vec<Vec<HistogramEntry>>, &Vec<bool>) -> Option<usize>, B: Fn(&Vec<HistogramEntry>) -> (usize, u32, u32)
    requires
        forall|c: &Vec<Vec<HistogramEntry>>, f: &Vec<bool>| call_requires(pick, (c, f)),
        forall|e: &Vec<HistogramEntry>| call_requires(bounds, (e,)),
        max_colors >= 1,
    ensures
        1 <= r.0@.len() <= max_colors,
        r.1@.len() == r.0@.len(),
        entries_of(r.0@) == root@.to_multiset(),
        root@.len() > 0 ==> forall|i: int| 0 <= i < r.0@.len() ==> (#[trigger] r.0@[i])@.len() > 0,
        root@.len() > 0 ==> r.0@.len() <= root@.len(),
        exists|trace: Seq<(Vec<Vec<HistogramEntry>>, Vec<bool>)>| #[trigger]
            is_split_trace(pick, bounds, root@, trace, r),
        r.0@.len() < max_colors ==> exists|c: Option<usize>|
            #[trigger] call_ensures(pick, (&r.0, &r.1), c) && declines(c, r.0@.len() as int, r.1@),
{
    let ghost root_view = root@;
    let mut clusters: Vec<Vec<HistogramEntry>> = Vec::new();
    let mut open: Vec<bool> = Vec::new();
    clusters.push(root);
    open.push(true);
    let ghost mut trace: Seq<(Vec<Vec<HistogramEntry>>, Vec<bool>)> = seq![(clusters, open)];
    proof {
        lemma_entries_of_push(Seq::empty(), clusters@[0]);
        assert(Seq::<Vec<HistogramEntry>>::empty().push(clusters@[0]) =~= clusters@);
        assert(entries_of(clusters@) =~= root_view.to_multiset());
        assert(Seq::<bool>::empty().push(true) =~= open@);
        assert(views(clusters@) =~= seq![root_view]);
    }
    while clusters.len() < max_colors
        invariant
            forall|c: &Vec<Vec<HistogramEntry>>, f: &Vec<bool>| call_requires(pick, (c, f)),
            forall|e: &Vec<HistogramEntry>| call_requires(bounds, (e,)),
            1 <= clusters@.len() <= max_colors,
            open@.len() == clusters@.len(),
            entries_of(clusters@) == root_view.to_multiset(),
            root_view.len() > 0 ==> forall|i: int| 0 <= i < clusters@.len() ==> (#[trigger] clusters@[i])@.len() > 0,
            is_split_trace(pick, bounds, root_view, trace, (clusters, open)),
        ensures
            1 <= clusters@.len() <= max_colors,
            open@.len() == clusters@.len(),
            entries_of(clusters@) == root_view.to_multiset(),
            root_view.len() > 0 ==> forall|i: int| 0 <= i < clusters@.len() ==> (#[trigger] clusters@[i])@.len() > 0,
            is_split_trace(pick, bounds, root_view, trace, (clusters, open)),
            clusters@.len() < max_colors ==> exists|c: Option<usize>|
                #[trigger] call_ensures(pick, (&clusters, &open), c) && declines(c, clusters@.len() as int, open@),
        decreases max_colors - clusters@.len(), num_set(open@),
    {
        let choice = pick(&clusters, &open);
        let i = match choice {
            Some(i) => i,
            None => break,
        };
        if i >= clusters.len() || !open[i] {
            break;
        }
        let ghost prev = (clusters, open);
        let ghost before = clusters@;
        let ghost open_before = open@;
        let mut c = clusters.swap_remove(i);
        open.swap_remove(i);
        proof {
            lemma_entries_of_swap_remove(before, i as int);
            lemma_num_set_swap_remove(open_before, i as int);
            assert forall|j: int| 0 <= j < clusters@.len() implies (#[trigger] clusters@[j])@.len() > 0
                || root_view.len() == 0 by {
                if root_view.len() > 0 {
                    if j == i {
                        assert(clusters@[j] == before[before.len() - 1]);
                    } else {
                        assert(clusters@[j] == before[j]);
                    }
                }
            }
            assert(clusters@ == without(before, i as int));
            assert(open@ == without(open_before, i as int));
            assert(views(before)[i as int] == c@);
        }
        let ghost mid = clusters@;
        let ghost open_mid = open@;
        let ghost whole = c@;
        let ghost c0 = c;
        let b = bounds(&c);
        let (ch, below, above) = b;
        if ch >= 4 || below as u64 > above as u64 + 1 {
            clusters.push(c);
            open.push(false);
            proof {
                lemma_entries_of_push(mid, c);
                lemma_num_set_push(open_mid, false);
                lemma_views_round(before, i as int, c, c);
                assert(split_round(views(before), open_before, i as int, b, views(clusters@), open@));
            }
        } else {
            let pos = split_entries(&mut c, ch, below, above);
            let ghost parted = c@;
            let c2 = c.split_off(pos);
            proof {
                assert(parted =~= c@ + c2@);
                vstd::seq_lib::lemma_multiset_commutative(c@, c2@);
                assert(whole.to_multiset() == c@.to_multiset().add(c2@.to_multiset()));
                assert(c@ == parted.subrange(0, pos as int));
                assert(c2@ == parted.subrange(pos as int, parted.len() as int));
                assert(split_outcome(whole, ch as int, below as int, above as int, parted, pos as int));
            }
            if c.len() == 0 {
                clusters.push(c2);
                open.push(false);
                proof {
                    lemma_entries_of_push(mid, c2);
                    lemma_num_set_push(open_mid, false);
                    assert(c@.to_multiset() =~= Multiset::empty());
                    assert(entries_of(clusters@) =~= root_view.to_multiset());
                    lemma_views_round(before, i as int, c2, c2);
                    assert(split_round(views(before), open_before, i as int, b, views(clusters@), open@));
                }
            } else if c2.len() == 0 {
                clusters.push(c);
                open.push(false);
                proof {
                    lemma_entries_of_push(mid, c);
                    lemma_num_set_push(open_mid, false);
                    assert(c2@.to_multiset() =~= Multiset::empty());
                    assert(entries_of(clusters@) =~= root_view.to_multiset());
                    lemma_views_round(before, i as int, c, c);
                    assert(split_round(views(before), open_before, i as int, b, views(clusters@), open@));
                }
            } else {
                let ghost c1v = c;
                clusters.push(c);
                open.push(true);
                let ghost mid2 = clusters@;
                let ghost open_mid2 = open@;
                clusters.push(c2);
                open.push(true);
                proof {
                    lemma_entries_of_push(mid, c1v);
                    lemma_entries_of_push(mid2, c2);
                    assert(entries_of(clusters@) =~= root_view.to_multiset());
                    lemma_views_round(before, i as int, c1v, c2);
                    assert(open@ == open_mid.push(true).push(true));
                    assert(split_round(views(before), open_before, i as int, b, views(clusters@), open@));
                }
            }
        }
        proof {
            assert(prev.0@[i as int] == c0);
            assert(chosen_round(pick, bounds, prev, (clusters, open)));
            let old_trace = trace;
            trace = trace.push((clusters, open));
            assert forall|t: int| 0 <= t < trace.len() - 1 implies #[trigger] chosen_round(
                pick,
                bounds,
                trace[t],
                trace[t + 1],
            ) by {
                if t < old_trace.len() - 1 {
                    assert(trace[t] == old_trace[t] && trace[t + 1] == old_trace[t + 1]);
                } else {
                    assert(trace[t] == prev);
                }
            }
        }
    }
    proof {
        if root_view.len() > 0 {
            lemma_clusters_at_most_entries(clusters@);
            vstd::seq_lib::to_multiset_len(root_view);
        }
    }
    (clusters, open)
}

} // verus!