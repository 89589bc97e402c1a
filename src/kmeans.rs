use vstd::prelude::*;

use crate::cluster::channel;
use crate::histogram::HistogramEntry;

verus! {

/// Total weight, and weighted sum of each channel, of the entries assigned
/// to one palette color.
#[derive(Clone, Copy, Debug)]
pub struct ColorSums {
    pub weight: u128,
    pub channels: [u128; 4],
}

/// Total weight of the first `n` entries that `assign` maps to `k`.
pub open spec fn assigned_weight(entries: Seq<HistogramEntry>, assign: Seq<u8>, n: int, k: int) -> int
    decreases n,
{
    if n <= 0 {
        0
    } else {
        assigned_weight(entries, assign, n - 1, k) + if assign[n - 1] as int == k {
            entries[n - 1].weight as int
        } else {
            0
        }
    }
}

/// Sum of channel `ch` times weight over the first `n` entries that `assign`
/// maps to `k`.
pub open spec fn assigned_channel(entries: Seq<HistogramEntry>, assign: Seq<u8>, n: int, k: int, ch: int) -> int
    decreases n,
{
    if n <= 0 {
        0
    } else {
        assigned_channel(entries, assign, n - 1, k, ch) + if assign[n - 1] as int == k {
            channel(entries[n - 1].color, ch) as int * entries[n - 1].weight as int
        } else {
            0
        }
    }
}

proof fn lemma_assigned_bounds(entries: Seq<HistogramEntry>, assign: Seq<u8>, n: int, k: int, ch: int)
    requires
        n >= 0,
    ensures
        0 <= assigned_weight(entries, assign, n, k) <= n * 0xffff_ffff,
        0 <= assigned_channel(entries, assign, n, k, ch) <= n * (255 * 0xffff_ffff),
    decreases n,
{
    if n > 0 {
        lemma_assigned_bounds(entries, assign, n - 1, k, ch);
        let c = channel(entries[n - 1].color, ch) as int;
        let w = entries[n - 1].weight as int;
        assert(0 <= c * w <= 255 * 0xffff_ffff) by (nonlinear_arith)
            requires
                0 <= c <= 255,
                0 <= w <= 0xffff_ffff,
        ;
        assert((n - 1) * (255 * 0xffff_ffff) + 255 * 0xffff_ffff == n * (255 * 0xffff_ffff)) by (nonlinear_arith);
        assert((n - 1) * 0xffff_ffff + 0xffff_ffff == n * 0xffff_ffff) by (nonlinear_arith);
    }
}

/// For each of the 256 palette colors, the total weight and the weighted
/// channel sums of the entries that `assign` maps to it (entry `j` to color
/// `assign[j]`).
pub fn assigned_sums(entries: &Vec<HistogramEntry>, assign: &Vec<u8>) -> (sums: Vec<ColorSums>)
    requires
        assign@.len() == entries@.len(),
    ensures
        sums@.len() == 256,
        forall|k: int|
            0 <= k < 256 ==> (#[trigger] sums@[k]).weight == assigned_weight(entries@, assign@, entries@.len() as int, k),
        forall|k: int, ch: int|
            0 <= k < 256 && 0 <= ch < 4 ==> #[trigger] sums@[k].channels@[ch] == assigned_channel(
                entries@,
                assign@,
                entries@.len() as int,
                k,
                ch,
            ),
{
    let zero = ColorSums { weight: 0, channels: [0u128; 4] };
    let mut sums: Vec<ColorSums> = Vec::new();
    let mut k: usize = 0;
    while k < 256
        invariant
            k <= 256,
            sums@.len() == k,
            forall|j: int| 0 <= j < k ==> #[trigger] sums@[j] == zero,
        decreases 256 - k,
    {
        sums.push(zero);
        k += 1;
    }
    let n = entries.len();
    let mut i: usize = 0;
    while i < n
        invariant
            n == entries@.len(),
            assign@.len() == n,
            i <= n,
            sums@.len() == 256,
            forall|k: int|
                0 <= k < 256 ==> (#[trigger] sums@[k]).weight == assigned_weight(entries@, assign@, i as int, k),
            forall|k: int, ch: int|
                0 <= k < 256 && 0 <= ch < 4 ==> #[trigger] sums@[k].channels@[ch] == assigned_channel(
                    entries@,
                    assign@,
                    i as int,
                    k,
                    ch,
                ),
        decreases n - i,
    {
        let e = entries[i];
        let k = assign[i] as usize;
        let mut s = sums[k];
        proof {
            lemma_assigned_bounds(entries@, assign@, i as int, k as int, 0);
            lemma_assigned_bounds(entries@, assign@, i as int, k as int, 1);
            lemma_assigned_bounds(entries@, assign@, i as int, k as int, 2);
            lemma_assigned_bounds(entries@, assign@, i as int, k as int, 3);
            assert(i * 0xffff_ffffu128 <= 0xffff_ffff_ffff_ffff * 0xffff_ffffu128) by (nonlinear_arith)
                requires
                    i <= 0xffff_ffff_ffff_ffffu128,
            ;
            assert(i * (255 * 0xffff_ffffu128) <= 0xffff_ffff_ffff_ffff * (255 * 0xffff_ffffu128)) by (nonlinear_arith)
                requires
                    i <= 0xffff_ffff_ffff_ffffu128,
            ;
        }
        let w = e.weight as u128;
        proof {
            assert(sums@[k as int].channels@[0] == assigned_channel(entries@, assign@, i as int, k as int, 0));
            assert(sums@[k as int].channels@[1] == assigned_channel(entries@, assign@, i as int, k as int, 1));
            assert(sums@[k as int].channels@[2] == assigned_channel(entries@, assign@, i as int, k as int, 2));
            assert(sums@[k as int].channels@[3] == assigned_channel(entries@, assign@, i as int, k as int, 3));
            let r = e.color.r as u128;
            let g = e.color.g as u128;
            let b = e.color.b as u128;
            let a = e.color.a as u128;
            assert(r * w <= 255 * 0xffff_ffffu128 && g * w <= 255 * 0xffff_ffffu128 && b * w <= 255
                * 0xffff_ffffu128 && a * w <= 255 * 0xffff_ffffu128) by (nonlinear_arith)
                requires
                    w <= 0xffff_ffffu128,
                    r <= 255,
                    g <= 255,
                    b <= 255,
                    a <= 255,
            ;
        }
        s.weight = s.weight + w;
        s.channels[0] = s.channels[0] + e.color.r as u128 * w;
        s.channels[1] = s.channels[1] + e.color.g as u128 * w;
        s.channels[2] = s.channels[2] + e.color.b as u128 * w;
        s.channels[3] = s.channels[3] + e.color.a as u128 * w;
        let ghost before = sums@;
        sums.set(k, s);
        proof {
            assert forall|j: int| 0 <= j < 256 implies (#[trigger] sums@[j]).weight == assigned_weight(
                entries@,
                assign@,
                i + 1,
                j,
            ) by {
                if j != k {
                    assert(sums@[j] == before[j]);
                }
            }
            assert forall|j: int, ch: int| 0 <= j < 256 && 0 <= ch < 4 implies #[trigger] sums@[j].channels@[ch]
                == assigned_channel(entries@, assign@, i + 1, j, ch) by {
                if j != k {
                    assert(sums@[j] == before[j]);
                }
            }
        }
        i += 1;
    }
    sums
}

} // verus!
