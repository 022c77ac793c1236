//! Palette analysis: the single-pass classifier that drives Tight's mode
//! selection (solid / two colors / more), and the ZRLE scan that counts
//! runs and singletons and gathers the distinct colors in first-seen order.

use vstd::prelude::*;

use crate::pixel::rgb24;
use crate::pixel::rgba_to_rgb24;

verus! {

/// What a Tight rectangle's pixels look like to the mode selector.
#[derive(Clone, Copy, Debug, PartialEq, Eq, Structural)]
pub enum TightPalette {
    /// Every pixel has this one color.
    Solid { color: u32 },
    /// Exactly two colors; `bg` is the majority (the first-seen color on a
    /// tie), `fg` the minority.
    Mono { bg: u32, fg: u32 },
    /// More than two colors, or too few pixels to attempt a mono rectangle.
    Many,
}

/// The internal RGB24 colors of an RGBA byte buffer, pixel by pixel.
pub open spec fn tight_colors(p: Seq<u8>) -> Seq<u32> {
    Seq::new((p.len() / 4) as nat, |i: int| rgb24(p[4 * i], p[4 * i + 1], p[4 * i + 2]))
}

/// All entries equal the first one.
pub open spec fn all_eq(s: Seq<u32>) -> bool {
    forall|i: int| 0 <= i < s.len() ==> #[trigger] s[i] == s[0]
}

/// Every entry is one of the two given colors.
pub open spec fn two_colors(s: Seq<u32>, c0: u32, c1: u32) -> bool {
    forall|i: int| 0 <= i < s.len() ==> (#[trigger] s[i] == c0 || s[i] == c1)
}

/// The buffer holds exactly two distinct colors.
pub open spec fn exactly_two(s: Seq<u32>) -> bool {
    !all_eq(s) && exists|c: u32| two_colors(s, s[0], c)
}

/// The color of a two-color buffer that is not the first-seen one.
pub open spec fn other_color(s: Seq<u32>) -> u32 {
    choose|c: u32| c != s[0] && s.contains(c)
}

/// How many entries equal `c`.
pub open spec fn count_eq(s: Seq<u32>, c: u32) -> int
    decreases s.len(),
{
    if s.len() == 0 {
        0
    } else {
        count_eq(s.drop_last(), c) + if s.last() == c {
            1int
        } else {
            0int
        }
    }
}

/// The mono background: the majority color, the first-seen one on a tie.
pub open spec fn mono_bg(s: Seq<u32>) -> u32 {
    if count_eq(s, s[0]) >= count_eq(s, other_color(s)) {
        s[0]
    } else {
        other_color(s)
    }
}

/// The mono foreground: the color `mono_bg` did not pick.
pub open spec fn mono_fg(s: Seq<u32>) -> u32 {
    if count_eq(s, s[0]) >= count_eq(s, other_color(s)) {
        other_color(s)
    } else {
        s[0]
    }
}

/// The smallest rectangle (in pixels) for which a two-color result is
/// worth reporting, by compression level.
pub open spec fn mono_threshold(compression: u8) -> int {
    if compression == 0 {
        6
    } else {
        32
    }
}

proof fn lemma_count_eq_push(s: Seq<u32>, c: u32, v: u32)
    ensures
        count_eq(s.push(v), c) == count_eq(s, c) + if v == c {
            1int
        } else {
            0int
        },
{
    assert(s.push(v).drop_last() =~= s);
    assert(s.push(v).last() == v);
}

proof fn lemma_count_eq_le_len(s: Seq<u32>, c: u32)
    ensures
        0 <= count_eq(s, c) <= s.len(),
    decreases s.len(),
{
    if s.len() > 0 {
        lemma_count_eq_le_len(s.drop_last(), c);
    }
}

proof fn lemma_count_eq_all(s: Seq<u32>, c: u32)
    requires
        forall|i: int| 0 <= i < s.len() ==> s[i] == c,
    ensures
        count_eq(s, c) == s.len(),
    decreases s.len(),
{
    if s.len() > 0 {
        lemma_count_eq_all(s.drop_last(), c);
    }
}

proof fn lemma_count_eq_none(s: Seq<u32>, c: u32)
    requires
        forall|i: int| 0 <= i < s.len() ==> s[i] != c,
    ensures
        count_eq(s, c) == 0,
    decreases s.len(),
{
    if s.len() > 0 {
        lemma_count_eq_none(s.drop_last(), c);
    }
}

/// In a two-color buffer, any contained color other than the first is the
/// `other_color`.
proof fn lemma_other_color_unique(s: Seq<u32>, c0: u32, c1: u32)
    requires
        s.len() > 0,
        s[0] == c0,
        c1 != c0,
        s.contains(c1),
        two_colors(s, c0, c1),
    ensures
        other_color(s) == c1,
{
    assert(c1 != s[0] && s.contains(c1));
    let w = other_color(s);
    assert(w != s[0] && s.contains(w));
    let k = choose|k: int| 0 <= k < s.len() && s[k] == w;
    assert(s[k] == c0 || s[k] == c1);
}

/// Reads the internal color of pixel `i` of an RGBA buffer.
fn color_at(pixels: &[u8], i: usize) -> (c: u32)
    requires
        4 * (i + 1) <= pixels@.len(),
    ensures
        c == tight_colors(pixels@)[i as int],
{
    let n: usize = pixels.len();
    assert(4 * i + 2 < n);
    rgba_to_rgb24(pixels[4 * i], pixels[4 * i + 1], pixels[4 * i + 2])
}

/// Classifies an RGBA rectangle in one forward pass: solid when one color
/// fills it; two colors when the rectangle is large enough and no third
/// color appears, with the majority color as background (first-seen on a
/// tie); otherwise more than two colors.
pub fn analyze_palette(pixels: &[u8], pixel_count: usize, compression: u8) -> (r: TightPalette)
    requires
        pixels@.len() == 4 * pixel_count,
    ensures
        ({
            let s = tight_colors(pixels@);
            &&& (pixel_count == 0 ==> r == TightPalette::Many)
            &&& (pixel_count > 0 && all_eq(s) ==> r == (TightPalette::Solid { color: s[0] }))
            &&& (pixel_count > 0 && !all_eq(s) && pixel_count >= mono_threshold(compression)
                && exactly_two(s) ==> r == (TightPalette::Mono {
                bg: mono_bg(s),
                fg: mono_fg(s),
            }))
            &&& (pixel_count > 0 && !all_eq(s) && (pixel_count < mono_threshold(compression)
                || !exactly_two(s)) ==> r == TightPalette::Many)
        }),
{
    let ghost s = tight_colors(pixels@);
    if pixel_count == 0 {
        return TightPalette::Many;
    }
    assert(s.len() == pixel_count);
    let c0 = color_at(pixels, 0);

    let mut i: usize = 1;
    while i < pixel_count && color_at(pixels, i) == c0
        invariant
            1 <= i <= pixel_count,
            pixels@.len() == 4 * pixel_count,
            s == tight_colors(pixels@),
            s.len() == pixel_count,
            c0 == s[0],
            forall|j: int| 0 <= j < i ==> s[j] == c0,
        decreases pixel_count - i,
    {
        i = i + 1;
    }

    if i == pixel_count {
        assert(all_eq(s));
        return TightPalette::Solid { color: c0 };
    }
    assert(s[i as int] != c0);
    assert(!all_eq(s));

    let threshold: usize = if compression == 0 {
        6
    } else {
        32
    };
    if pixel_count < threshold {
        return TightPalette::Many;
    }

    let c1 = color_at(pixels, i);
    let ghost j = i as int;
    let mut n0: usize = i;
    let mut n1: usize = 0;
    proof {
        assert(forall|k: int| 0 <= k < j ==> s.subrange(0, j)[k] == c0);
        lemma_count_eq_all(s.subrange(0, j), c0);
        assert(forall|k: int| 0 <= k < j ==> s.subrange(0, j)[k] != c1);
        lemma_count_eq_none(s.subrange(0, j), c1);
    }

    let mut k: usize = i;
    while k < pixel_count
        invariant
            j <= k <= pixel_count,
            pixels@.len() == 4 * pixel_count,
            s == tight_colors(pixels@),
            s.len() == pixel_count,
            0 <= j < pixel_count,
            c0 == s[0],
            c1 == s[j],
            c1 != c0,
            n0 == count_eq(s.subrange(0, k as int), c0),
            n1 == count_eq(s.subrange(0, k as int), c1),
            n0 <= k,
            n1 <= k,
            two_colors(s.subrange(0, k as int), c0, c1),
        decreases pixel_count - k,
    {
        let c = color_at(pixels, k);
        proof {
            assert(s.subrange(0, k + 1) =~= s.subrange(0, k as int).push(s[k as int]));
            lemma_count_eq_push(s.subrange(0, k as int), c0, s[k as int]);
            lemma_count_eq_push(s.subrange(0, k as int), c1, s[k as int]);
            lemma_count_eq_le_len(s.subrange(0, k + 1), c0);
            lemma_count_eq_le_len(s.subrange(0, k + 1), c1);
        }
        if c == c0 {
            n0 = n0 + 1;
        } else if c == c1 {
            n1 = n1 + 1;
        } else {
            proof {
                assert(s[k as int] != c0 && s[k as int] != c1);
                assert forall|w: u32| !two_colors(s, s[0], w) by {
                    if two_colors(s, s[0], w) {
                        assert(s[j] == c0 || s[j] == w);
                        assert(s[k as int] == c0 || s[k as int] == w);
                    }
                }
                assert(!exactly_two(s));
            }
            return TightPalette::Many;
        }
        k = k + 1;
    }

    proof {
        assert(s.subrange(0, pixel_count as int) =~= s);
        assert(two_colors(s, c0, c1));
        assert(exactly_two(s));
        assert(s.contains(c1)) by {
            assert(s[j] == c1);
        }
        lemma_other_color_unique(s, c0, c1);
    }
    if n0 >= n1 {
        TightPalette::Mono { bg: c0, fg: c1 }
    } else {
        TightPalette::Mono { bg: c1, fg: c0 }
    }
}

/// Position `i` starts a maximal span of equal colors.
pub open spec fn run_start(s: Seq<u32>, i: int) -> bool {
    i == 0 || s[i] != s[i - 1]
}

/// Position `i` starts a span of length at least two.
pub open spec fn starts_run(s: Seq<u32>, i: int) -> bool {
    run_start(s, i) && i + 1 < s.len() && s[i + 1] == s[i]
}

/// Position `i` is a span of length exactly one.
pub open spec fn starts_single(s: Seq<u32>, i: int) -> bool {
    run_start(s, i) && !(i + 1 < s.len() && s[i + 1] == s[i])
}

/// Maximal equal spans of length at least two among the first `n` entries.
pub open spec fn count_runs_upto(s: Seq<u32>, n: int) -> int
    decreases n,
{
    if n <= 0 {
        0
    } else {
        count_runs_upto(s, n - 1) + if starts_run(s, n - 1) {
            1int
        } else {
            0int
        }
    }
}

/// Length-one spans among the first `n` entries.
pub open spec fn count_singles_upto(s: Seq<u32>, n: int) -> int
    decreases n,
{
    if n <= 0 {
        0
    } else {
        count_singles_upto(s, n - 1) + if starts_single(s, n - 1) {
            1int
        } else {
            0int
        }
    }
}

/// The distinct colors among the first `n` entries, in first-seen order,
/// capped at 256.
pub open spec fn first_seen_upto(s: Seq<u32>, n: int) -> Seq<u32>
    decreases n,
{
    if n <= 0 {
        Seq::empty()
    } else {
        let p = first_seen_upto(s, n - 1);
        if p.contains(s[n - 1]) || p.len() >= 256 {
            p
        } else {
            p.push(s[n - 1])
        }
    }
}

/// The first-seen palette never exceeds 256 entries.
pub proof fn lemma_first_seen_len(s: Seq<u32>, n: int)
    ensures
        0 <= first_seen_upto(s, n).len() <= 256,
    decreases n,
{
    if n > 0 {
        lemma_first_seen_len(s, n - 1);
    }
}

/// Palette growth is monotone: a color present at step `m` stays present.
proof fn lemma_first_seen_monotone(s: Seq<u32>, m: int, n: int, c: u32)
    requires
        m <= n,
        first_seen_upto(s, m).contains(c),
    ensures
        first_seen_upto(s, n).contains(c),
    decreases n - m,
{
    if m < n {
        lemma_first_seen_monotone(s, m, n - 1, c);
        let p = first_seen_upto(s, n - 1);
        if !(p.contains(s[n - 1]) || p.len() >= 256) {
            let q = p.push(s[n - 1]);
            let k = choose|k: int| 0 <= k < p.len() && p[k] == c;
            assert(q[k] == c);
        }
    }
}

/// While the palette stays below its cap it holds every color scanned so
/// far: no color is dropped.
pub proof fn lemma_first_seen_complete(s: Seq<u32>, n: int, j: int)
    requires
        0 <= j < n,
        first_seen_upto(s, n).len() < 256,
    ensures
        first_seen_upto(s, n).contains(s[j]),
    decreases n,
{
    let p = first_seen_upto(s, n - 1);
    lemma_first_seen_len(s, n - 1);
    assert(p.len() <= first_seen_upto(s, n).len()) by {
        if !(p.contains(s[n - 1]) || p.len() >= 256) {
        }
    }
    if j == n - 1 {
        if p.contains(s[n - 1]) || p.len() >= 256 {
            assert(p.contains(s[j]));
        } else {
            let q = p.push(s[n - 1]);
            assert(q[p.len() as int] == s[j]);
        }
    } else {
        lemma_first_seen_complete(s, n - 1, j);
        lemma_first_seen_monotone(s, n - 1, n, s[j]);
    }
}

/// The first-seen palette has no duplicate entries.
pub proof fn lemma_first_seen_distinct(s: Seq<u32>, n: int)
    ensures
        forall|a: int, b: int|
            0 <= a < b < first_seen_upto(s, n).len() ==> first_seen_upto(s, n)[a]
                != first_seen_upto(s, n)[b],
    decreases n,
{
    if n > 0 {
        lemma_first_seen_distinct(s, n - 1);
        let p = first_seen_upto(s, n - 1);
        if !(p.contains(s[n - 1]) || p.len() >= 256) {
            assert forall|a: int, b: int|
                0 <= a < b < p.push(s[n - 1]).len() implies #[trigger] p.push(s[n - 1])[a]
                != #[trigger] p.push(s[n - 1])[b] by {
                if b < p.len() {
                } else {
                    assert(p.push(s[n - 1])[b] == s[n - 1]);
                    assert(!p.contains(p[a]) ==> false);
                }
            }
        }
    }
}

/// True when `v` holds `c`.
fn vec_contains_u32(v: &Vec<u32>, c: u32) -> (r: bool)
    ensures
        r == v@.contains(c),
{
    let mut i: usize = 0;
    while i < v.len()
        invariant
            0 <= i <= v@.len(),
            forall|j: int| 0 <= j < i ==> v@[j] != c,
        decreases v@.len() - i,
    {
        if v[i] == c {
            return true;
        }
        i = i + 1;
    }
    false
}

/// Scans a tile's pixels once, counting maximal equal-color spans of length
/// at least two (`runs`), spans of length one (`singles`), and gathering the
/// distinct colors in first-seen order, up to 256 of them.
pub fn analyze_runs_and_palette(pixels: &[u32]) -> (r: (usize, usize, Vec<u32>))
    ensures
        r.0 == count_runs_upto(pixels@, pixels@.len() as int),
        r.1 == count_singles_upto(pixels@, pixels@.len() as int),
        r.2@ == first_seen_upto(pixels@, pixels@.len() as int),
        r.0 <= pixels@.len(),
        r.1 <= pixels@.len(),
{
    let ghost s = pixels@;
    let mut runs: usize = 0;
    let mut singles: usize = 0;
    let mut palette: Vec<u32> = Vec::new();

    let n = pixels.len();
    let mut i: usize = 0;
    while i < n
        invariant
            0 <= i <= n,
            s == pixels@,
            n == s.len(),
            runs <= i,
            singles <= i,
            runs == count_runs_upto(s, i as int),
            singles == count_singles_upto(s, i as int),
            palette@ == first_seen_upto(s, i as int),
        decreases n - i,
    {
        proof {
            lemma_first_seen_len(s, i as int);
        }
        let is_start = i == 0 || pixels[i] != pixels[i - 1];
        if is_start {
            if i + 1 < n && pixels[i + 1] == pixels[i] {
                runs = runs + 1;
            } else {
                singles = singles + 1;
            }
        }
        if palette.len() < 256 && !vec_contains_u32(&palette, pixels[i]) {
            palette.push(pixels[i]);
        }
        i = i + 1;
    }
    (runs, singles, palette)
}

} // verus!
