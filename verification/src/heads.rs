use std::cmp::Ordering;
use vstd::prelude::*;
use vstd::string::*;

use vstd::set_lib::*;

use crate::arith::clamp_i32;
use crate::error::{ClientError, ClientErrorView};
use crate::point::Point;
use crate::text::{contains_str, is_substring, lowercase, str_eq, to_lowercase};
use crate::transform::Transform;

verus! {

/// A video mode an output supports.
#[derive(Debug, Clone, Copy, PartialEq, Eq, Structural)]
pub struct Mode {
    pub id: u32,
    pub size: Point,
    /// Refresh rate in mHz.
    pub refresh: i32,
    pub prefered: bool,
}

impl Mode {
    pub fn new(id: u32, size: Point, refresh: i32, prefered: bool) -> (r: Mode)
        ensures
            r == (Mode { id, size, refresh, prefered }),
    {
        Mode { id, size, refresh, prefered }
    }

    pub fn id(&self) -> (r: u32)
        ensures
            r == self.id,
    {
        self.id
    }

    pub fn size(&self) -> (r: Point)
        ensures
            r == self.size,
    {
        self.size
    }

    pub fn refresh(&self) -> (r: i32)
        ensures
            r == self.refresh,
    {
        self.refresh
    }

    pub fn prefered(&self) -> (r: bool)
        ensures
            r == self.prefered,
    {
        self.prefered
    }

    /// Modes are ordered by size (distance of the size from the origin), then by
    /// refresh rate.
    pub fn compare(&self, other: &Mode) -> (r: Ordering)
        requires
            self.size.fits(),
            other.size.fits(),
        ensures
            (r == Ordering::Less) == mode_lt(*self, *other),
            (r == Ordering::Greater) == mode_lt(*other, *self),
    {
        match self.size.compare(&other.size) {
            Ordering::Equal => {},
            ord => {
                return ord;
            },
        }
        if self.refresh < other.refresh {
            Ordering::Less
        } else if self.refresh == other.refresh {
            Ordering::Equal
        } else {
            Ordering::Greater
        }
    }
}

/// `a` comes strictly before `b` in the mode order (smaller size, or the same
/// size with a lower refresh rate).
pub open spec fn mode_lt(a: Mode, b: Mode) -> bool {
    a.size.norm() < b.size.norm() || (a.size.norm() == b.size.norm() && a.refresh < b.refresh)
}

fn is_mode_lt(a: &Mode, b: &Mode) -> (r: bool)
    requires
        a.size.fits(),
        b.size.fits(),
    ensures
        r == mode_lt(*a, *b),
{
    match a.compare(b) {
        Ordering::Less => true,
        _ => false,
    }
}

/// Every mode size can be squared without overflow.
pub open spec fn modes_fit(modes: Seq<Mode>) -> bool {
    forall|i: int| 0 <= i < modes.len() ==> (#[trigger] modes[i]).size.fits()
}

/// `r` is `s` sorted from the highest mode to the lowest, modes that compare
/// equal keeping their order from `s` (a stable sort).
pub open spec fn sorted_desc(s: Seq<Mode>, r: Seq<Mode>) -> bool {
    exists|p: Seq<int>| is_desc_permutation(s, r, p)
}

/// `r[k] == s[p[k]]` for a permutation `p`, `r` is in descending order, and
/// `p` is increasing within each run of equal modes.
pub open spec fn is_desc_permutation(s: Seq<Mode>, r: Seq<Mode>, p: Seq<int>) -> bool {
    &&& p.len() == s.len()
    &&& r.len() == s.len()
    &&& p.no_duplicates()
    &&& forall|k: int| 0 <= k < p.len() ==> 0 <= #[trigger] p[k] < s.len() && r[k] == s[p[k]]
    &&& forall|a: int, b: int| 0 <= a < b < r.len() ==> !mode_lt(#[trigger] r[a], #[trigger] r[b])
    &&& forall|a: int, b: int|
        0 <= a < b < r.len() && !mode_lt(#[trigger] r[b], #[trigger] r[a]) ==> p[a] < p[b]
}

/// Modes that can be compared with one another: there is at most one, or every
/// mode size can be squared without overflow.
pub open spec fn sortable(modes: Seq<Mode>) -> bool {
    modes.len() <= 1 || modes_fit(modes)
}

/// Whether the modes can be compared with one another (see [`sortable`]).
pub fn modes_sortable(modes: &Vec<Mode>) -> (r: bool)
    ensures
        r == sortable(modes@),
{
    if modes.len() <= 1 {
        return true;
    }
    let mut i: usize = 0;
    while i < modes.len()
        invariant
            modes@.len() > 1,
            i <= modes@.len(),
            forall|k: int| 0 <= k < i ==> (#[trigger] modes@[k]).size.fits(),
        decreases modes@.len() - i,
    {
        let size = modes[i].size;
        let w: i64 = size.0 as i64;
        let h: i64 = size.1 as i64;
        assert(0 <= w * w <= 0x4000_0000_0000_0000) by (nonlinear_arith)
            requires
                -0x8000_0000 <= w <= 0x7fff_ffff,
        ;
        assert(0 <= h * h <= 0x4000_0000_0000_0000) by (nonlinear_arith)
            requires
                -0x8000_0000 <= h <= 0x7fff_ffff,
        ;
        if w * w > i32::MAX as i64 || h * h > i32::MAX as i64 {
            assert(!modes@[i as int].size.fits());
            assert(!modes_fit(modes@));
            return false;
        }
        i = i + 1;
    }
    true
}

/// The modes sorted from the highest to the lowest (stable).
pub fn sort_modes_desc(modes: &Vec<Mode>) -> (r: Vec<Mode>)
    requires
        sortable(modes@),
    ensures
        sorted_desc(modes@, r@),
{
    let n = modes.len();
    let mut r: Vec<Mode> = Vec::new();
    let ghost mut p: Seq<int> = Seq::empty();
    let mut i: usize = 0;
    while i < n
        invariant
            n == modes@.len(),
            n > 1 ==> modes_fit(modes@),
            i <= n,
            p.len() == i,
            r@.len() == i,
            n > 1 ==> modes_fit(r@),
            p.no_duplicates(),
            forall|k: int| 0 <= k < p.len() ==> 0 <= #[trigger] p[k] < i && r@[k] == modes@[p[k]],
            forall|a: int, b: int| 0 <= a < b < r@.len() ==> !mode_lt(#[trigger] r@[a], #[trigger] r@[b]),
            forall|a: int, b: int|
                0 <= a < b < r@.len() && !mode_lt(#[trigger] r@[b], #[trigger] r@[a]) ==> p[a] < p[b],
        decreases n - i,
    {
        let x = modes[i];
        assert(modes@[i as int] == x);
        let mut j: usize = 0;
        while j < r.len() && !is_mode_lt(&r[j], &x)
            invariant
                r@.len() == i,
                n > 1 ==> modes_fit(modes@),
                n > 1 ==> modes_fit(r@),
                forall|k: int| 0 <= k < p.len() ==> 0 <= #[trigger] p[k] < i && r@[k] == modes@[p[k]],
                p.len() == i,
                i < n,
                n == modes@.len(),
                x == modes@[i as int],
                j <= r@.len(),
                forall|k: int| 0 <= k < j ==> !mode_lt(#[trigger] r@[k], x),
            decreases r@.len() - j,
        {
            assert(r@[j as int] == modes@[p[j as int]]);
            j = j + 1;
        }
        if j < r.len() {
            assert(r@[j as int] == modes@[p[j as int]]);
        }
        let ghost rb = r@;
        let ghost pb = p;
        r.insert(j, x);
        proof {
            p = p.insert(j as int, i as int);
            assert(r@ =~= rb.insert(j as int, x));
            if n > 1 {
                assert forall|k: int| 0 <= k < r@.len() implies (#[trigger] r@[k]).size.fits() by {
                    if k < j {
                        assert(r@[k] == rb[k]);
                    } else if k > j {
                        assert(r@[k] == rb[k - 1]);
                    }
                }
            }
            assert forall|k: int| 0 <= k < p.len() implies 0 <= #[trigger] p[k] < i + 1 && r@[k] == modes@[p[k]] by {
                if k < j {
                    assert(p[k] == pb[k]);
                } else if k > j {
                    assert(p[k] == pb[k - 1]);
                }
            }
            assert(p.no_duplicates()) by {
                assert forall|a: int, b: int| 0 <= a < b < p.len() implies p[a] != p[b] by {
                    if a < j && b < j {
                        assert(pb[a] != pb[b]);
                    } else if a < j && b > j {
                        assert(pb[a] != pb[b - 1]);
                    } else if a > j && b > j {
                        assert(pb[a - 1] != pb[b - 1]);
                    } else if a == j {
                        if b > j {
                            assert(pb[b - 1] < i);
                        }
                    } else {
                        assert(pb[a] < i);
                    }
                }
            }
            assert forall|a: int, b: int| 0 <= a < b < r@.len() implies !mode_lt(#[trigger] r@[a], #[trigger] r@[b]) by {
                if a < j && b == j {
                } else if a == j && b > j {
                    assert(r@[b] == rb[b - 1]);
                    if j < rb.len() {
                        assert(mode_lt(rb[j as int], x));
                        if b - 1 > j {
                            assert(!mode_lt(rb[j as int], rb[b - 1]));
                        }
                    }
                } else if a < j && b > j {
                    assert(r@[b] == rb[b - 1]);
                    assert(r@[a] == rb[a]);
                } else if a > j && b > j {
                    assert(r@[b] == rb[b - 1]);
                    assert(r@[a] == rb[a - 1]);
                } else {
                    assert(r@[b] == rb[b]);
                    assert(r@[a] == rb[a]);
                }
            }
            assert forall|a: int, b: int|
                0 <= a < b < r@.len() && !mode_lt(#[trigger] r@[b], #[trigger] r@[a]) implies p[a] < p[b] by {
                if a < j && b == j {
                    assert(pb[a] < i);
                } else if a == j && b > j {
                    assert(r@[b] == rb[b - 1]);
                    assert(j < rb.len());
                    assert(mode_lt(rb[j as int], x));
                    if b - 1 > j {
                        assert(!mode_lt(rb[j as int], rb[b - 1]));
                    }
                    assert(false);
                } else if a < j && b > j {
                    assert(r@[b] == rb[b - 1]);
                    assert(r@[a] == rb[a]);
                    assert(p[b] == pb[b - 1]);
                } else if a > j && b > j {
                    assert(r@[b] == rb[b - 1]);
                    assert(r@[a] == rb[a - 1]);
                    assert(p[b] == pb[b - 1]);
                    assert(p[a] == pb[a - 1]);
                } else {
                    assert(r@[b] == rb[b]);
                    assert(r@[a] == rb[a]);
                }
            }
        }
        i = i + 1;
    }
    proof {
        assert(is_desc_permutation(modes@, r@, p));
    }
    r
}

/// `x` comes before `y` in a stable sort of `s` from the highest mode: its mode
/// is higher, or the two modes are equal and `x` comes first in `s`.
pub open spec fn sorted_before(s: Seq<Mode>, x: int, y: int) -> bool {
    mode_lt(s[y], s[x]) || (!mode_lt(s[x], s[y]) && !mode_lt(s[y], s[x]) && x < y)
}

/// Distinct indices below `n`, `n` of them, cover every index below `n`.
proof fn lemma_indices_cover(p: Seq<int>, n: int)
    requires
        p.len() == n,
        p.no_duplicates(),
        forall|a: int| 0 <= a < n ==> 0 <= #[trigger] p[a] < n,
    ensures
        forall|v: int| 0 <= v < n ==> #[trigger] p.contains(v),
{
    p.unique_seq_to_set();
    let ps = p.to_set();
    lemma_int_range(0, n);
    assert(ps.subset_of(set_int_range(0, n))) by {
        assert forall|v: int| ps.contains(v) implies set_int_range(0, n).contains(v) by {
            let a = choose|a: int| 0 <= a < p.len() && p[a] == v;
        }
    }
    assert forall|v: int| 0 <= v < n implies #[trigger] p.contains(v) by {
        if !ps.contains(v) {
            ps.lemma_subset_not_in_lt(set_int_range(0, n), v);
        }
    }
}

proof fn lemma_sorted_before(s: Seq<Mode>, r: Seq<Mode>, p: Seq<int>, a: int, b: int)
    requires
        is_desc_permutation(s, r, p),
        0 <= a < b < r.len(),
    ensures
        sorted_before(s, p[a], p[b]),
{
    assert(r[a] == s[p[a]] && r[b] == s[p[b]]);
    assert(!mode_lt(r[a], r[b]));
}

proof fn lemma_same_at(s: Seq<Mode>, r1: Seq<Mode>, r2: Seq<Mode>, p1: Seq<int>, p2: Seq<int>, k: int)
    requires
        is_desc_permutation(s, r1, p1),
        is_desc_permutation(s, r2, p2),
        forall|v: int| 0 <= v < s.len() ==> #[trigger] p1.contains(v),
        forall|v: int| 0 <= v < s.len() ==> #[trigger] p2.contains(v),
        0 <= k < s.len(),
        forall|i: int| 0 <= i < k ==> #[trigger] p1[i] == p2[i],
    ensures
        p1[k] == p2[k],
{
    let x = p1[k];
    let y = p2[k];
    if x != y {
        assert(p1.contains(y));
        let k1 = choose|k1: int| 0 <= k1 < p1.len() && p1[k1] == y;
        if k1 < k {
            assert(p2[k1] == y);
        }
        assert(k1 > k);
        lemma_sorted_before(s, r1, p1, k, k1);
        assert(p2.contains(x));
        let k2 = choose|k2: int| 0 <= k2 < p2.len() && p2[k2] == x;
        if k2 < k {
            assert(p1[k2] == x);
        }
        assert(k2 > k);
        lemma_sorted_before(s, r2, p2, k, k2);
    }
}

proof fn lemma_same_upto(s: Seq<Mode>, r1: Seq<Mode>, r2: Seq<Mode>, p1: Seq<int>, p2: Seq<int>, k: int)
    requires
        is_desc_permutation(s, r1, p1),
        is_desc_permutation(s, r2, p2),
        forall|v: int| 0 <= v < s.len() ==> #[trigger] p1.contains(v),
        forall|v: int| 0 <= v < s.len() ==> #[trigger] p2.contains(v),
        0 <= k <= s.len(),
    ensures
        forall|i: int| 0 <= i < k ==> #[trigger] p1[i] == p2[i],
    decreases k,
{
    if k > 0 {
        lemma_same_upto(s, r1, r2, p1, p2, k - 1);
        lemma_same_at(s, r1, r2, p1, p2, k - 1);
    }
}

/// Sorting the modes from the highest is deterministic: there is one sorted
/// list for a given list of modes (equal modes keep their order).
pub proof fn law_mode_sort_unique(s: Seq<Mode>, r1: Seq<Mode>, r2: Seq<Mode>)
    requires
        sorted_desc(s, r1),
        sorted_desc(s, r2),
    ensures
        r1 == r2,
{
    let p1 = choose|p: Seq<int>| is_desc_permutation(s, r1, p);
    let p2 = choose|p: Seq<int>| is_desc_permutation(s, r2, p);
    let n = s.len() as int;
    lemma_indices_cover(p1, n);
    lemma_indices_cover(p2, n);
    lemma_same_upto(s, r1, r2, p1, p2, n);
    assert forall|k: int| 0 <= k < n implies r1[k] == r2[k] by {
        assert(p1[k] == p2[k]);
    }
    assert(r1 =~= r2);
}

/// An output (head) as the compositor describes it.
#[derive(Debug, Clone)]
pub struct Head {
    pub id: u32,
    pub name: String,
    pub description: String,
    /// Physical size in millimetres.
    pub physical_size: Point,
    /// The current mode; a disabled output has none.
    pub current_mode: Option<Mode>,
    pub modes: Vec<Mode>,
    pub enabled: bool,
    pub position: Point,
    pub make: String,
    pub model: String,
    pub serial_number: String,
    /// Scale factor in 1/256 units (the protocol's fixed-point numbers).
    pub scale: i32,
    pub transform: Transform,
}

/// A [`Head`] with its texts as characters and its modes as a sequence.
pub struct HeadView {
    pub id: u32,
    pub name: Seq<char>,
    pub description: Seq<char>,
    pub physical_size: Point,
    pub current_mode: Option<Mode>,
    pub modes: Seq<Mode>,
    pub enabled: bool,
    pub position: Point,
    pub make: Seq<char>,
    pub model: Seq<char>,
    pub serial_number: Seq<char>,
    pub scale: i32,
    pub transform: Transform,
}

impl View for Head {
    type V = HeadView;

    open spec fn view(&self) -> HeadView {
        HeadView {
            id: self.id,
            name: self.name@,
            description: self.description@,
            physical_size: self.physical_size,
            current_mode: self.current_mode,
            modes: self.modes@,
            enabled: self.enabled,
            position: self.position,
            make: self.make@,
            model: self.model@,
            serial_number: self.serial_number@,
            scale: self.scale,
            transform: self.transform,
        }
    }
}

/// Rounds `a / b` to the nearest integer, halves away from zero, then saturates
/// at the bounds of `i32`; a division by zero gives the bound on the side of
/// `a` (and zero for `0 / 0`). This is what dividing the two as floating point
/// numbers, rounding, and casting to `i32` gives.
pub open spec fn div_round(a: int, b: int) -> int {
    if b == 0 {
        if a > 0 {
            i32::MAX as int
        } else if a < 0 {
            i32::MIN as int
        } else {
            0
        }
    } else {
        let ua = if a < 0 { -a } else { a };
        let ub = if b < 0 { -b } else { b };
        let q = (2 * ua + ub) / (2 * ub);
        clamp_i32(if (a < 0) != (b < 0) { -q } else { q })
    }
}

/// A length in pixels divided by a scale given in 1/256 units.
pub open spec fn scaled_length(length: i32, scale: i32) -> int {
    div_round(length * 256, scale as int)
}

/// The logical size of an output in `mode` at `scale`, with width and height
/// swapped for a quarter-turned output.
pub open spec fn corrected_size(mode: Mode, scale: i32, transform: Transform) -> Point {
    let w = scaled_length(mode.size.0, scale) as i32;
    let h = scaled_length(mode.size.1, scale) as i32;
    if transform.spec_is_vertical() {
        Point(h, w)
    } else {
        Point(w, h)
    }
}

/// A length in pixels divided by a scale given in 1/256 units, rounded.
pub fn scale_length(length: i32, scale: i32) -> (r: i32)
    ensures
        r == scaled_length(length, scale),
{
    let a: i64 = length as i64 * 256;
    let b: i64 = scale as i64;
    if b == 0 {
        if a > 0 {
            i32::MAX
        } else if a < 0 {
            i32::MIN
        } else {
            0
        }
    } else {
        let ua: u64 = if a < 0 {
            (-a) as u64
        } else {
            a as u64
        };
        let ub: u64 = if b < 0 {
            (-b) as u64
        } else {
            b as u64
        };
        let q: u64 = (2 * ua + ub) / (2 * ub);
        assert(q <= 2 * ua + ub) by (nonlinear_arith)
            requires
                q == (2 * ua + ub) / (2 * ub),
                ub >= 1,
        ;
        let v: i64 = if (a < 0) != (b < 0) {
            -(q as i64)
        } else {
            q as i64
        };
        if v > i32::MAX as i64 {
            i32::MAX
        } else if v < i32::MIN as i64 {
            i32::MIN
        } else {
            v as i32
        }
    }
}

impl Head {
    pub fn id(&self) -> (r: u32)
        ensures
            r == self.id,
    {
        self.id
    }

    pub fn mode(&self) -> (r: Option<Mode>)
        ensures
            r == self.current_mode,
    {
        self.current_mode
    }

    pub fn name(&self) -> (r: &str)
        ensures
            r@ == self.name@,
    {
        self.name.as_str()
    }

    pub fn serial_number(&self) -> (r: &str)
        ensures
            r@ == self.serial_number@,
    {
        self.serial_number.as_str()
    }

    pub fn enabled(&self) -> (r: bool)
        ensures
            r == self.enabled,
    {
        self.enabled
    }

    pub fn make(&self) -> (r: &str)
        ensures
            r@ == self.make@,
    {
        self.make.as_str()
    }

    pub fn model(&self) -> (r: &str)
        ensures
            r@ == self.model@,
    {
        self.model.as_str()
    }

    pub fn position(&self) -> (r: Point)
        ensures
            r == self.position,
    {
        self.position
    }

    pub fn physical_size(&self) -> (r: Point)
        ensures
            r == self.physical_size,
    {
        self.physical_size
    }

    pub fn modes(&self) -> (r: &Vec<Mode>)
        ensures
            r@ == self.modes@,
    {
        &self.modes
    }

    /// Scale factor in 1/256 units.
    pub fn scale(&self) -> (r: i32)
        ensures
            r == self.scale,
    {
        self.scale
    }

    pub fn transform(&self) -> (r: Transform)
        ensures
            r == self.transform,
    {
        self.transform
    }

    /// The size the output takes in the global (logical) space: its current
    /// mode divided by its scale, quarter turns swapping width and height. A
    /// head without a current mode has no size.
    pub fn scaled_corrected_size(&self) -> (r: Result<Point, ClientError>)
        ensures
            match (r, self.current_mode) {
                (Ok(p), Some(m)) => p == corrected_size(m, self.scale, self.transform),
                (Err(e), None) => e@ == ClientErrorView::General("output has no current mode"@),
                _ => false,
            },
    {
        match self.current_mode {
            Some(mode) => {
                let hight = scale_length(mode.size.1, self.scale);
                let width = scale_length(mode.size.0, self.scale);
                if self.transform.is_vertical() {
                    Ok(Point(hight, width))
                } else {
                    Ok(Point(width, hight))
                }
            },
            None => Err(ClientError::from_message("output has no current mode")),
        }
    }
}

/// `head` is picked by `expr`: it is its serial number or its name, or the
/// lower-cased `expr` occurs in the lower-cased make.
pub open spec fn head_matches(head: HeadView, expr: Seq<char>) -> bool {
    head.serial_number == expr || head.name == expr || is_substring(lowercase(expr), lowercase(head.make))
}

/// Whether `head` is picked by `expr`, given the lower-cased forms of `expr`
/// and of the head's make.
pub fn matches_lowered(head: &Head, expr: &str, expr_lower: &str, make_lower: &str) -> (r: bool)
    ensures
        r == (head.serial_number@ == expr@ || head.name@ == expr@ || is_substring(expr_lower@, make_lower@)),
{
    str_eq(head.serial_number.as_str(), expr) || str_eq(head.name.as_str(), expr) || contains_str(make_lower, expr_lower)
}

/// The outputs, each under a name.
pub struct Heads {
    entries: Vec<(String, Head)>,
}

impl View for Heads {
    type V = Seq<(Seq<char>, HeadView)>;

    closed spec fn view(&self) -> Seq<(Seq<char>, HeadView)> {
        Seq::new(self.entries@.len(), |i: int| (self.entries@[i].0@, self.entries@[i].1@))
    }
}

/// `i` is the index of the first output picked by `expr`.
pub open spec fn is_first_match(heads: Seq<(Seq<char>, HeadView)>, expr: Seq<char>, i: int) -> bool {
    &&& 0 <= i < heads.len()
    &&& head_matches(heads[i].1, expr)
    &&& forall|j: int| 0 <= j < i ==> !head_matches(#[trigger] heads[j].1, expr)
}

/// No output is picked by `expr`.
pub open spec fn no_match(heads: Seq<(Seq<char>, HeadView)>, expr: Seq<char>) -> bool {
    forall|j: int| 0 <= j < heads.len() ==> !head_matches(#[trigger] heads[j].1, expr)
}

/// The index of the first output from index `i` on that `expr` picks.
pub open spec fn first_match_from(heads: Seq<(Seq<char>, HeadView)>, expr: Seq<char>, i: int) -> Option<int>
    decreases heads.len() - i,
{
    if i < 0 || i >= heads.len() {
        None
    } else if head_matches(heads[i].1, expr) {
        Some(i)
    } else {
        first_match_from(heads, expr, i + 1)
    }
}

/// The index of the first output that `expr` picks.
pub open spec fn first_match(heads: Seq<(Seq<char>, HeadView)>, expr: Seq<char>) -> Option<int> {
    first_match_from(heads, expr, 0)
}

proof fn lemma_first_match_from(heads: Seq<(Seq<char>, HeadView)>, expr: Seq<char>, k: int)
    requires
        0 <= k <= heads.len(),
        forall|j: int| 0 <= j < k ==> !head_matches(#[trigger] heads[j].1, expr),
    ensures
        match first_match_from(heads, expr, k) {
            Some(i) => is_first_match(heads, expr, i),
            None => no_match(heads, expr),
        },
    decreases heads.len() - k,
{
    if k < heads.len() && !head_matches(heads[k].1, expr) {
        lemma_first_match_from(heads, expr, k + 1);
    }
}

/// [`first_match`] is the first index whose output `expr` picks, and there is
/// none exactly when no output is picked.
pub proof fn lemma_first_match(heads: Seq<(Seq<char>, HeadView)>, expr: Seq<char>)
    ensures
        match first_match(heads, expr) {
            Some(i) => is_first_match(heads, expr, i),
            None => no_match(heads, expr),
        },
{
    lemma_first_match_from(heads, expr, 0);
}

/// The first index picked is unique.
proof fn lemma_first_match_unique(heads: Seq<(Seq<char>, HeadView)>, expr: Seq<char>, i: int)
    requires
        is_first_match(heads, expr, i),
    ensures
        first_match(heads, expr) == Some(i),
{
    lemma_first_match(heads, expr);
    match first_match(heads, expr) {
        Some(j) => {
            if j < i {
                assert(!head_matches(heads[j].1, expr));
            } else if j > i {
                assert(!head_matches(heads[i].1, expr));
            }
        },
        None => {
            assert(!head_matches(heads[i].1, expr));
        },
    }
}

/// The index of the first entry from index `i` on that is named `name`.
pub open spec fn named_from(hs: Seq<(Seq<char>, HeadView)>, name: Seq<char>, i: int) -> Option<int>
    decreases hs.len() - i,
{
    if i < 0 || i >= hs.len() {
        None
    } else if hs[i].0 == name {
        Some(i)
    } else {
        named_from(hs, name, i + 1)
    }
}

/// `hs` with `head` under `name`: it replaces the first entry of that name, or
/// comes last when there is none.
pub open spec fn insert_named(hs: Seq<(Seq<char>, HeadView)>, name: Seq<char>, head: HeadView) -> Seq<
    (Seq<char>, HeadView),
> {
    match named_from(hs, name, 0) {
        Some(i) => hs.update(i, (name, head)),
        None => hs.push((name, head)),
    }
}

proof fn lemma_named_from(hs: Seq<(Seq<char>, HeadView)>, name: Seq<char>, k: int)
    requires
        0 <= k <= hs.len(),
        forall|j: int| 0 <= j < k ==> #[trigger] hs[j].0 != name,
    ensures
        named_from(hs, name, 0) == named_from(hs, name, k),
    decreases k,
{
    if k > 0 {
        lemma_named_from(hs, name, k - 1);
    }
}

impl Heads {
    pub fn new() -> (r: Heads)
        ensures
            r@ == Seq::<(Seq<char>, HeadView)>::empty(),
    {
        let r = Heads { entries: Vec::new() };
        assert(r@ =~= Seq::<(Seq<char>, HeadView)>::empty());
        r
    }

    /// Number of outputs.
    pub fn len(&self) -> (r: usize)
        ensures
            r == self@.len(),
    {
        self.entries.len()
    }

    /// Adds `head` under `name`, replacing the output already under that name.
    pub fn insert(&mut self, name: String, head: Head)
        ensures
            final(self)@ == insert_named(old(self)@, name@, head@),
    {
        let ghost h0 = self@;
        let mut i: usize = 0;
        while i < self.entries.len()
            invariant
                self@ == h0,
                h0 == old(self)@,
                i <= h0.len(),
                forall|j: int| 0 <= j < i ==> #[trigger] h0[j].0 != name@,
            decreases h0.len() - i,
        {
            if str_eq(self.entries[i].0.as_str(), name.as_str()) {
                let ghost nv = name@;
                let ghost hv = head@;
                proof {
                    lemma_named_from(h0, nv, i as int);
                }
                self.entries.set(i, (name, head));
                assert(self@ =~= h0.update(i as int, (nv, hv)));
                return;
            }
            i = i + 1;
        }
        proof {
            lemma_named_from(h0, name@, i as int);
        }
        let ghost nv = name@;
        let ghost hv = head@;
        self.entries.push((name, head));
        assert(self@ =~= h0.push((nv, hv)));
    }

    /// The outputs, in order.
    pub fn heads(&self) -> (r: Vec<&Head>)
        ensures
            r@.len() == self@.len(),
            forall|i: int| 0 <= i < r@.len() ==> (#[trigger] r@[i])@ == self@[i].1,
    {
        let mut r: Vec<&Head> = Vec::new();
        let mut i: usize = 0;
        while i < self.entries.len()
            invariant
                i <= self@.len(),
                r@.len() == i,
                forall|k: int| 0 <= k < i ==> (#[trigger] r@[k])@ == self@[k].1,
            decreases self@.len() - i,
        {
            r.push(&self.entries[i].1);
            i = i + 1;
        }
        r
    }

    /// The output at index `i`.
    pub fn get(&self, i: usize) -> (r: &Head)
        requires
            i < self@.len(),
        ensures
            r@ == self@[i as int].1,
    {
        &self.entries[i].1
    }

    /// The first output picked by `expr`: by serial number, by name, or by a
    /// case-insensitive part of its make.
    pub fn find(&self, expr: &str) -> (r: Option<&Head>)
        ensures
            match (r, first_match(self@, expr@)) {
                (Some(h), Some(i)) => 0 <= i < self@.len() && h@ == self@[i].1,
                (None, None) => true,
                _ => false,
            },
    {
        proof {
            lemma_first_match(self@, expr@);
        }
        match self.find_index(expr) {
            Some(i) => Some(&self.entries[i].1),
            None => None,
        }
    }

    /// The index of the first output picked by `expr`.
    pub fn find_index(&self, expr: &str) -> (r: Option<usize>)
        ensures
            match r {
                Some(i) => first_match(self@, expr@) == Some(i as int),
                None => first_match(self@, expr@) is None,
            },
    {
        let expr_lower = to_lowercase(expr);
        let mut i: usize = 0;
        while i < self.entries.len()
            invariant
                i <= self@.len(),
                expr_lower@ == lowercase(expr@),
                forall|j: int| 0 <= j < i ==> !head_matches(#[trigger] self@[j].1, expr@),
            decreases self@.len() - i,
        {
            let head = &self.entries[i].1;
            let make_lower = to_lowercase(head.make.as_str());
            if matches_lowered(head, expr, expr_lower.as_str(), make_lower.as_str()) {
                assert(head_matches(self@[i as int].1, expr@));
                proof {
                    lemma_first_match_unique(self@, expr@, i as int);
                }
                return Some(i);
            }
            i = i + 1;
        }
        proof {
            lemma_first_match(self@, expr@);
        }
        None
    }
}

} // verus!
