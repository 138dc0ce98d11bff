//! Distance constraints: rigid links and breakable springs.
use vstd::prelude::*;
use crate::fixed::{
    abs, floor_sqrt, isqrt, lemma_floor_sqrt_mono, lemma_sqrt_unique, mul_div, tdiv, LIMIT,
    MAX_LEN, ONE,
};
use crate::particle::{sat_vec, saturate_vec, Particle, Vec2};

verus! {

/// A rigid distance constraint between two particles, solved with full stiffness.
#[derive(Clone, Copy, Debug, PartialEq, Eq, Structural)]
pub struct Link {
    pub particle_a: usize,
    pub particle_b: usize,
    pub target_distance: i64,
}

/// An elastic distance constraint. A non-negative `permanence_threshold`
/// lets the spring break once its relative stretch exceeds it; a negative
/// one makes it permanent.
#[derive(Clone, Copy, Debug, PartialEq, Eq, Structural)]
pub struct Spring {
    pub particle_a: usize,
    pub particle_b: usize,
    pub rest_length: i64,
    /// Fraction of the length error corrected per step, in `[0, ONE]`.
    pub stiffness: i64,
    pub permanence_threshold: i64,
}

impl Link {
    pub open spec fn wf(self, n: nat) -> bool {
        &&& self.particle_a < n
        &&& self.particle_b < n
        &&& 0 <= self.target_distance <= MAX_LEN
    }
}

impl Link {
    /// Whether the link joins two of `n` particles with a valid target.
    pub fn is_valid(&self, n: usize) -> (r: bool)
        ensures
            r == self.wf(n as nat),
    {
        self.particle_a < n && self.particle_b < n && 0 <= self.target_distance
            && self.target_distance <= MAX_LEN
    }
}

impl Spring {
    /// Whether the spring joins two of `n` particles with valid coefficients.
    pub fn is_valid(&self, n: usize) -> (r: bool)
        ensures
            r == self.wf(n as nat),
    {
        self.particle_a < n && self.particle_b < n && 0 <= self.rest_length && self.rest_length
            <= MAX_LEN && 0 <= self.stiffness && self.stiffness <= ONE
    }

    pub open spec fn wf(self, n: nat) -> bool {
        &&& self.particle_a < n
        &&& self.particle_b < n
        &&& 0 <= self.rest_length <= MAX_LEN
        &&& 0 <= self.stiffness <= ONE
    }
}

/// Every particle of `ps` is well formed.
pub open spec fn all_wf(ps: Seq<Particle>) -> bool {
    forall|i: int| 0 <= i < ps.len() ==> #[trigger] ps[i].wf()
}

/// Euclidean distance between two points, rounded down.
pub open spec fn dist(a: Vec2, b: Vec2) -> int {
    let dx = b.x - a.x;
    let dy = b.y - a.y;
    floor_sqrt((dx * dx + dy * dy) as nat) as int
}

/// Each coordinate difference is at most the distance.
pub proof fn lemma_dist_bounds(a: Vec2, b: Vec2)
    ensures
        abs(b.x - a.x) <= dist(a, b),
        abs(b.y - a.y) <= dist(a, b),
{
    let dx = b.x - a.x;
    let dy = b.y - a.y;
    assert(dx * dx >= 0 && dy * dy >= 0) by (nonlinear_arith);
    let n = (dx * dx + dy * dy) as nat;
    lemma_floor_sqrt_mono((dx * dx) as nat, n);
    lemma_floor_sqrt_mono((dy * dy) as nat, n);
    let ax = abs(dx) as nat;
    let ay = abs(dy) as nat;
    assert(ax * ax == dx * dx) by (nonlinear_arith)
        requires
            ax == dx || ax == -dx,
    ;
    assert(ay * ay == dy * dy) by (nonlinear_arith)
        requires
            ay == dy || ay == -dy,
    ;
    crate::fixed::lemma_floor_sqrt((dx * dx) as nat);
    crate::fixed::lemma_floor_sqrt((dy * dy) as nat);
    assert(((dx * dx) as nat) < (ax + 1) * (ax + 1)) by (nonlinear_arith)
        requires
            ax * ax == dx * dx,
    ;
    assert(((dy * dy) as nat) < (ay + 1) * (ay + 1)) by (nonlinear_arith)
        requires
            ay * ay == dy * dy,
    ;
    lemma_sqrt_unique((dx * dx) as nat, ax, floor_sqrt((dx * dx) as nat));
    lemma_sqrt_unique((dy * dy) as nat, ay, floor_sqrt((dy * dy) as nat));
}

/// The distance between two points in the coordinate range.
pub fn distance(a: Vec2, b: Vec2) -> (r: i128)
    requires
        a.in_limit(),
        b.in_limit(),
    ensures
        r == dist(a, b),
        0 <= r <= 0x800_0000_0000,
        abs(b.x - a.x) <= r,
        abs(b.y - a.y) <= r,
{
    let dx: i128 = b.x as i128 - a.x as i128;
    let dy: i128 = b.y as i128 - a.y as i128;
    assert(dx * dx <= 0x4_0000_0000_0000_0000_0000) by (nonlinear_arith)
        requires
            abs(dx as int) <= 2 * LIMIT,
    ;
    assert(dy * dy <= 0x4_0000_0000_0000_0000_0000) by (nonlinear_arith)
        requires
            abs(dy as int) <= 2 * LIMIT,
    ;
    assert(dx * dx >= 0 && dy * dy >= 0) by (nonlinear_arith);
    assert(dx * dx + dy * dy <= 0x40_0000_0000_0000_0000_0000);
    let sq: u128 = (dx * dx + dy * dy) as u128;
    let r = isqrt(sq);
    proof {
        lemma_dist_bounds(a, b);
    }
    r as i128
}

/// Moves `a` by `+c` and `b` by `-c`, each weighted by its share of the
/// pair's total inverse mass.
pub open spec fn shared_move(a: Particle, b: Particle, cx: int, cy: int) -> (Particle, Particle) {
    let w = a.inverse_mass + b.inverse_mass;
    (
        Particle {
            pos: sat_vec(
                a.pos.x + tdiv(cx * a.inverse_mass, w),
                a.pos.y + tdiv(cy * a.inverse_mass, w),
            ),
            ..a
        },
        Particle {
            pos: sat_vec(
                b.pos.x - tdiv(cx * b.inverse_mass, w),
                b.pos.y - tdiv(cy * b.inverse_mass, w),
            ),
            ..b
        },
    )
}

/// The pair after driving its distance toward `target` by the fraction
/// `k / ONE` of the error. A pair at distance zero or of zero total inverse
/// mass is left as it is.
pub open spec fn pair_corrected(a: Particle, b: Particle, target: int, k: int) -> (
    Particle,
    Particle,
) {
    let dx = b.pos.x - a.pos.x;
    let dy = b.pos.y - a.pos.y;
    let d = dist(a.pos, b.pos);
    if d == 0 || a.inverse_mass + b.inverse_mass == 0 {
        (a, b)
    } else {
        let diff = d - target;
        shared_move(
            a,
            b,
            tdiv(tdiv(dx * diff, d) * k, ONE as int),
            tdiv(tdiv(dy * diff, d) * k, ONE as int),
        )
    }
}

/// `ps` with the pair `(i, j)` replaced by the corrected pair.
pub open spec fn pair_applied(ps: Seq<Particle>, i: int, j: int, target: int, k: int) -> Seq<
    Particle,
> {
    if i == j {
        ps
    } else {
        let r = pair_corrected(ps[i], ps[j], target, k);
        ps.update(i, r.0).update(j, r.1)
    }
}

pub open spec fn link_applied(ps: Seq<Particle>, l: Link) -> Seq<Particle> {
    pair_applied(ps, l.particle_a as int, l.particle_b as int, l.target_distance as int, ONE as int)
}

pub open spec fn spring_applied(ps: Seq<Particle>, s: Spring) -> Seq<Particle> {
    pair_applied(ps, s.particle_a as int, s.particle_b as int, s.rest_length as int, s.stiffness as int)
}

/// The spring breaks when breaking is enabled and its relative stretch
/// `(length - rest_length) / rest_length` exceeds the threshold.
pub open spec fn spring_breaks(ps: Seq<Particle>, s: Spring) -> bool {
    let d = dist(ps[s.particle_a as int].pos, ps[s.particle_b as int].pos);
    s.permanence_threshold >= 0 && (d - s.rest_length) * ONE > s.permanence_threshold
        * s.rest_length
}

/// The links solved one after the other, in order.
pub open spec fn links_applied(ps: Seq<Particle>, ls: Seq<Link>) -> Seq<Particle>
    decreases ls.len(),
{
    if ls.len() == 0 {
        ps
    } else {
        link_applied(links_applied(ps, ls.drop_last()), ls.last())
    }
}

/// The springs solved one after the other, in order: the particles after
/// them and the springs that did not break.
pub open spec fn springs_applied(ps: Seq<Particle>, ss: Seq<Spring>) -> (Seq<Particle>, Seq<Spring>)
    decreases ss.len(),
{
    if ss.len() == 0 {
        (ps, Seq::empty())
    } else {
        let prev = springs_applied(ps, ss.drop_last());
        let s = ss.last();
        if spring_breaks(prev.0, s) {
            prev
        } else {
            (spring_applied(prev.0, s), prev.1.push(s))
        }
    }
}

/// Corrects the pair `(i, j)` of `ps` toward the distance `target` by the
/// fraction `k / ONE` of the error.
fn correct_pair(ps: &mut Vec<Particle>, i: usize, j: usize, target: i64, k: i64)
    requires
        all_wf(old(ps)@),
        i < old(ps)@.len(),
        j < old(ps)@.len(),
        0 <= target <= MAX_LEN,
        0 <= k <= ONE,
    ensures
        final(ps)@ == pair_applied(old(ps)@, i as int, j as int, target as int, k as int),
        final(ps)@.len() == old(ps)@.len(),
        all_wf(final(ps)@),
{
    if i == j {
        return ;
    }
    let a = ps[i];
    let b = ps[j];
    assert(a.wf() && b.wf());
    let d = distance(a.pos, b.pos);
    let w: i128 = a.inverse_mass as i128 + b.inverse_mass as i128;
    if d == 0 || w == 0 {
        return ;
    }
    let dx: i128 = b.pos.x as i128 - a.pos.x as i128;
    let dy: i128 = b.pos.y as i128 - a.pos.y as i128;
    let diff: i128 = d - target as i128;
    let cx0 = mul_div(dx, diff, d);
    let cy0 = mul_div(dy, diff, d);
    let cx = mul_div(cx0, k as i128, ONE as i128);
    let cy = mul_div(cy0, k as i128, ONE as i128);
    let sax = mul_div(cx, a.inverse_mass as i128, w);
    let say = mul_div(cy, a.inverse_mass as i128, w);
    let sbx = mul_div(cx, b.inverse_mass as i128, w);
    let sby = mul_div(cy, b.inverse_mass as i128, w);
    let na = Particle {
        pos: saturate_vec(a.pos.x as i128 + sax, a.pos.y as i128 + say),
        ..a
    };
    let nb = Particle {
        pos: saturate_vec(b.pos.x as i128 - sbx, b.pos.y as i128 - sby),
        ..b
    };
    ps.set(i, na);
    ps.set(j, nb);
    proof {
        let r = pair_corrected(a, b, target as int, k as int);
        assert(r.0 == na);
        assert(r.1 == nb);
        assert forall|m: int| 0 <= m < ps@.len() implies #[trigger] ps@[m].wf() by {
            if m != i && m != j {
                assert(ps@[m] == old(ps)@[m]);
            }
        }
    }
}

/// Solves one link on `ps`.
pub fn solve_link(ps: &mut Vec<Particle>, l: Link)
    requires
        all_wf(old(ps)@),
        l.wf(old(ps)@.len()),
    ensures
        final(ps)@ == link_applied(old(ps)@, l),
        final(ps)@.len() == old(ps)@.len(),
        all_wf(final(ps)@),
{
    correct_pair(ps, l.particle_a, l.particle_b, l.target_distance, ONE);
}

/// Solves every link of `ls` in order on `ps`.
pub fn solve_links(ps: &mut Vec<Particle>, ls: &Vec<Link>)
    requires
        all_wf(old(ps)@),
        forall|i: int| 0 <= i < ls@.len() ==> #[trigger] ls@[i].wf(old(ps)@.len()),
    ensures
        final(ps)@ == links_applied(old(ps)@, ls@),
        final(ps)@.len() == old(ps)@.len(),
        all_wf(final(ps)@),
{
    let ghost start = ps@;
    let mut i: usize = 0;
    while i < ls.len()
        invariant
            i <= ls@.len(),
            ps@.len() == start.len(),
            all_wf(ps@),
            forall|m: int| 0 <= m < ls@.len() ==> #[trigger] ls@[m].wf(start.len()),
            ps@ == links_applied(start, ls@.subrange(0, i as int)),
        decreases ls@.len() - i,
    {
        let l = ls[i];
        assert(ls@[i as int].wf(start.len()));
        solve_link(ps, l);
        proof {
            let pre = ls@.subrange(0, i as int + 1);
            assert(pre.drop_last() =~= ls@.subrange(0, i as int));
            assert(pre.last() == l);
        }
        i = i + 1;
    }
    assert(ls@.subrange(0, ls@.len() as int) =~= ls@);
}

/// Whether the spring breaks on the current positions of `ps`.
pub fn breaks(ps: &Vec<Particle>, s: Spring) -> (r: bool)
    requires
        all_wf(ps@),
        s.wf(ps@.len()),
    ensures
        r == spring_breaks(ps@, s),
{
    let a = ps[s.particle_a];
    let b = ps[s.particle_b];
    assert(a.wf() && b.wf());
    let d = distance(a.pos, b.pos);
    if s.permanence_threshold < 0 {
        return false;
    }
    let excess: i128 = d - s.rest_length as i128;
    assert(abs(excess as int) <= 0x1000_0000_0000);
    let stretch: i128 = excess * 65536;
    assert(abs(s.permanence_threshold * s.rest_length) <= 0x8000_0000_0000_0000 * MAX_LEN)
        by (nonlinear_arith)
        requires
            0 <= s.rest_length <= MAX_LEN,
            0 <= s.permanence_threshold <= 0x8000_0000_0000_0000,
    ;
    let limit: i128 = (s.permanence_threshold as i128) * (s.rest_length as i128);
    stretch > limit
}

/// Solves every spring of `ss` in order on `ps`, and returns the springs
/// that did not break.
pub fn solve_springs(ps: &mut Vec<Particle>, ss: &Vec<Spring>) -> (kept: Vec<Spring>)
    requires
        all_wf(old(ps)@),
        forall|i: int| 0 <= i < ss@.len() ==> #[trigger] ss@[i].wf(old(ps)@.len()),
    ensures
        (final(ps)@, kept@) == springs_applied(old(ps)@, ss@),
        final(ps)@.len() == old(ps)@.len(),
        all_wf(final(ps)@),
{
    let ghost start = ps@;
    let mut kept: Vec<Spring> = Vec::new();
    let mut i: usize = 0;
    while i < ss.len()
        invariant
            i <= ss@.len(),
            ps@.len() == start.len(),
            all_wf(ps@),
            forall|m: int| 0 <= m < ss@.len() ==> #[trigger] ss@[m].wf(start.len()),
            (ps@, kept@) == springs_applied(start, ss@.subrange(0, i as int)),
        decreases ss@.len() - i,
    {
        let s = ss[i];
        assert(ss@[i as int].wf(start.len()));
        proof {
            let pre = ss@.subrange(0, i as int + 1);
            assert(pre.drop_last() =~= ss@.subrange(0, i as int));
            assert(pre.last() == s);
        }
        if !breaks(ps, s) {
            correct_pair(ps, s.particle_a, s.particle_b, s.rest_length, s.stiffness);
            kept.push(s);
        }
        i = i + 1;
    }
    assert(ss@.subrange(0, ss@.len() as int) =~= ss@);
    kept
}

/// `c * w / (2 * w)` is `c / 2`, both truncated toward zero.
proof fn lemma_equal_share(c: int, w: int)
    requires
        w > 0,
    ensures
        tdiv(c * w, w + w) == tdiv(c, 2),
{
    let m = abs(c);
    assert(abs(c * w) == m * w) by (nonlinear_arith)
        requires
            m == abs(c),
            w > 0,
    ;
    assert((m * w) / (w + w) == m / 2) by {
        assert(w + w == w * 2);
        vstd::arithmetic::div_mod::lemma_div_denominator(m * w, w, 2);
        assert(m * w == w * m) by (nonlinear_arith);
        vstd::arithmetic::div_mod::lemma_div_multiples_vanish(m, w);
    }
    if c >= 0 {
        assert(c * w >= 0) by (nonlinear_arith)
            requires
                c >= 0,
                w > 0,
        ;
    } else {
        assert(c * w < 0) by (nonlinear_arith)
            requires
                c < 0,
                w > 0,
        ;
    }
}

/// `c * ONE / ONE` is `c`.
proof fn lemma_full_scale(c: int)
    ensures
        tdiv(c * ONE, ONE as int) == c,
{
    let m = abs(c);
    vstd::arithmetic::div_mod::lemma_div_multiples_vanish(m, ONE as int);
    assert(ONE * m == m * ONE) by (nonlinear_arith);
    if c >= 0 {
        assert(c * ONE >= 0) by (nonlinear_arith)
            requires
                c >= 0,
        ;
    } else {
        assert(c * ONE < 0 && -(c * ONE) == m * ONE) by (nonlinear_arith)
            requires
                c < 0,
                m == -c,
        ;
    }
}

/// Solving a link between two particles of equal, non-zero inverse mass
/// moves them by equal and opposite amounts, each half of the correction
/// `(b - a) * (d - target) / d` that brings their distance `d` to the target
/// (halved with truncation toward zero; positions saturate at the
/// coordinate limit).
pub proof fn lemma_link_halves(a: Particle, b: Particle, target: int)
    requires
        a.inverse_mass == b.inverse_mass,
        a.inverse_mass > 0,
        dist(a.pos, b.pos) > 0,
    ensures
        ({
            let r = pair_corrected(a, b, target, ONE as int);
            let d = dist(a.pos, b.pos);
            let cx = tdiv((b.pos.x - a.pos.x) * (d - target), d);
            let cy = tdiv((b.pos.y - a.pos.y) * (d - target), d);
            &&& r.0.pos == sat_vec(a.pos.x + tdiv(cx, 2), a.pos.y + tdiv(cy, 2))
            &&& r.1.pos == sat_vec(b.pos.x - tdiv(cx, 2), b.pos.y - tdiv(cy, 2))
        }),
{
    let d = dist(a.pos, b.pos);
    let cx = tdiv((b.pos.x - a.pos.x) * (d - target), d);
    let cy = tdiv((b.pos.y - a.pos.y) * (d - target), d);
    lemma_full_scale(cx);
    lemma_full_scale(cy);
    lemma_equal_share(cx, a.inverse_mass as int);
    lemma_equal_share(cy, a.inverse_mass as int);
}

/// A spring whose threshold is negative never breaks, whatever its stretch:
/// a pass over springs that are all permanent keeps every one of them.
pub proof fn lemma_permanent_springs_kept(ps: Seq<Particle>, ss: Seq<Spring>)
    requires
        forall|i: int| 0 <= i < ss.len() ==> #[trigger] ss[i].permanence_threshold < 0,
    ensures
        springs_applied(ps, ss).1 == ss,
    decreases ss.len(),
{
    if ss.len() > 0 {
        let q = ss.drop_last();
        assert forall|i: int| 0 <= i < q.len() implies #[trigger] q[i].permanence_threshold < 0 by {
            assert(q[i] == ss[i]);
        }
        lemma_permanent_springs_kept(ps, q);
        assert(ss[ss.len() - 1].permanence_threshold < 0);
        assert(q.push(ss.last()) =~= ss);
    }
}

/// A spring with a threshold `t >= 0` whose relative stretch exceeds `t`
/// when it is solved breaks: it leaves the active set and moves nothing.
pub proof fn lemma_stretched_spring_breaks(ps: Seq<Particle>, s: Spring)
    requires
        s.wf(ps.len()),
        s.permanence_threshold >= 0,
        (dist(ps[s.particle_a as int].pos, ps[s.particle_b as int].pos) - s.rest_length) * ONE
            > s.permanence_threshold * s.rest_length,
    ensures
        springs_applied(ps, seq![s]) == (ps, Seq::<Spring>::empty()),
{
    let ss = seq![s];
    assert(ss.drop_last() =~= Seq::<Spring>::empty());
    assert(ss.last() == s);
    assert(springs_applied(ps, Seq::<Spring>::empty()) == (ps, Seq::<Spring>::empty()));
    assert(spring_breaks(ps, s));
}

} // verus!
