//! The record/replay format: one text line per simulated frame, holding the
//! positions of every polygon vertex as comma-separated `x,y` pairs of raw
//! fixed-point integers, polygon by polygon.
use vstd::prelude::*;
use crate::collision::models;
use crate::particle::Vec2;
use crate::polygon::{Polygon, PolygonModel};
use crate::world::Solver;

verus! {

/// The vertex positions of the polygons, polygon by polygon.
pub open spec fn frame_of(ms: Seq<PolygonModel>) -> Seq<Vec2>
    decreases ms.len(),
{
    if ms.len() == 0 {
        Seq::empty()
    } else {
        frame_of(ms.drop_last()) + ms.last().particles.map_values(|p: crate::particle::Particle| p.pos)
    }
}

/// Decimal digits of `n`, most significant first, as ASCII.
pub open spec fn digits(n: nat) -> Seq<u8>
    decreases n,
{
    if n < 10 {
        seq![(48 + n) as u8]
    } else {
        digits(n / 10).push((48 + n % 10) as u8)
    }
}

/// `v` in decimal, with a leading `-` when negative.
pub open spec fn int_text(v: int) -> Seq<u8> {
    if v < 0 {
        seq![45u8] + digits((-v) as nat)
    } else {
        digits(v as nat)
    }
}

/// `x,y`.
pub open spec fn pair_text(p: Vec2) -> Seq<u8> {
    int_text(p.x as int) + seq![44u8] + int_text(p.y as int)
}

/// The pairs of the frame joined by commas.
pub open spec fn frame_text(f: Seq<Vec2>) -> Seq<u8>
    decreases f.len(),
{
    if f.len() == 0 {
        Seq::empty()
    } else if f.len() == 1 {
        pair_text(f[0])
    } else {
        frame_text(f.drop_last()) + seq![44u8] + pair_text(f.last())
    }
}

/// The vertex positions of every polygon of the world, polygon by polygon.
pub fn frame_positions(solver: &Solver) -> (r: Vec<Vec2>)
    ensures
        r@ == frame_of(solver@.polygons),
{
    let polys: &Vec<Polygon> = solver.get_polygons();
    let mut r: Vec<Vec2> = Vec::new();
    let mut i: usize = 0;
    while i < polys.len()
        invariant
            i <= polys@.len(),
            r@ == frame_of(models(polys@).subrange(0, i as int)),
        decreases polys@.len() - i,
    {
        let ps = &polys[i].particles;
        let ghost before = r@;
        let mut k: usize = 0;
        while k < ps.len()
            invariant
                k <= ps@.len(),
                r@ == before + ps@.subrange(0, k as int).map_values(|p: crate::particle::Particle| p.pos),
            decreases ps@.len() - k,
        {
            r.push(ps[k].pos);
            k = k + 1;
            assert(r@ =~= before + ps@.subrange(0, k as int).map_values(|p: crate::particle::Particle| p.pos));
        }
        proof {
            let ms = models(polys@);
            assert(ms.subrange(0, i as int + 1).drop_last() =~= ms.subrange(0, i as int));
            assert(ms.subrange(0, i as int + 1).last() == polys@[i as int]@);
            assert(ps@.subrange(0, ps@.len() as int) =~= ps@);
        }
        i = i + 1;
    }
    assert(models(polys@).subrange(0, polys@.len() as int) =~= models(polys@));
    r
}

/// Appends the decimal digits of `n`.
fn push_digits(out: &mut Vec<u8>, n: u64)
    ensures
        final(out)@ == old(out)@ + digits(n as nat),
    decreases n,
{
    if n >= 10 {
        push_digits(out, n / 10);
    }
    out.push((48 + n % 10) as u8);
    proof {
        if n >= 10 {
            assert(old(out)@ + digits(n as nat) =~= old(out)@ + digits((n / 10) as nat) + seq![
                (48 + n % 10) as u8,
            ]);
        } else {
            assert(old(out)@ + digits(n as nat) =~= old(out)@ + seq![(48 + n % 10) as u8]);
        }
    }
}

/// Appends `v` in decimal.
fn push_int(out: &mut Vec<u8>, v: i64)
    ensures
        final(out)@ == old(out)@ + int_text(v as int),
{
    if v < 0 {
        out.push(45u8);
        let m: u64 = (-(v as i128)) as u64;
        push_digits(out, m);
        assert(final(out)@ =~= old(out)@ + int_text(v as int)) by {
            assert(old(out)@.push(45u8) + digits(m as nat) =~= old(out)@ + (seq![45u8] + digits(m as nat)));
        }
    } else {
        push_digits(out, v as u64);
    }
}

/// The text line of a frame.
pub fn format_frame(frame: &Vec<Vec2>) -> (r: Vec<u8>)
    ensures
        r@ == frame_text(frame@),
{
    let mut out: Vec<u8> = Vec::new();
    let mut i: usize = 0;
    while i < frame.len()
        invariant
            i <= frame@.len(),
            out@ == frame_text(frame@.subrange(0, i as int)),
        decreases frame@.len() - i,
    {
        let ghost before = out@;
        if i > 0 {
            out.push(44u8);
        }
        let p = frame[i];
        push_int(&mut out, p.x);
        out.push(44u8);
        push_int(&mut out, p.y);
        proof {
            let pre = frame@.subrange(0, i as int + 1);
            assert(pre.drop_last() =~= frame@.subrange(0, i as int));
            assert(pre.last() == p);
            if i == 0 {
                assert(pre.len() == 1 && pre[0] == p);
                assert(out@ =~= pair_text(p));
            } else {
                assert(out@ =~= before + seq![44u8] + pair_text(p));
            }
        }
        i = i + 1;
    }
    assert(frame@.subrange(0, frame@.len() as int) =~= frame@);
    out
}

/// Number of points that differ between a recorded run and a replayed one,
/// over the frames and points that both hold.
pub open spec fn frame_mismatches(a: Seq<Vec2>, b: Seq<Vec2>, n: nat) -> nat
    decreases n,
{
    if n == 0 {
        0
    } else {
        frame_mismatches(a, b, (n - 1) as nat) + if a[n - 1] != b[n - 1] {
            1nat
        } else {
            0nat
        }
    }
}

pub open spec fn min(a: nat, b: nat) -> nat {
    if a < b {
        a
    } else {
        b
    }
}

pub open spec fn run_mismatches(a: Seq<Vec<Vec2>>, b: Seq<Vec<Vec2>>, n: nat) -> nat
    decreases n,
{
    if n == 0 {
        0
    } else {
        let x = a[n - 1]@;
        let y = b[n - 1]@;
        run_mismatches(a, b, (n - 1) as nat) + frame_mismatches(x, y, min(x.len(), y.len()))
    }
}

/// Counts the points where a replayed run differs from the recorded one.
pub fn count_mismatches(recorded: &Vec<Vec<Vec2>>, replayed: &Vec<Vec<Vec2>>) -> (r: u64)
    requires
        forall|i: int| 0 <= i < recorded@.len() ==> #[trigger] recorded@[i]@.len() <= 0x1_0000_0000,
        recorded@.len() < 0x1_0000_0000,
    ensures
        r == run_mismatches(recorded@, replayed@, min(recorded@.len(), replayed@.len())),
{
    let n = if recorded.len() < replayed.len() {
        recorded.len()
    } else {
        replayed.len()
    };
    let mut total: u64 = 0;
    let mut i: usize = 0;
    while i < n
        invariant
            n == min(recorded@.len(), replayed@.len()),
            i <= n,
            n < 0x1_0000_0000,
            forall|m: int| 0 <= m < recorded@.len() ==> #[trigger] recorded@[m]@.len() <= 0x1_0000_0000,
            total == run_mismatches(recorded@, replayed@, i as nat),
            total <= i * 0x1_0000_0000,
        decreases n - i,
    {
        let a = &recorded[i];
        let b = &replayed[i];
        let m = if a.len() < b.len() {
            a.len()
        } else {
            b.len()
        };
        assert(recorded@[i as int]@.len() <= 0x1_0000_0000);
        let mut c: u64 = 0;
        let mut k: usize = 0;
        while k < m
            invariant
                m == min(a@.len(), b@.len()),
                m <= 0x1_0000_0000,
                k <= m,
                c == frame_mismatches(a@, b@, k as nat),
                c <= k,
            decreases m - k,
        {
            if a[k] != b[k] {
                c = c + 1;
            }
            k = k + 1;
        }
        assert(total + c <= (i + 1) * 0x1_0000_0000) by (nonlinear_arith)
            requires
                total <= i * 0x1_0000_0000,
                c <= 0x1_0000_0000,
        ;
        assert((i + 1) * 0x1_0000_0000 <= 0xffff_ffff * 0x1_0000_0000) by (nonlinear_arith)
            requires
                i + 1 <= 0xffff_ffff,
        ;
        total = total + c;
        i = i + 1;
    }
    total
}

/// The number that a string of decimal digits spells.
pub open spec fn digits_value(s: Seq<u8>) -> nat
    decreases s.len(),
{
    if s.len() == 0 {
        0
    } else {
        digits_value(s.drop_last()) * 10 + ((s.last() - 48) as nat)
    }
}

pub open spec fn is_digit_byte(b: u8) -> bool {
    48 <= b <= 57
}

/// `digits(n)` is a non-empty string of digits that spells `n`, and starts
/// with a zero only when it is `0`.
proof fn lemma_digits_shape(n: nat)
    ensures
        digits(n).len() >= 1,
        forall|k: int| 0 <= k < digits(n).len() ==> is_digit_byte(#[trigger] digits(n)[k]),
        digits_value(digits(n)) == n,
        n >= 1 ==> digits(n)[0] != 48u8,
        n == 0 ==> digits(n) == seq![48u8],
    decreases n,
{
    assert(digits_value(Seq::<u8>::empty()) == 0);
    if n >= 10 {
        lemma_digits_shape(n / 10);
        let s = digits(n);
        assert(s.drop_last() == digits(n / 10));
        assert(s.last() == (48 + n % 10) as u8);
        assert(digits_value(s) == digits_value(digits(n / 10)) * 10 + n % 10);
        assert forall|k: int| 0 <= k < s.len() implies is_digit_byte(#[trigger] s[k]) by {
            if k < s.len() - 1 {
                assert(s[k] == digits(n / 10)[k]);
            }
        }
        vstd::arithmetic::div_mod::lemma_fundamental_div_mod(n as int, 10);
        assert(s[0] == digits(n / 10)[0]);
    } else {
        let s = digits(n);
        assert(s.drop_last() =~= Seq::<u8>::empty());
        assert(digits_value(s) == n);
    }
}

/// A prefix of a digit string spells at most what the whole string spells.
proof fn lemma_prefix_value(s: Seq<u8>, k: int)
    requires
        0 <= k <= s.len(),
        forall|m: int| 0 <= m < s.len() ==> is_digit_byte(#[trigger] s[m]),
    ensures
        digits_value(s.subrange(0, k)) <= digits_value(s),
    decreases s.len() - k,
{
    if k < s.len() {
        lemma_prefix_value(s, k + 1);
        let t = s.subrange(0, k + 1);
        assert(t.drop_last() =~= s.subrange(0, k));
        assert(t.last() == s[k]);
    } else {
        assert(s.subrange(0, k) =~= s);
    }
}

proof fn lemma_digits_step(n: nat, d: nat)
    requires
        n >= 1,
        d < 10,
    ensures
        digits(n * 10 + d) == digits(n).push((48 + d) as u8),
{
    let m = n * 10 + d;
    vstd::arithmetic::div_mod::lemma_fundamental_div_mod_converse(m as int, 10, n as int, d as int);
}

fn is_digit(b: u8) -> (r: bool)
    ensures
        r == (48 <= b <= 57),
{
    48 <= b && b <= 57
}

/// The integer `v` is written at `i .. j` of `line`, followed by a comma
/// or by the end of the line.
pub open spec fn int_at(line: Seq<u8>, i: int, j: int, v: i64) -> bool {
    &&& 0 <= i < j <= line.len()
    &&& line.subrange(i, j) == int_text(v as int)
    &&& (j == line.len() || line[j] == 44u8)
}

/// Reads an integer written as `int_text` writes it, starting at `i` and
/// ending at the end of the line or before a comma.
fn read_int(line: &Vec<u8>, i: usize) -> (r: Option<(i64, usize)>)
    requires
        i <= line@.len(),
    ensures
        r matches Some((v, j)) ==> int_at(line@, i as int, j as int, v),
        forall|v: i64, j: int| #[trigger] int_at(line@, i as int, j, v) ==> r == Some((v, j as usize)),
{
    let ghost target: Option<(i64, int)> = if exists|v: i64, j: int| #[trigger] int_at(line@, i as int, j, v) {
        let (v, j) = choose|v: i64, j: int| #[trigger] int_at(line@, i as int, j, v);
        Some((v, j))
    } else {
        None
    };
    let ghost mag: nat = match target {
        Some((v, _)) => if v < 0 {
            (-v) as nat
        } else {
            v as nat
        },
        None => 0,
    };
    let ghost dstart: int = match target {
        Some((v, _)) => if v < 0 {
            i + 1
        } else {
            i as int
        },
        None => 0,
    };
    proof {
        if exists|v: i64, j: int| #[trigger] int_at(line@, i as int, j, v) {
            assert(target is Some);
        }
        if let Some((v, j)) = target {
            assert(int_at(line@, i as int, j, v));
            lemma_digits_shape(mag);
            let t = line@.subrange(i as int, j);
            assert(t == int_text(v as int));
            let ds = line@.subrange(dstart, j);
            if v < 0 {
                let full = seq![45u8] + digits(mag);
                assert(t =~= full);
                assert(ds =~= t.subrange(1, t.len() as int));
                assert(full.subrange(1, full.len() as int) =~= digits(mag));
            } else {
                assert(ds =~= t);
            }
            assert(ds == digits(mag));
        }
    }
    if i >= line.len() {
        return None;
    }
    let neg = line[i] == 45u8;
    proof {
        if let Some((v, j)) = target {
            if v < 0 {
                assert(line@[i as int] == line@.subrange(i as int, j)[0]);
            } else {
                assert(line@[i as int] == line@.subrange(i as int, j)[0]);
                assert(line@[i as int] == digits(mag)[0]);
                assert(is_digit_byte(digits(mag)[0]));
            }
            assert(neg == (v < 0));
        }
    }
    let start: usize = if neg {
        i + 1
    } else {
        i
    };
    proof {
        if let Some((v, j)) = target {
            assert(start == dstart);
            assert(line@[start as int] == line@.subrange(dstart, j)[0]);
        }
    }
    if start >= line.len() || !is_digit(line[start]) {
        return None;
    }
    let first = line[start] - 48;
    let mut acc: u64 = first as u64;
    let mut k: usize = start + 1;
    assert(line@.subrange(start as int, k as int) =~= digits(acc as nat));
    assert(line@.subrange(start as int, k as int).drop_last() =~= Seq::<u8>::empty());
    assert(digits_value(Seq::<u8>::empty()) == 0);
    assert(acc == digits_value(line@.subrange(start as int, k as int)));
    proof {
        if let Some((v, j)) = target {
            if first == 0 {
                assert(mag == 0) by {
                    if mag >= 1 {
                        assert(digits(mag)[0] == line@[start as int]);
                    }
                }
                assert(j == k) by {
                    assert(digits(mag).len() == 1);
                }
            }
        }
    }
    if first != 0 {
        while k < line.len() && is_digit(line[k])
            invariant
                start < k <= line@.len(),
                acc >= 1,
                acc <= 0x8000_0000_0000_0000,
                line@.subrange(start as int, k as int) == digits(acc as nat),
                acc == digits_value(line@.subrange(start as int, k as int)),
                (exists|v: i64, j: int| #[trigger] int_at(line@, i as int, j, v)) ==> target is Some,
                target matches Some((v, j)) ==> {
                    &&& int_at(line@, i as int, j, v)
                    &&& start == dstart
                    &&& k <= j
                    &&& line@.subrange(dstart, j) == digits(mag)
                    &&& mag <= 0x8000_0000_0000_0000
                },
            decreases line@.len() - k,
        {
            let d = (line[k] - 48) as u64;
            proof {
                if let Some((v, j)) = target {
                    if k == j {
                        assert(line@[k as int] == 44u8);
                    }
                    assert(k < j);
                    let ds = line@.subrange(dstart, j);
                    lemma_digits_shape(mag);
                    lemma_prefix_value(ds, k - dstart + 1);
                    assert(ds.subrange(0, k - dstart + 1) =~= line@.subrange(start as int, k as int + 1));
                    let t = line@.subrange(start as int, k as int + 1);
                    assert(t.drop_last() =~= line@.subrange(start as int, k as int));
                    assert(t.last() == line@[k as int]);
                    assert(acc * 10 + d <= mag);
                    let m: int = 0x8000_0000_0000_0000 - d;
                    vstd::arithmetic::div_mod::lemma_fundamental_div_mod(m, 10);
                    vstd::arithmetic::div_mod::lemma_mod_pos_bound(m, 10);
                    assert(acc <= m / 10) by (nonlinear_arith)
                        requires
                            acc * 10 <= m,
                            m == 10 * (m / 10) + m % 10,
                            0 <= m % 10 < 10,
                    ;
                }
            }
            if acc > (0x8000_0000_0000_0000u64 - d) / 10 {
                return None;
            }
            proof {
                lemma_digits_step(acc as nat, d as nat);
                let t = line@.subrange(start as int, k as int + 1);
                assert(t =~= line@.subrange(start as int, k as int).push(line@[k as int]));
                assert(t.drop_last() =~= line@.subrange(start as int, k as int));
            }
            acc = acc * 10 + d;
            k = k + 1;
        }
        proof {
            if let Some((v, j)) = target {
                if k < j {
                    lemma_digits_shape(mag);
                    assert(line@[k as int] == digits(mag)[k - dstart]);
                }
                assert(k == j);
                lemma_digits_shape(mag);
                assert(acc == mag);
            }
        }
    }
    proof {
        if let Some((v, j)) = target {
            assert(k == j);
            if first == 0 {
                assert(acc == mag);
            }
        }
    }
    if k < line.len() && line[k] != 44u8 {
        return None;
    }
    if neg {
        if acc == 0 {
            return None;
        }
        let v: i64 = if acc == 0x8000_0000_0000_0000u64 {
            i64::MIN
        } else {
            -(acc as i64)
        };
        assert(line@.subrange(i as int, k as int) =~= seq![45u8] + line@.subrange(start as int, k as int));
        proof {
            if let Some((w, j)) = target {
                assert(w == v);
            }
            lemma_int_at_unique(line@, i as int, k as int, v, target);
        }
        Some((v, k))
    } else {
        if acc > 0x7fff_ffff_ffff_ffffu64 {
            return None;
        }
        proof {
            if let Some((w, j)) = target {
                assert(w == acc as i64);
            }
            lemma_int_at_unique(line@, i as int, k as int, acc as i64, target);
        }
        Some((acc as i64, k))
    }
}

/// When the reader found `v` ending at `j`, and some `int_at` holds, every
/// `int_at` from `i` is that one.
proof fn lemma_int_at_unique(line: Seq<u8>, i: int, j: int, v: i64, target: Option<(i64, int)>)
    requires
        int_at(line, i, j, v),
        (exists|w: i64, e: int| #[trigger] int_at(line, i, e, w)) ==> target is Some,
        target matches Some((w, e)) ==> w == v && e == j && int_at(line, i, e, w),
    ensures
        forall|w: i64, e: int| #[trigger] int_at(line, i, e, w) ==> w == v && e == j,
{
    assert forall|w: i64, e: int| #[trigger] int_at(line, i, e, w) implies w == v && e == j by {
        lemma_int_at_same(line, i, e, w, j, v);
    }
}

/// Two integers written from the same place are the same integer.
proof fn lemma_int_at_same(line: Seq<u8>, i: int, e: int, w: i64, j: int, v: i64)
    requires
        int_at(line, i, e, w),
        int_at(line, i, j, v),
    ensures
        w == v && e == j,
{
    let mw: nat = if w < 0 { (-w) as nat } else { w as nat };
    let mv: nat = if v < 0 { (-v) as nat } else { v as nat };
    lemma_digits_shape(mw);
    lemma_digits_shape(mv);
    let sw = line.subrange(i, e);
    let sv = line.subrange(i, j);
    assert(sw[0] == line[i] && sv[0] == line[i]);
    if w < 0 {
        assert(sw =~= seq![45u8] + digits(mw));
    } else {
        assert(sw == digits(mw));
        assert(is_digit_byte(digits(mw)[0]));
    }
    if v < 0 {
        assert(sv =~= seq![45u8] + digits(mv));
    } else {
        assert(sv == digits(mv));
        assert(is_digit_byte(digits(mv)[0]));
    }
    assert((w < 0) == (v < 0));
    let off: int = if w < 0 {
        1
    } else {
        0
    };
    let dw = line.subrange(i + off, e);
    let dv = line.subrange(i + off, j);
    let mut_w = seq![45u8] + digits(mw);
    let mut_v = seq![45u8] + digits(mv);
    if w < 0 {
        assert(dw =~= sw.subrange(1, sw.len() as int));
        assert(mut_w.subrange(1, mut_w.len() as int) =~= digits(mw));
        assert(dv =~= sv.subrange(1, sv.len() as int));
        assert(mut_v.subrange(1, mut_v.len() as int) =~= digits(mv));
    } else {
        assert(dw =~= sw);
        assert(dv =~= sv);
    }
    assert(dw == digits(mw));
    assert(dv == digits(mv));
    assert(e == j) by {
        if e < j {
            assert(line[e] == 44u8);
            assert(line[e] == dv[e - i - off]);
        } else if j < e {
            assert(line[j] == 44u8);
            assert(line[j] == dw[j - i - off]);
        }
    }
    assert(dw == dv);
    assert(mw == mv);
}

/// The text of a prefix of a frame begins the text of the frame.
proof fn lemma_frame_prefix(f: Seq<Vec2>, m: int)
    requires
        1 <= m <= f.len(),
    ensures
        frame_text(f.subrange(0, m)).len() <= frame_text(f).len(),
        frame_text(f).subrange(0, frame_text(f.subrange(0, m)).len() as int) == frame_text(f.subrange(0, m)),
    decreases f.len(),
{
    if m == f.len() {
        assert(f.subrange(0, m) =~= f);
        assert(frame_text(f).subrange(0, frame_text(f).len() as int) =~= frame_text(f));
    } else {
        let g = f.drop_last();
        lemma_frame_prefix(g, m);
        assert(g.subrange(0, m) =~= f.subrange(0, m));
        let t = frame_text(f);
        let u = frame_text(g);
        assert(t == u + seq![44u8] + pair_text(f.last()));
        let k = frame_text(f.subrange(0, m)).len() as int;
        assert(t.subrange(0, k) =~= u.subrange(0, k));
    }
}

/// The text of the first `m + 1` pairs, from the text of the first `m`.
proof fn lemma_frame_step(f: Seq<Vec2>, m: int)
    requires
        0 <= m < f.len(),
    ensures
        m == 0 ==> frame_text(f.subrange(0, m + 1)) == pair_text(f[m]),
        m > 0 ==> frame_text(f.subrange(0, m + 1)) == frame_text(f.subrange(0, m)) + seq![44u8]
            + pair_text(f[m]),
{
    let g = f.subrange(0, m + 1);
    assert(g.drop_last() =~= f.subrange(0, m));
    assert(g.last() == f[m]);
    if m == 0 {
        assert(g.len() == 1 && g[0] == f[0]);
    }
}

/// Where the pair `m` of a frame stands in the frame's text: its two
/// integers, each followed by a comma or the end of the text.
proof fn lemma_pair_at(line: Seq<u8>, f: Seq<Vec2>, m: int, i: int)
    requires
        frame_text(f) == line,
        0 <= m < f.len(),
        m == 0 ==> i == 0,
        m > 0 ==> i == frame_text(f.subrange(0, m)).len() + 1,
    ensures
        ({
            let ix = int_text(f[m].x as int);
            let e = frame_text(f.subrange(0, m + 1)).len() as int;
            &&& int_at(line, i, i + ix.len(), f[m].x)
            &&& int_at(line, i + ix.len() + 1, e, f[m].y)
            &&& (m + 1 < f.len() ==> e < line.len())
            &&& (m + 1 == f.len() ==> e == line.len())
        }),
{
    lemma_frame_step(f, m);
    lemma_frame_prefix(f, m + 1);
    let p = f[m];
    let pt = pair_text(p);
    let ix = int_text(p.x as int);
    let iy = int_text(p.y as int);
    let big = frame_text(f.subrange(0, m + 1));
    assert(big.subrange(i, big.len() as int) =~= pt);
    assert(line.subrange(0, big.len() as int) == big);
    let xe = i + ix.len();
    assert(line.subrange(i, xe) =~= ix) by {
        assert forall|q: int| 0 <= q < ix.len() implies line.subrange(i, xe)[q] == ix[q] by {
            assert(line.subrange(i, xe)[q] == big[i + q]);
            assert(big[i + q] == pt[q]);
        }
    }
    assert(line[xe] == 44u8) by {
        assert(line[xe] == big[xe]);
        assert(big[xe] == pt[ix.len() as int]);
    }
    let ye = xe + 1 + iy.len();
    assert(ye == big.len());
    assert(line.subrange(xe + 1, ye) =~= iy) by {
        assert forall|q: int| 0 <= q < iy.len() implies line.subrange(xe + 1, ye)[q] == iy[q] by {
            assert(line.subrange(xe + 1, ye)[q] == big[xe + 1 + q]);
            assert(big[xe + 1 + q] == pt[ix.len() + 1 + q]);
        }
    }
    if m + 1 < f.len() {
        lemma_frame_step(f, m + 1);
        lemma_frame_prefix(f, m + 2);
        let bigger = frame_text(f.subrange(0, m + 2));
        assert(line[ye] == bigger[ye]);
        assert(bigger[ye] == 44u8);
    } else {
        assert(f.subrange(0, m + 1) =~= f);
    }
}

/// Reading one more pair extends the text read so far.
proof fn lemma_text_step(line: Seq<u8>, before: Seq<Vec2>, i: int, j: int, e: int, x: i64, y: i64)
    requires
        before.len() == 0 ==> i == 0,
        before.len() > 0 ==> line.subrange(0, i) == frame_text(before) + seq![44u8],
        int_at(line, i, j, x),
        int_at(line, j + 1, e, y),
        j < line.len(),
    ensures
        line.subrange(0, e) == frame_text(before.push(Vec2 { x, y })),
{
    let p = Vec2 { x, y };
    let after = before.push(p);
    assert(line.subrange(i, e) =~= line.subrange(i, j) + seq![44u8] + line.subrange(j + 1, e));
    assert(line.subrange(i, e) =~= pair_text(p));
    assert(after.drop_last() =~= before);
    if before.len() == 0 {
        assert(after.len() == 1 && after[0] == p);
        assert(line.subrange(0, e) =~= frame_text(after));
    } else {
        assert(line.subrange(0, e) =~= line.subrange(0, i) + line.subrange(i, e));
        assert(line.subrange(0, e) =~= frame_text(after));
    }
}

/// Reads a frame line. It returns a frame exactly when the line is the text
/// that `format_frame` writes for some frame, and then one whose text the
/// line is.
pub fn parse_frame(line: &Vec<u8>) -> (r: Option<Vec<Vec2>>)
    ensures
        r matches Some(f) ==> frame_text(f@) == line@,
        r is Some <==> exists|f: Seq<Vec2>| frame_text(f) == line@,
{
    let ghost target: Option<Seq<Vec2>> = if exists|f: Seq<Vec2>| frame_text(f) == line@ {
        Some(choose|f: Seq<Vec2>| frame_text(f) == line@)
    } else {
        None
    };
    let mut out: Vec<Vec2> = Vec::new();
    if line.len() == 0 {
        assert(frame_text(out@) =~= line@);
        return Some(out);
    }
    proof {
        if let Some(f) = target {
            assert(f.len() > 0);
        }
    }
    let mut i: usize = 0;
    loop
        invariant
            i <= line@.len(),
            line@.len() > 0,
            out@.len() == 0 ==> i == 0,
            out@.len() > 0 ==> line@.subrange(0, i as int) == frame_text(out@) + seq![44u8],
            (exists|f: Seq<Vec2>| frame_text(f) == line@) ==> target is Some,
            target matches Some(f) ==> {
                &&& frame_text(f) == line@
                &&& out@.len() < f.len()
                &&& out@ == f.subrange(0, out@.len() as int)
                &&& out@.len() > 0 ==> i == frame_text(f.subrange(0, out@.len() as int)).len() + 1
            },
        decreases line@.len() - i,
    {
        let ghost m = out@.len() as int;
        proof {
            if let Some(f) = target {
                lemma_pair_at(line@, f, m, i as int);
            }
        }
        let (x, j) = match read_int(line, i) {
            Some(t) => t,
            None => {
                return None;
            },
        };
        if j >= line.len() {
            return None;
        }
        let (y, e) = match read_int(line, j + 1) {
            Some(t) => t,
            None => {
                return None;
            },
        };
        let ghost before = out@;
        let p = Vec2 { x, y };
        out.push(p);
        proof {
            lemma_text_step(line@, before, i as int, j as int, e as int, x, y);
            assert(out@ =~= before.push(p));
            if let Some(f) = target {
                assert(p == f[m]);
                assert(out@ =~= f.subrange(0, m + 1));
            }
        }
        if e == line.len() {
            assert(line@.subrange(0, e as int) =~= line@);
            return Some(out);
        }
        assert(line@.subrange(0, e as int + 1) =~= line@.subrange(0, e as int).push(line@[e as int]));
        proof {
            if let Some(f) = target {
                assert(m + 1 < f.len());
            }
        }
        i = e + 1;
    }
}

} // verus!
