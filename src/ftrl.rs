use vstd::prelude::*;

verus! {

/// Fixed-point scale: a real number `x` is held as the integer `x * ONE`.
pub const ONE: i64 = 1_000_000;

/// The integers a weight, an accumulator or a gradient may take.
pub open spec fn fits(x: int) -> bool {
    i64::MIN <= x <= i64::MAX
}

pub open spec fn abs(x: int) -> int {
    if x < 0 {
        -x
    } else {
        x
    }
}

/// `a / b` rounded toward zero, for `b > 0`.
pub open spec fn tdiv(a: int, b: int) -> int {
    if a >= 0 {
        a / b
    } else {
        -((-a) / b)
    }
}

/// The integer square root of `x`.
pub open spec fn is_root(x: int, r: int) -> bool {
    r >= 0 && r * r <= x < (r + 1) * (r + 1)
}

pub open spec fn root(x: int) -> int {
    choose|r: int| is_root(x, r)
}

/// The square root of a fixed-point number `x >= 0`, in fixed point.
pub open spec fn fsqrt(x: int) -> int {
    root(x * ONE)
}

/// The adaptive-rate state of one weight: the weight `w`, the sum of
/// squared gradients `n` and the adjusted sum of gradients `z`.
#[derive(Clone, Copy, Debug, PartialEq, Eq, Structural)]
pub struct Coord {
    pub w: i64,
    pub n: i64,
    pub z: i64,
}

/// Learning rate `alpha`, smoothing `beta`, L1 strength `lambda1`, L2 strength
/// `lambda2`, all in fixed point.
#[derive(Clone, Copy, Debug, PartialEq, Eq, Structural)]
pub struct Params {
    pub alpha: i64,
    pub beta: i64,
    pub lambda1: i64,
    pub lambda2: i64,
}

/// One FTRL-proximal step of the coordinate `c` under gradient `g`:
/// `n += g²`; `σ = (√(n + g²) − √n) / α`; `z += g − σ·w`; then
/// `w = 0` when `|z| ≤ λ1`, else `w = −(z − sign(z)·λ1) / ((β + √n) / α + λ2)`.
/// `None` when the step is undefined (a rate or a denominator that is not
/// positive) or a value leaves the range of `i64`.
pub open spec fn step(p: Params, c: Coord, g: int) -> Option<Coord> {
    let gg = g * g / (ONE as int);
    let n1 = c.n + gg;
    let v = n1 + gg;
    if p.alpha <= 0 || !fits(n1) || !fits(v) || n1 < 0 {
        None
    } else {
        let s1 = fsqrt(n1);
        let s2 = fsqrt(v);
        let sigma = tdiv((s2 - s1) * ONE, p.alpha as int);
        if !fits(sigma) {
            None
        } else {
            let z1 = c.z + g - tdiv(sigma * c.w, ONE as int);
            let denom = tdiv((p.beta + s1) * ONE, p.alpha as int) + p.lambda2;
            if !fits(z1) || denom <= 0 {
                None
            } else if abs(z1) <= p.lambda1 {
                Some(Coord { w: 0, n: n1 as i64, z: z1 as i64 })
            } else {
                let mag = (abs(z1) - p.lambda1) * ONE / denom;
                let w1 = if z1 > 0 {
                    -mag
                } else {
                    mag
                };
                if !fits(w1) {
                    None
                } else {
                    Some(Coord { w: w1 as i64, n: n1 as i64, z: z1 as i64 })
                }
            }
        }
    }
}

pub proof fn lemma_root_unique(x: int, r1: int, r2: int)
    requires
        is_root(x, r1),
        is_root(x, r2),
    ensures
        r1 == r2,
{
    if r1 < r2 {
        assert((r1 + 1) * (r1 + 1) <= r2 * r2) by (nonlinear_arith)
            requires
                0 <= r1 + 1 <= r2,
        ;
    } else if r2 < r1 {
        assert((r2 + 1) * (r2 + 1) <= r1 * r1) by (nonlinear_arith)
            requires
                0 <= r2 + 1 <= r1,
        ;
    }
}

/// The integer square root of `x`, for `x < 2^84`.
pub fn isqrt(x: u128) -> (r: u128)
    requires
        x < 0x10_0000_0000_0000_0000_0000,
    ensures
        is_root(x as int, r as int),
        r as int == root(x as int),
        r < 0x400_0000_0000,
{
    let mut lo: u128 = 0;
    let mut hi: u128 = 0x400_0000_0000;
    assert(hi * hi > x) by (nonlinear_arith)
        requires
            hi == 0x400_0000_0000,
            x < 0x10_0000_0000_0000_0000_0000,
    ;
    while hi - lo > 1
        invariant
            lo < hi <= 0x400_0000_0000,
            lo * lo <= x,
            x < hi * hi,
        decreases hi - lo,
    {
        let mid = lo + (hi - lo) / 2;
        assert(mid * mid <= 0x400_0000_0000 * 0x400_0000_0000) by (nonlinear_arith)
            requires
                mid < 0x400_0000_0000,
        ;
        if mid * mid <= x {
            lo = mid;
        } else {
            hi = mid;
        }
    }
    assert(is_root(x as int, lo as int));
    proof {
        let c = root(x as int);
        assert(is_root(x as int, c));
        lemma_root_unique(x as int, c, lo as int);
    }
    lo
}

/// The fixed-point square root of `x`, for `0 <= x <= i64::MAX`.
fn fsqrt_exec(x: i64) -> (r: i64)
    requires
        x >= 0,
    ensures
        r == fsqrt(x as int),
        0 <= r < 0x400_0000_0000,
{
    let xx: u128 = x as u128;
    assert(xx * 1_000_000 <= 0x7fff_ffff_ffff_ffff * 1_000_000) by (nonlinear_arith)
        requires
            xx <= 0x7fff_ffff_ffff_ffff,
    ;
    let big: u128 = xx * ONE as u128;
    isqrt(big) as i64
}

/// `a / b` rounded toward zero, for `b > 0`.
pub(crate) fn tdiv_exec(a: i128, b: i128) -> (r: i128)
    requires
        b > 0,
        a > i128::MIN,
    ensures
        r == tdiv(a as int, b as int),
{
    if a >= 0 {
        a / b
    } else {
        -((-a) / b)
    }
}

pub(crate) fn fits_exec(x: i128) -> (r: bool)
    ensures
        r == fits(x as int),
{
    x >= i64::MIN as i128 && x <= i64::MAX as i128
}

/// The step of `c` under gradient `g`, computed exactly in wide integers.
pub fn step_exec(p: Params, c: Coord, g: i64) -> (r: Option<Coord>)
    ensures
        r == step(p, c, g as int),
{
    let one: i128 = ONE as i128;
    let gi: i128 = g as i128;
    assert(gi * gi <= 0x4000_0000_0000_0000_0000_0000_0000_0000) by (nonlinear_arith)
        requires
            -0x8000_0000_0000_0000 <= gi <= 0x7fff_ffff_ffff_ffff,
    ;
    assert(gi * gi >= 0) by (nonlinear_arith);
    let gg: i128 = gi * gi / one;
    let n1: i128 = c.n as i128 + gg;
    let v: i128 = n1 + gg;
    if p.alpha <= 0 || !fits_exec(n1) || !fits_exec(v) || n1 < 0 {
        return None;
    }
    let s1: i128 = fsqrt_exec(n1 as i64) as i128;
    let s2: i128 = fsqrt_exec(v as i64) as i128;
    let sigma: i128 = tdiv_exec((s2 - s1) * one, p.alpha as i128);
    if !fits_exec(sigma) {
        return None;
    }
    let cw: i128 = c.w as i128;
    assert(-0x4000_0000_0000_0000_0000_0000_0000_0000 <= sigma * cw
        <= 0x4000_0000_0000_0000_0000_0000_0000_0000) by (nonlinear_arith)
        requires
            -0x8000_0000_0000_0000 <= sigma <= 0x7fff_ffff_ffff_ffff,
            -0x8000_0000_0000_0000 <= cw <= 0x7fff_ffff_ffff_ffff,
    ;
    let z1: i128 = c.z as i128 + gi - tdiv_exec(sigma * cw, one);
    let denom: i128 = tdiv_exec((p.beta as i128 + s1) * one, p.alpha as i128) + p.lambda2 as i128;
    if !fits_exec(z1) || denom <= 0 {
        return None;
    }
    let az: i128 = if z1 < 0 {
        -z1
    } else {
        z1
    };
    if az <= p.lambda1 as i128 {
        return Some(Coord { w: 0, n: n1 as i64, z: z1 as i64 });
    }
    let mag: i128 = (az - p.lambda1 as i128) * one / denom;
    let w1: i128 = if z1 > 0 {
        -mag
    } else {
        mag
    };
    if !fits_exec(w1) {
        return None;
    }
    Some(Coord { w: w1 as i64, n: n1 as i64, z: z1 as i64 })
}

/// One stored weight coordinate, keyed by the ordered pair
/// `(src, dst)`: the contribution of item `src` to the rating of item `dst`.
#[derive(Clone, Copy, Debug)]
pub struct Entry {
    pub src: u32,
    pub dst: u32,
    pub coord: Coord,
}

pub open spec fn has_pair(es: Seq<Entry>, src: u32, dst: u32) -> bool {
    exists|j: int| 0 <= j < es.len() && es[j].src == src && es[j].dst == dst
}

pub open spec fn distinct_pairs(es: Seq<Entry>) -> bool {
    forall|a: int, b: int|
        0 <= a < es.len() && 0 <= b < es.len() && a != b ==> !(es[a].src == es[b].src
            && es[a].dst == es[b].dst)
}

/// The coordinate stored for `(src, dst)`, if any.
pub open spec fn coord_at(es: Seq<Entry>, src: u32, dst: u32) -> Option<Coord> {
    if has_pair(es, src, dst) {
        let j = choose|j: int| 0 <= j < es.len() && es[j].src == src && es[j].dst == dst;
        Some(es[j].coord)
    } else {
        None
    }
}

/// A sparse, ordered item-pair weight matrix trained by FTRL-proximal.
/// Entries appear on their first update and are never removed.
pub struct Ftrl {
    params: Params,
    entries: Vec<Entry>,
}

impl Ftrl {
    pub closed spec fn params(&self) -> Params {
        self.params
    }

    pub closed spec fn entries(&self) -> Seq<Entry> {
        self.entries@
    }

    pub open spec fn wf(&self) -> bool {
        distinct_pairs(self.entries())
    }

    /// The coordinate of `(src, dst)`, if it was ever updated.
    pub open spec fn coord_of(&self, src: u32, dst: u32) -> Option<Coord> {
        coord_at(self.entries(), src, dst)
    }

    pub fn new(alpha: i64, beta: i64, lambda1: i64, lambda2: i64) -> (r: Ftrl)
        ensures
            r.wf(),
            r.params() == (Params { alpha, beta, lambda1, lambda2 }),
            r.entries() == Seq::<Entry>::empty(),
    {
        Ftrl { params: Params { alpha, beta, lambda1, lambda2 }, entries: Vec::new() }
    }

    fn find(&self, src: u32, dst: u32) -> (r: Option<usize>)
        requires
            self.wf(),
        ensures
            match r {
                Some(j) => j < self.entries().len() && self.entries()[j as int].src == src
                    && self.entries()[j as int].dst == dst,
                None => !has_pair(self.entries(), src, dst),
            },
    {
        let mut j: usize = 0;
        while j < self.entries.len()
            invariant
                j <= self.entries@.len(),
                forall|k: int|
                    0 <= k < j ==> !(self.entries@[k].src == src && self.entries@[k].dst == dst),
            decreases self.entries@.len() - j,
        {
            if self.entries[j].src == src && self.entries[j].dst == dst {
                return Some(j);
            }
            j = j + 1;
        }
        None
    }

    /// The weight of `(src, dst)`, if it was ever updated.
    pub fn get_weight(&self, src: u32, dst: u32) -> (r: Option<i64>)
        requires
            self.wf(),
        ensures
            r == match self.coord_of(src, dst) {
                Some(c) => Some(c.w),
                None => None,
            },
    {
        match self.find(src, dst) {
            Some(j) => {
                proof {
                    let es = self.entries();
                    let c = choose|k: int| 0 <= k < es.len() && es[k].src == src && es[k].dst == dst;
                    assert(c == j as int);
                }
                Some(self.entries[j].coord.w)
            },
            None => None,
        }
    }

    pub fn params_value(&self) -> (r: Params)
        ensures
            r == self.params(),
    {
        self.params
    }

    /// Every stored coordinate, in order of creation.
    pub fn entry_list(&self) -> (r: Vec<Entry>)
        ensures
            r@ == self.entries(),
    {
        self.entries.clone()
    }

    /// Sets the coordinate of `(src, dst)` to `c`, creating it if needed.
    pub fn set_coord(&mut self, src: u32, dst: u32, c: Coord)
        requires
            old(self).wf(),
        ensures
            final(self).wf(),
            final(self).params() == old(self).params(),
            final(self).coord_of(src, dst) == Some(c),
            forall|a: u32, b: u32|
                !(a == src && b == dst) ==> #[trigger] final(self).coord_of(a, b)
                    == old(self).coord_of(a, b),
    {
        let pos = self.find(src, dst);
        let ghost es = self.entries();
        let e = Entry { src, dst, coord: c };
        match pos {
            Some(j) => {
                self.entries.set(j, e);
            },
            None => {
                self.entries.push(e);
            },
        }
        proof {
            let es2 = self.entries();
            let last = es.len() as int;
            assert forall|a: u32, b: u32| #[trigger] has_pair(es2, a, b) == (has_pair(es, a, b) || (a
                == src && b == dst)) by {
                if has_pair(es2, a, b) {
                    let k = choose|k: int| 0 <= k < es2.len() && es2[k].src == a && es2[k].dst == b;
                    if k < es.len() && !(a == src && b == dst) {
                        assert(es[k].src == a && es[k].dst == b);
                    }
                }
                if has_pair(es, a, b) {
                    let k = choose|k: int| 0 <= k < es.len() && es[k].src == a && es[k].dst == b;
                    if !(a == src && b == dst) {
                        assert(es2[k].src == a && es2[k].dst == b);
                    }
                }
                if a == src && b == dst {
                    match pos {
                        Some(j) => assert(es2[j as int].src == a && es2[j as int].dst == b),
                        None => assert(es2[last].src == a && es2[last].dst == b),
                    }
                }
            }
            assert forall|x: int, y: int|
                0 <= x < es2.len() && 0 <= y < es2.len() && x != y implies !(es2[x].src == es2[y].src
                && es2[x].dst == es2[y].dst) by {
                match pos {
                    Some(j) => {
                    },
                    None => {
                        if x == last {
                            assert(!has_pair(es, src, dst));
                            assert(es[y].src == es2[y].src && es[y].dst == es2[y].dst);
                        }
                        if y == last {
                            assert(!has_pair(es, src, dst));
                            assert(es[x].src == es2[x].src && es[x].dst == es2[x].dst);
                        }
                    },
                }
            }
            assert forall|a: u32, b: u32|
                #[trigger] coord_at(es2, a, b) == if a == src && b == dst {
                    Some(c)
                } else {
                    coord_at(es, a, b)
                } by {
                if has_pair(es2, a, b) {
                    let k2 = choose|k: int| 0 <= k < es2.len() && es2[k].src == a && es2[k].dst == b;
                    if a == src && b == dst {
                        match pos {
                            Some(j) => assert(es2[j as int].src == a && es2[j as int].dst == b),
                            None => assert(es2[last].src == a && es2[last].dst == b),
                        }
                    } else {
                        let k1 = choose|k: int| 0 <= k < es.len() && es[k].src == a && es[k].dst == b;
                        assert(es2[k1].src == a && es2[k1].dst == b);
                    }
                }
            }
        }
    }

    /// An optimizer with parameters `params` holding `entries`; `None`
    /// when two entries share a pair.
    pub fn from_entries(params: Params, entries: Vec<Entry>) -> (r: Option<Ftrl>)
        ensures
            match r {
                Some(f) => f.wf() && f.params() == params && f.entries() == entries@,
                None => !distinct_pairs(entries@),
            },
    {
        let mut a: usize = 0;
        while a < entries.len()
            invariant
                a <= entries@.len(),
                forall|x: int, y: int|
                    0 <= x < a && 0 <= y < entries@.len() && x != y ==> !(entries@[x].src == entries@[y].src
                        && entries@[x].dst == entries@[y].dst),
            decreases entries@.len() - a,
        {
            let ea = entries[a];
            let mut b: usize = 0;
            while b < entries.len()
                invariant
                    a < entries@.len(),
                    ea == entries@[a as int],
                    b <= entries@.len(),
                    forall|y: int|
                        0 <= y < b && y != a ==> !(ea.src == entries@[y].src && ea.dst == entries@[y].dst),
                decreases entries@.len() - b,
            {
                if b != a && entries[b].src == ea.src && entries[b].dst == ea.dst {
                    return None;
                }
                b = b + 1;
            }
            a = a + 1;
        }
        Some(Ftrl { params, entries })
    }

    /// Every stored weight, in order of creation.
    pub fn get_weights(&self) -> (r: Vec<(u32, u32, i64)>)
        ensures
            r@.len() == self.entries().len(),
            forall|k: int|
                0 <= k < r@.len() ==> r@[k] == (
                    self.entries()[k].src,
                    self.entries()[k].dst,
                    self.entries()[k].coord.w,
                ),
    {
        let mut out: Vec<(u32, u32, i64)> = Vec::new();
        let mut j: usize = 0;
        while j < self.entries.len()
            invariant
                j <= self.entries@.len(),
                out@.len() == j,
                forall|k: int|
                    0 <= k < j ==> out@[k] == (
                        self.entries@[k].src,
                        self.entries@[k].dst,
                        self.entries@[k].coord.w,
                    ),
            decreases self.entries@.len() - j,
        {
            let e = self.entries[j];
            out.push((e.src, e.dst, e.coord.w));
            j = j + 1;
        }
        out
    }

    /// Applies one step under gradient `grad` to `(src, dst)`, starting from
    /// a zero coordinate when the pair is new. When the step is undefined
    /// nothing changes and the result is `false`.
    pub fn update_gradients(&mut self, src: u32, dst: u32, grad: i64) -> (r: bool)
        requires
            old(self).wf(),
        ensures
            final(self).wf(),
            final(self).params() == old(self).params(),
            ({
                let c0 = match old(self).coord_of(src, dst) {
                    Some(c) => c,
                    None => Coord { w: 0, n: 0, z: 0 },
                };
                match step(old(self).params(), c0, grad as int) {
                    Some(c1) => r && final(self).coord_of(src, dst) == Some(c1),
                    None => !r && final(self).entries() == old(self).entries(),
                }
            }),
            forall|a: u32, b: u32|
                !(a == src && b == dst) ==> #[trigger] final(self).coord_of(a, b)
                    == old(self).coord_of(a, b),
            forall|a: u32, b: u32|
                #[trigger] has_pair(final(self).entries(), a, b) ==> has_pair(
                    old(self).entries(),
                    a,
                    b,
                ) || (a == src && b == dst),
    {
        let pos = self.find(src, dst);
        let ghost es = self.entries();
        let c0 = match pos {
            Some(j) => self.entries[j].coord,
            None => Coord { w: 0, n: 0, z: 0 },
        };
        proof {
            if let Some(j) = pos {
                let c = choose|k: int| 0 <= k < es.len() && es[k].src == src && es[k].dst == dst;
                assert(c == j as int);
            }
        }
        match step_exec(self.params, c0, grad) {
            None => false,
            Some(c1) => {
                let e = Entry { src, dst, coord: c1 };
                match pos {
                    Some(j) => {
                        self.entries.set(j, e);
                        proof {
                            let es2 = self.entries();
                            assert(es2 == es.update(j as int, e));
                            assert forall|a: u32, b: u32| #[trigger]
                                has_pair(es2, a, b) == has_pair(es, a, b) by {
                                if has_pair(es2, a, b) {
                                    let k = choose|k: int|
                                        0 <= k < es2.len() && es2[k].src == a && es2[k].dst == b;
                                    if k == j {
                                        assert(es[k].src == a && es[k].dst == b);
                                    }
                                }
                                if has_pair(es, a, b) {
                                    let k = choose|k: int|
                                        0 <= k < es.len() && es[k].src == a && es[k].dst == b;
                                    assert(es2[k].src == a && es2[k].dst == b);
                                }
                            }
                            assert forall|a: u32, b: u32|
                                #[trigger] coord_at(es2, a, b) == if a == src && b == dst {
                                    Some(c1)
                                } else {
                                    coord_at(es, a, b)
                                } by {
                                if has_pair(es2, a, b) {
                                    let k2 = choose|k: int|
                                        0 <= k < es2.len() && es2[k].src == a && es2[k].dst == b;
                                    let k1 = choose|k: int|
                                        0 <= k < es.len() && es[k].src == a && es[k].dst == b;
                                    assert(k1 == k2);
                                }
                            }
                        }
                    },
                    None => {
                        self.entries.push(e);
                        proof {
                            let es2 = self.entries();
                            assert(es2 == es.push(e));
                            let last = es.len() as int;
                            assert forall|a: u32, b: u32| #[trigger]
                                has_pair(es2, a, b) == (has_pair(es, a, b) || (a == src && b
                                    == dst)) by {
                                if has_pair(es2, a, b) {
                                    let k = choose|k: int|
                                        0 <= k < es2.len() && es2[k].src == a && es2[k].dst == b;
                                    if k < last {
                                        assert(es[k].src == a && es[k].dst == b);
                                    }
                                }
                                if has_pair(es, a, b) {
                                    let k = choose|k: int|
                                        0 <= k < es.len() && es[k].src == a && es[k].dst == b;
                                    assert(es2[k].src == a && es2[k].dst == b);
                                }
                                if a == src && b == dst {
                                    assert(es2[last].src == a && es2[last].dst == b);
                                }
                            }
                            assert forall|a: u32, b: u32|
                                #[trigger] coord_at(es2, a, b) == if a == src && b == dst {
                                    Some(c1)
                                } else {
                                    coord_at(es, a, b)
                                } by {
                                if has_pair(es2, a, b) {
                                    let k2 = choose|k: int|
                                        0 <= k < es2.len() && es2[k].src == a && es2[k].dst == b;
                                    if a == src && b == dst {
                                        assert(es2[last].src == a && es2[last].dst == b);
                                        assert(k2 == last);
                                    } else {
                                        let k1 = choose|k: int|
                                            0 <= k < es.len() && es[k].src == a && es[k].dst == b;
                                        assert(es2[k1].src == a && es2[k1].dst == b);
                                        assert(k1 == k2);
                                    }
                                }
                            }
                        }
                    },
                }
                true
            },
        }
    }
}

} // verus!
