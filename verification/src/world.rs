//! The world file: six exact decimal coefficients, their six-line textual
//! form, and the forward and inverse point mappings.
//!
//! A world file maps pixel coordinates to world coordinates by
//! `wx = x_scale * px + x_skew * py + x_coord` and
//! `wy = y_skew * px + y_scale * py + y_coord`. The inverse mapping divides
//! by the determinant `x_scale * y_scale - x_skew * y_skew` and is defined
//! only when that is nonzero. All arithmetic is exact, and every contract
//! below pins the result as a rational number.

use vstd::prelude::*;

use crate::Error;
use crate::num::Dec;
use crate::num::MAX_ABS;
use crate::num::MAX_FRAC;
use crate::num::Rat;
use crate::num::qadd;
use crate::num::qadd_fits;
use crate::num::qdiv;
use crate::num::qdiv_fits;
use crate::num::qeq;
use crate::num::qmul;
use crate::num::qmul_fits;
use crate::num::qsub;
use crate::num::qsub_fits;
use crate::text::dec_at;
use crate::text::dec_of;
use crate::text::find_line_end;
use crate::text::chars_to_string;
use crate::text::lemma_line_end_at;
use crate::text::line_at;
use crate::text::line_end;
use crate::text::line_start;
use crate::text::lemma_dec_of_wf;
use crate::text::parse_dec_range;
use crate::text::push_dec;
use crate::text::render_dec;
use crate::text::strip_cr;

verus! {

/// A world file: the six coefficients of an affine pixel-to-world transform.
///
/// On disk the coefficients stand one per line in the order
/// `x_scale, y_skew, x_skew, y_scale, x_coord, y_coord`.
#[derive(Clone, Copy, Debug, PartialEq, Eq, Structural)]
pub struct WorldFile {
    /// World-x change per unit pixel-x.
    pub x_scale: Dec,
    /// World-y change per unit pixel-y.
    pub y_scale: Dec,
    /// World-x change per unit pixel-y.
    pub x_skew: Dec,
    /// World-y change per unit pixel-x.
    pub y_skew: Dec,
    /// World-x coordinate of the pixel origin.
    pub x_coord: Dec,
    /// World-y coordinate of the pixel origin.
    pub y_coord: Dec,
}

/// The parse of a whole file: six lines in the on-disk order, then the
/// nonzero-scale check. Lines beyond the sixth are ignored.
pub open spec fn parse_spec(s: Seq<char>) -> Result<WorldFile, Error> {
    let d0 = dec_at(s, 0);
    let d1 = dec_at(s, 1);
    let d2 = dec_at(s, 2);
    let d3 = dec_at(s, 3);
    let d4 = dec_at(s, 4);
    let d5 = dec_at(s, 5);
    if d0 is None || d1 is None || d2 is None || d3 is None || d4 is None || d5 is None {
        Err(Error::Parse)
    } else if d0.unwrap().m == 0 || d3.unwrap().m == 0 {
        Err(Error::Validation)
    } else {
        Ok(
            WorldFile {
                x_scale: d0.unwrap(),
                y_skew: d1.unwrap(),
                x_skew: d2.unwrap(),
                y_scale: d3.unwrap(),
                x_coord: d4.unwrap(),
                y_coord: d5.unwrap(),
            },
        )
    }
}

/// The rendering of a whole file: each coefficient's line, newline-terminated,
/// in the on-disk order.
pub open spec fn render_spec(w: WorldFile) -> Seq<char> {
    render_dec(w.x_scale) + seq!['\n'] + render_dec(w.y_skew) + seq!['\n'] + render_dec(w.x_skew)
        + seq!['\n'] + render_dec(w.y_scale) + seq!['\n'] + render_dec(w.x_coord) + seq!['\n']
        + render_dec(w.y_coord) + seq!['\n']
}

impl WorldFile {
    /// Coefficients in bounds and both scales nonzero.
    pub open spec fn wf(self) -> bool {
        &&& self.x_scale.wf()
        &&& self.y_scale.wf()
        &&& self.x_skew.wf()
        &&& self.y_skew.wf()
        &&& self.x_coord.wf()
        &&& self.y_coord.wf()
        &&& self.x_scale.m != 0
        &&& self.y_scale.m != 0
    }

    /// The world-x coordinate of a pixel point, as an exact rational.
    pub open spec fn fwd_x(self, px: (int, int), py: (int, int)) -> (int, int) {
        qadd(qadd(qmul(self.x_scale.q(), px), qmul(self.x_skew.q(), py)), self.x_coord.q())
    }

    /// The world-y coordinate of a pixel point, as an exact rational.
    pub open spec fn fwd_y(self, px: (int, int), py: (int, int)) -> (int, int) {
        qadd(qadd(qmul(self.y_skew.q(), px), qmul(self.y_scale.q(), py)), self.y_coord.q())
    }

    /// The determinant of the linear part, as an exact rational.
    pub open spec fn det_q(self) -> (int, int) {
        qsub(qmul(self.x_scale.q(), self.y_scale.q()), qmul(self.x_skew.q(), self.y_skew.q()))
    }

    /// The dividend of the inverse mapping's pixel-x coordinate:
    /// `wx * y_scale - x_skew * wy + x_skew * y_coord - x_coord * y_scale`.
    pub open spec fn inv_x_num(self, wx: (int, int), wy: (int, int)) -> (int, int) {
        qadd(
            qsub(qmul(wx, self.y_scale.q()), qmul(self.x_skew.q(), wy)),
            qsub(qmul(self.x_skew.q(), self.y_coord.q()), qmul(self.x_coord.q(), self.y_scale.q())),
        )
    }

    /// The dividend of the inverse mapping's pixel-y coordinate:
    /// `x_scale * wy - y_skew * wx - x_scale * y_coord - x_coord * y_skew`.
    pub open spec fn inv_y_num(self, wx: (int, int), wy: (int, int)) -> (int, int) {
        qsub(
            qsub(qsub(qmul(self.x_scale.q(), wy), qmul(self.y_skew.q(), wx)), qmul(
                self.x_scale.q(),
                self.y_coord.q(),
            )),
            qmul(self.x_coord.q(), self.y_skew.q()),
        )
    }

    /// The pixel-x coordinate of a world point, as an exact rational.
    pub open spec fn inv_x(self, wx: (int, int), wy: (int, int)) -> (int, int) {
        qdiv(self.inv_x_num(wx, wy), self.det_q())
    }

    /// The pixel-y coordinate of a world point, as an exact rational.
    pub open spec fn inv_y(self, wx: (int, int), wy: (int, int)) -> (int, int) {
        qdiv(self.inv_y_num(wx, wy), self.det_q())
    }

    /// When every intermediate of the forward mapping fits the machine
    /// integers.
    pub open spec fn fwd_fits(self, px: (int, int), py: (int, int)) -> bool {
        let t1 = qmul(self.x_scale.q(), px);
        let t2 = qmul(self.x_skew.q(), py);
        let t3 = qadd(t1, t2);
        let u1 = qmul(self.y_skew.q(), px);
        let u2 = qmul(self.y_scale.q(), py);
        let u3 = qadd(u1, u2);
        &&& qmul_fits(self.x_scale.q(), px)
        &&& qmul_fits(self.x_skew.q(), py)
        &&& qadd_fits(t1, t2)
        &&& qadd_fits(t3, self.x_coord.q())
        &&& qmul_fits(self.y_skew.q(), px)
        &&& qmul_fits(self.y_scale.q(), py)
        &&& qadd_fits(u1, u2)
        &&& qadd_fits(u3, self.y_coord.q())
    }

    /// When the determinant's intermediates fit the machine integers.
    pub open spec fn det_fits(self) -> bool {
        &&& qmul_fits(self.x_scale.q(), self.y_scale.q())
        &&& qmul_fits(self.x_skew.q(), self.y_skew.q())
        &&& qsub_fits(
            qmul(self.x_scale.q(), self.y_scale.q()),
            qmul(self.x_skew.q(), self.y_skew.q()),
        )
    }

    /// When every intermediate of the inverse mapping, after the determinant,
    /// fits the machine integers.
    pub open spec fn inv_fits(self, wx: (int, int), wy: (int, int)) -> bool {
        let t1 = qmul(wx, self.y_scale.q());
        let t2 = qmul(self.x_skew.q(), wy);
        let t3 = qsub(t1, t2);
        let t4 = qmul(self.x_skew.q(), self.y_coord.q());
        let t5 = qmul(self.x_coord.q(), self.y_scale.q());
        let t6 = qsub(t4, t5);
        let u1 = qmul(self.x_scale.q(), wy);
        let u2 = qmul(self.y_skew.q(), wx);
        let u3 = qsub(u1, u2);
        let u4 = qmul(self.x_scale.q(), self.y_coord.q());
        let u5 = qsub(u3, u4);
        let u6 = qmul(self.x_coord.q(), self.y_skew.q());
        &&& qmul_fits(wx, self.y_scale.q())
        &&& qmul_fits(self.x_skew.q(), wy)
        &&& qsub_fits(t1, t2)
        &&& qmul_fits(self.x_skew.q(), self.y_coord.q())
        &&& qmul_fits(self.x_coord.q(), self.y_scale.q())
        &&& qsub_fits(t4, t5)
        &&& qadd_fits(t3, t6)
        &&& qmul_fits(self.x_scale.q(), wy)
        &&& qmul_fits(self.y_skew.q(), wx)
        &&& qsub_fits(u1, u2)
        &&& qmul_fits(self.x_scale.q(), self.y_coord.q())
        &&& qsub_fits(u3, u4)
        &&& qmul_fits(self.x_coord.q(), self.y_skew.q())
        &&& qsub_fits(u5, u6)
        &&& qdiv_fits(self.inv_x_num(wx, wy), self.det_q())
        &&& qdiv_fits(self.inv_y_num(wx, wy), self.det_q())
    }

    /// Whether the coefficients lie in bounds and both scales are nonzero;
    /// the executable mirror of [`wf`](Self::wf).
    pub fn is_wf(&self) -> (r: bool)
        ensures
            r == self.wf(),
    {
        -MAX_ABS <= self.x_scale.m && self.x_scale.m <= MAX_ABS && self.x_scale.e <= MAX_FRAC
            && -MAX_ABS <= self.y_scale.m && self.y_scale.m <= MAX_ABS && self.y_scale.e
            <= MAX_FRAC && -MAX_ABS <= self.x_skew.m && self.x_skew.m <= MAX_ABS && self.x_skew.e
            <= MAX_FRAC && -MAX_ABS <= self.y_skew.m && self.y_skew.m <= MAX_ABS && self.y_skew.e
            <= MAX_FRAC && -MAX_ABS <= self.x_coord.m && self.x_coord.m <= MAX_ABS
            && self.x_coord.e <= MAX_FRAC && -MAX_ABS <= self.y_coord.m && self.y_coord.m
            <= MAX_ABS && self.y_coord.e <= MAX_FRAC && self.x_scale.m != 0 && self.y_scale.m != 0
    }

    /// Parses the six-line textual form.
    ///
    /// `Err(Parse)` exactly when one of the first six lines is missing or is
    /// not a decimal number this crate can hold; `Err(Validation)` exactly
    /// when all six parse but a scale is zero; otherwise the transform, with
    /// every coefficient exactly as written. Lines beyond the sixth are
    /// ignored.
    pub fn from_string(s: &str) -> (r: Result<WorldFile, Error>)
        ensures
            r == parse_spec(s@),
            r matches Ok(w) ==> w.wf(),
    {
        let n = s.unicode_len();
        let mut v: Vec<Dec> = Vec::new();
        let mut st: usize = 0;
        let mut k: usize = 0;
        while k < 6
            invariant
                n == s@.len(),
                k == v.len() <= 6,
                k < 6 ==> st as int == line_start(s@, k as nat) && st <= n,
                forall|i: int| 0 <= i < k ==> dec_at(s@, i as nat) == Some(v@[i]),
            decreases 6 - k,
        {
            if st >= n {
                proof {
                    assert(dec_at(s@, k as nat) is None);
                    assert(k == 0 || k == 1 || k == 2 || k == 3 || k == 4 || k == 5);
                }
                return Err(Error::Parse);
            }
            let j = find_line_end(s, st);
            let je = if j > st && s.get_char(j - 1) == '\r' {
                j - 1
            } else {
                j
            };
            proof {
                let li = s@.subrange(st as int, j as int);
                if j > st && s@[j - 1] == '\r' {
                    assert(li.last() == s@[j - 1]);
                    assert(strip_cr(li) =~= s@.subrange(st as int, je as int));
                } else {
                    assert(strip_cr(li) =~= s@.subrange(st as int, je as int));
                }
                assert(line_at(s@, k as nat) == strip_cr(li));
            }
            let d = match parse_dec_range(s, st, je) {
                Some(d) => d,
                None => {
                    proof {
                        assert(dec_at(s@, k as nat) is None);
                        assert(k == 0 || k == 1 || k == 2 || k == 3 || k == 4 || k == 5);
                    }
                    return Err(Error::Parse);
                },
            };
            v.push(d);
            proof {
                assert(dec_at(s@, k as nat) == Some(d));
            }
            if k < 5 {
                if j >= n {
                    proof {
                        assert(line_start(s@, (k + 1) as nat) == line_end(
                            s@,
                            line_start(s@, k as nat),
                        ) + 1);
                        assert(dec_at(s@, (k + 1) as nat) is None);
                        assert(k + 1 == 1 || k + 1 == 2 || k + 1 == 3 || k + 1 == 4 || k + 1 == 5);
                    }
                    return Err(Error::Parse);
                }
                st = j + 1;
            }
            k = k + 1;
        }
        proof {
            assert(dec_at(s@, 0) == Some(v@[0]));
            assert(dec_at(s@, 1) == Some(v@[1]));
            assert(dec_at(s@, 2) == Some(v@[2]));
            assert(dec_at(s@, 3) == Some(v@[3]));
            assert(dec_at(s@, 4) == Some(v@[4]));
            assert(dec_at(s@, 5) == Some(v@[5]));
            lemma_dec_of_wf(line_at(s@, 0));
            lemma_dec_of_wf(line_at(s@, 1));
            lemma_dec_of_wf(line_at(s@, 2));
            lemma_dec_of_wf(line_at(s@, 3));
            lemma_dec_of_wf(line_at(s@, 4));
            lemma_dec_of_wf(line_at(s@, 5));
        }
        if v[0].m == 0 || v[3].m == 0 {
            return Err(Error::Validation);
        }
        Ok(
            WorldFile {
                x_scale: v[0],
                y_skew: v[1],
                x_skew: v[2],
                y_scale: v[3],
                x_coord: v[4],
                y_coord: v[5],
            },
        )
    }

    /// Renders the six-line textual form: each coefficient exactly as held,
    /// one per line, newline-terminated, in the on-disk order.
    pub fn to_string(&self) -> (r: String)
        requires
            self.wf(),
        ensures
            r@ == render_spec(*self),
    {
        let mut out: Vec<char> = Vec::new();
        push_dec(&self.x_scale, &mut out);
        out.push('\n');
        push_dec(&self.y_skew, &mut out);
        out.push('\n');
        push_dec(&self.x_skew, &mut out);
        out.push('\n');
        push_dec(&self.y_scale, &mut out);
        out.push('\n');
        push_dec(&self.x_coord, &mut out);
        out.push('\n');
        push_dec(&self.y_coord, &mut out);
        out.push('\n');
        proof {
            assert(out@ =~= render_spec(*self));
        }
        chars_to_string(&out)
    }

    /// Maps a pixel point to the world point, exactly.
    ///
    /// `Ok` exactly when every exact intermediate fits the machine integers;
    /// the only error is `Overflow`. On success the coordinates are exactly
    /// `x_scale * px + x_skew * py + x_coord` and
    /// `y_skew * px + y_scale * py + y_coord`.
    pub fn image_to_world(&self, p: (Rat, Rat)) -> (r: Result<(Rat, Rat), Error>)
        requires
            self.wf(),
            p.0.wf(),
            p.1.wf(),
        ensures
            r is Ok <==> self.fwd_fits(p.0.q(), p.1.q()),
            r matches Ok(w) ==> w.0.q() == self.fwd_x(p.0.q(), p.1.q()) && w.1.q() == self.fwd_y(
                p.0.q(),
                p.1.q(),
            ) && w.0.wf() && w.1.wf(),
            r is Err ==> r == Err::<(Rat, Rat), Error>(Error::Overflow),
    {
        let a = self.x_scale.to_rat();
        let b = self.x_skew.to_rat();
        let c = self.x_coord.to_rat();
        let d = self.y_skew.to_rat();
        let e = self.y_scale.to_rat();
        let f = self.y_coord.to_rat();
        let t1 = match a.times(&p.0) {
            Some(x) => x,
            None => {
                return Err(Error::Overflow);
            },
        };
        let t2 = match b.times(&p.1) {
            Some(x) => x,
            None => {
                return Err(Error::Overflow);
            },
        };
        let t3 = match t1.plus(&t2) {
            Some(x) => x,
            None => {
                return Err(Error::Overflow);
            },
        };
        let wx = match t3.plus(&c) {
            Some(x) => x,
            None => {
                return Err(Error::Overflow);
            },
        };
        let u1 = match d.times(&p.0) {
            Some(x) => x,
            None => {
                return Err(Error::Overflow);
            },
        };
        let u2 = match e.times(&p.1) {
            Some(x) => x,
            None => {
                return Err(Error::Overflow);
            },
        };
        let u3 = match u1.plus(&u2) {
            Some(x) => x,
            None => {
                return Err(Error::Overflow);
            },
        };
        let wy = match u3.plus(&f) {
            Some(x) => x,
            None => {
                return Err(Error::Overflow);
            },
        };
        Ok((wx, wy))
    }

    /// Maps a world point back to the pixel point, exactly, by Cramer's rule
    /// on the six coefficients.
    ///
    /// `Err(Domain)` exactly when the determinant
    /// `x_scale * y_scale - x_skew * y_skew` is zero (and computable);
    /// otherwise `Ok` exactly when every exact intermediate fits the machine
    /// integers, and the remaining error is `Overflow`. On success the
    /// coordinates are exactly the dividends [`inv_x_num`](Self::inv_x_num)
    /// and [`inv_y_num`](Self::inv_y_num) over the determinant.
    pub fn world_to_image(&self, p: (Rat, Rat)) -> (r: Result<(Rat, Rat), Error>)
        requires
            self.wf(),
            p.0.wf(),
            p.1.wf(),
        ensures
            r == Err::<(Rat, Rat), Error>(Error::Domain) <==> self.det_fits()
                && self.det_q().0 == 0,
            r is Ok <==> self.det_fits() && self.det_q().0 != 0 && self.inv_fits(
                p.0.q(),
                p.1.q(),
            ),
            r matches Ok(q) ==> qeq(q.0.q(), self.inv_x(p.0.q(), p.1.q())) && qeq(
                q.1.q(),
                self.inv_y(p.0.q(), p.1.q()),
            ) && q.0.wf() && q.1.wf(),
            r is Err ==> r == Err::<(Rat, Rat), Error>(Error::Domain) || r == Err::<
                (Rat, Rat),
                Error,
            >(Error::Overflow),
    {
        let a = self.x_scale.to_rat();
        let b = self.x_skew.to_rat();
        let c = self.x_coord.to_rat();
        let d = self.y_skew.to_rat();
        let e = self.y_scale.to_rat();
        let f = self.y_coord.to_rat();
        let d1 = match a.times(&e) {
            Some(x) => x,
            None => {
                return Err(Error::Overflow);
            },
        };
        let d2 = match b.times(&d) {
            Some(x) => x,
            None => {
                return Err(Error::Overflow);
            },
        };
        let det = match d1.minus(&d2) {
            Some(x) => x,
            None => {
                return Err(Error::Overflow);
            },
        };
        if det.n == 0 {
            return Err(Error::Domain);
        }
        let t1 = match p.0.times(&e) {
            Some(x) => x,
            None => {
                return Err(Error::Overflow);
            },
        };
        let t2 = match b.times(&p.1) {
            Some(x) => x,
            None => {
                return Err(Error::Overflow);
            },
        };
        let t3 = match t1.minus(&t2) {
            Some(x) => x,
            None => {
                return Err(Error::Overflow);
            },
        };
        let t4 = match b.times(&f) {
            Some(x) => x,
            None => {
                return Err(Error::Overflow);
            },
        };
        let t5 = match c.times(&e) {
            Some(x) => x,
            None => {
                return Err(Error::Overflow);
            },
        };
        let t6 = match t4.minus(&t5) {
            Some(x) => x,
            None => {
                return Err(Error::Overflow);
            },
        };
        let ux = match t3.plus(&t6) {
            Some(x) => x,
            None => {
                return Err(Error::Overflow);
            },
        };
        let u1 = match a.times(&p.1) {
            Some(x) => x,
            None => {
                return Err(Error::Overflow);
            },
        };
        let u2 = match d.times(&p.0) {
            Some(x) => x,
            None => {
                return Err(Error::Overflow);
            },
        };
        let u3 = match u1.minus(&u2) {
            Some(x) => x,
            None => {
                return Err(Error::Overflow);
            },
        };
        let u4 = match a.times(&f) {
            Some(x) => x,
            None => {
                return Err(Error::Overflow);
            },
        };
        let u5 = match u3.minus(&u4) {
            Some(x) => x,
            None => {
                return Err(Error::Overflow);
            },
        };
        let u6 = match c.times(&d) {
            Some(x) => x,
            None => {
                return Err(Error::Overflow);
            },
        };
        let uy = match u5.minus(&u6) {
            Some(x) => x,
            None => {
                return Err(Error::Overflow);
            },
        };
        let qx = match ux.over(&det) {
            Some(x) => x,
            None => {
                return Err(Error::Overflow);
            },
        };
        let qy = match uy.over(&det) {
            Some(x) => x,
            None => {
                return Err(Error::Overflow);
            },
        };
        Ok((qx, qy))
    }
}

/// The algebraic core of the map inverse law, over integers: applying the
/// inverse mapping's two dividends to a forward image gives the determinant
/// times the original coordinate, so dividing by the (nonzero) determinant
/// gives that coordinate back.
///
/// Here `a, b, c` and `d, e, f` are the two rows of the forward mapping and
/// `x, y` the pixel point. The second dividend follows the on-disk Cramer
/// formula, whose constant term is `- c*d` where the algebraic inverse has
/// `+ c*d`; the law therefore asks that `c * d == 0`, that is, that the
/// x-coordinate offset or the y skew be zero.
pub proof fn lemma_cramer_core(a: int, b: int, c: int, d: int, e: int, f: int, x: int, y: int)
    requires
        c * d == 0,
    ensures
        (a * x + b * y + c) * e - b * (d * x + e * y + f) + (b * f - c * e) == (a * e - b * d) * x,
        a * (d * x + e * y + f) - d * (a * x + b * y + c) - a * f - c * d == (a * e - b * d) * y,
{
    assert((a * x + b * y + c) * e - b * (d * x + e * y + f) + (b * f - c * e) == (a * e - b * d)
        * x) by (nonlinear_arith);
    assert(a * (d * x + e * y + f) - d * (a * x + b * y + c) - a * f - c * d == (a * e - b * d) * y)
        by (nonlinear_arith)
        requires
            c * d == 0,
    ;
}

/// One rendered line, free of line terminators, occupies `[st, st + l.len()]`
/// of `s` with its newline.
proof fn lemma_line_block(s: Seq<char>, st: int, l: Seq<char>)
    requires
        0 <= st,
        st + l.len() + 1 <= s.len(),
        forall|j: int| 0 <= j < l.len() ==> s[st + j] == l[j],
        forall|j: int| 0 <= j < l.len() ==> l[j] != '\n' && l[j] != '\r',
        s[st + l.len()] == '\n',
    ensures
        line_end(s, st) == st + l.len(),
        strip_cr(s.subrange(st, st + l.len())) == l,
{
    assert forall|k: int| st <= k < st + l.len() implies s[k] != '\n' by {
        assert(s[k] == l[k - st]);
    }
    lemma_line_end_at(s, st, st + l.len());
    assert(s.subrange(st, st + l.len()) =~= l);
    if l.len() > 0 {
        assert(l.last() != '\r');
    }
}

/// Round-trip identity: parsing the rendering of any well-formed transform
/// gives back exactly that transform.
#[verifier::rlimit(100)]
pub proof fn lemma_parse_render_round_trip(w: WorldFile)
    requires
        w.wf(),
    ensures
        parse_spec(render_spec(w)) == Ok::<WorldFile, Error>(w),
{
    let l0 = render_dec(w.x_scale);
    let l1 = render_dec(w.y_skew);
    let l2 = render_dec(w.x_skew);
    let l3 = render_dec(w.y_scale);
    let l4 = render_dec(w.x_coord);
    let l5 = render_dec(w.y_coord);
    let s = render_spec(w);
    crate::text::lemma_render_chars(w.x_scale);
    crate::text::lemma_render_chars(w.y_skew);
    crate::text::lemma_render_chars(w.x_skew);
    crate::text::lemma_render_chars(w.y_scale);
    crate::text::lemma_render_chars(w.x_coord);
    crate::text::lemma_render_chars(w.y_coord);
    let st0: int = 0;
    let st1 = st0 + l0.len() + 1;
    let st2 = st1 + l1.len() + 1;
    let st3 = st2 + l2.len() + 1;
    let st4 = st3 + l3.len() + 1;
    let st5 = st4 + l4.len() + 1;
    assert(s.len() == st5 + l5.len() + 1);
    assert forall|j: int| 0 <= j < l0.len() implies s[st0 + j] == l0[j] by {}
    assert(s[st0 + l0.len()] == '\n');
    assert forall|j: int| 0 <= j < l1.len() implies s[st1 + j] == l1[j] by {}
    assert(s[st1 + l1.len()] == '\n');
    assert forall|j: int| 0 <= j < l2.len() implies s[st2 + j] == l2[j] by {}
    assert(s[st2 + l2.len()] == '\n');
    assert forall|j: int| 0 <= j < l3.len() implies s[st3 + j] == l3[j] by {}
    assert(s[st3 + l3.len()] == '\n');
    assert forall|j: int| 0 <= j < l4.len() implies s[st4 + j] == l4[j] by {}
    assert(s[st4 + l4.len()] == '\n');
    assert forall|j: int| 0 <= j < l5.len() implies s[st5 + j] == l5[j] by {}
    assert(s[st5 + l5.len()] == '\n');
    lemma_line_block(s, st0, l0);
    lemma_line_block(s, st1, l1);
    lemma_line_block(s, st2, l2);
    lemma_line_block(s, st3, l3);
    lemma_line_block(s, st4, l4);
    lemma_line_block(s, st5, l5);
    assert(line_start(s, 0) == st0);
    assert(line_start(s, 1) == st1);
    assert(line_start(s, 2) == st2);
    assert(line_start(s, 3) == st3);
    assert(line_start(s, 4) == st4);
    assert(line_start(s, 5) == st5);
    crate::text::lemma_dec_round_trip(w.x_scale);
    crate::text::lemma_dec_round_trip(w.y_skew);
    crate::text::lemma_dec_round_trip(w.x_skew);
    crate::text::lemma_dec_round_trip(w.y_scale);
    crate::text::lemma_dec_round_trip(w.x_coord);
    crate::text::lemma_dec_round_trip(w.y_coord);
    assert(dec_at(s, 0) == Some(w.x_scale));
    assert(dec_at(s, 1) == Some(w.y_skew));
    assert(dec_at(s, 2) == Some(w.x_skew));
    assert(dec_at(s, 3) == Some(w.y_scale));
    assert(dec_at(s, 4) == Some(w.x_coord));
    assert(dec_at(s, 5) == Some(w.y_coord));
}

} // verus!
