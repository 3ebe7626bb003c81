use vstd::prelude::*;

verus! {

use crate::board::Board;
use crate::decode::Pattern;
use crate::engine::SimulationEngine;
use crate::error::Error;

/// The larger of two integers.
pub open spec fn imax(a: int, b: int) -> int {
    if a >= b {
        a
    } else {
        b
    }
}

/// The largest column among the coordinates, `-1` when there are none.
pub open spec fn max_x(cs: Seq<(usize, usize)>) -> int
    decreases cs.len(),
{
    if cs.len() == 0 {
        -1
    } else {
        imax(max_x(cs.drop_last()), cs.last().0 as int)
    }
}

/// The largest row among the coordinates, `-1` when there are none.
pub open spec fn max_y(cs: Seq<(usize, usize)>) -> int
    decreases cs.len(),
{
    if cs.len() == 0 {
        -1
    } else {
        imax(max_y(cs.drop_last()), cs.last().1 as int)
    }
}

/// The width a pattern needs: what the header declared, or one past the
/// largest emitted column, whichever is larger.
pub open spec fn fit_w(p: Pattern) -> int {
    imax(p.width as int, max_x(p.cells@) + 1)
}

/// The height a pattern needs.
pub open spec fn fit_h(p: Pattern) -> int {
    imax(p.height as int, max_y(p.cells@) + 1)
}

/// Every coordinate is bounded by the maxima.
proof fn lemma_coord_max(cs: Seq<(usize, usize)>, k: int)
    requires
        0 <= k < cs.len(),
    ensures
        cs[k].0 <= max_x(cs),
        cs[k].1 <= max_y(cs),
    decreases cs.len(),
{
    if k < cs.len() - 1 {
        lemma_coord_max(cs.drop_last(), k);
    }
}

/// Builds the interior board a decoded pattern asks for: its extent is the
/// larger of the declared extent and what the coordinates reach, every
/// decoded coordinate is alive and every other cell dead.
/// `InvalidDimensions` if and only if that extent is zero or does not fit
/// the machine.
pub fn board_from_pattern(p: &Pattern) -> (r: Result<Board, Error>)
    ensures
        match r {
            Ok(b) => {
                &&& 1 <= fit_w(*p)
                &&& 1 <= fit_h(*p)
                &&& fit_w(*p) * fit_h(*p) <= usize::MAX as int
                &&& b.wf()
                &&& b.binary()
                &&& b.w() == fit_w(*p)
                &&& b.h() == fit_h(*p)
                &&& forall|x: int, y: int|
                    b.in_bounds(x, y) ==> #[trigger] b.cell(x, y) == (if p.cells@.contains(
                        ((x as usize), (y as usize)),
                    ) {
                        1u8
                    } else {
                        0u8
                    })
            },
            Err(e) => {
                &&& e == Error::InvalidDimensions
                &&& (fit_w(*p) == 0 || fit_h(*p) == 0 || fit_w(*p) * fit_h(*p) > usize::MAX as int)
            },
        },
{
    let m = p.cells.len();
    let mut wneed: usize = p.width;
    let mut hneed: usize = p.height;
    let mut idx: usize = 0;
    proof {
        assert(p.cells@.take(0) =~= Seq::<(usize, usize)>::empty());
    }
    while idx < m
        invariant
            m == p.cells@.len(),
            idx <= m,
            wneed == imax(p.width as int, max_x(p.cells@.take(idx as int)) + 1),
            hneed == imax(p.height as int, max_y(p.cells@.take(idx as int)) + 1),
        decreases m - idx,
    {
        let cxy = p.cells[idx];
        proof {
            assert(p.cells@.take(idx as int + 1).drop_last() =~= p.cells@.take(idx as int));
            assert(p.cells@.take(idx as int + 1).last() == p.cells@[idx as int]);
        }
        if cxy.0 >= wneed {
            wneed = match cxy.0.checked_add(1) {
                Some(t) => t,
                None => {
                    proof {
                        lemma_fit_overflow(*p, idx as int);
                    }
                    return Err(Error::InvalidDimensions);
                },
            };
        }
        if cxy.1 >= hneed {
            hneed = match cxy.1.checked_add(1) {
                Some(t) => t,
                None => {
                    proof {
                        lemma_fit_overflow(*p, idx as int);
                    }
                    return Err(Error::InvalidDimensions);
                },
            };
        }
        idx = idx + 1;
    }
    proof {
        assert(p.cells@.take(m as int) =~= p.cells@);
    }
    match wneed.checked_mul(hneed) {
        Some(_) => {
        },
        None => {
            return Err(Error::InvalidDimensions);
        },
    }
    let mut b = match Board::new(wneed, hneed) {
        Ok(b) => b,
        Err(er) => {
            return Err(er);
        },
    };
    let mut idx2: usize = 0;
    proof {
        assert(p.cells@.take(0) =~= Seq::<(usize, usize)>::empty());
    }
    while idx2 < m
        invariant
            m == p.cells@.len(),
            idx2 <= m,
            b.wf(),
            b.w() == fit_w(*p),
            b.h() == fit_h(*p),
            1 <= fit_w(*p) <= usize::MAX,
            1 <= fit_h(*p) <= usize::MAX,
            forall|x: int, y: int|
                b.in_bounds(x, y) ==> #[trigger] b.cell(x, y) == (if p.cells@.take(
                    idx2 as int,
                ).contains(((x as usize), (y as usize))) {
                    1u8
                } else {
                    0u8
                }),
        decreases m - idx2,
    {
        let cxy = p.cells[idx2];
        proof {
            lemma_coord_max(p.cells@, idx2 as int);
        }
        let ghost bpre = b;
        b.put(cxy.0, cxy.1, 1u8);
        proof {
            let t1 = p.cells@.take(idx2 as int + 1);
            let t0 = p.cells@.take(idx2 as int);
            assert(t1.drop_last() =~= t0);
            assert(t1.last() == p.cells@[idx2 as int]);
            assert forall|x: int, y: int| b.in_bounds(x, y) implies #[trigger] b.cell(x, y) == (
            if t1.contains(((x as usize), (y as usize))) {
                1u8
            } else {
                0u8
            }) by {
                let v = ((x as usize), (y as usize));
                if x == cxy.0 as int && y == cxy.1 as int {
                    assert(t1[idx2 as int] == v);
                    assert(t1.contains(v));
                    assert(b.cell(x, y) == 1);
                } else {
                    assert(b.cell(x, y) == bpre.cell(x, y));
                    assert(t1.len() == idx2 + 1);
                    assert(t1[idx2 as int] == ((cxy.0, cxy.1)));
                    assert(v != ((cxy.0, cxy.1)));
                    if t1.contains(v) {
                        let wk = choose|wk: int| 0 <= wk < t1.len() && t1[wk] == v;
                        assert(0 <= wk < t1.len() && t1[wk] == v);
                        assert(wk != idx2 as int);
                        assert(t0[wk] == t1[wk]);
                        assert(t0.contains(v));
                    }
                    if t0.contains(v) {
                        let wk = choose|wk: int| 0 <= wk < t0.len() && t0[wk] == v;
                        assert(0 <= wk < t0.len() && t0[wk] == v);
                        assert(t1[wk] == t0[wk]);
                        assert(t1.contains(v));
                    }
                }
            }
        }
        idx2 = idx2 + 1;
    }
    proof {
        assert(p.cells@.take(m as int) =~= p.cells@);
    }
    Ok(b)
}

/// When a coordinate reaches the top of the machine range, the needed
/// extent overflows it.
proof fn lemma_fit_overflow(p: Pattern, k: int)
    requires
        0 <= k < p.cells@.len(),
        p.cells@[k].0 == usize::MAX || p.cells@[k].1 == usize::MAX,
    ensures
        fit_w(p) * fit_h(p) > usize::MAX as int,
{
    lemma_coord_max(p.cells@, k);
    assert(1 <= fit_w(p) && 1 <= fit_h(p));
    assert(fit_w(p) > usize::MAX as int || fit_h(p) > usize::MAX as int);
    assert(fit_w(p) * fit_h(p) >= fit_w(p) && fit_w(p) * fit_h(p) >= fit_h(p)) by (nonlinear_arith)
        requires
            1 <= fit_w(p),
            1 <= fit_h(p),
    ;
}

/// What a cell of a freshly seeded engine holds: the decoded pattern,
/// shifted by half the margin, inside a dead border and the dead padding
/// ring.
pub open spec fn seeded_cell(p: Pattern, margin: int, x: int, y: int) -> u8 {
    let m2 = margin / 2;
    let gw = fit_w(p) + margin;
    let gh = fit_h(p) + margin;
    if x == 0 || y == 0 || x == gw - 1 || y == gh - 1 {
        0u8
    } else if m2 <= x < m2 + fit_w(p) && m2 <= y < m2 + fit_h(p) && p.cells@.contains(
        (((x - m2) as usize), ((y - m2) as usize)),
    ) {
        1u8
    } else {
        0u8
    }
}

/// The whole bootstrap: build the pattern's interior board, center it
/// inside a dead margin, and construct the engine over the result.
/// `InvalidDimensions` if and only if the pattern's extent is zero or
/// unrepresentable, the margin is odd, or the padded board is too small to
/// host the engine's padding ring.
pub fn engine_from_pattern(p: &Pattern, margin: usize) -> (r: Result<SimulationEngine, Error>)
    ensures
        match r {
            Ok(e) => {
                &&& margin % 2 == 0
                &&& 1 <= fit_w(*p)
                &&& 1 <= fit_h(*p)
                &&& (fit_w(*p) + margin) * (fit_h(*p) + margin) <= usize::MAX as int
                &&& fit_w(*p) + margin >= 3
                &&& fit_h(*p) + margin >= 3
                &&& e.wf()
                &&& e.grid().w() == fit_w(*p) + margin
                &&& e.grid().h() == fit_h(*p) + margin
                &&& forall|x: int, y: int|
                    e.grid().in_bounds(x, y) ==> #[trigger] e.grid().cell(x, y) == seeded_cell(
                        *p,
                        margin as int,
                        x,
                        y,
                    )
            },
            Err(er) => {
                &&& er == Error::InvalidDimensions
                &&& (fit_w(*p) == 0 || fit_h(*p) == 0 || fit_w(*p) * fit_h(*p) > usize::MAX as int
                    || (fit_w(*p) + margin) * (fit_h(*p) + margin) > usize::MAX as int || margin % 2
                    == 1 || fit_w(*p) + margin < 3 || fit_h(*p) + margin < 3)
            },
        },
{
    let b = match board_from_pattern(p) {
        Ok(b) => b,
        Err(er) => {
            proof {
                lemma_padded_overflow(*p, margin as int);
            }
            return Err(er);
        },
    };
    let bw = b.width();
    let bh = b.height();
    let nw = match bw.checked_add(margin) {
        Some(t) => t,
        None => {
            proof {
                lemma_padded_ge(*p, margin as int);
            }
            return Err(Error::InvalidDimensions);
        },
    };
    let nh = match bh.checked_add(margin) {
        Some(t) => t,
        None => {
            proof {
                lemma_padded_ge(*p, margin as int);
            }
            return Err(Error::InvalidDimensions);
        },
    };
    match nw.checked_mul(nh) {
        Some(_) => {
        },
        None => {
            return Err(Error::InvalidDimensions);
        },
    }
    let eb = match b.embed_into(margin) {
        Ok(eb) => eb,
        Err(er) => {
            return Err(er);
        },
    };
    proof {
        assert forall|x: int, y: int| eb.in_bounds(x, y) implies #[trigger] eb.cell(x, y) <= 1 by {
            assert(eb.cell(x, y) == b.embedded_cell(margin as int, x, y));
        }
    }
    match SimulationEngine::new_from_board(eb) {
        Ok(en) => {
            proof {
                assert forall|x: int, y: int| en.grid().in_bounds(x, y) implies #[trigger] en.grid().cell(
                    x,
                    y,
                ) == seeded_cell(*p, margin as int, x, y) by {
                    let gw = fit_w(*p) + margin;
                    let gh = fit_h(*p) + margin;
                    if x == 0 || y == 0 || x == gw - 1 || y == gh - 1 {
                        assert(crate::engine::on_ring(en.grid(), x, y));
                        assert(en.grid().cell(x, y) == 0);
                    } else {
                        assert(en.grid().cell(x, y) == eb.cell(x, y));
                        assert(eb.cell(x, y) == b.embedded_cell(margin as int, x, y));
                    }
                }
            }
            Ok(en)
        },
        Err(er) => {
            return Err(er);
        },
    }
}

/// An unrepresentable interior extent stays unrepresentable once padded.
proof fn lemma_padded_overflow(p: Pattern, margin: int)
    requires
        0 <= margin,
        fit_w(p) == 0 || fit_h(p) == 0 || fit_w(p) * fit_h(p) > usize::MAX as int,
    ensures
        fit_w(p) == 0 || fit_h(p) == 0 || (fit_w(p) + margin) * (fit_h(p) + margin)
            > usize::MAX as int,
{
    if fit_w(p) != 0 && fit_h(p) != 0 {
        assert((fit_w(p) + margin) * (fit_h(p) + margin) >= fit_w(p) * fit_h(p))
            by (nonlinear_arith)
            requires
                1 <= fit_w(p),
                1 <= fit_h(p),
                0 <= margin,
        ;
    }
}

/// A padded extent beyond the machine range makes the padded cell count
/// overflow too.
proof fn lemma_padded_ge(p: Pattern, margin: int)
    requires
        1 <= fit_w(p),
        1 <= fit_h(p),
        0 <= margin,
        fit_w(p) + margin > usize::MAX as int || fit_h(p) + margin > usize::MAX as int,
    ensures
        (fit_w(p) + margin) * (fit_h(p) + margin) > usize::MAX as int,
{
    assert((fit_w(p) + margin) * (fit_h(p) + margin) >= fit_w(p) + margin && (fit_w(p) + margin) * (
    fit_h(p) + margin) >= fit_h(p) + margin) by (nonlinear_arith)
        requires
            1 <= fit_w(p),
            1 <= fit_h(p),
            0 <= margin,
    ;
}

} // verus!
