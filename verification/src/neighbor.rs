//! The eight-neighbourhood of a grid cell, clipped to the grid.

use vstd::prelude::*;

verus! {

/// A coordinate offset of minus one, zero, or plus one.
#[derive(Debug, Clone, Copy, PartialEq, Eq, Structural)]
pub enum Neighbor {
    M,
    Z,
    P,
}

/// `n` shifted by the offset, if the result stays within `[lo, hi)`.
pub open spec fn comp_spec(d: Neighbor, n: int, lo: int, hi: int) -> Option<usize> {
    let v = match d {
        Neighbor::M => n - 1,
        Neighbor::Z => n,
        Neighbor::P => n + 1,
    };
    if 0 <= v && lo <= v < hi {
        Some(v as usize)
    } else {
        None
    }
}

/// The cells adjacent to `(x, y)` that lie within a `width` by `height`
/// grid, in a fixed order: the row above left to right, the two horizontal
/// neighbours, the row below left to right.
pub open spec fn neighbors_spec(x: int, y: int, width: int, height: int) -> Seq<(usize, usize)> {
    let offsets = seq![
        (Neighbor::M, Neighbor::M),
        (Neighbor::Z, Neighbor::M),
        (Neighbor::P, Neighbor::M),
        (Neighbor::M, Neighbor::Z),
        (Neighbor::P, Neighbor::Z),
        (Neighbor::M, Neighbor::P),
        (Neighbor::Z, Neighbor::P),
        (Neighbor::P, Neighbor::P),
    ];
    offsets.map_values(
        |d: (Neighbor, Neighbor)|
            match (comp_spec(d.0, x, 0, width), comp_spec(d.1, y, 0, height)) {
                (Some(fx), Some(fy)) => Some((fx, fy)),
                _ => None,
            },
    ).filter(|o: Option<(usize, usize)>| o is Some).map_values(
        |o: Option<(usize, usize)>| o->Some_0,
    )
}

impl Neighbor {
    /// `n` shifted by this offset, if the result stays within `[lo, hi)`.
    pub fn comp(&self, n: usize, lo: usize, hi: usize) -> (r: Option<usize>)
        ensures
            r == comp_spec(*self, n as int, lo as int, hi as int),
    {
        let v = match self {
            Neighbor::M => {
                if n == 0 {
                    return None;
                }
                n - 1
            },
            Neighbor::Z => n,
            Neighbor::P => {
                if n == usize::MAX {
                    return None;
                }
                n + 1
            },
        };
        if lo <= v && v < hi {
            Some(v)
        } else {
            None
        }
    }

    /// The cells adjacent to `(x, y)` within a `width` by `height` grid.
    pub fn neighbors_in(x: usize, y: usize, width: usize, height: usize) -> (r: Vec<
        (usize, usize),
    >)
        ensures
            r@ =~= neighbors_spec(x as int, y as int, width as int, height as int),
    {
        let offsets: [(Neighbor, Neighbor); 8] = [
            (Neighbor::M, Neighbor::M),
            (Neighbor::Z, Neighbor::M),
            (Neighbor::P, Neighbor::M),
            (Neighbor::M, Neighbor::Z),
            (Neighbor::P, Neighbor::Z),
            (Neighbor::M, Neighbor::P),
            (Neighbor::Z, Neighbor::P),
            (Neighbor::P, Neighbor::P),
        ];
        let ghost off_seq = seq![
            (Neighbor::M, Neighbor::M),
            (Neighbor::Z, Neighbor::M),
            (Neighbor::P, Neighbor::M),
            (Neighbor::M, Neighbor::Z),
            (Neighbor::P, Neighbor::Z),
            (Neighbor::M, Neighbor::P),
            (Neighbor::Z, Neighbor::P),
            (Neighbor::P, Neighbor::P),
        ];
        let ghost opts = off_seq.map_values(
            |d: (Neighbor, Neighbor)|
                match (
                    comp_spec(d.0, x as int, 0, width as int),
                    comp_spec(d.1, y as int, 0, height as int),
                ) {
                    (Some(fx), Some(fy)) => Some((fx, fy)),
                    _ => None,
                },
        );
        let ghost keep = |o: Option<(usize, usize)>| o is Some;
        let mut r: Vec<(usize, usize)> = Vec::new();
        let mut k: usize = 0;
        proof {
            reveal(Seq::filter);
            assert(opts.take(0) =~= Seq::<Option<(usize, usize)>>::empty());
        }
        while k < 8
            invariant
                0 <= k <= 8,
                opts.len() == 8,
                opts == off_seq.map_values(
                    |d: (Neighbor, Neighbor)|
                        match (
                            comp_spec(d.0, x as int, 0, width as int),
                            comp_spec(d.1, y as int, 0, height as int),
                        ) {
                            (Some(fx), Some(fy)) => Some((fx, fy)),
                            _ => None,
                        },
                ),
                keep == (|o: Option<(usize, usize)>| o is Some),
                offsets@ == off_seq,
                r@ =~= opts.take(k as int).filter(keep).map_values(
                    |o: Option<(usize, usize)>| o->Some_0,
                ),
            decreases 8 - k,
        {
            proof {
                reveal(Seq::filter);
                assert(opts.take(k + 1).drop_last() =~= opts.take(k as int));
                assert(opts.take(k + 1).last() == opts[k as int]);
                assert(opts[k as int] == (match (
                    comp_spec(off_seq[k as int].0, x as int, 0, width as int),
                    comp_spec(off_seq[k as int].1, y as int, 0, height as int),
                ) {
                    (Some(fx), Some(fy)) => Some((fx, fy)),
                    _ => None,
                }));
            }
            let (dx, dy) = offsets[k];
            let fx = dx.comp(x, 0, width);
            let fy = dy.comp(y, 0, height);
            match (fx, fy) {
                (Some(fx), Some(fy)) => {
                    let ghost r0 = r@;
                    r.push((fx, fy));
                    proof {
                        assert(keep(opts[k as int]));
                        assert(opts.take(k + 1).filter(keep) =~= opts.take(k as int).filter(
                            keep,
                        ).push(opts[k as int]));
                        assert(r@ =~= r0.push((fx, fy)));
                    }
                },
                _ => {
                    proof {
                        assert(!keep(opts[k as int]));
                        assert(opts.take(k + 1).filter(keep) =~= opts.take(k as int).filter(keep));
                    }
                },
            }
            k = k + 1;
        }
        proof {
            assert(opts.take(8) =~= opts);
        }
        r
    }
}

} // verus!
