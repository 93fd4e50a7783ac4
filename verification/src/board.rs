//! The default board: the rectangle of drawn map tiles and the standard
//! obstacle layout.

use vstd::prelude::*;

verus! {

use vstd::arithmetic::div_mod::lemma_fundamental_div_mod_converse_div;
use vstd::arithmetic::div_mod::lemma_fundamental_div_mod_converse_mod;
use crate::hex::Axial;

/// The fixed obstacle layout the game starts with.
pub open spec fn obstacle_layout() -> Seq<Axial> {
    seq![
        Axial { q: 0i64, r: 1i64 },
        Axial { q: 1i64, r: 1i64 },
        Axial { q: 2i64, r: 1i64 },
        Axial { q: 3i64, r: 1i64 },
        Axial { q: -3i64, r: 1i64 },
        Axial { q: -3i64, r: 0i64 },
        Axial { q: -3i64, r: -1i64 },
    ]
}

/// The default obstacle positions, in layout order.
pub fn default_obstacles() -> (r: Vec<Axial>)
    ensures
        r@ == obstacle_layout(),
{
    let mut r: Vec<Axial> = Vec::new();
    r.push(Axial::new(0, 1));
    r.push(Axial::new(1, 1));
    r.push(Axial::new(2, 1));
    r.push(Axial::new(3, 1));
    r.push(Axial::new(-3, 1));
    r.push(Axial::new(-3, 0));
    r.push(Axial::new(-3, -1));
    proof {
        assert(r@ =~= obstacle_layout());
    }
    r
}

/// The rectangle of map tiles the host draws: `q` from -5 through 5, `r`
/// from -6 through 6, row-major with `q` outermost.
pub fn map_tiles() -> (tiles: Vec<Axial>)
    ensures
        tiles@.len() == 143,
        forall|k: int| 0 <= k < 143 ==> (#[trigger] tiles@[k]).q == -5 + k / 13
            && tiles@[k].r == -6 + k % 13,
{
    let mut tiles: Vec<Axial> = Vec::new();
    let mut q: i64 = -5;
    while q < 6
        invariant
            -5 <= q <= 6,
            tiles@.len() == (q + 5) * 13,
            forall|k: int| 0 <= k < tiles@.len() ==> (#[trigger] tiles@[k]).q == -5 + k / 13
                && tiles@[k].r == -6 + k % 13,
        decreases 6 - q,
    {
        let mut r: i64 = -6;
        while r < 7
            invariant
                -5 <= q < 6,
                -6 <= r <= 7,
                tiles@.len() == (q + 5) * 13 + (r + 6),
                forall|k: int| 0 <= k < tiles@.len() ==> (#[trigger] tiles@[k]).q == -5 + k / 13
                    && tiles@[k].r == -6 + k % 13,
            decreases 7 - r,
        {
            proof {
                let n = (q + 5) * 13 + (r + 6);
                lemma_fundamental_div_mod_converse_div(n, 13, q + 5, r + 6);
                lemma_fundamental_div_mod_converse_mod(n, 13, q + 5, r + 6);
            }
            tiles.push(Axial::new(q, r));
            r += 1;
        }
        q += 1;
    }
    tiles
}

} // verus!
