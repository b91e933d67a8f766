//! The integer parts of the radar marker geometry: how the band between two rings of the
//! coverage dome is filled with triangles, the azimuth steps of the dome and of the 2D coverage,
//! and which palette entry colours a marker's coverage.
use vstd::prelude::*;

verus! {

/// The azimuth step (mils) of the dome: every fourth azimuth.
pub const DOME_AZIMUTH_STEP: usize = 4;

/// The azimuth step (mils) of the boundary of the 2D coverage.
pub const COVERAGE_AZIMUTH_STEP: usize = 2;

/// Triangles of the cap that closes the top ring of the dome.
pub const DOME_APEX_SEGMENTS: usize = 48;

/// The smallest thinning of the azimuths of a dome ring.
pub const DOME_MIN_RING_STRIDE: usize = 2;

/// The largest thinning of the azimuths of a dome ring.
pub const DOME_MAX_RING_STRIDE: usize = 32;

/// Entries of the coverage colour palette.
pub const COVERAGE_PALETTE_LEN: usize = 6;

/// The triangles between two neighbouring rings (`lower` has `ratio = |lower| / |upper|`
/// vertices per upper edge): for every upper edge `j`, the `ratio` triangles of the lower edges
/// below it, each with the upper vertex `j`, then the triangle of the upper edge with the lower
/// vertex at its end. Nothing when `upper` is empty or its length does not divide `lower`'s.
pub open spec fn stitch_spec<V>(lower: Seq<V>, upper: Seq<V>) -> Seq<(V, V, V)> {
    let nl = lower.len() as int;
    let nu = upper.len() as int;
    if nu == 0 || nl % nu != 0 {
        Seq::empty()
    } else {
        let r = nl / nu;
        Seq::new(
            (nu * (r + 1)) as nat,
            |k: int|
                {
                    let j = k / (r + 1);
                    let i = k % (r + 1);
                    if i < r {
                        (lower[j * r + i], lower[(j * r + i + 1) % nl], upper[j])
                    } else {
                        (upper[j], upper[(j + 1) % nu], lower[((j + 1) * r) % nl])
                    }
                },
        )
    }
}

/// Fills the band between two rings of vertices with triangles (see `stitch_spec`), so that
/// rings thinned differently meet without gaps or T-joints. Both windings are visible, so the
/// order inside a triangle does not matter.
pub fn stitch_rings<V: Copy>(lower: &[V], upper: &[V]) -> (tris: Vec<(V, V, V)>)
    requires
        upper@.len() > 0 ==> lower@.len() > 0,
        lower@.len() + upper@.len() <= usize::MAX,
    ensures
        tris@ == stitch_spec(lower@, upper@),
{
    let n_lower = lower.len();
    let n_upper = upper.len();
    let mut tris: Vec<(V, V, V)> = Vec::new();
    if n_upper == 0 || n_lower % n_upper != 0 {
        proof {
            assert(tris@ =~= stitch_spec(lower@, upper@));
        }
        return tris;
    }
    let ratio = n_lower / n_upper;
    let ghost nl = n_lower as int;
    let ghost nu = n_upper as int;
    let ghost r = ratio as int;
    proof {
        vstd::arithmetic::div_mod::lemma_fundamental_div_mod(nl, nu);
        assert(nu * r == nl);
        assert(r >= 1) by (nonlinear_arith)
            requires
                nu * r == nl,
                nl >= 1,
                nu >= 1,
                r >= 0,
        ;
    }
    let mut j: usize = 0;
    while j < n_upper
        invariant
            n_lower == lower@.len(),
            n_upper == upper@.len(),
            nl == n_lower,
            nu == n_upper,
            r == ratio,
            n_upper > 0,
            nl % nu == 0,
            r == nl / nu,
            nu * r == nl,
            r >= 1,
            j <= n_upper,
            tris@.len() == j * (r + 1),
            forall|k: int|
                0 <= k < tris@.len() ==> #[trigger] tris@[k] == stitch_spec(lower@, upper@)[k],
        decreases n_upper - j,
    {
        proof {
            assert((j + 1) * r <= nl) by (nonlinear_arith)
                requires
                    j < nu,
                    nu * r == nl,
                    r >= 0,
            ;
            assert((j + 1) * r == j * r + r) by (nonlinear_arith);
            assert(j * (r + 1) + r + 1 == (j + 1) * (r + 1)) by (nonlinear_arith);
            assert((j + 1) * (r + 1) <= nu * (r + 1)) by (nonlinear_arith)
                requires
                    j < nu,
                    r >= 0,
            ;
            assert(nu * (r + 1) == nl + nu) by (nonlinear_arith)
                requires
                    nu * r == nl,
            ;
        }
        let u0 = upper[j];
        let u1 = upper[(j + 1) % n_upper];
        let mut i: usize = 0;
        while i < ratio
            invariant
                n_lower == lower@.len(),
                n_upper == upper@.len(),
                nl == n_lower,
                nu == n_upper,
                r == ratio,
                n_upper > 0,
                nl % nu == 0,
                r == nl / nu,
                nu * r == nl,
                r >= 1,
                j < n_upper,
                (j + 1) * r <= nl,
                (j + 1) * r == j * r + r,
                j * (r + 1) + r + 1 == (j + 1) * (r + 1),
                (j + 1) * (r + 1) <= nu * (r + 1),
                u0 == upper@[j as int],
                i <= ratio,
                tris@.len() == j * (r + 1) + i,
                forall|k: int|
                    0 <= k < tris@.len() ==> #[trigger] tris@[k] == stitch_spec(lower@, upper@)[k],
            decreases ratio - i,
        {
            let a = j * ratio + i;
            let b = (j * ratio + i + 1) % n_lower;
            tris.push((lower[a], lower[b], u0));
            proof {
                let k = j * (r + 1) + i;
                assert(k < nu * (r + 1));
                assert(stitch_spec(lower@, upper@).len() == nu * (r + 1));
                vstd::arithmetic::div_mod::lemma_fundamental_div_mod_converse(
                    k,
                    r + 1,
                    j as int,
                    i as int,
                );
            }
            i = i + 1;
        }
        let c = ((j + 1) * ratio) % n_lower;
        tris.push((u0, u1, lower[c]));
        proof {
            let k = j * (r + 1) + r;
            assert(k < nu * (r + 1));
            assert(stitch_spec(lower@, upper@).len() == nu * (r + 1));
            vstd::arithmetic::div_mod::lemma_fundamental_div_mod_converse(k, r + 1, j as int, r);
        }
        j = j + 1;
    }
    proof {
        assert(tris@ =~= stitch_spec(lower@, upper@));
    }
    tris
}

/// The band has one triangle per edge of either ring: `|lower| + |upper|` triangles.
pub proof fn lemma_stitch_count<V>(lower: Seq<V>, upper: Seq<V>)
    requires
        upper.len() > 0,
        lower.len() % upper.len() == 0,
    ensures
        stitch_spec(lower, upper).len() == lower.len() + upper.len(),
{
    let nl = lower.len() as int;
    let nu = upper.len() as int;
    let r = nl / nu;
    vstd::arithmetic::div_mod::lemma_fundamental_div_mod(nl, nu);
    assert(nu * (r + 1) == nl + nu) by (nonlinear_arith)
        requires
            nu * r == nl,
    ;
}

/// Every edge of either ring borders a triangle of the band: lower edge `a` (from vertex `a` to
/// the next) with the upper vertex above it, and upper edge `j` with the lower vertex at its end.
pub proof fn lemma_stitch_covers_ring_edges<V>(lower: Seq<V>, upper: Seq<V>)
    requires
        upper.len() > 0,
        lower.len() > 0,
        lower.len() % upper.len() == 0,
    ensures
        ({
            let nl = lower.len() as int;
            let nu = upper.len() as int;
            let r = nl / nu;
            &&& forall|a: int|
                0 <= a < nl ==> #[trigger] stitch_spec(lower, upper)[(a / r) * (r + 1) + a % r] == (
                    lower[a],
                    lower[(a + 1) % nl],
                    upper[a / r],
                )
            &&& forall|j: int|
                0 <= j < nu ==> #[trigger] stitch_spec(lower, upper)[j * (r + 1) + r] == (
                    upper[j],
                    upper[(j + 1) % nu],
                    lower[((j + 1) * r) % nl],
                )
        }),
{
    let nl = lower.len() as int;
    let nu = upper.len() as int;
    let r = nl / nu;
    vstd::arithmetic::div_mod::lemma_fundamental_div_mod(nl, nu);
    assert(r >= 1) by (nonlinear_arith)
        requires
            nu * r == nl,
            nl >= 1,
            nu >= 1,
            r >= 0,
    ;
    assert(nu * (r + 1) == nl + nu) by (nonlinear_arith)
        requires
            nu * r == nl,
    ;
    assert forall|a: int| 0 <= a < nl implies #[trigger] stitch_spec(lower, upper)[(a / r) * (r
        + 1) + a % r] == (lower[a], lower[(a + 1) % nl], upper[a / r]) by {
        let j = a / r;
        let i = a % r;
        vstd::arithmetic::div_mod::lemma_fundamental_div_mod(a, r);
        assert(0 <= i < r);
        assert(j >= 0) by (nonlinear_arith)
            requires
                a >= 0,
                r >= 1,
                j == a / r,
        ;
        assert(j < nu) by (nonlinear_arith)
            requires
                a < nl,
                nl == nu * r,
                a == r * j + i,
                0 <= i,
                r >= 1,
        ;
        let k = j * (r + 1) + i;
        vstd::arithmetic::div_mod::lemma_fundamental_div_mod_converse(k, r + 1, j, i);
        assert(k < nu * (r + 1)) by (nonlinear_arith)
            requires
                j < nu,
                0 <= i < r,
                k == j * (r + 1) + i,
        ;
        assert(j * r + i == a) by (nonlinear_arith)
            requires
                a == r * j + i,
        ;
    }
    assert forall|j: int| 0 <= j < nu implies #[trigger] stitch_spec(lower, upper)[j * (r + 1)
        + r] == (upper[j], upper[(j + 1) % nu], lower[((j + 1) * r) % nl]) by {
        let k = j * (r + 1) + r;
        vstd::arithmetic::div_mod::lemma_fundamental_div_mod_converse(k, r + 1, j, r);
        assert(k < nu * (r + 1)) by (nonlinear_arith)
            requires
                0 <= j < nu,
                r >= 1,
                k == j * (r + 1) + r,
        ;
    }
}

/// The palette entry of the coverage of marker `marker_id` (ids count from 1; 0 is taken as 1):
/// neighbouring markers differ, and the palette starts over after its last entry.
pub fn coverage_palette_index(marker_id: u64) -> (i: usize)
    ensures
        i == ((if marker_id < 1 {
            1
        } else {
            marker_id as int
        }) - 1) % COVERAGE_PALETTE_LEN as int,
{
    let id = if marker_id < 1 {
        1
    } else {
        marker_id
    };
    ((id - 1) % 6) as usize
}

} // verus!
