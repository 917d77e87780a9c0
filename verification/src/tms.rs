//! The tile matrix set engine: a validated, sorted pyramid of tile matrices
//! with tile-graph navigation over it.

use vstd::prelude::*;
use vstd::arithmetic::power2::{
    pow2, lemma_pow2_adds, lemma_pow2_pos, lemma_pow2_strictly_increases, lemma2_to64,
    lemma2_to64_rest,
};
use vstd::arithmetic::div_mod::{
    lemma_fundamental_div_mod, lemma_fundamental_div_mod_converse, lemma_multiply_divide_lt,
};
use vstd::arithmetic::mul::lemma_mul_inequality;
use vstd::multiset::Multiset;
use crate::errors::TmsError;
use crate::tile::Tile;
use crate::quadkey::check_quadkey_support;
use crate::tile_matrix_set::{
    spec_is_zoom_id, spec_zoom_id_val, parse_zoom_id, TileMatrix, TileMatrixSet,
};

verus! {

/// Tile Matrix Set engine: a tile matrix set definition whose levels are
/// sorted and validated, together with its derived quadtree flag.
///
/// Built once by [`Tms::init`] or [`TileMatrixSet::into_tms`] and read-only
/// thereafter; duplicating an engine is an explicit rebuild from its
/// definition, never an implicit cheap copy.
#[derive(Debug)]
pub struct Tms {
    /// The validated definition: levels sorted ascending by zoom level.
    pub tms: TileMatrixSet,
    /// Whether consecutive levels are square, power-of-two sized, and double
    /// in tile count per axis: the shape required by quadkeys.
    pub is_quadtree: bool,
}

/// Per-zoom inclusive tile-index ranges.
#[derive(Debug, Clone, Copy, PartialEq, Eq, Structural)]
pub struct MinMax {
    /// Smallest tile column.
    pub x_min: u64,
    /// Largest tile column.
    pub x_max: u64,
    /// Smallest tile row.
    pub y_min: u64,
    /// Largest tile row.
    pub y_max: u64,
}

/// Declared axis names of a tile matrix set, as character sequences.
pub open spec fn spec_axes_view(a: Option<Vec<String>>) -> Option<Seq<String>> {
    match a {
        None => None,
        Some(v) => Some(v@),
    }
}

/// A well-formed tile matrix: an identifier that parses as a zoom level and
/// nonzero dimensions.
pub open spec fn spec_matrix_wf(m: TileMatrix) -> bool {
    &&& spec_is_zoom_id(m.id@)
    &&& m.tile_width > 0
    &&& m.tile_height > 0
    &&& m.matrix_width > 0
    &&& m.matrix_height > 0
}

/// Zoom level of a tile matrix.
pub open spec fn spec_matrix_zoom(m: TileMatrix) -> u8 {
    spec_zoom_id_val(m.id@)
}

/// Whether the matrices are sorted ascending by zoom level.
pub open spec fn spec_sorted_by_zoom(ms: Seq<TileMatrix>) -> bool {
    forall|i: int, j: int|
        0 <= i < j < ms.len() ==> spec_matrix_zoom(#[trigger] ms[i]) <= spec_matrix_zoom(
            #[trigger] ms[j],
        )
}

/// Whether `w` is a power of two.
pub open spec fn spec_is_pow2(w: u64) -> bool {
    exists|k: nat| k < 64 && w == pow2(k)
}

/// One step of the quadtree shape: a square, power-of-two level whose
/// successor has twice as many tile columns.
pub open spec fn spec_quad_pair(a: TileMatrix, b: TileMatrix) -> bool {
    &&& a.matrix_width == a.matrix_height
    &&& spec_is_pow2(a.matrix_width)
    &&& b.matrix_width == 2 * a.matrix_width
}

/// Whether a pyramid is quadtree-shaped: every consecutive pair of levels
/// except the last forms a quadtree step.
pub open spec fn spec_is_quadtree(ms: Seq<TileMatrix>) -> bool {
    forall|i: int| 0 <= i < ms.len() - 1 ==> spec_quad_pair(#[trigger] ms[i], ms[i + 1])
}

/// First index at or after `i` whose matrix has zoom level `z`, or the
/// length when there is none.
pub open spec fn spec_find_from(ms: Seq<TileMatrix>, z: u8, i: int) -> int
    decreases ms.len() - i,
{
    if i < 0 || i >= ms.len() {
        ms.len() as int
    } else if spec_matrix_zoom(ms[i]) == z {
        i
    } else {
        spec_find_from(ms, z, i + 1)
    }
}

/// The scan behind [`spec_find_from`] finds the first matching index.
pub proof fn lemma_find_from(ms: Seq<TileMatrix>, z: u8, i: int)
    requires
        0 <= i <= ms.len(),
    ensures
        i <= spec_find_from(ms, z, i) <= ms.len(),
        spec_find_from(ms, z, i) < ms.len() ==> spec_matrix_zoom(
            ms[spec_find_from(ms, z, i)],
        ) == z,
        forall|j: int|
            i <= j < spec_find_from(ms, z, i) ==> spec_matrix_zoom(#[trigger] ms[j]) != z,
        (spec_find_from(ms, z, i) < ms.len()) <==> exists|j: int|
            i <= j < ms.len() && spec_matrix_zoom(#[trigger] ms[j]) == z,
    decreases ms.len() - i,
{
    if i < ms.len() && spec_matrix_zoom(ms[i]) != z {
        lemma_find_from(ms, z, i + 1);
    }
}

impl Tms {
    /// The sequence of tile matrices of this engine.
    pub open spec fn spec_matrices(self) -> Seq<TileMatrix> {
        self.tms.tile_matrices@
    }

    /// Well-formedness: at least one level, every level well-formed, levels
    /// sorted ascending by zoom, declared axes nonempty, and the quadtree
    /// flag true exactly of a quadtree-shaped pyramid.
    pub open spec fn wf(self) -> bool {
        &&& self.spec_matrices().len() > 0
        &&& forall|i: int|
            0 <= i < self.spec_matrices().len() ==> spec_matrix_wf(#[trigger] self.spec_matrices()[i])
        &&& spec_sorted_by_zoom(self.spec_matrices())
        &&& self.is_quadtree == spec_is_quadtree(self.spec_matrices())
        &&& (self.tms.ordered_axes matches Some(a) ==> a@.len() > 0)
    }

    /// The smallest zoom level of the pyramid.
    pub open spec fn spec_minzoom(self) -> u8 {
        spec_matrix_zoom(self.spec_matrices()[0])
    }

    /// The largest zoom level of the pyramid.
    pub open spec fn spec_maxzoom(self) -> u8 {
        spec_matrix_zoom(self.spec_matrices().last())
    }

    /// Whether some tile matrix is defined for zoom `z`.
    pub open spec fn spec_has_level(self, z: u8) -> bool {
        exists|i: int|
            0 <= i < self.spec_matrices().len() && spec_matrix_zoom(
                #[trigger] self.spec_matrices()[i],
            ) == z
    }

    /// Index of the first tile matrix for zoom `z`.
    pub open spec fn spec_level_index(self, z: u8) -> int {
        spec_find_from(self.spec_matrices(), z, 0)
    }

    /// Whether the grid shape at zoom `z` is determined: either the level is
    /// defined, or it lies above the pyramid and is extrapolated.
    pub open spec fn spec_level_ok(self, z: u8) -> bool {
        self.spec_has_level(z) || z > self.spec_maxzoom()
    }

    /// Number of tile columns at zoom `z`: the defined level's width, or the
    /// last level's width doubled once per level above the pyramid.
    pub open spec fn spec_width_at(self, z: u8) -> nat {
        if self.spec_has_level(z) {
            self.spec_matrices()[self.spec_level_index(z)].matrix_width as nat
        } else {
            (self.spec_matrices().last().matrix_width * pow2((z - self.spec_maxzoom()) as nat)) as nat
        }
    }

    /// Number of tile rows at zoom `z`, as [`spec_width_at`].
    pub open spec fn spec_height_at(self, z: u8) -> nat {
        if self.spec_has_level(z) {
            self.spec_matrices()[self.spec_level_index(z)].matrix_height as nat
        } else {
            (self.spec_matrices().last().matrix_height * pow2((z - self.spec_maxzoom()) as nat)) as nat
        }
    }

    /// Whether a tile is on the grid: its zoom at or above the minimum and
    /// its indices within the zoom's matrix dimensions.
    pub open spec fn spec_is_valid(self, t: Tile) -> bool {
        &&& t.z >= self.spec_minzoom()
        &&& (t.x as nat) < self.spec_width_at(t.z)
        &&& (t.y as nat) < self.spec_height_at(t.z)
    }

    /// Iterate over matrices.
    pub fn matrices(&self) -> (r: &Vec<TileMatrix>)
        ensures
            r == &self.tms.tile_matrices,
    {
        &self.tms.tile_matrices
    }

    /// The coordinate reference system of the tile matrix set.
    pub fn crs(&self) -> (r: &String)
        ensures
            r == &self.tms.crs,
    {
        &self.tms.crs
    }

    /// Zoom level of the tile matrix at `idx`.
    fn matrix_zoom_at(&self, idx: usize) -> (z: u8)
        requires
            self.wf(),
            idx < self.spec_matrices().len(),
        ensures
            z == spec_matrix_zoom(self.spec_matrices()[idx as int]),
    {
        match parse_zoom_id(self.tms.tile_matrices[idx].id.as_str()) {
            Some(z) => z,
            None => {
                proof {
                    assert(spec_matrix_wf(self.spec_matrices()[idx as int]));
                }
                0
            },
        }
    }

    /// TileMatrixSet minimum TileMatrix identifier.
    pub fn minzoom(&self) -> (z: u8)
        requires
            self.wf(),
        ensures
            z == self.spec_minzoom(),
    {
        self.matrix_zoom_at(0)
    }

    /// TileMatrixSet maximum TileMatrix identifier.
    pub fn maxzoom(&self) -> (z: u8)
        requires
            self.wf(),
        ensures
            z == self.spec_maxzoom(),
    {
        self.matrix_zoom_at(self.tms.tile_matrices.len() - 1)
    }

    /// Whether the CRS has inverted axes (lat, lon) instead of (lon, lat).
    pub fn invert_axis(&self) -> (r: bool)
        requires
            self.wf(),
        ensures
            r == match self.tms.ordered_axes {
                Some(a) => crate::tile_matrix_set::spec_axis_inverted(a@[0]@),
                None => false,
            },
    {
        self.tms.crs_axis_inverted()
    }

    /// Index of the first tile matrix for zoom `zoom`, when one is defined.
    fn find_level(&self, zoom: u8) -> (r: Option<usize>)
        requires
            self.wf(),
        ensures
            match r {
                Some(i) => self.spec_has_level(zoom) && i as int == self.spec_level_index(zoom),
                None => !self.spec_has_level(zoom),
            },
    {
        proof {
            lemma_find_from(self.spec_matrices(), zoom, 0);
        }
        let n = self.tms.tile_matrices.len();
        let mut i: usize = 0;
        while i < n
            invariant
                self.wf(),
                n == self.spec_matrices().len(),
                i <= n,
                forall|j: int|
                    0 <= j < i ==> spec_matrix_zoom(#[trigger] self.spec_matrices()[j]) != zoom,
            decreases n - i,
        {
            if self.matrix_zoom_at(i) == zoom {
                proof {
                    lemma_find_from(self.spec_matrices(), zoom, 0);
                }
                return Some(i);
            }
            i = i + 1;
        }
        None
    }

    /// Number of tile columns at zoom `zoom`.
    pub(crate) fn width_at(&self, zoom: u8) -> (w: u64)
        requires
            self.wf(),
            self.spec_level_ok(zoom),
            self.spec_width_at(zoom) <= u64::MAX,
        ensures
            w == self.spec_width_at(zoom),
            w >= 1,
    {
        match self.find_level(zoom) {
            Some(i) => {
                proof {
                    lemma_find_from(self.spec_matrices(), zoom, 0);
                    assert(spec_matrix_wf(self.spec_matrices()[i as int]));
                }
                self.tms.tile_matrices[i].matrix_width
            },
            None => {
                let last = self.tms.tile_matrices.len() - 1;
                proof {
                    assert(spec_matrix_wf(self.spec_matrices()[last as int]));
                }
                let w0 = self.tms.tile_matrices[last].matrix_width;
                let maxz = self.maxzoom();
                let w = grow_doubling(w0, (zoom - maxz) as u8, Ghost(self.spec_width_at(zoom)));
                proof {
                    lemma_pow2_pos(((zoom - maxz) as u8) as nat);
                    assert(w0 * pow2(((zoom - maxz) as u8) as nat) >= 1) by (nonlinear_arith)
                        requires
                            w0 >= 1,
                            pow2(((zoom - maxz) as u8) as nat) >= 1,
                    ;
                }
                w
            },
        }
    }

    /// Number of tile rows at zoom `zoom`.
    pub(crate) fn height_at(&self, zoom: u8) -> (h: u64)
        requires
            self.wf(),
            self.spec_level_ok(zoom),
            self.spec_height_at(zoom) <= u64::MAX,
        ensures
            h == self.spec_height_at(zoom),
            h >= 1,
    {
        match self.find_level(zoom) {
            Some(i) => {
                proof {
                    lemma_find_from(self.spec_matrices(), zoom, 0);
                    assert(spec_matrix_wf(self.spec_matrices()[i as int]));
                }
                self.tms.tile_matrices[i].matrix_height
            },
            None => {
                let last = self.tms.tile_matrices.len() - 1;
                proof {
                    assert(spec_matrix_wf(self.spec_matrices()[last as int]));
                }
                let h0 = self.tms.tile_matrices[last].matrix_height;
                let maxz = self.maxzoom();
                let h = grow_doubling(h0, (zoom - maxz) as u8, Ghost(self.spec_height_at(zoom)));
                proof {
                    lemma_pow2_pos(((zoom - maxz) as u8) as nat);
                    assert(h0 * pow2(((zoom - maxz) as u8) as nat) >= 1) by (nonlinear_arith)
                        requires
                            h0 >= 1,
                            pow2(((zoom - maxz) as u8) as nat) >= 1,
                    ;
                }
                h
            },
        }
    }

    /// Return TileMatrix extrema: the inclusive tile-index ranges at a zoom.
    pub fn minmax(&self, zoom: u8) -> (r: MinMax)
        requires
            self.wf(),
            self.spec_level_ok(zoom),
            self.spec_width_at(zoom) <= u64::MAX,
            self.spec_height_at(zoom) <= u64::MAX,
        ensures
            r == (MinMax {
                x_min: 0u64,
                x_max: (self.spec_width_at(zoom) - 1) as u64,
                y_min: 0u64,
                y_max: (self.spec_height_at(zoom) - 1) as u64,
            }),
    {
        let w = self.width_at(zoom);
        let h = self.height_at(zoom);
        MinMax { x_min: 0, x_max: w - 1, y_min: 0, y_max: h - 1 }
    }

    /// Check if a tile is valid: zoom at or above the minimum and indices
    /// within the matrix dimensions of its zoom.
    pub fn is_valid(&self, tile: &Tile) -> (r: bool)
        requires
            self.wf(),
            tile.z >= self.spec_minzoom() ==> self.spec_level_ok(tile.z),
        ensures
            r == self.spec_is_valid(*tile),
    {
        if tile.z < self.minzoom() {
            return false;
        }
        match self.find_level(tile.z) {
            Some(i) => {
                proof {
                    lemma_find_from(self.spec_matrices(), tile.z, 0);
                }
                let m = &self.tms.tile_matrices[i];
                tile.x < m.matrix_width && tile.y < m.matrix_height
            },
            None => {
                let last = self.tms.tile_matrices.len() - 1;
                proof {
                    assert(spec_matrix_wf(self.spec_matrices()[last as int]));
                }
                let m = &self.tms.tile_matrices[last];
                let k = tile.z - self.maxzoom();
                below_doubled(tile.x, m.matrix_width, k) && below_doubled(tile.y, m.matrix_height, k)
            },
        }
    }
}

/// Multiply `w` by two `k` times; the caller knows the result fits.
fn grow_doubling(w0: u64, k: u8, bound: Ghost<nat>) -> (w: u64)
    requires
        w0 >= 1,
        bound@ == w0 * pow2(k as nat),
        bound@ <= u64::MAX,
    ensures
        w == w0 * pow2(k as nat),
{
    let mut w = w0;
    let mut i: u8 = 0;
    proof {
        lemma2_to64();
    }
    while i < k
        invariant
            i <= k,
            w == w0 * pow2(i as nat),
            w0 * pow2(k as nat) <= u64::MAX,
            w0 >= 1,
        decreases k - i,
    {
        proof {
            lemma_pow2_adds(i as nat, 1);
            lemma_pow2_pos(i as nat);
            lemma2_to64();
            vstd::arithmetic::mul::lemma_mul_is_associative(
                w0 as int,
                pow2(i as nat) as int,
                2,
            );
            // w * 2 stays below the final value, which the caller knows fits.
            assert(pow2((i + 1) as nat) <= pow2(k as nat)) by {
                if i + 1 < k {
                    lemma_pow2_strictly_increases((i + 1) as nat, k as nat);
                }
            }
            assert(w0 * pow2((i + 1) as nat) <= w0 * pow2(k as nat)) by (nonlinear_arith)
                requires
                    pow2((i + 1) as nat) <= pow2(k as nat),
                    w0 >= 1,
            ;
        }
        w = w * 2;
        i = i + 1;
    }
    w
}

/// Whether `x < w * 2^k`, computed without overflowing.
fn below_doubled(x: u64, w: u64, k: u8) -> (r: bool)
    requires
        w >= 1,
    ensures
        r == ((x as nat) < w * pow2(k as nat)),
{
    if k >= 64 {
        proof {
            lemma2_to64_rest();
            if (k as nat) > 64 {
                lemma_pow2_strictly_increases(64, k as nat);
            }
            lemma_mul_inequality(1, w as int, pow2(k as nat) as int);
        }
        true
    } else {
        let q = x >> (k as u64);
        proof {
            vstd::bits::lemma_u64_shr_is_div(x, k as u64);
            lemma_pow2_pos(k as nat);
            let p = pow2(k as nat) as int;
            // x / 2^k < w  <==>  x < w * 2^k
            if (x as int) < (w as int) * p {
                lemma_multiply_divide_lt(x as int, p, w as int);
            } else {
                vstd::arithmetic::div_mod::lemma_div_is_ordered(
                    (w as int) * p,
                    x as int,
                    p,
                );
                vstd::arithmetic::div_mod::lemma_div_multiples_vanish(w as int, p);
            }
        }
        q < w
    }
}


/// Zoom level of a tile matrix with a parseable identifier.
fn matrix_zoom(m: &TileMatrix) -> (z: u8)
    requires
        spec_is_zoom_id(m.id@),
    ensures
        z == spec_matrix_zoom(*m),
{
    match parse_zoom_id(m.id.as_str()) {
        Some(z) => z,
        None => 0,
    }
}

/// Index of a tile matrix with the smallest zoom level.
fn find_min_zoom_index(v: &Vec<TileMatrix>) -> (m: usize)
    requires
        v@.len() > 0,
        forall|i: int| 0 <= i < v@.len() ==> spec_is_zoom_id(#[trigger] v@[i].id@),
    ensures
        m < v@.len(),
        forall|j: int|
            0 <= j < v@.len() ==> spec_matrix_zoom(v@[m as int]) <= spec_matrix_zoom(
                #[trigger] v@[j],
            ),
{
    let n = v.len();
    let mut m: usize = 0;
    let mut best: u8 = matrix_zoom(&v[0]);
    let mut i: usize = 1;
    while i < n
        invariant
            n == v@.len(),
            forall|k: int| 0 <= k < n ==> spec_is_zoom_id(#[trigger] v@[k].id@),
            m < i <= n || (m == 0 && i <= n),
            m < n,
            best == spec_matrix_zoom(v@[m as int]),
            forall|j: int| 0 <= j < i ==> best <= spec_matrix_zoom(#[trigger] v@[j]),
        decreases n - i,
    {
        let z = matrix_zoom(&v[i]);
        if z < best {
            best = z;
            m = i;
        }
        i = i + 1;
    }
    m
}

/// Copy of one tile matrix.
fn copy_matrix(m: &TileMatrix) -> (r: TileMatrix)
    ensures
        r == *m,
{
    TileMatrix {
        id: m.id.clone(),
        tile_width: m.tile_width,
        tile_height: m.tile_height,
        matrix_width: m.matrix_width,
        matrix_height: m.matrix_height,
    }
}

/// Copy of a declared axis ordering.
fn copy_axes(a: &Option<Vec<String>>) -> (r: Option<Vec<String>>)
    ensures
        spec_axes_view(r) == spec_axes_view(*a),
{
    match a {
        None => None,
        Some(v) => {
            let n = v.len();
            let mut out: Vec<String> = Vec::new();
            let mut i: usize = 0;
            while i < n
                invariant
                    n == v@.len(),
                    i <= n,
                    out@.len() == i,
                    forall|j: int| 0 <= j < i ==> out@[j] == v@[j],
                decreases n - i,
            {
                out.push(v[i].clone());
                i = i + 1;
            }
            proof {
                assert(out@ =~= v@);
            }
            Some(out)
        },
    }
}

/// Copy of a tile matrix set definition.
fn copy_tms(data: &TileMatrixSet) -> (r: TileMatrixSet)
    ensures
        r.id == data.id,
        r.crs == data.crs,
        spec_axes_view(r.ordered_axes) == spec_axes_view(data.ordered_axes),
        r.tile_matrices@ == data.tile_matrices@,
{
    let n = data.tile_matrices.len();
    let mut ms: Vec<TileMatrix> = Vec::new();
    let mut i: usize = 0;
    while i < n
        invariant
            n == data.tile_matrices@.len(),
            i <= n,
            ms@.len() == i,
            forall|j: int| 0 <= j < i ==> ms@[j] == data.tile_matrices@[j],
        decreases n - i,
    {
        ms.push(copy_matrix(&data.tile_matrices[i]));
        i = i + 1;
    }
    proof {
        assert(ms@ =~= data.tile_matrices@);
    }
    TileMatrixSet {
        id: data.id.clone(),
        crs: data.crs.clone(),
        ordered_axes: copy_axes(&data.ordered_axes),
        tile_matrices: ms,
    }
}

impl Tms {
    /// Sort matrices ascending by the zoom level of their identifier.
    ///
    /// Fails with [`TmsError::InvalidZoomId`], naming the first offending
    /// identifier, exactly when some identifier does not parse as a zoom
    /// level; the definition is then left unchanged.
    pub fn sort_tile_matrices(tms: &mut TileMatrixSet) -> (r: Result<(), TmsError>)
        ensures
            r is Ok <==> (forall|i: int|
                0 <= i < old(tms).tile_matrices@.len() ==> spec_is_zoom_id(
                    #[trigger] old(tms).tile_matrices@[i].id@,
                )),
            r is Ok ==> {
                &&& spec_sorted_by_zoom(final(tms).tile_matrices@)
                &&& final(tms).tile_matrices@.to_multiset() == old(
                    tms,
                ).tile_matrices@.to_multiset()
                &&& final(tms).tile_matrices@.len() == old(tms).tile_matrices@.len()
                &&& final(tms).id == old(tms).id
                &&& final(tms).crs == old(tms).crs
                &&& final(tms).ordered_axes == old(tms).ordered_axes
            },
            r matches Err(e) ==> {
                &&& *final(tms) == *old(tms)
                &&& e matches TmsError::InvalidZoomId(id) && exists|i: int|
                    0 <= i < old(tms).tile_matrices@.len() && !spec_is_zoom_id(
                        #[trigger] old(tms).tile_matrices@[i].id@,
                    ) && id@ == old(tms).tile_matrices@[i].id@
            },
    {
        broadcast use vstd::seq_lib::group_to_multiset_ensures;

        let n = tms.tile_matrices.len();
        let mut i: usize = 0;
        while i < n
            invariant
                *tms == *old(tms),
                n == tms.tile_matrices@.len(),
                i <= n,
                forall|j: int| 0 <= j < i ==> spec_is_zoom_id(#[trigger] tms.tile_matrices@[j].id@),
            decreases n - i,
        {
            if parse_zoom_id(tms.tile_matrices[i].id.as_str()).is_none() {
                return Err(TmsError::InvalidZoomId(tms.tile_matrices[i].id.clone()));
            }
            i = i + 1;
        }
        let ghost orig = tms.tile_matrices@;
        let mut sorted: Vec<TileMatrix> = Vec::new();
        while tms.tile_matrices.len() > 0
            invariant
                tms.id == old(tms).id,
                tms.crs == old(tms).crs,
                tms.ordered_axes == old(tms).ordered_axes,
                forall|j: int|
                    0 <= j < tms.tile_matrices@.len() ==> spec_is_zoom_id(
                        #[trigger] tms.tile_matrices@[j].id@,
                    ),
                forall|j: int|
                    0 <= j < sorted@.len() ==> spec_is_zoom_id(#[trigger] sorted@[j].id@),
                spec_sorted_by_zoom(sorted@),
                forall|p: int, q: int|
                    0 <= p < sorted@.len() && 0 <= q < tms.tile_matrices@.len()
                        ==> spec_matrix_zoom(#[trigger] sorted@[p]) <= spec_matrix_zoom(
                        #[trigger] tms.tile_matrices@[q],
                    ),
                sorted@.to_multiset().add(tms.tile_matrices@.to_multiset())
                    =~= orig.to_multiset(),
                sorted@.len() + tms.tile_matrices@.len() == orig.len(),
            decreases tms.tile_matrices@.len(),
        {
            let m = find_min_zoom_index(&tms.tile_matrices);
            let ghost before = tms.tile_matrices@;
            let e = tms.tile_matrices.remove(m);
            let ghost sorted_before = sorted@;
            sorted.push(e);
            proof {
                before.to_multiset_ensures();
                sorted_before.to_multiset_ensures();
                assert(tms.tile_matrices@ == before.remove(m as int));
                assert(sorted@ == sorted_before.push(e));
                assert(before.contains(e)) by {
                    assert(before[m as int] == e);
                }
                assert(before.to_multiset().count(e) > 0);
                assert(tms.tile_matrices@.to_multiset() =~= before.to_multiset().remove(e));
                assert(sorted@.to_multiset() =~= sorted_before.to_multiset().insert(e));
                assert(sorted@.to_multiset().add(tms.tile_matrices@.to_multiset())
                    =~= orig.to_multiset());
                assert forall|q: int|
                    0 <= q < tms.tile_matrices@.len() implies spec_matrix_zoom(sorted@.last())
                    <= spec_matrix_zoom(#[trigger] tms.tile_matrices@[q]) by {
                    if q < m {
                        assert(tms.tile_matrices@[q] == before[q]);
                    } else {
                        assert(tms.tile_matrices@[q] == before[q + 1]);
                    }
                }
            }
        }
        proof {
            assert(tms.tile_matrices@.to_multiset() =~= Multiset::<TileMatrix>::empty());
            assert(sorted@.to_multiset() =~= orig.to_multiset());
        }
        tms.tile_matrices = sorted;
        Ok(())
    }

    /// Build the engine from a definition: copy it, reject zero dimensions
    /// and unparseable level identifiers, sort the levels by zoom, and
    /// derive the quadtree flag.
    ///
    /// Fails with [`TmsError::NonZeroError`] exactly when some level has a
    /// zero tile size or matrix dimension, and otherwise with
    /// [`TmsError::InvalidZoomId`] exactly when some level identifier does
    /// not parse as a zoom level.
    pub fn init(data: &TileMatrixSet) -> (r: Result<Tms, TmsError>)
        requires
            data.tile_matrices@.len() > 0,
            data.ordered_axes matches Some(a) ==> a@.len() > 0,
        ensures
            r matches Ok(t) ==> {
                &&& t.wf()
                &&& t.tms.tile_matrices@.to_multiset() == data.tile_matrices@.to_multiset()
                &&& t.tms.tile_matrices@.len() == data.tile_matrices@.len()
                &&& t.tms.id == data.id
                &&& t.tms.crs == data.crs
                &&& spec_axes_view(t.tms.ordered_axes) == spec_axes_view(data.ordered_axes)
                &&& t.is_quadtree == spec_is_quadtree(t.tms.tile_matrices@)
            },
            r is Ok <==> (forall|i: int|
                0 <= i < data.tile_matrices@.len() ==> spec_matrix_wf(
                    #[trigger] data.tile_matrices@[i],
                )),
            r == Err::<Tms, TmsError>(TmsError::NonZeroError) <==> (exists|i: int|
                0 <= i < data.tile_matrices@.len() && !(#[trigger] data.tile_matrices@[i].tile_width
                    > 0 && data.tile_matrices@[i].tile_height > 0
                    && data.tile_matrices@[i].matrix_width > 0
                    && data.tile_matrices@[i].matrix_height > 0)),
            (r matches Err(e) && e != TmsError::NonZeroError) ==> (r matches Err(e)
                && e matches TmsError::InvalidZoomId(id) && exists|i: int|
                0 <= i < data.tile_matrices@.len() && !spec_is_zoom_id(
                    #[trigger] data.tile_matrices@[i].id@,
                ) && id@ == data.tile_matrices@[i].id@),
    {
        let n = data.tile_matrices.len();
        let mut i: usize = 0;
        while i < n
            invariant
                n == data.tile_matrices@.len(),
                i <= n,
                forall|j: int|
                    0 <= j < i ==> (#[trigger] data.tile_matrices@[j].tile_width > 0
                        && data.tile_matrices@[j].tile_height > 0
                        && data.tile_matrices@[j].matrix_width > 0
                        && data.tile_matrices@[j].matrix_height > 0),
            decreases n - i,
        {
            let m = &data.tile_matrices[i];
            if !(m.tile_width > 0 && m.tile_height > 0 && m.matrix_width > 0 && m.matrix_height
                > 0) {
                return Err(TmsError::NonZeroError);
            }
            i = i + 1;
        }
        let mut tms = copy_tms(data);
        match Tms::sort_tile_matrices(&mut tms) {
            Ok(_) => {},
            Err(e) => {
                return Err(e);
            },
        }
        proof {
            assert forall|j: int| 0 <= j < tms.tile_matrices@.len() implies spec_matrix_wf(
                #[trigger] tms.tile_matrices@[j],
            ) by {
                broadcast use vstd::seq_lib::group_to_multiset_ensures;

                assert(tms.tile_matrices@.to_multiset().count(tms.tile_matrices@[j]) > 0) by {
                    assert(tms.tile_matrices@.contains(tms.tile_matrices@[j]));
                }
                assert(data.tile_matrices@.contains(tms.tile_matrices@[j]));
                let k = choose|k: int|
                    0 <= k < data.tile_matrices@.len() && data.tile_matrices@[k]
                        == tms.tile_matrices@[j];
                assert(spec_matrix_wf(data.tile_matrices@[k]));
            }
        }
        let is_quadtree = check_quadkey_support(&tms.tile_matrices);
        Ok(Tms { tms, is_quadtree })
    }
}

impl TileMatrixSet {
    /// Build a tile matrix set engine from this definition.
    pub fn into_tms(&self) -> (r: Result<Tms, TmsError>)
        requires
            self.tile_matrices@.len() > 0,
            self.ordered_axes matches Some(a) ==> a@.len() > 0,
        ensures
            r matches Ok(t) ==> {
                &&& t.wf()
                &&& t.tms.tile_matrices@.to_multiset() == self.tile_matrices@.to_multiset()
                &&& t.tms.tile_matrices@.len() == self.tile_matrices@.len()
                &&& t.tms.id == self.id
                &&& t.tms.crs == self.crs
                &&& spec_axes_view(t.tms.ordered_axes) == spec_axes_view(self.ordered_axes)
                &&& t.is_quadtree == spec_is_quadtree(t.tms.tile_matrices@)
            },
            r is Ok <==> (forall|i: int|
                0 <= i < self.tile_matrices@.len() ==> spec_matrix_wf(
                    #[trigger] self.tile_matrices@[i],
                )),
    {
        Tms::init(self)
    }
}



impl Tms {
    /// Return the TileMatrix for a specific zoom.
    ///
    /// A level is found by the numeric value of its identifier and returned
    /// as it stands. A zoom above the pyramid gets an extrapolated matrix:
    /// the plain decimal identifier of the zoom, the last level's tile
    /// size, and the last level's dimensions doubled once per level above
    /// the pyramid.
    pub fn matrix(&self, zoom: u8) -> (r: TileMatrix)
        requires
            self.wf(),
            self.spec_level_ok(zoom),
            self.spec_width_at(zoom) <= u64::MAX,
            self.spec_height_at(zoom) <= u64::MAX,
        ensures
            self.spec_has_level(zoom) ==> r == self.spec_matrices()[self.spec_level_index(zoom)],
            !self.spec_has_level(zoom) ==> {
                &&& r.id@ == crate::tile_matrix_set::spec_zoom_id_str(zoom)
                &&& r.tile_width == self.spec_matrices().last().tile_width
                &&& r.tile_height == self.spec_matrices().last().tile_height
                &&& r.matrix_width == self.spec_width_at(zoom)
                &&& r.matrix_height == self.spec_height_at(zoom)
            },
            spec_matrix_wf(r),
            spec_matrix_zoom(r) == zoom,
    {
        match self.find_level(zoom) {
            Some(i) => {
                proof {
                    lemma_find_from(self.spec_matrices(), zoom, 0);
                    assert(spec_matrix_wf(self.spec_matrices()[i as int]));
                }
                copy_matrix(&self.tms.tile_matrices[i])
            },
            None => {
                let last = self.tms.tile_matrices.len() - 1;
                proof {
                    assert(spec_matrix_wf(self.spec_matrices()[last as int]));
                    crate::tile_matrix_set::lemma_zoom_id_str(zoom);
                }
                let w = self.width_at(zoom);
                let h = self.height_at(zoom);
                TileMatrix {
                    id: crate::tile_matrix_set::zoom_id_string(zoom),
                    tile_width: self.tms.tile_matrices[last].tile_width,
                    tile_height: self.tms.tile_matrices[last].tile_height,
                    matrix_width: w,
                    matrix_height: h,
                }
            },
        }
    }

    /// Whether `n` is one of the up-to-eight neighbors of `t`: a distinct
    /// tile of the same zoom, within one step on each axis and within the
    /// grid.
    pub open spec fn spec_is_neighbor(self, t: Tile, n: Tile) -> bool {
        &&& n.z == t.z
        &&& !(n.x == t.x && n.y == t.y)
        &&& t.x - 1 <= n.x <= t.x + 1
        &&& t.y - 1 <= n.y <= t.y + 1
        &&& (n.x as nat) < self.spec_width_at(t.z)
        &&& (n.y as nat) < self.spec_height_at(t.z)
    }

    /// The neighbors of a tile: up to eight tiles of the same zoom at offset
    /// one on each axis, omitting any that fall outside the grid; no
    /// wraparound at grid edges. The neighbors function makes no guarantees
    /// regarding neighbor tile ordering.
    pub fn neighbors(&self, tile: &Tile) -> (r: Vec<Tile>)
        requires
            self.wf(),
            self.spec_level_ok(tile.z),
            self.spec_width_at(tile.z) <= u64::MAX,
            self.spec_height_at(tile.z) <= u64::MAX,
        ensures
            forall|n: Tile| r@.contains(n) <==> self.spec_is_neighbor(*tile, n),
            forall|i: int, j: int| 0 <= i < j < r@.len() ==> r@[i] != r@[j],
    {
        let w = self.width_at(tile.z);
        let h = self.height_at(tile.z);
        let x = tile.x;
        let y = tile.y;
        let z = tile.z;
        let mut tiles: Vec<Tile> = Vec::new();
        let mut k: u64 = 0;
        while k < 9
            invariant
                k <= 9,
                w == self.spec_width_at(tile.z),
                h == self.spec_height_at(tile.z),
                x == tile.x && y == tile.y && z == tile.z,
                forall|n: Tile|
                    tiles@.contains(n) <==> (self.spec_is_neighbor(*tile, n) && ((n.x - tile.x
                        + 1) * 3 + (n.y - tile.y + 1)) < k),
                forall|i: int, j: int| 0 <= i < j < tiles@.len() ==> tiles@[i] != tiles@[j],
            decreases 9 - k,
        {
            let dx = k / 3;
            let dy = k % 3;
            let cand: Option<Tile> = if dx == 1 && dy == 1 {
                None
            } else if (dx == 0 && x == 0) || (dy == 0 && y == 0) || (dx == 2 && x == u64::MAX)
                || (dy == 2 && y == u64::MAX) {
                None
            } else {
                let cx = if dx == 0 { x - 1 } else if dx == 1 { x } else { x + 1 };
                let cy = if dy == 0 { y - 1 } else if dy == 1 { y } else { y + 1 };
                Some(Tile { x: cx, y: cy, z })
            };
            let ghost before = tiles@;
            match cand {
                Some(n) => {
                    if n.x < w && n.y < h {
                        tiles.push(n);
                        proof {
                            lemma_push_contains(before, n);
                            assert(self.spec_is_neighbor(*tile, n));
                            assert((n.x - tile.x + 1) * 3 + (n.y - tile.y + 1) == k);
                        }
                    }
                },
                None => {},
            }
            proof {
                assert forall|n: Tile|
                    tiles@.contains(n) <==> (self.spec_is_neighbor(*tile, n) && ((n.x - tile.x
                        + 1) * 3 + (n.y - tile.y + 1)) < k + 1) by {
                    if self.spec_is_neighbor(*tile, n) {
                        assert(n.x == tile.x - 1 || n.x == tile.x || n.x == tile.x + 1);
                        assert(n.y == tile.y - 1 || n.y == tile.y || n.y == tile.y + 1);
                    }
                }
            }
            k = k + 1;
        }
        tiles
    }
}

/// Membership in a sequence extended by one element.
proof fn lemma_push_contains(s: Seq<Tile>, e: Tile)
    ensures
        forall|n: Tile| s.push(e).contains(n) <==> (s.contains(n) || n == e),
{
    assert forall|n: Tile| s.push(e).contains(n) <==> (s.contains(n) || n == e) by {
        if s.contains(n) {
            let i = choose|i: int| 0 <= i < s.len() && s[i] == n;
            assert(s.push(e)[i] == n);
        }
        if n == e {
            assert(s.push(e)[s.len() as int] == n);
        }
        if s.push(e).contains(n) {
            let i = choose|i: int| 0 <= i < s.push(e).len() && s.push(e)[i] == n;
            if i < s.len() {
                assert(s[i] == n);
            }
        }
    }
}


/// First tile index of a `to_dim`-column grid covering index `x` of a
/// `from_dim`-column grid over the same extent.
pub open spec fn spec_cover_lo(x: nat, from_dim: nat, to_dim: nat) -> nat {
    ((x * to_dim) / from_dim) as nat
}

/// Last tile index of a `to_dim`-column grid covering index `x` of a
/// `from_dim`-column grid over the same extent.
pub open spec fn spec_cover_hi(x: nat, from_dim: nat, to_dim: nat) -> nat {
    (((x + 1) * to_dim - 1) / (from_dim as int)) as nat
}

/// Row-major block of tiles at zoom `z`: columns `lox..=hix` outer, rows
/// `loy..=hiy` inner.
pub open spec fn spec_tile_block(lox: nat, hix: nat, loy: nat, hiy: nat, z: u8) -> Seq<Tile> {
    Seq::new(
        ((hix + 1 - lox) * (hiy + 1 - loy)) as nat,
        |k: int|
            Tile {
                x: (lox + k / (hiy + 1 - loy)) as u64,
                y: (loy + k % (hiy + 1 - loy)) as u64,
                z,
            },
    )
}

/// First tile index of the covering range.
fn cover_lo(x: u64, from_dim: u64, to_dim: u64) -> (r: u64)
    requires
        1 <= from_dim,
        1 <= to_dim,
        x < from_dim,
    ensures
        r == spec_cover_lo(x as nat, from_dim as nat, to_dim as nat),
        r < to_dim,
{
    proof {
        assert((x as int) * (to_dim as int) <= u128::MAX) by (nonlinear_arith)
            requires
                x <= u64::MAX,
                to_dim <= u64::MAX,
        ;
        assert((x as int) * (to_dim as int) < (from_dim as int) * (to_dim as int))
            by (nonlinear_arith)
            requires
                x < from_dim,
                to_dim >= 1,
        ;
        lemma_multiply_divide_lt((x as int) * (to_dim as int), from_dim as int, to_dim as int);
    }
    (((x as u128) * (to_dim as u128)) / (from_dim as u128)) as u64
}

/// Last tile index of the covering range; never below the first.
fn cover_hi(x: u64, from_dim: u64, to_dim: u64) -> (r: u64)
    requires
        1 <= from_dim,
        1 <= to_dim,
        x < from_dim,
    ensures
        r == spec_cover_hi(x as nat, from_dim as nat, to_dim as nat),
        r < to_dim,
        spec_cover_lo(x as nat, from_dim as nat, to_dim as nat) <= r,
{
    proof {
        assert(((x as int) + 1) * (to_dim as int) <= u128::MAX) by (nonlinear_arith)
            requires
                x < from_dim <= u64::MAX,
                to_dim <= u64::MAX,
        ;
        assert(((x as int) + 1) * (to_dim as int) - 1 < (from_dim as int) * (to_dim as int))
            by (nonlinear_arith)
            requires
                x < from_dim,
                to_dim >= 1,
        ;
        assert((x as int) * (to_dim as int) <= ((x as int) + 1) * (to_dim as int) - 1)
            by (nonlinear_arith)
            requires
                to_dim >= 1,
        ;
        lemma_multiply_divide_lt(
            ((x as int) + 1) * (to_dim as int) - 1,
            from_dim as int,
            to_dim as int,
        );
        vstd::arithmetic::div_mod::lemma_div_is_ordered(
            (x as int) * (to_dim as int),
            ((x as int) + 1) * (to_dim as int) - 1,
            from_dim as int,
        );
    }
    ((((x as u128) + 1) * (to_dim as u128) - 1) / (from_dim as u128)) as u64
}

/// The normalized inclusive index ranges spanned by two corner tiles.
pub fn corner_limits(ul: &Tile, lr: &Tile) -> (r: MinMax)
    ensures
        r.x_min == if ul.x <= lr.x { ul.x } else { lr.x },
        r.x_max == if ul.x <= lr.x { lr.x } else { ul.x },
        r.y_min == if ul.y <= lr.y { ul.y } else { lr.y },
        r.y_max == if ul.y <= lr.y { lr.y } else { ul.y },
{
    MinMax {
        x_min: if ul.x <= lr.x { ul.x } else { lr.x },
        x_max: if ul.x <= lr.x { lr.x } else { ul.x },
        y_min: if ul.y <= lr.y { ul.y } else { lr.y },
        y_max: if ul.y <= lr.y { lr.y } else { ul.y },
    }
}

/// All tiles at zoom `z` of a block of inclusive index ranges, columns
/// outer and rows inner.
pub fn tile_block(limits: &MinMax, z: u8) -> (r: Vec<Tile>)
    requires
        limits.x_min <= limits.x_max < u64::MAX,
        limits.y_min <= limits.y_max < u64::MAX,
    ensures
        r@ == spec_tile_block(
            limits.x_min as nat,
            limits.x_max as nat,
            limits.y_min as nat,
            limits.y_max as nat,
            z,
        ),
{
    let lox = limits.x_min;
    let hix = limits.x_max;
    let loy = limits.y_min;
    let hiy = limits.y_max;
    let ny = hiy + 1 - loy;
    let mut out: Vec<Tile> = Vec::new();
    let mut i = lox;
    while i <= hix
        invariant
            lox <= i <= hix + 1,
            hix < u64::MAX,
            loy <= hiy < u64::MAX,
            ny == hiy + 1 - loy,
            out@.len() == (i - lox) * ny,
            forall|k: int|
                0 <= k < out@.len() ==> #[trigger] out@[k] == (Tile {
                    x: (lox + k / (ny as int)) as u64,
                    y: (loy + k % (ny as int)) as u64,
                    z,
                }),
        decreases hix + 1 - i,
    {
        let mut j = loy;
        while j <= hiy
            invariant
                lox <= i <= hix,
                hix < u64::MAX,
                loy <= j <= hiy + 1,
                loy <= hiy < u64::MAX,
                ny == hiy + 1 - loy,
                out@.len() == (i - lox) * ny + (j - loy),
                forall|k: int|
                    0 <= k < out@.len() ==> #[trigger] out@[k] == (Tile {
                        x: (lox + k / (ny as int)) as u64,
                        y: (loy + k % (ny as int)) as u64,
                        z,
                    }),
            decreases hiy + 1 - j,
        {
            proof {
                lemma_fundamental_div_mod_converse(
                    out@.len() as int,
                    ny as int,
                    i - lox,
                    j - loy,
                );
            }
            out.push(Tile { x: i, y: j, z });
            j = j + 1;
        }
        proof {
            assert((i - lox) * (ny as int) + ny == (i + 1 - lox) * (ny as int))
                by (nonlinear_arith);
        }
        i = i + 1;
    }
    proof {
        assert(out@ =~= spec_tile_block(lox as nat, hix as nat, loy as nat, hiy as nat, z));
    }
    out
}

impl Tms {
    /// Tiles at zoom `target` that cover tile `t`: the block of covering
    /// column and row ranges, columns outer, rows inner.
    pub open spec fn spec_covering_tiles(self, t: Tile, target: u8) -> Seq<Tile> {
        spec_tile_block(
            spec_cover_lo(t.x as nat, self.spec_width_at(t.z), self.spec_width_at(target)),
            spec_cover_hi(t.x as nat, self.spec_width_at(t.z), self.spec_width_at(target)),
            spec_cover_lo(t.y as nat, self.spec_height_at(t.z), self.spec_height_at(target)),
            spec_cover_hi(t.y as nat, self.spec_height_at(t.z), self.spec_height_at(target)),
            target,
        )
    }

    /// Whether a zoom's grid shape is determined and its dimensions are
    /// representable.
    pub open spec fn spec_zoom_usable(self, z: u8) -> bool {
        &&& self.spec_level_ok(z)
        &&& self.spec_width_at(z) <= u64::MAX
        &&& self.spec_height_at(z) <= u64::MAX
    }

    /// Tiles at `target` covering `tile`, as a vector.
    fn covering_tiles(&self, tile: &Tile, target: u8) -> (r: Vec<Tile>)
        requires
            self.wf(),
            self.spec_zoom_usable(tile.z),
            self.spec_zoom_usable(target),
            (tile.x as nat) < self.spec_width_at(tile.z),
            (tile.y as nat) < self.spec_height_at(tile.z),
        ensures
            r@ == self.spec_covering_tiles(*tile, target),
    {
        let wz = self.width_at(tile.z);
        let hz = self.height_at(tile.z);
        let wt = self.width_at(target);
        let ht = self.height_at(target);
        let lox = cover_lo(tile.x, wz, wt);
        let hix = cover_hi(tile.x, wz, wt);
        let loy = cover_lo(tile.y, hz, ht);
        let hiy = cover_hi(tile.y, hz, ht);
        tile_block(&MinMax { x_min: lox, x_max: hix, y_min: loy, y_max: hiy }, target)
    }

    /// Get the parent(s) of a tile: the tiles of a coarser zoom that cover
    /// it.
    ///
    /// The target zoom defaults to one below the tile's. A tile at the
    /// pyramid's minimum zoom has no parent; a requested zoom at or above
    /// the tile's is an [`TmsError::InvalidZoom`] error, as is the default
    /// target for a tile at zoom 0.
    pub fn parent(&self, tile: &Tile, zoom: Option<u8>) -> (r: Result<Vec<Tile>, TmsError>)
        requires
            self.wf(),
            self.spec_zoom_usable(tile.z),
            (tile.x as nat) < self.spec_width_at(tile.z),
            (tile.y as nat) < self.spec_height_at(tile.z),
            tile.z != self.spec_minzoom() ==> match zoom {
                Some(tz) => tz < tile.z ==> self.spec_zoom_usable(tz),
                None => tile.z > 0 ==> self.spec_zoom_usable((tile.z - 1) as u8),
            },
        ensures
            tile.z == self.spec_minzoom() ==> (r matches Ok(v) && v@ == Seq::<Tile>::empty()),
            tile.z != self.spec_minzoom() ==> match zoom {
                Some(tz) => if tile.z <= tz {
                    r == Err::<Vec<Tile>, TmsError>(TmsError::InvalidZoom(tz))
                } else {
                    r matches Ok(v) && v@ == self.spec_covering_tiles(*tile, tz)
                },
                None => if tile.z == 0 {
                    r == Err::<Vec<Tile>, TmsError>(TmsError::InvalidZoom(0))
                } else {
                    r matches Ok(v) && v@ == self.spec_covering_tiles(
                        *tile,
                        (tile.z - 1) as u8,
                    )
                },
            },
    {
        if tile.z == self.minzoom() {
            let empty: Vec<Tile> = Vec::new();
            return Ok(empty);
        }
        let target: u8;
        match zoom {
            Some(tz) => {
                if tile.z <= tz {
                    return Err(TmsError::InvalidZoom(tz));
                }
                target = tz;
            },
            None => {
                if tile.z == 0 {
                    return Err(TmsError::InvalidZoom(0));
                }
                target = tile.z - 1;
            },
        }
        Ok(self.covering_tiles(tile, target))
    }

    /// Get the children of a tile: the tiles of a finer zoom that it
    /// covers, ordered column-outer, row-inner.
    ///
    /// The target zoom defaults to one above the tile's; a requested zoom
    /// below the tile's is an [`TmsError::InvalidZoom`] error.
    pub fn children(&self, tile: &Tile, zoom: Option<u8>) -> (r: Result<Vec<Tile>, TmsError>)
        requires
            self.wf(),
            self.spec_zoom_usable(tile.z),
            (tile.x as nat) < self.spec_width_at(tile.z),
            (tile.y as nat) < self.spec_height_at(tile.z),
            match zoom {
                Some(tz) => tile.z <= tz ==> self.spec_zoom_usable(tz),
                None => tile.z < u8::MAX && self.spec_zoom_usable((tile.z + 1) as u8),
            },
        ensures
            match zoom {
                Some(tz) => if tile.z > tz {
                    r == Err::<Vec<Tile>, TmsError>(TmsError::InvalidZoom(tz))
                } else {
                    r matches Ok(v) && v@ == self.spec_covering_tiles(*tile, tz)
                },
                None => r matches Ok(v) && v@ == self.spec_covering_tiles(
                    *tile,
                    (tile.z + 1) as u8,
                ),
            },
    {
        let target: u8;
        match zoom {
            Some(tz) => {
                if tile.z > tz {
                    return Err(TmsError::InvalidZoom(tz));
                }
                target = tz;
            },
            None => {
                target = tile.z + 1;
            },
        }
        Ok(self.covering_tiles(tile, target))
    }
}


/// If `p` is at most `m / d`, then `p * d` is at most `m`.
proof fn lemma_mul_le_of_le_div(p: int, m: int, d: int)
    requires
        d >= 1,
        0 <= m,
        0 <= p,
        p <= m / d,
    ensures
        p * d <= m,
{
    lemma_fundamental_div_mod(m, d);
    vstd::arithmetic::div_mod::lemma_mod_division_less_than_divisor(m, d);
    lemma_mul_inequality(p, m / d, d);
    assert(d * (m / d) == (m / d) * d) by (nonlinear_arith);
}

/// A tile of the covering range at the other grid covers the original index
/// back.
pub proof fn lemma_cover_back(x: nat, wz: nat, wp: nat, p: nat)
    requires
        wz >= 1,
        wp >= 1,
        x < wz,
        spec_cover_lo(x, wz, wp) <= p <= spec_cover_hi(x, wz, wp),
    ensures
        spec_cover_lo(p, wp, wz) <= x <= spec_cover_hi(p, wp, wz),
        p < wp,
{
    let hi = spec_cover_hi(x, wz, wp);
    let lo = spec_cover_lo(x, wz, wp);
    assert((x + 1) * wp - 1 == wp * x + (wp - 1)) by (nonlinear_arith);
    // p < wp: the whole covering range lies inside the other grid.
    assert((x + 1) * wp - 1 < wz * wp) by (nonlinear_arith)
        requires
            x < wz && wp >= 1,
    ;
    lemma_multiply_divide_lt((x + 1) * wp - 1, wz as int, wp as int);
    // p * wz <= (x+1) * wp - 1, so cover_lo(p) <= x.
    lemma_mul_le_of_le_div(p as int, (x + 1) * wp - 1, wz as int);
    vstd::arithmetic::div_mod::lemma_div_is_ordered(
        (p * wz) as int,
        (x + 1) * wp - 1,
        wp as int,
    );
    vstd::arithmetic::div_mod::lemma_div_multiples_vanish_fancy(x as int, wp as int - 1, wp as int);
    // x * wp <= (p+1) * wz - 1, so x <= cover_hi(p).
    lemma_fundamental_div_mod((x * wp) as int, wz as int);
    vstd::arithmetic::div_mod::lemma_mod_division_less_than_divisor((x * wp) as int, wz as int);
    assert(x * wp <= wz * lo + (wz - 1));
    assert(wz * lo <= wz * p) by (nonlinear_arith)
        requires
            lo <= p && wz >= 1,
    ;
    assert(x * wp <= (p + 1) * wz - 1) by (nonlinear_arith)
        requires
            x * wp <= wz * p + (wz - 1),
    ;
    vstd::arithmetic::div_mod::lemma_div_is_ordered(
        (x * wp) as int,
        (p + 1) * wz - 1,
        wp as int,
    );
    vstd::arithmetic::div_mod::lemma_div_by_multiple(x as int, wp as int);
    assert((x * wp) as int / (wp as int) == x) by {
        assert(x * wp == wp * x) by (nonlinear_arith);
    }
}

/// When the finer grid's dimension is a multiple of the coarser one's, the
/// covering range of every covered tile is exactly the original index.
pub proof fn lemma_cover_exact(x: nat, wz: nat, wc: nat, c: nat)
    requires
        wz >= 1,
        wc >= wz,
        wc % wz == 0,
        x < wz,
        spec_cover_lo(x, wz, wc) <= c <= spec_cover_hi(x, wz, wc),
    ensures
        spec_cover_lo(c, wc, wz) == x,
        spec_cover_hi(c, wc, wz) == x,
        c < wc,
{
    let k = wc as int / wz as int;
    lemma_fundamental_div_mod(wc as int, wz as int);
    assert(wc == wz * k);
    assert(k >= 1) by (nonlinear_arith)
        requires
            wc == wz * k && wc >= wz && wz >= 1,
    ;
    // The covering range is exactly x*k ..= (x+1)*k - 1.
    assert(spec_cover_lo(x, wz, wc) == x * k) by {
        assert(x * wc == wz * (x * k)) by (nonlinear_arith)
            requires
                wc == wz * k,
        ;
        vstd::arithmetic::div_mod::lemma_div_multiples_vanish(x * k, wz as int);
    }
    assert(spec_cover_hi(x, wz, wc) == (x + 1) * k - 1) by {
        let m = (x + 1) * k - 1;
        assert((x + 1) * wc - 1 == wz * m + (wz - 1)) by (nonlinear_arith)
            requires
                wc == wz * k && m == (x + 1) * k - 1,
        ;
        vstd::arithmetic::div_mod::lemma_div_multiples_vanish_fancy(m, wz as int - 1, wz as int);
        assert((wz * m + (wz - 1)) / (wz as int) == m);
        assert(((x + 1) * wc - 1) / (wz as int) == m);
        assert(m >= 0) by (nonlinear_arith)
            requires
                k >= 1 && m == (x + 1) * k - 1,
        ;
    }
    assert(c < wc) by (nonlinear_arith)
        requires
            c <= (x + 1) * k - 1 && x < wz && wc == wz * k && k >= 1 && wz >= 1,
    ;
    let r = c - x * k;
    assert(0 <= r < k) by (nonlinear_arith)
        requires
            x * k <= c <= (x + 1) * k - 1 && r == c - x * k,
    ;
    assert(c as int / k == x) by {
        lemma_fundamental_div_mod_converse(c as int, k, x as int, r);
    }
    assert(spec_cover_lo(c, wc, wz) == x) by {
        assert((c * wz) as int / (wc as int) == ((c * wz) as int / (wz as int)) / k) by {
            assert(wc == wz * k);
            vstd::arithmetic::div_mod::lemma_div_denominator(
                (c * wz) as int,
                wz as int,
                k,
            );
        }
        vstd::arithmetic::div_mod::lemma_div_by_multiple(c as int, wz as int);
        assert(c * wz == wz * c) by (nonlinear_arith);
    }
    assert(spec_cover_hi(c, wc, wz) == x) by {
        // Upper bound: (c+1)*wz - 1 <= wc*x + wc - 1.
        assert((c + 1) * wz - 1 <= wc * x + (wc - 1)) by (nonlinear_arith)
            requires
                c <= (x + 1) * k - 1 && wc == wz * k && wz >= 1 && k >= 1,
        ;
        vstd::arithmetic::div_mod::lemma_div_is_ordered(
            (c + 1) * wz - 1,
            wc * x + (wc - 1),
            wc as int,
        );
        vstd::arithmetic::div_mod::lemma_div_multiples_vanish_fancy(
            x as int,
            wc as int - 1,
            wc as int,
        );
        // Lower bound: cover_lo <= cover_hi.
        assert(c * wz <= (c + 1) * wz - 1) by (nonlinear_arith)
            requires
                wz >= 1,
        ;
        vstd::arithmetic::div_mod::lemma_div_is_ordered(
            (c * wz) as int,
            (c + 1) * wz - 1,
            wc as int,
        );
        assert((c * wz) as int / (wc as int) == x);
    }
}

/// Membership in a block of tiles: exactly the tiles of the block's zoom
/// whose indices lie in the block's ranges.
pub proof fn lemma_tile_block_contains(lox: nat, hix: nat, loy: nat, hiy: nat, z: u8, n: Tile)
    requires
        lox <= hix < u64::MAX,
        loy <= hiy < u64::MAX,
    ensures
        spec_tile_block(lox, hix, loy, hiy, z).contains(n) <==> (n.z == z && lox <= n.x <= hix
            && loy <= n.y <= hiy),
{
    let nx = (hix + 1 - lox) as int;
    let ny = (hiy + 1 - loy) as int;
    let block = spec_tile_block(lox, hix, loy, hiy, z);
    assert(block.len() == nx * ny);
    if n.z == z && lox <= n.x <= hix && loy <= n.y <= hiy {
        let k = (n.x - lox) * ny + (n.y - loy);
        assert(0 <= k < nx * ny) by (nonlinear_arith)
            requires
                0 <= n.x - lox <= nx - 1 && 0 <= n.y - loy <= ny - 1 && ny >= 1
                    && k == (n.x - lox) * ny + (n.y - loy),
        ;
        lemma_fundamental_div_mod_converse(k, ny, n.x - lox, n.y - loy);
        assert(block[k] == n);
        assert(block.contains(n));
    }
    if block.contains(n) {
        let k = choose|k: int| 0 <= k < block.len() && block[k] == n;
        vstd::arithmetic::div_mod::lemma_mod_division_less_than_divisor(k, ny);
        assert(k / ny <= nx - 1) by {
            assert(k <= nx * ny - 1);
            assert(nx * ny - 1 == ny * (nx - 1) + (ny - 1)) by (nonlinear_arith);
            vstd::arithmetic::div_mod::lemma_div_is_ordered(k, nx * ny - 1, ny);
            vstd::arithmetic::div_mod::lemma_div_multiples_vanish_fancy(nx - 1, ny - 1, ny);
        }
        assert(k / ny >= 0) by {
            vstd::arithmetic::div_mod::lemma_div_pos_is_pos(k, ny);
        }
    }
}

impl Tms {
    /// The children of every parent of a tile contain the tile: any tile of
    /// the covering range at a coarser zoom covers the tile back.
    pub proof fn lemma_children_of_parent_contain(self, t: Tile, pz: u8, p: Tile)
        requires
            self.wf(),
            self.spec_zoom_usable(t.z),
            self.spec_zoom_usable(pz),
            (t.x as nat) < self.spec_width_at(t.z),
            (t.y as nat) < self.spec_height_at(t.z),
            self.spec_covering_tiles(t, pz).contains(p),
        ensures
            p.z == pz,
            (p.x as nat) < self.spec_width_at(pz),
            (p.y as nat) < self.spec_height_at(pz),
            self.spec_covering_tiles(p, t.z).contains(t),
    {
        let wz = self.spec_width_at(t.z);
        let hz = self.spec_height_at(t.z);
        let wp = self.spec_width_at(pz);
        let hp = self.spec_height_at(pz);
        lemma_dims_pos(self, t.z);
        lemma_dims_pos(self, pz);
        lemma_cover_range_wf(t.x as nat, wz, wp);
        lemma_cover_range_wf(t.y as nat, hz, hp);
        lemma_tile_block_contains(
            spec_cover_lo(t.x as nat, wz, wp),
            spec_cover_hi(t.x as nat, wz, wp),
            spec_cover_lo(t.y as nat, hz, hp),
            spec_cover_hi(t.y as nat, hz, hp),
            pz,
            p,
        );
        lemma_cover_back(t.x as nat, wz, wp, p.x as nat);
        lemma_cover_back(t.y as nat, hz, hp, p.y as nat);
        lemma_cover_range_wf(p.x as nat, wp, wz);
        lemma_cover_range_wf(p.y as nat, hp, hz);
        lemma_tile_block_contains(
            spec_cover_lo(p.x as nat, wp, wz),
            spec_cover_hi(p.x as nat, wp, wz),
            spec_cover_lo(p.y as nat, hp, hz),
            spec_cover_hi(p.y as nat, hp, hz),
            t.z,
            t,
        );
    }

    /// When a child level's dimensions are multiples of the tile's level (as
    /// adjacent levels of a quadtree pyramid are), the parent range of every
    /// child of a tile is exactly that tile.
    pub proof fn lemma_parent_of_children_exact(self, t: Tile, cz: u8, c: Tile)
        requires
            self.wf(),
            self.spec_zoom_usable(t.z),
            self.spec_zoom_usable(cz),
            (t.x as nat) < self.spec_width_at(t.z),
            (t.y as nat) < self.spec_height_at(t.z),
            self.spec_width_at(cz) >= self.spec_width_at(t.z),
            self.spec_width_at(cz) % self.spec_width_at(t.z) == 0,
            self.spec_height_at(cz) >= self.spec_height_at(t.z),
            self.spec_height_at(cz) % self.spec_height_at(t.z) == 0,
            self.spec_covering_tiles(t, cz).contains(c),
        ensures
            c.z == cz,
            (c.x as nat) < self.spec_width_at(cz),
            (c.y as nat) < self.spec_height_at(cz),
            self.spec_covering_tiles(c, t.z) == seq![t],
    {
        let wz = self.spec_width_at(t.z);
        let hz = self.spec_height_at(t.z);
        let wc = self.spec_width_at(cz);
        let hc = self.spec_height_at(cz);
        lemma_dims_pos(self, t.z);
        lemma_dims_pos(self, cz);
        lemma_cover_range_wf(t.x as nat, wz, wc);
        lemma_cover_range_wf(t.y as nat, hz, hc);
        lemma_tile_block_contains(
            spec_cover_lo(t.x as nat, wz, wc),
            spec_cover_hi(t.x as nat, wz, wc),
            spec_cover_lo(t.y as nat, hz, hc),
            spec_cover_hi(t.y as nat, hz, hc),
            cz,
            c,
        );
        lemma_cover_exact(t.x as nat, wz, wc, c.x as nat);
        lemma_cover_exact(t.y as nat, hz, hc, c.y as nat);
        let block = self.spec_covering_tiles(c, t.z);
        assert(block.len() == 1) by (nonlinear_arith)
            requires
                block.len() == ((t.x as nat) + 1 - (t.x as nat)) * ((t.y as nat) + 1 - (
                t.y as nat)),
        ;
        assert(block[0] == t);
        assert(block =~= seq![t]);
    }
}


/// A tile's covering range at its own grid dimension is exactly itself:
/// asking which tiles of a zoom cover one of that zoom's own tiles gives
/// that tile alone.
pub proof fn lemma_cover_self(x: nat, w: nat)
    requires
        w >= 1,
        x < w,
    ensures
        spec_cover_lo(x, w, w) == x,
        spec_cover_hi(x, w, w) == x,
{
    vstd::arithmetic::div_mod::lemma_div_by_multiple(x as int, w as int);
    assert(x * w == w * x) by (nonlinear_arith);
    assert((x + 1) * w - 1 == w * x + (w - 1)) by (nonlinear_arith);
    vstd::arithmetic::div_mod::lemma_div_multiples_vanish_fancy(x as int, w as int - 1, w as int);
}

/// The dimensions of a usable zoom are positive.
proof fn lemma_dims_pos(tms: Tms, z: u8)
    requires
        tms.wf(),
        tms.spec_level_ok(z),
    ensures
        tms.spec_width_at(z) >= 1,
        tms.spec_height_at(z) >= 1,
{
    if tms.spec_has_level(z) {
        lemma_find_from(tms.spec_matrices(), z, 0);
        assert(spec_matrix_wf(tms.spec_matrices()[tms.spec_level_index(z)]));
    } else {
        let last = tms.spec_matrices().len() - 1;
        assert(spec_matrix_wf(tms.spec_matrices()[last]));
        lemma_pow2_pos((z - tms.spec_maxzoom()) as nat);
        assert(tms.spec_matrices().last().matrix_width * pow2((z - tms.spec_maxzoom()) as nat)
            >= 1) by (nonlinear_arith)
            requires
                tms.spec_matrices().last().matrix_width >= 1 && pow2(
                    (z - tms.spec_maxzoom()) as nat,
                ) >= 1,
        ;
        assert(tms.spec_matrices().last().matrix_height * pow2((z - tms.spec_maxzoom()) as nat)
            >= 1) by (nonlinear_arith)
            requires
                tms.spec_matrices().last().matrix_height >= 1 && pow2(
                    (z - tms.spec_maxzoom()) as nat,
                ) >= 1,
        ;
    }
}

/// The covering range is nonempty and lies inside the target grid.
proof fn lemma_cover_range_wf(x: nat, from_dim: nat, to_dim: nat)
    requires
        from_dim >= 1,
        to_dim >= 1,
        x < from_dim,
    ensures
        spec_cover_lo(x, from_dim, to_dim) <= spec_cover_hi(x, from_dim, to_dim) < to_dim,
{
    assert(x * to_dim <= (x + 1) * to_dim - 1) by (nonlinear_arith)
        requires
            to_dim >= 1,
    ;
    vstd::arithmetic::div_mod::lemma_div_is_ordered(
        (x * to_dim) as int,
        (x + 1) * to_dim - 1,
        from_dim as int,
    );
    assert((x + 1) * to_dim - 1 < from_dim * to_dim) by (nonlinear_arith)
        requires
            x < from_dim && to_dim >= 1,
    ;
    lemma_multiply_divide_lt((x + 1) * to_dim - 1, from_dim as int, to_dim as int);
}

} // verus!
