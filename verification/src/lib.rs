//! Library for working with OGC Tile Matrix Sets (TMS): a multi-resolution
//! tiling grid over a coordinate reference system, with tile-graph navigation
//! (parent / children / neighbors), quadkey and Hilbert-curve tile encodings,
//! and bounded multi-zoom tile iteration.
//!
//! All grid arithmetic here is exact integer arithmetic over the matrix
//! dimensions of each zoom level; coordinate conversions that need real-valued
//! math live with the caller.

mod errors;
mod hilbert;
mod quadkey;
mod tile;
mod tile_matrix_set;
mod tms;
mod tms_iterator;

pub use errors::{MorecantileError, RegistryError, TmsError};
pub use hilbert::{
    base_id, hilbert_index, hilbert_point, hilbert_tile, lemma_base_id_closed_form,
    lemma_base_id_increases, spec_band_scan, spec_base_id, spec_hilbert_tile, spec_tile_id,
    tile_id, HilbertIterator, HILBERT_DECODE_LEVELS, MAX_HILBERT_ZOOM,
};
pub use quadkey::{
    check_quadkey_support, is_power_of_two, lemma_qk_point_bound, lemma_quadkey_roundtrip,
    spec_qk_bx, spec_qk_by, spec_qk_char, spec_qk_digit, spec_qk_point, spec_qk_valid,
    spec_quadkey, spec_quadkey_to_tile,
};
pub use tile::Tile;
pub use tile_matrix_set::{
    first_axes_inverted, lemma_zoom_id_str, ordered_axes_inverted, parse_zoom_id,
    spec_axis_inverted, spec_digit_char, spec_digit_val, spec_digits_val, spec_is_digit,
    spec_is_zoom_id, spec_zoom_digits, spec_zoom_id_str, spec_zoom_id_val, zoom_id_string,
    TileMatrix,
    TileMatrixSet,
};
pub use tms::{
    corner_limits, lemma_cover_back, lemma_cover_exact, lemma_cover_self, lemma_find_from,
    lemma_tile_block_contains, spec_axes_view, spec_cover_hi, spec_cover_lo, spec_find_from,
    spec_is_pow2, spec_is_quadtree, spec_matrix_wf, spec_matrix_zoom, spec_quad_pair,
    spec_sorted_by_zoom, spec_tile_block, tile_block, MinMax, Tms,
};
pub use tms_iterator::{spec_limits_wf, XyzIterator};
