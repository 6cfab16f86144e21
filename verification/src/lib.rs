//! Hex-cell map tiling pipeline: staged OSM-style nodes and paths are
//! partitioned into H3 cells, every accepted cell is emitted as a compact
//! delta-encoded, LZ4-framed tile, and tiles are decoded, filtered for a
//! viewport and styled for a renderer.

pub mod builder;
pub mod codec;
pub mod coords;
pub mod delta;
pub mod h3cell;
pub mod partition;
pub mod raster;
pub mod roads;
pub mod strings;
pub mod varint;
pub mod viewport;
pub mod wire;

pub use codec::{
    DecodeError, Path, RelativePath, ZanaDenseData, ZanaDenseNodes, ZanaDensePaths, ZanaNode,
    ZanaObj, ZanaPath, read_zana_data, write_zana_data,
};
pub use coords::GeoCoord;
pub use h3cell::cell_index_to_num;
pub use strings::StringTable;
pub use viewport::filter_cells_with_flags;
