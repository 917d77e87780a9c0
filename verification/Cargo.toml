[package]
name = "tile_grid"
version = "0.1.0"
edition = "2021"
publish = false

[dependencies]
hilbert_2d = "=1.1.0"
ogcapi-types = { version = "=0.3.0", features = ["tiles"] }
once_cell = "=1.21.4"
serde_json = "=1.0.151"
thiserror = "=2.0.21"
