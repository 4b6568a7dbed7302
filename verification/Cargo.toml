[package]
name = "roguelike_terrain"
version = "0.1.0"
edition = "2021"
publish = false

[dependencies]
gridbugs = { version = "=0.10.0", default-features = false, features = ["coord_2d", "grid_2d", "direction", "perlin2", "rgb_int", "rgb_int_rand", "entity_table", "entity_table_realtime", "spatial_table", "visible_area_detection", "chargrid", "chargrid_ansi_terminal", "chargrid_wgpu"] }
rand = "=0.8.8"
rand_isaac = "=0.3.0"
meap = "=0.8.1"
