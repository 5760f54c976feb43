[package]
name = "nbt_editor"
version = "0.1.0"
edition = "2021"
publish = false

[dependencies]
aligned-vec = "*"
flate2 = "*"
lz4-java-wrc = "*"
simdnbt = "*"
thiserror = "*"
anyhow = "*"
futures = "*"
parking_lot = "*"
smallvec = "*"
tokio = { version = "*", default-features = false, features = ["rt-multi-thread"] }
fluent = "*"
fluent-templates = "*"
unic-langid = "*"
egui = "*"
eframe = { version = "*", default-features = false, features = ["glow", "x11", "default_fonts"] }
egui_dock = "*"
egui_ltreeview = "*"
iconflow = "*"
rfd = { version = "*", default-features = false, features = ["xdg-portal", "tokio"] }
