[package]
name = "dpdcmpexcel"
version = "0.1.0"
edition = "2021"
publish = false

[dependencies]
similar = "=2.7.0"
calamine = "=0.22.1"
csv = "=1.3.1"
eframe = { version = "=0.22.0", default-features = false, features = ["default_fonts", "glow"] }
egui_extras = "=0.22.0"
rfd = "=0.13.0"
futures = "=0.3.34"
simple_excel_writer = "=0.2.0"
thiserror = "=1.0.69"
