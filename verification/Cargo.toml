[package]
name = "ground_station"
version = "0.1.0"
edition = "2021"
publish = false

[dependencies]
chrono = "0.4.45"
crossbeam-channel = "0.5.17"
csv = "1.4.0"
egui = "0.37.0"
egui_plot = "0.38.0"
eframe = { version = "0.37.0", default-features = false, features = ["default_fonts", "glow", "x11"] }
image = { version = "0.25.10", default-features = false, features = ["png", "ico"] }
serialport = { version = "4.10.1", default-features = false }
windows = { version = "0.62.2", features = ["Devices_Geolocation", "Foundation"] }
