[package]
name = "gui_calc"
version = "0.1.0"
edition = "2021"
publish = false

[dependencies]
m_calc = "=0.1.4"
eframe = { version = "=0.23.0", default-features = false, features = ["default_fonts", "glow"] }
