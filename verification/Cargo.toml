[package]
name = "rusty_esp_audio"
version = "0.1.0"
edition = "2021"
publish = false

[dependencies]
rusty_esp_core = "=0.1.4"
rusty_esp_dsp = "=0.1.2"
rusty_flac = { version = "=0.2.2", default-features = false, features = ["libm"] }
libm = "=0.2.16"
embedded-hal = "=1.0.0"
