[package]
name = "whitenoise"
version = "0.1.0"
edition = "2021"
publish = false

[dependencies]
defmt = "=1.2.0"
defmt-rtt = "=1.3.1"
embassy-executor = { version = "=0.9.1", features = ["defmt"] }
embassy-rp = { version = "=0.10.0", features = ["rp2040", "time-driver", "critical-section-impl", "defmt"] }
embassy-sync = { version = "=0.8.0", features = ["defmt"] }
embassy-time = { version = "=0.5.1", features = ["defmt"] }
embassy-usb = { version = "=0.6.0", features = ["defmt"] }
panic-probe = { version = "=1.0.0", features = ["print-defmt"] }
static_cell = "=2.1.1"
