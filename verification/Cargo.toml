[package]
name = "xia"
version = "0.2.0"
edition = "2021"
publish = false

[dependencies]
clap = { version = "=4.6.7", features = ["derive"] }
inkwell = { version = "=0.6.0", default-features = false, features = ["llvm18-1-no-llvm-linking", "target-all"] }
llvm-sys = { version = "=181.3.1", features = ["disable-alltargets-init", "no-llvm-linking"] }
