[package]
name = "bf_jit"
version = "0.1.0"
edition = "2021"
publish = false

[dependencies]
iced-x86 = { version = "=1.21.0", default-features = false, features = ["std", "code_asm"] }
libc = "=0.2.191"
windows-sys = { version = "0.59", features = ["Win32_Foundation", "Win32_System_Memory"] }
