[package]
name = "newimpcore"
version = "0.1.0"
edition = "2021"
publish = false

[dependencies]
regex = "=1.13.1"
colored = "=2.2.0"
inkwell = { version = "=0.2.0", features = ["llvm14-0"] }
# Not used by the library: app/ needs it so that inkwell links to the installed LLVM 14.
llvm-sys = { version = "=140.1.3", features = ["prefer-dynamic"] }
