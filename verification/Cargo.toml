[package]
name = "rust_seitai"
version = "0.1.0"
edition = "2021"
publish = false

[dependencies]
rand = "0.7"
gtk = "0.8"
gdk = "0.12"
gdk-pixbuf = "0.8"
cairo-rs = "0.8"
gio = "0.8"
glib = "0.9"
lazy_static = "1"
