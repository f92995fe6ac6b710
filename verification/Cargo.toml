[package]
name = "xml_c14n"
version = "0.1.0"
edition = "2021"
publish = false

[dependencies]
libxml = "=0.2.16"
thiserror = "=2.0.21"
