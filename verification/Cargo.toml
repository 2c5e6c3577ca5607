[package]
name = "lexsift"
version = "0.1.0"
edition = "2021"
publish = false

[dependencies]
aho-corasick = "1.1"
regex = "1"
unicode-normalization = "0.1"
unicode-segmentation = "1"
ext-php-rs = "*"
