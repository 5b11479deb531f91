[package]
name = "php_linter"
version = "0.1.0"
edition = "2021"
publish = false

[dependencies]
tree-sitter = "=0.20.10"
tree-sitter-php = "=0.20.0"
jwalk = "*"
rayon = "*"
crossbeam = "*"
