[package]
name = "gudf"
version = "0.1.0"
edition = "2021"
publish = false

[dependencies]
serde_json = "=1.0.154"
serde_yaml = "=0.9.34"
toml = "=0.8.23"
similar = "=2.7.0"
sha1 = "=0.10.7"
tree-sitter = "=0.27.1"
tree-sitter-rust = "=0.24.2"
tree-sitter-javascript = "=0.25.0"
tree-sitter-typescript = "=0.23.2"
tree-sitter-python = "=0.25.0"
tree-sitter-go = "=0.25.0"
tree-sitter-java = "=0.23.5"
tree-sitter-c = "=0.24.2"
tree-sitter-cpp = "=0.23.4"
tree-sitter-c-sharp = "=0.23.5"
tree-sitter-ruby = "=0.23.1"
tree-sitter-bash = "=0.25.1"
tree-sitter-zig = "=1.1.2"
tree-sitter-json = "=0.24.8"
tree-sitter-css = "=0.25.0"
tree-sitter-yaml = "=0.7.2"
tree-sitter-elixir = "=0.3.5"
tree-sitter-erlang = "=0.21.0"
tree-sitter-haskell = "=0.24.1"
tree-sitter-ocaml = "=0.26.0"
tree-sitter-hcl = "*"
tree-sitter-scala = "*"
tree-sitter-swift = "*"
clap = { version = "=4.6.7", features = ["derive"] }
ignore = "=0.4.34"
