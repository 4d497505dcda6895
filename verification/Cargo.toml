[package]
name = "umber"
version = "0.1.0"
edition = "2021"
publish = false

[dependencies]
clap = { version = "*", features = ["derive"] }
clap_complete = "*"
clap_mangen = "*"
crossterm = "*"
dark-light = "*"
eyre = "*"
once_cell = "*"
palate = "*"
syntastica = "*"
syntastica-highlight = "*"
syntastica-parsers-git = { version = "*", default-features = false }
syntastica-query-preprocessor = "*"
syntastica-themes = "*"
tree-sitter-hcl = "*"
tree-sitter-language = "*"
