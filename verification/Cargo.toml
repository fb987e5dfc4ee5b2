[package]
name = "nfa_grep"
version = "0.1.0"
edition = "2021"
publish = false
