[package]
name = "graphql_core"
version = "0.1.0"
edition = "2021"

[dependencies]
arbitrary = "1"
indexmap = "2"
