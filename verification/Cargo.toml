[package]
name = "labyrinth_tournament"
version = "0.1.0"
edition = "2021"
publish = false

[dependencies]
hex = "0.4"
serde = { version = "1", features = ["derive"] }
async-graphql = { version = "7", default-features = false }
