[package]
name = "solver_cp"
version = "0.1.0"
edition = "2021"

[dependencies]
snowflake = "*"
