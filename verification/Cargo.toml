[package]
name = "medial_axis_2d"
version = "0.1.0"
edition = "2021"

[dependencies]
raylib = "3.7"
