[package]
name = "ehttpd_querystring"
version = "0.1.0"
edition = "2021"

[dependencies]
ehttpd = "*"
