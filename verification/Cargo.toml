[package]
name = "mysql_io"
version = "0.1.0"
edition = "2021"
publish = false

[dependencies]
byteorder = "1"
openssl = "0.10"
unix_socket = "*"
named_pipe = "*"
