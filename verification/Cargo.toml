[package]
name = "pwsafe"
version = "0.1.0"
edition = "2021"
publish = false

[dependencies]
gcrypt = "*"
rand = "0.8"
regex = "*"
getopts = "*"
rpassword = "*"
clipboard = "*"
sha2 = "*"
hmac = "*"
twofish = "*"
cbc = "*"
ecb = "*"
cipher = "*"
