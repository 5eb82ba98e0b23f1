[package]
name = "shuttle"
version = "0.1.0"
edition = "2021"
publish = false

[dependencies]
bitvec = "=1.0.1"
hex = "0.4"
smallvec = { version = "1", features = ["const_new", "union"] }
rand = "0.8"
rand_pcg = "0.3"
tracing = "0.1"
scoped-tls = "1"
owo-colors = "3"
const-siphasher = "1"
regex = "1"
serde = { version = "1", features = ["derive"] }
serde_json = "1"
cfg-if = "1"
