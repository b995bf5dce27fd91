[package]
name = "direct_reactor"
version = "0.1.0"
edition = "2021"
publish = false

[dependencies]
bornera = "=0.0.1-rc.4"
bornera-core = "=0.0.1-rc.4"
bornera-rustls = "=0.0.1-rc.4"
calandria = "=0.0.1-rc.2"
kafka-driver-core = "=0.1.0-rc.8"
kafka-wire = "=0.1.0"
kafka-wire-core = "=0.1.0"

[dev-dependencies]
mio = "1"
bytes = "1"
