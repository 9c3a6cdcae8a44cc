[package]
name = "nginx-auth-totp"
version = "0.1.0"
edition = "2021"
publish = false

[dependencies]
bytes = "0.4"
cookie = "0.11"
evmap = "4"
futures = "0.1"
horrorshow = "0.6"
http = "0.1"
httparse = "1"
log = "0.4"
oath = "0.1"
random = "0.12"
simple_logger = "1"
structopt = "0.3"
thread_local = "0.3"
time = "0.1"
tokio = "0.1"
tokio-executor = "0.1"
tokio-signal = "0.2"
tokio-threadpool = "0.1"
url = "1"
