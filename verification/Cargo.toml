[package]
name = "dex_access_modifier"
version = "0.1.0"
edition = "2021"
publish = false

[dependencies]
adler32 = "*"
sha1 = "0.6"
jni = "*"
jni_fn = "*"
android-logd-logger = "*"
log = "*"
