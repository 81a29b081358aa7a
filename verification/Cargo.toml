[package]
name = "lignin-native-windows-gui"
version = "0.0.1"
edition = "2021"
publish = false

[dependencies]
bumpalo = "*"
lignin = "*"
lignin-schema = "*"
native-windows-gui = "*"
num-traits = "*"
tap = "*"
tracing = "*"
webbrowser = "*"
