[package]
name = "robot_arm"
version = "0.1.0"
edition = "2021"
publish = false

[dependencies]
anyhow = "1"
embedded-hal = "1"
embedded-hal-bus = "*"
esp32-nimble = "*"
esp-idf-hal = "*"
esp-idf-svc = "*"
esp-idf-sys = "*"
log = "0.4"
pwm-pca9685 = "*"
