[package]
name = "winext"
version = "0.1.0"
edition = "2021"
publish = false

[dependencies]
ext4_rs = "*"
ext4-lwext4 = "*"
winfsp = "*"
widestring = "*"
windows = { version = "*", features = ["Win32_Foundation", "Win32_Storage_FileSystem", "Win32_System_IO", "Win32_System_Ioctl", "Win32_Security"] }
log = "*"
env_logger = "*"
