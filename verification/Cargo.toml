[package]
name = "ntfs_forensic"
version = "0.1.0"
edition = "2021"
publish = false

[dependencies]
forensicnomicon = "*"
forensic-vfs = "*"
lznt1 = "*"
safe-read = "*"
thiserror = "*"
