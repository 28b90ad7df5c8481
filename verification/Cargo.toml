[package]
name = "brainfuck"
version = "0.1.0"
edition = "2021"
publish = false

[dependencies]
getch = "0.3"
libc = "0.2"
errno = "0.3"
