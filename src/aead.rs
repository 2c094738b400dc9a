pub mod aes;
pub mod poly1305;
