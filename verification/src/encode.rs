pub mod base64;
