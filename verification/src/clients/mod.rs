pub mod client;
pub use client::{Client, ClientError, Message, Subscriber};
