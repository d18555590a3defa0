pub mod card;
pub mod numtext;
pub mod score;
pub mod key;
pub mod codec;
pub mod cache;
pub mod engine;
pub mod driver;
