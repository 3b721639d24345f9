//! The verified core of a small graphical web browser.
pub mod text;
pub mod letters;
pub mod url;
pub mod number;
pub mod css;
pub mod formats;
pub mod picture;
pub mod markup;
pub mod page;
pub mod http;
pub mod load;
pub mod download;
pub mod browser;
