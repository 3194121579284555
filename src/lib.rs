pub mod basics;
pub mod locator;
