//! A small library for turning clipboard text into a VAT-inclusive price
//! display.
//!
//! The library is pure: it parses a decimal price out of a text, computes the
//! price with value-added tax applied, and renders both as text. Reading the
//! clipboard and drawing the window are left to the surrounding application.

pub mod digits;
pub mod display;
pub mod laws;
pub mod numeral;
pub mod parse;
pub mod price;
pub mod render;
pub mod text;
