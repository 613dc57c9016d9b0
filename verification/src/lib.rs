//! A borrowed, non-owning view over a byte range, in the style of a C++
//! `std::string_view`: length, emptiness, byte access, UTF-8-validated and
//! lossy text conversion, and byte-wise equality and ordering.

pub mod byte_order;
pub mod string_view;
pub mod utf8_scan;

pub use string_view::CxxStringView;
