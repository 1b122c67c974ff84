//! Helpers on indices and products.

pub mod bits;
pub mod bytes;
pub mod number_laws;
pub mod partial_product_laws;
pub mod partial_products;
pub mod text;
