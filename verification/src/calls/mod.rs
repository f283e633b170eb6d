//! What every call comes to. These laws speak of the functions themselves:
//! whatever a call was handed and may have answered and left, so it stands to what
//! it was handed.

pub mod basics;
pub mod chips;
pub mod coding;
pub mod elements;
pub mod files;
pub mod streams;
