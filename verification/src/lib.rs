//! Interactive browser state for a container-image registry: flattening a
//! namespace/repository/tag catalog into an ordered tree of display rows,
//! keeping selection and scroll invariants over that list, and parsing a
//! manifest's layer history into table rows for an overlay.

pub mod strutil;
pub mod registry;
pub mod ui;
