//! Outlines of HTML documents: the sections and headings of a page, as a
//! numbered, indented table of contents.

pub mod dom;
pub mod heading;
pub mod outline;
pub mod outline_structure;
pub mod sectioning_type;
pub mod text;

pub use dom::Node;
pub use heading::Heading;
pub use outline::Outline;
pub use outline_structure::OutlineStructure;
pub use sectioning_type::SectioningType;
pub mod laws;
