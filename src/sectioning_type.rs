use vstd::prelude::*;

use crate::text::same_text;

verus! {

/// The kind of a node of the sectioning tree.
#[derive(Debug, Copy, Clone, PartialEq, Eq, Structural)]
pub enum SectioningType {
    // sectioning content
    Article,
    Aside,
    Nav,
    Section,
    // the tree's own kinds
    Root,
    Body,
    Heading,
}

impl SectioningType {
    /// One of the four kinds of sectioning content.
    pub open spec fn is_content(self) -> bool {
        self is Article || self is Aside || self is Nav || self is Section
    }

    /// The lowercase label of each kind.
    pub open spec fn label(self) -> Seq<char> {
        match self {
            SectioningType::Article => "article"@,
            SectioningType::Aside => "aside"@,
            SectioningType::Nav => "nav"@,
            SectioningType::Section => "section"@,
            SectioningType::Root => "root"@,
            SectioningType::Body => "body"@,
            SectioningType::Heading => "heading"@,
        }
    }

    /// The kind of sectioning content that an element of this name opens.
    pub open spec fn of_tag(name: Seq<char>) -> Option<SectioningType> {
        if name == "article"@ {
            Some(SectioningType::Article)
        } else if name == "aside"@ {
            Some(SectioningType::Aside)
        } else if name == "nav"@ {
            Some(SectioningType::Nav)
        } else if name == "section"@ {
            Some(SectioningType::Section)
        } else {
            None
        }
    }

    pub fn is_sectioning_content_type(&self) -> (r: bool)
        ensures
            r == self.is_content(),
    {
        match self {
            SectioningType::Article | SectioningType::Aside | SectioningType::Nav
            | SectioningType::Section => true,
            _ => false,
        }
    }

    pub fn is_heading(&self) -> (r: bool)
        ensures
            r == (*self is Heading),
    {
        match self {
            SectioningType::Heading => true,
            _ => false,
        }
    }

    pub fn from_sectioning_content_tag(s: &str) -> (r: Option<SectioningType>)
        ensures
            r == Self::of_tag(s@),
    {
        if same_text(s, "article") {
            Some(SectioningType::Article)
        } else if same_text(s, "aside") {
            Some(SectioningType::Aside)
        } else if same_text(s, "nav") {
            Some(SectioningType::Nav)
        } else if same_text(s, "section") {
            Some(SectioningType::Section)
        } else {
            None
        }
    }

    pub fn as_str(&self) -> (r: &'static str)
        ensures
            r@ == self.label(),
    {
        match self {
            SectioningType::Article => "article",
            SectioningType::Aside => "aside",
            SectioningType::Nav => "nav",
            SectioningType::Section => "section",
            SectioningType::Root => "root",
            SectioningType::Body => "body",
            SectioningType::Heading => "heading",
        }
    }
}

/// Elements that open an outline of their own, which the enclosing outline
/// does not enter.
pub open spec fn is_sectioning_root(name: Seq<char>) -> bool {
    name == "blockquote"@ || name == "body"@ || name == "details"@ || name == "dialog"@
        || name == "fieldset"@ || name == "figure"@ || name == "td"@
}

pub fn sectioning_root(name: &str) -> (r: bool)
    ensures
        r == is_sectioning_root(name@),
{
    same_text(name, "blockquote") || same_text(name, "body") || same_text(name, "details")
        || same_text(name, "dialog") || same_text(name, "fieldset") || same_text(name, "figure")
        || same_text(name, "td")
}

} // verus!
