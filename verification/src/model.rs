//! The typed document tree: inline objects, elements, headings, the zeroth
//! section and the document root, together with their well-formedness
//! predicates and the specification-level view of parsed heading lines.

use vstd::prelude::*;

use crate::text::seq_eq_ci;

verus! {

/// The kind tag of an inline markup span.
#[derive(Clone, Copy, Debug, PartialEq, Eq, Structural)]
pub enum MarkupKind {
    Bold,
    Italic,
    Underline,
    Verbatim,
    Code,
    StrikeThrough,
}

/// An inline unit of content inside a paragraph.
#[derive(Clone, Debug, PartialEq, Eq)]
pub enum Object {
    PlainText(Vec<char>),
    Markup { kind: MarkupKind, content: Vec<char> },
    Superscript(Vec<char>),
    Subscript(Vec<char>),
}

/// The mathematical value of an [`Object`].
#[verifier::ext_equal]
pub enum GObject {
    PlainText(Seq<char>),
    Markup { kind: MarkupKind, content: Seq<char> },
    Superscript(Seq<char>),
    Subscript(Seq<char>),
}

impl View for Object {
    type V = GObject;

    open spec fn view(&self) -> GObject {
        match self {
            Object::PlainText(t) => GObject::PlainText(t@),
            Object::Markup { kind, content } => GObject::Markup {
                kind: *kind,
                content: content@,
            },
            Object::Superscript(t) => GObject::Superscript(t@),
            Object::Subscript(t) => GObject::Subscript(t@),
        }
    }
}

/// Greater elements may contain further elements.
#[derive(Clone, Copy, Debug, PartialEq, Eq, Structural)]
pub enum GreaterKind {
    Center,
    Quote,
}

/// Verbatim blocks carry an opaque payload that is never inline-parsed.
#[derive(Clone, Copy, Debug, PartialEq, Eq, Structural)]
pub enum VerbatimKind {
    Example,
    Source,
}

/// A block-level piece of content owned by a section.
#[derive(Debug)]
pub enum Element {
    /// A paragraph: a run of text lines parsed into inline objects.
    Paragraph(Vec<Object>),
    /// A planning line recorded verbatim.
    Planning(Vec<char>),
    /// A container block (center, quote) holding nested elements.
    Greater { kind: GreaterKind, children: Vec<Element> },
    /// A source or example block holding raw payload lines.
    Verbatim { kind: VerbatimKind, lines: Vec<Vec<char>> },
}

/// One entry of a property drawer.
#[derive(Clone, Debug, PartialEq, Eq)]
pub struct Property {
    /// Stored as written; compared case-insensitively.
    pub key: Vec<char>,
    pub value: Vec<char>,
}

/// The result of parsing a single heading line.
#[derive(Clone, Debug, PartialEq, Eq)]
pub struct Header {
    /// Denoted by one to six `*` characters in the document.
    pub level: usize,
    /// An optional keyword out of the configured set.
    pub keyword: Option<Vec<char>>,
    /// An optional priority character out of the configured set.
    pub priority: Option<char>,
    /// The mandatory headline text.
    pub headline: Vec<char>,
    /// The trailing tags, in order of appearance, without duplicates.
    pub tags: Vec<Vec<char>>,
}

/// The mathematical value of a [`Header`].
#[verifier::ext_equal]
pub struct GHeader {
    pub level: int,
    pub keyword: Option<Seq<char>>,
    pub priority: Option<char>,
    pub headline: Seq<char>,
    pub tags: Seq<Seq<char>>,
}

impl View for Header {
    type V = GHeader;

    open spec fn view(&self) -> GHeader {
        GHeader {
            level: self.level as int,
            keyword: match self.keyword {
                Option::Some(k) => Option::Some(k@),
                Option::None => Option::None,
            },
            priority: self.priority,
            headline: self.headline@,
            tags: self.tags.deep_view(),
        }
    }
}

/// A node of the heading forest.
#[derive(Debug)]
pub struct Heading {
    pub head: Header,
    pub properties: Vec<Property>,
    /// The content owned directly by this heading, before any child heading.
    pub section: Vec<Element>,
    /// Nested headings; each is strictly deeper than this node.
    pub children: Vec<Heading>,
}

/// Content before the first heading, plus document-wide metadata.
#[derive(Debug)]
pub struct ZerothSection {
    pub title: Option<Vec<char>>,
    pub description: Option<Vec<char>>,
    pub properties: Vec<Property>,
    pub body: Vec<Element>,
}

/// The root artifact: one zeroth section and the heading forest.
#[derive(Debug)]
pub struct Document {
    pub zeroth: ZerothSection,
    pub headings: Vec<Heading>,
}

/// A heading level; only values in `[1, 6]` can be constructed.
#[derive(Clone, Copy, Debug, PartialEq, Eq, Structural)]
pub struct HeadingLevel {
    value: usize,
}

impl HeadingLevel {
    pub closed spec fn spec_value(self) -> int {
        self.value as int
    }

    /// True of every value this type can hold.
    pub closed spec fn wf(self) -> bool {
        1 <= self.value <= 6
    }

    /// Accepts exactly the levels the grammar recognizes.
    pub fn new(value: usize) -> (r: Result<HeadingLevel, ParseErrorKind>)
        ensures
            r matches Result::Ok(l) ==> l.spec_value() == value && l.wf(),
            (r matches Result::Ok(l)) <==> 1 <= value <= 6,
            r matches Result::Err(e) ==> e == ParseErrorKind::InvalidHeadingLevel,
    {
        if 1 <= value && value <= 6 {
            Result::Ok(HeadingLevel { value })
        } else {
            Result::Err(ParseErrorKind::InvalidHeadingLevel)
        }
    }

    pub fn value(&self) -> (r: usize)
        ensures
            r as int == self.spec_value(),
    {
        self.value
    }
}

/// The structural errors that abort a parse.
#[derive(Clone, Copy, Debug, PartialEq, Eq, Structural)]
pub enum ParseErrorKind {
    InvalidHeadingLevel,
    UnterminatedDrawer,
    UnterminatedFence,
    MisplacedPropertyDrawer,
    EmptyHeadline,
}

/// A structural error together with the line (zero-based) it arose on.
#[derive(Clone, Copy, Debug, PartialEq, Eq, Structural)]
pub struct ParseError {
    pub kind: ParseErrorKind,
    pub line: usize,
}

/// Property lists never hold two keys equal up to ASCII case.
pub open spec fn props_wf(props: Seq<Property>) -> bool {
    forall|i: int, j: int|
        0 <= i < j < props.len() ==> !seq_eq_ci(#[trigger] props[i].key@, #[trigger] props[j].key@)
}

/// A parsed heading line is well formed: level in range, headline non-empty.
pub open spec fn header_wf(h: GHeader) -> bool {
    &&& 1 <= h.level <= 6
    &&& h.headline.len() > 0
}

/// A heading node is well formed: its own line is, its properties hold no
/// duplicate key, and every child is strictly deeper and well formed.
pub open spec fn heading_wf(h: Heading) -> bool
    decreases h,
{
    &&& header_wf(h.head@)
    &&& props_wf(h.properties@)
    &&& forall|i: int|
        0 <= i < h.children@.len() ==> (#[trigger] h.children@[i]).head.level > h.head.level
            && heading_wf(h.children@[i])
}

/// Every root of the forest is well formed, and the zeroth section's
/// properties hold no duplicate key.
pub open spec fn document_wf(doc: Document) -> bool {
    &&& props_wf(doc.zeroth.properties@)
    &&& forall|i: int| 0 <= i < doc.headings@.len() ==> heading_wf(#[trigger] doc.headings@[i])
}

/// The key under which a node's stable identifier is stored.
pub open spec fn custom_id_key() -> Seq<char> {
    "CUSTOM_ID"@
}

/// The value of the first property whose key matches `key` up to case.
pub open spec fn prop_value_ci(props: Seq<Property>, key: Seq<char>) -> Option<Seq<char>>
    decreases props.len(),
{
    if props.len() == 0 {
        Option::None
    } else if seq_eq_ci(props[0].key@, key) {
        Option::Some(props[0].value@)
    } else {
        prop_value_ci(props.skip(1), key)
    }
}

/// The `CUSTOM_ID` values of a subtree in pre-order: the node itself first,
/// then each child's subtree in order. A missing property contributes `None`.
pub open spec fn opt_ids_heading(h: Heading) -> Seq<Option<Seq<char>>>
    decreases h,
{
    seq![prop_value_ci(h.properties@, custom_id_key())] + opt_ids_forest(h.children@)
}

/// The pre-order `CUSTOM_ID` values of a forest.
pub open spec fn opt_ids_forest(hs: Seq<Heading>) -> Seq<Option<Seq<char>>>
    decreases hs,
{
    if hs.len() == 0 {
        Seq::empty()
    } else {
        opt_ids_heading(hs[0]) + opt_ids_forest(hs.skip(1))
    }
}

/// The pre-order `CUSTOM_ID` values of the whole document, zeroth section
/// first.
pub open spec fn opt_ids_doc(doc: Document) -> Seq<Option<Seq<char>>> {
    seq![prop_value_ci(doc.zeroth.properties@, custom_id_key())] + opt_ids_forest(doc.headings@)
}

} // verus!
