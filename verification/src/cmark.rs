//! Markdown events, as produced by the pulldown-cmark parser.
use vstd::prelude::*;
use pulldown_cmark::Tag::{
    BlockQuote, CodeBlock, DefinitionList, DefinitionListDefinition, DefinitionListTitle, Emphasis,
    FootnoteDefinition, Heading, HtmlBlock, Image, Item, Link, List, MetadataBlock, Paragraph,
    Strikethrough, Strong, Subscript, Superscript, Table, TableCell, TableHead, TableRow,
};
use pulldown_cmark::Event::{
    Code, DisplayMath, End, FootnoteReference, HardBreak, Html, InlineHtml, InlineMath, Rule,
    SoftBreak, Start, TaskListMarker, Text,
};
use pulldown_cmark::{Event, Options, Parser, TagEnd};

verus! {

#[verifier::external_type_specification]
#[verifier::external_body]
pub struct ExCmarkEvent<'a>(Event<'a>);

/// Start of an element: one variant per kind of element, with what the
/// layout needs of it.
#[derive(Debug, Clone)]
pub enum StartTag {
    Paragraph,
    /// A heading of level 1 to 6.
    Heading(u8),
    BlockQuote,
    CodeBlock,
    HtmlBlock,
    /// A list; the number of its first item when it is ordered.
    List(Option<u64>),
    Item,
    FootnoteDefinition,
    DefinitionList,
    DefinitionListTitle,
    DefinitionListDefinition,
    /// A table, with one alignment code per column: 0 none, 1 left,
    /// 2 center, 3 right.
    Table(Vec<u8>),
    TableHead,
    TableRow,
    TableCell,
    Emphasis,
    Strong,
    Strikethrough,
    Superscript,
    Subscript,
    Link,
    Image,
    MetadataBlock,
}

/// End of an element: one variant per kind of element.
#[derive(Debug, Clone, Copy)]
pub enum EndTag {
    Paragraph,
    Heading,
    BlockQuote,
    CodeBlock,
    HtmlBlock,
    List,
    Item,
    FootnoteDefinition,
    DefinitionList,
    DefinitionListTitle,
    DefinitionListDefinition,
    Table,
    TableHead,
    TableRow,
    TableCell,
    Emphasis,
    Strong,
    Strikethrough,
    Superscript,
    Subscript,
    Link,
    Image,
    MetadataBlock,
}

/// A markdown event: one variant per kind of event.
#[derive(Debug, Clone)]
pub enum MdEvent {
    Start(StartTag),
    End(EndTag),
    Text(String),
    Code(String),
    InlineMath(String),
    DisplayMath(String),
    Html(String),
    InlineHtml(String),
    /// A footnote reference, with its label.
    FootnoteReference(String),
    SoftBreak,
    HardBreak,
    Rule,
    TaskListMarker(bool),
}

/// The number of a start tag's kind, in the order of the variants.
pub open spec fn start_code_of(t: StartTag) -> u8 {
    match t {
        StartTag::Paragraph => 0,
        StartTag::Heading(_) => 1,
        StartTag::BlockQuote => 2,
        StartTag::CodeBlock => 3,
        StartTag::HtmlBlock => 4,
        StartTag::List(_) => 5,
        StartTag::Item => 6,
        StartTag::FootnoteDefinition => 7,
        StartTag::DefinitionList => 8,
        StartTag::DefinitionListTitle => 9,
        StartTag::DefinitionListDefinition => 10,
        StartTag::Table(_) => 11,
        StartTag::TableHead => 12,
        StartTag::TableRow => 13,
        StartTag::TableCell => 14,
        StartTag::Emphasis => 15,
        StartTag::Strong => 16,
        StartTag::Strikethrough => 17,
        StartTag::Superscript => 18,
        StartTag::Subscript => 19,
        StartTag::Link => 20,
        StartTag::Image => 21,
        StartTag::MetadataBlock => 22,
    }
}

/// The number of an end tag's kind, in the order of the variants.
pub open spec fn end_code_of(t: EndTag) -> u8 {
    match t {
        EndTag::Paragraph => 0,
        EndTag::Heading => 1,
        EndTag::BlockQuote => 2,
        EndTag::CodeBlock => 3,
        EndTag::HtmlBlock => 4,
        EndTag::List => 5,
        EndTag::Item => 6,
        EndTag::FootnoteDefinition => 7,
        EndTag::DefinitionList => 8,
        EndTag::DefinitionListTitle => 9,
        EndTag::DefinitionListDefinition => 10,
        EndTag::Table => 11,
        EndTag::TableHead => 12,
        EndTag::TableRow => 13,
        EndTag::TableCell => 14,
        EndTag::Emphasis => 15,
        EndTag::Strong => 16,
        EndTag::Strikethrough => 17,
        EndTag::Superscript => 18,
        EndTag::Subscript => 19,
        EndTag::Link => 20,
        EndTag::Image => 21,
        EndTag::MetadataBlock => 22,
    }
}

/// The events that pulldown-cmark produces for `source` with the option
/// bits `options`, each as the `MdEvent` variant of the same name: texts as
/// strings, headings with their level, lists with their start number,
/// tables with their alignment codes; other fields are not kept.
pub uninterp spec fn cmark_events(source: Seq<char>, options: u32) -> Seq<MdEvent>;

/// A markdown document parsed by pulldown-cmark; its events are read one at
/// a time.
pub struct ParsedMarkdown {
    events: Vec<Event<'static>>,
    source: Ghost<Seq<char>>,
    options: Ghost<u32>,
}

impl ParsedMarkdown {
    /// Every value holds one parser event per event of `cmark_events`.
    #[verifier::type_invariant]
    closed spec fn event_count_agrees(self) -> bool {
        self.events@.len() == cmark_events(self.source@, self.options@).len()
    }

    /// The parsed text.
    pub closed spec fn source(&self) -> Seq<char> {
        self.source@
    }

    /// The parser options it was parsed with.
    pub closed spec fn options(&self) -> u32 {
        self.options@
    }

    /// Its events.
    pub open spec fn events(&self) -> Seq<MdEvent> {
        cmark_events(self.source(), self.options())
    }

    /// Parses `source` with `pulldown_cmark::Parser::new_ext`, the option
    /// bits read by `Options::from_bits_truncate`, and keeps every event
    /// the parser yields. The contract claims that the number of events
    /// kept is the number of events of `cmark_events(source, options)`.
    #[verifier::external_body]
    pub(crate) fn parse(source: &str, options: u32) -> (p: ParsedMarkdown)
        ensures
            p.source() == source@,
            p.options() == options,
            p.len() == cmark_events(source@, options).len(),
    {
        let opts = Options::from_bits_truncate(options);
        let events = Parser::new_ext(source, opts).map(Event::into_static).collect();
        ParsedMarkdown { events, source: Ghost(source@), options: Ghost(options) }
    }

    /// Number of events.
    pub closed spec fn len(&self) -> nat {
        self.events@.len()
    }

    pub(crate) fn count(&self) -> (n: usize)
        ensures
            n == self.len(),
            n == self.events().len(),
    {
        proof {
            use_type_invariant(self);
        }
        self.events.len()
    }

    /// Event `i` with its text moved into a `String` (by `Display` of the
    /// parser's `CowStr`), or `None` for a start or end event (see
    /// `start_code` and `end_code`). The contract claims that every other
    /// event is exactly event `i` of `cmark_events`.
    #[verifier::external_body]
    pub(crate) fn event(&self, i: usize) -> (e: Option<MdEvent>)
        requires
            i < self.len(),
        ensures
            e is None <==> (self.events()[i as int] is Start || self.events()[i as int] is End),
            e matches Some(x) ==> x == self.events()[i as int],
    {
        match &self.events[i] {
            Start(_) => None,
            End(_) => None,
            Text(s) => Some(MdEvent::Text(s.to_string())),
            Code(s) => Some(MdEvent::Code(s.to_string())),
            InlineMath(s) => Some(MdEvent::InlineMath(s.to_string())),
            DisplayMath(s) => Some(MdEvent::DisplayMath(s.to_string())),
            Html(s) => Some(MdEvent::Html(s.to_string())),
            InlineHtml(s) => Some(MdEvent::InlineHtml(s.to_string())),
            FootnoteReference(s) => Some(MdEvent::FootnoteReference(s.to_string())),
            SoftBreak => Some(MdEvent::SoftBreak),
            HardBreak => Some(MdEvent::HardBreak),
            Rule => Some(MdEvent::Rule),
            TaskListMarker(b) => Some(MdEvent::TaskListMarker(*b)),
        }
    }

    /// The kind of start event `i`, as the number of its `Tag` variant in
    /// declaration order, or `None` for any other event. The contract
    /// claims that this is `start_code_of` the tag of event `i` of
    /// `cmark_events`.
    #[verifier::external_body]
    pub(crate) fn start_code(&self, i: usize) -> (c: Option<u8>)
        requires
            i < self.len(),
        ensures
            c is Some <==> self.events()[i as int] is Start,
            c matches Some(k) ==> k == start_code_of(self.events()[i as int]->Start_0),
    {
        match &self.events[i] {
            Start(t) => Some(match t {
                Paragraph => 0, Heading { .. } => 1, BlockQuote(_) => 2, CodeBlock(_) => 3,
                HtmlBlock => 4, List(_) => 5, Item => 6, FootnoteDefinition(_) => 7,
                DefinitionList => 8, DefinitionListTitle => 9, DefinitionListDefinition => 10,
                Table(_) => 11, TableHead => 12, TableRow => 13, TableCell => 14, Emphasis => 15,
                Strong => 16, Strikethrough => 17, Superscript => 18, Subscript => 19,
                Link { .. } => 20, Image { .. } => 21, MetadataBlock(_) => 22,
            }),
            _ => None,
        }
    }

    /// The level of event `i` when it starts a heading (`HeadingLevel as
    /// u8`), and `None` for any other event. The contract claims exactly
    /// that of event `i` of `cmark_events`.
    #[verifier::external_body]
    pub(crate) fn heading_level(&self, i: usize) -> (l: Option<u8>)
        requires
            i < self.len(),
        ensures
            l is Some <==> (self.events()[i as int] is Start && self.events()[i as int]->Start_0 is Heading),
            l matches Some(v) ==> self.events()[i as int] == MdEvent::Start(StartTag::Heading(v)),
    {
        match &self.events[i] {
            Start(Heading { level, .. }) => Some(*level as u8),
            _ => None,
        }
    }

    /// The number of the first item of event `i` when it starts a list,
    /// and `None` for any other event. The contract claims exactly that of
    /// event `i` of `cmark_events`.
    #[verifier::external_body]
    pub(crate) fn list_start(&self, i: usize) -> (n: Option<Option<u64>>)
        requires
            i < self.len(),
        ensures
            n is Some <==> (self.events()[i as int] is Start && self.events()[i as int]->Start_0 is List),
            n matches Some(v) ==> self.events()[i as int] == MdEvent::Start(StartTag::List(v)),
    {
        match &self.events[i] {
            Start(List(start)) => Some(*start),
            _ => None,
        }
    }

    /// The column alignments of event `i` when it starts a table, each by
    /// `Alignment as u8`, and `None` for any other event. The contract
    /// claims exactly that of event `i` of `cmark_events`.
    #[verifier::external_body]
    pub(crate) fn table_alignments(&self, i: usize) -> (a: Option<Vec<u8>>)
        requires
            i < self.len(),
        ensures
            a is Some <==> (self.events()[i as int] is Start && self.events()[i as int]->Start_0 is Table),
            a matches Some(v) ==> self.events()[i as int] == MdEvent::Start(StartTag::Table(v)),
    {
        match &self.events[i] {
            Start(Table(a)) => Some(a.iter().map(|x| *x as u8).collect()),
            _ => None,
        }
    }

    /// The kind of end event `i`, as the number of its `TagEnd` variant in
    /// declaration order, or `None` for any other event. The contract
    /// claims that this is `end_code_of` the tag of event `i` of
    /// `cmark_events`.
    #[verifier::external_body]
    pub(crate) fn end_code(&self, i: usize) -> (c: Option<u8>)
        requires
            i < self.len(),
        ensures
            c is Some <==> self.events()[i as int] is End,
            c matches Some(k) ==> k == end_code_of(self.events()[i as int]->End_0),
    {
        match &self.events[i] {
            End(t) => Some(match t {
                TagEnd::Paragraph => 0, TagEnd::Heading(_) => 1, TagEnd::BlockQuote(_) => 2, TagEnd::CodeBlock => 3,
                TagEnd::HtmlBlock => 4, TagEnd::List(_) => 5, TagEnd::Item => 6, TagEnd::FootnoteDefinition => 7,
                TagEnd::DefinitionList => 8, TagEnd::DefinitionListTitle => 9,
                TagEnd::DefinitionListDefinition => 10, TagEnd::Table => 11, TagEnd::TableHead => 12,
                TagEnd::TableRow => 13, TagEnd::TableCell => 14, TagEnd::Emphasis => 15, TagEnd::Strong => 16,
                TagEnd::Strikethrough => 17, TagEnd::Superscript => 18, TagEnd::Subscript => 19,
                TagEnd::Link => 20, TagEnd::Image => 21, TagEnd::MetadataBlock(_) => 22,
            }),
            _ => None,
        }
    }
}

/// The start tag of event `i`, from the number of its kind and, for
/// headings, lists and tables, what the parser holds of them.
fn start_tag_of(doc: &ParsedMarkdown, i: usize, code: u8) -> (t: StartTag)
    requires
        i < doc.len(),
        doc.events()[i as int] is Start,
        code == start_code_of(doc.events()[i as int]->Start_0),
    ensures
        doc.events()[i as int] == MdEvent::Start(t),
{
    let ghost e = doc.events()[i as int]->Start_0;
    if code == 1 {
        match doc.heading_level(i) {
            Some(l) => StartTag::Heading(l),
            None => {
                proof {
                    assert(false);
                }
                StartTag::Paragraph
            },
        }
    } else if code == 5 {
        match doc.list_start(i) {
            Some(n) => StartTag::List(n),
            None => {
                proof {
                    assert(false);
                }
                StartTag::Paragraph
            },
        }
    } else if code == 11 {
        match doc.table_alignments(i) {
            Some(a) => StartTag::Table(a),
            None => {
                proof {
                    assert(false);
                }
                StartTag::Paragraph
            },
        }
    } else {
        let t = if code == 0 {
            StartTag::Paragraph
        } else if code == 2 {
            StartTag::BlockQuote
        } else if code == 3 {
            StartTag::CodeBlock
        } else if code == 4 {
            StartTag::HtmlBlock
        } else if code == 6 {
            StartTag::Item
        } else if code == 7 {
            StartTag::FootnoteDefinition
        } else if code == 8 {
            StartTag::DefinitionList
        } else if code == 9 {
            StartTag::DefinitionListTitle
        } else if code == 10 {
            StartTag::DefinitionListDefinition
        } else if code == 12 {
            StartTag::TableHead
        } else if code == 13 {
            StartTag::TableRow
        } else if code == 14 {
            StartTag::TableCell
        } else if code == 15 {
            StartTag::Emphasis
        } else if code == 16 {
            StartTag::Strong
        } else if code == 17 {
            StartTag::Strikethrough
        } else if code == 18 {
            StartTag::Superscript
        } else if code == 19 {
            StartTag::Subscript
        } else if code == 20 {
            StartTag::Link
        } else if code == 21 {
            StartTag::Image
        } else {
            StartTag::MetadataBlock
        };
        t
    }
}

/// The end tag whose kind has number `code`.
fn end_tag_of(code: u8, Ghost(e): Ghost<EndTag>) -> (t: EndTag)
    requires
        code == end_code_of(e),
    ensures
        t == e,
{
    if code == 0 {
        EndTag::Paragraph
    } else if code == 1 {
        EndTag::Heading
    } else if code == 2 {
        EndTag::BlockQuote
    } else if code == 3 {
        EndTag::CodeBlock
    } else if code == 4 {
        EndTag::HtmlBlock
    } else if code == 5 {
        EndTag::List
    } else if code == 6 {
        EndTag::Item
    } else if code == 7 {
        EndTag::FootnoteDefinition
    } else if code == 8 {
        EndTag::DefinitionList
    } else if code == 9 {
        EndTag::DefinitionListTitle
    } else if code == 10 {
        EndTag::DefinitionListDefinition
    } else if code == 11 {
        EndTag::Table
    } else if code == 12 {
        EndTag::TableHead
    } else if code == 13 {
        EndTag::TableRow
    } else if code == 14 {
        EndTag::TableCell
    } else if code == 15 {
        EndTag::Emphasis
    } else if code == 16 {
        EndTag::Strong
    } else if code == 17 {
        EndTag::Strikethrough
    } else if code == 18 {
        EndTag::Superscript
    } else if code == 19 {
        EndTag::Subscript
    } else if code == 20 {
        EndTag::Link
    } else if code == 21 {
        EndTag::Image
    } else {
        EndTag::MetadataBlock
    }
}

/// Reads the events of a parsed document in order.
pub(crate) fn collect_events(doc: &ParsedMarkdown) -> (v: Vec<MdEvent>)
    ensures
        v@ == doc.events(),
{
    let n = doc.count();
    let mut v: Vec<MdEvent> = Vec::new();
    let mut i: usize = 0;
    while i < n
        invariant
            n == doc.len(),
            n == doc.events().len(),
            i <= n,
            v@ == doc.events().take(i as int),
        decreases n - i,
    {
        let full = match doc.event(i) {
            Some(e) => e,
            None => match doc.start_code(i) {
                Some(c) => MdEvent::Start(start_tag_of(doc, i, c)),
                None => match doc.end_code(i) {
                    Some(c) => MdEvent::End(end_tag_of(c, Ghost(doc.events()[i as int]->End_0))),
                    None => {
                        proof {
                            assert(false);
                        }
                        MdEvent::SoftBreak
                    },
                },
            },
        };
        v.push(full);
        assert(v@ =~= doc.events().take(i + 1));
        i = i + 1;
    }
    assert(doc.events().take(i as int) =~= doc.events());
    v
}

} // verus!
