//! The pieces of an XML document and the writer that puts them out.

use quick_xml::Writer;
use quick_xml::events::BytesEnd;
use quick_xml::events::BytesStart;
use quick_xml::events::BytesText;
use quick_xml::events::Event;
use vstd::prelude::*;
use vstd::utf8::encode_utf8;

verus! {

/// One `key="value"` pair of a tag. The value is held unescaped.
pub struct Attribute {
    pub key: String,
    pub value: String,
}

/// An element's name and its attributes, in document order.
pub struct Tag {
    pub name: String,
    pub attributes: Vec<Attribute>,
}

/// One piece of an XML document.
pub enum Markup {
    /// `<name attributes>`
    Start(Tag),
    /// `<name attributes/>`
    Empty(Tag),
    /// Character data, held unescaped.
    Text(String),
    /// `</name>`
    End(String),
}

/// The characters that XML reserves.
pub open spec fn reserved(c: char) -> bool {
    c == '<' || c == '>' || c == '&' || c == '\'' || c == '"'
}

/// Text without a reserved character is its own escaped form.
pub proof fn lemma_escaped_plain(s: Seq<char>)
    requires
        forall|i: int| 0 <= i < s.len() ==> !reserved(#[trigger] s[i]),
    ensures
        escaped(s) == s,
    decreases s.len(),
{
    if s.len() > 0 {
        lemma_escaped_plain(s.drop_last());
        assert(s.drop_last().push(s.last()) =~= s);
    }
}

/// What stands in the document for one character of a value or of character
/// data: the five characters that XML reserves become entity references.
pub open spec fn escape_char(c: char) -> Seq<char> {
    if c == '<' {
        seq!['&', 'l', 't', ';']
    } else if c == '>' {
        seq!['&', 'g', 't', ';']
    } else if c == '&' {
        seq!['&', 'a', 'm', 'p', ';']
    } else if c == '\'' {
        seq!['&', 'a', 'p', 'o', 's', ';']
    } else if c == '"' {
        seq!['&', 'q', 'u', 'o', 't', ';']
    } else {
        seq![c]
    }
}

/// `s` with each character escaped.
pub open spec fn escaped(s: Seq<char>) -> Seq<char>
    decreases s.len(),
{
    if s.len() == 0 {
        Seq::empty()
    } else {
        escaped(s.drop_last()) + escape_char(s.last())
    }
}

/// ` key="value"`, with the leading space and the value escaped.
pub open spec fn attribute(key: Seq<char>, value: Seq<char>) -> Seq<char> {
    seq![' '] + key + seq!['=', '"'] + escaped(value) + seq!['"']
}

impl Attribute {
    /// The attribute as it stands in a tag.
    pub open spec fn text(&self) -> Seq<char> {
        attribute(self.key@, self.value@)
    }
}

/// The texts of `attrs`, one after another.
pub open spec fn attributes_text(attrs: Seq<Attribute>) -> Seq<char>
    decreases attrs.len(),
{
    if attrs.len() == 0 {
        Seq::empty()
    } else {
        attributes_text(attrs.drop_last()) + attrs.last().text()
    }
}

impl Tag {
    /// The name followed by the attributes.
    pub open spec fn text(&self) -> Seq<char> {
        self.name@ + attributes_text(self.attributes@)
    }
}

/// `<body>`, where `body` is a name followed by attributes.
pub open spec fn start_tag(body: Seq<char>) -> Seq<char> {
    seq!['<'] + body + seq!['>']
}

/// `<body/>`, where `body` is a name followed by attributes.
pub open spec fn empty_tag(body: Seq<char>) -> Seq<char> {
    seq!['<'] + body + seq!['/', '>']
}

/// `</name>`
pub open spec fn end_tag(name: Seq<char>) -> Seq<char> {
    seq!['<', '/'] + name + seq!['>']
}

impl Markup {
    /// The characters that this piece contributes to a document.
    pub open spec fn text(&self) -> Seq<char> {
        match self {
            Markup::Start(tag) => start_tag(tag.text()),
            Markup::Empty(tag) => empty_tag(tag.text()),
            Markup::Text(content) => escaped(content@),
            Markup::End(name) => end_tag(name@),
        }
    }
}

/// `quick_xml::Writer`, whose inside is not looked into here.
#[verifier::external_type_specification]
#[verifier::external_body]
#[verifier::reject_recursive_types(W)]
pub struct ExWriter<W>(Writer<W>);

/// `quick_xml::Error`, carried as it comes.
#[verifier::external_type_specification]
#[verifier::external_body]
pub struct ExXmlError(quick_xml::Error);

/// The bytes that a writer over a byte vector has received so far.
pub uninterp spec fn written(w: Writer<Vec<u8>>) -> Seq<u8>;

/// `quick_xml::Writer::new` over an empty byte vector: nothing is written yet.
#[verifier::external_body]
pub(crate) fn new_writer() -> (w: Writer<Vec<u8>>)
    ensures
        written(w) == Seq::<u8>::empty(),
{
    Writer::new(Vec::new())
}

/// `quick_xml::Writer::write_event`, on the event that `quick_xml` builds from
/// `markup` (`BytesStart::new` with `with_attributes`, `BytesText::new`,
/// `BytesEnd::new`). It succeeds: it fails only where the writer underneath
/// does, and that is a byte vector, which takes what is written by
/// appending it. The writer has then received, after what it held, the
/// UTF-8 encoding of `markup.text()`: it does not indent, attribute values
/// and character data are escaped, names and keys are copied as they are.
#[verifier::external_body]
pub(crate) fn write_event(w: &mut Writer<Vec<u8>>, markup: &Markup) -> (r: Result<
    (),
    quick_xml::Error,
>)
    ensures
        r is Ok,
        written(*final(w)) == written(*old(w)) + encode_utf8(markup.text()),
{
    let event = match markup {
        Markup::Start(t) => Event::Start(
            BytesStart::new(t.name.as_str()).with_attributes(
                t.attributes.iter().map(|a| (a.key.as_str(), a.value.as_str())),
            ),
        ),
        Markup::Empty(t) => Event::Empty(
            BytesStart::new(t.name.as_str()).with_attributes(
                t.attributes.iter().map(|a| (a.key.as_str(), a.value.as_str())),
            ),
        ),
        Markup::Text(content) => Event::Text(BytesText::new(content.as_str())),
        Markup::End(name) => Event::End(BytesEnd::new(name.as_str())),
    };
    w.write_event(event)
}

/// `quick_xml::Writer::into_inner`: the byte vector with all that was written.
#[verifier::external_body]
pub(crate) fn into_bytes(w: Writer<Vec<u8>>) -> (bytes: Vec<u8>)
    ensures
        bytes@ == written(w),
{
    w.into_inner()
}

} // verus!
