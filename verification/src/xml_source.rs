//! The events of an XML document, as quick-xml reads them.
use vstd::prelude::*;
use quick_xml::events::Event::{Empty, End, Eof, Start, Text};
use crate::freemind_read::{XmlAttr, XmlEvent, XmlEventView};

verus! {

#[verifier::external_type_specification]
#[verifier::external_body]
#[verifier::reject_recursive_types(R)]
pub struct ExXmlReader<R>(quick_xml::Reader<R>);

#[verifier::external_type_specification]
#[verifier::external_body]
pub struct ExXmlBytesStart<'a>(quick_xml::events::BytesStart<'a>);

/// The `k`-th event (counting from 0) that quick-xml's `Reader::read_event`
/// gives for the document `doc`, with text trimming on when `trimmed` holds,
/// taken as plain values as `read_event` converts it.
pub uninterp spec fn xml_event_at(doc: Seq<char>, trimmed: bool, k: nat) -> XmlEventView;

/// A quick-xml reader over a document, with the document it reads, whether
/// text trimming is on, and how many events it has given. Only the functions of
/// this module touch it.
pub struct XmlCursor<'a> {
    reader: quick_xml::Reader<&'a [u8]>,
    doc: Ghost<Seq<char>>,
    trimmed: Ghost<bool>,
    read: Ghost<nat>,
}

impl<'a> XmlCursor<'a> {
    pub closed spec fn doc(&self) -> Seq<char> {
        self.doc@
    }

    pub closed spec fn trimmed(&self) -> bool {
        self.trimmed@
    }

    pub closed spec fn read(&self) -> nat {
        self.read@
    }
}

/// quick-xml `Reader::from_str`: a reader at the start of `xml`, with text
/// trimming off and no event given yet.
#[verifier::external_body]
pub(crate) fn xml_cursor<'a>(xml: &'a str) -> (res: XmlCursor<'a>)
    ensures
        res.doc() == xml@,
        !res.trimmed(),
        res.read() == 0,
{
    XmlCursor { reader: quick_xml::Reader::from_str(xml), doc: Ghost(xml@), trimmed: Ghost(false), read: Ghost(0) }
}

/// quick-xml `Config::trim_text(true)` on the reader's configuration, before
/// any event is read: text events lose their leading and trailing whitespace,
/// and whitespace-only text gives no event.
#[verifier::external_body]
pub(crate) fn trim_text<'a>(cur: &mut XmlCursor<'a>)
    requires
        old(cur).read() == 0,
    ensures
        final(cur).doc() == old(cur).doc(),
        final(cur).trimmed(),
        final(cur).read() == 0,
{
    cur.reader.config_mut().trim_text(true);
}

/// quick-xml `BytesStart::attributes` without well-formedness checks: each
/// attribute's name and unescaped value (`None` for an attribute that could not
/// be read, or a value whose entities could not be resolved).
#[verifier::external_body]
fn tag_attrs<'a>(e: &quick_xml::events::BytesStart<'a>) -> Vec<Option<XmlAttr>> {
    let mut attrs = e.attributes();
    attrs.with_checks(false);
    attrs.map(|a| a.ok().map(|a| XmlAttr {
        key: a.key.as_ref().to_vec(),
        value: a.unescape_value().ok().map(|v| v.into_owned()),
    })).collect()
}

/// quick-xml `Reader::read_event`: the next event of the document, with tag
/// names as bytes, attributes as `tag_attrs` gives them, text unescaped, and an
/// error with the reader's `error_position` and the error's message. It is the
/// event `xml_event_at` names for the cursor's document and position.
#[verifier::external_body]
pub(crate) fn read_event<'a>(cur: &mut XmlCursor<'a>) -> (res: XmlEvent)
    ensures
        res@ == xml_event_at(old(cur).doc(), old(cur).trimmed(), old(cur).read()),
        final(cur).doc() == old(cur).doc(),
        final(cur).trimmed() == old(cur).trimmed(),
        final(cur).read() == old(cur).read() + 1,
{
    match cur.reader.read_event() {
        Ok(Start(e)) => XmlEvent::Start { name: e.name().as_ref().to_vec(), attrs: tag_attrs(&e) },
        Ok(Empty(e)) => XmlEvent::Empty { name: e.name().as_ref().to_vec(), attrs: tag_attrs(&e) },
        Ok(End(e)) => XmlEvent::End { name: e.name().as_ref().to_vec() },
        Ok(Text(e)) => XmlEvent::Text { text: e.unescape().ok().map(String::from) },
        Ok(Eof) => XmlEvent::Eof,
        Ok(_) => XmlEvent::Other,
        Err(e) => XmlEvent::Error { position: cur.reader.error_position(), message: e.to_string() },
    }
}

} // verus!
