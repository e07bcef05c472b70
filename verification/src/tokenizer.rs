//! The XML tokenizer (quick-xml) as the tree builder sees it: one event at a
//! time, reduced to plain values, plus byte positions in the reader's input.
//! quick-xml reads a slice deterministically, so the `k`-th event of a
//! reader over a text, and the positions it reports after it, are named
//! functions of the text, the reader's configuration and `k`.
use vstd::prelude::*;
use quick_xml::events::Event;
use quick_xml::reader::Reader;
use crate::text::bytes_of;

verus! {

#[verifier::external_type_specification]
#[verifier::external_body]
#[verifier::reject_recursive_types(R)]
pub struct ExXmlReader<R>(Reader<R>);

/// One tokenizer event, reduced to what the tree builder reads: the
/// qualified name of a tag, or just the kind of a text-like run.
pub enum RawEvent {
    Eof,
    Start(String),
    Empty(String),
    End(String),
    Text,
    GeneralRef,
    CData,
    /// A comment, processing instruction, XML declaration, or DOCTYPE.
    Skipped,
    /// Markup the tokenizer could not read.
    Malformed,
}

/// A `RawEvent` with its tag name as characters.
pub enum EventView {
    Eof,
    Start(Seq<char>),
    Empty(Seq<char>),
    End(Seq<char>),
    Text,
    GeneralRef,
    CData,
    Skipped,
    Malformed,
}

impl View for RawEvent {
    type V = EventView;

    open spec fn view(&self) -> EventView {
        match self {
            RawEvent::Eof => EventView::Eof,
            RawEvent::Start(n) => EventView::Start(n@),
            RawEvent::Empty(n) => EventView::Empty(n@),
            RawEvent::End(n) => EventView::End(n@),
            RawEvent::Text => EventView::Text,
            RawEvent::GeneralRef => EventView::GeneralRef,
            RawEvent::CData => EventView::CData,
            RawEvent::Skipped => EventView::Skipped,
            RawEvent::Malformed => EventView::Malformed,
        }
    }
}

/// The `k`-th event (from 0) that `Reader::read_event` gives for a reader
/// over `text` (its UTF-8 bytes) configured with `allow_dangling_amp`,
/// `check_end_names` and `allow_unmatched_ends` as given.
pub uninterp spec fn xml_event(text: Seq<u8>, dangling_amp: bool, end_names: bool, unmatched_ends: bool, k: nat) -> EventView;

/// `Reader::buffer_position` of that reader once it has given `k` events.
pub uninterp spec fn xml_position(text: Seq<u8>, dangling_amp: bool, end_names: bool, unmatched_ends: bool, k: nat) -> u64;

/// `Reader::error_position` of that reader once it has given `k` events.
pub uninterp spec fn xml_error_position(
    text: Seq<u8>,
    dangling_amp: bool,
    end_names: bool,
    unmatched_ends: bool,
    k: nat,
) -> u64;

/// A quick-xml reader over a text, with what its events are a function of:
/// the text, its three recovery flags, and how many events it has given.
pub struct XmlCursor<'a> {
    reader: Reader<&'a [u8]>,
    text: Ghost<Seq<u8>>,
    dangling_amp: Ghost<bool>,
    end_names: Ghost<bool>,
    unmatched_ends: Ghost<bool>,
    count: Ghost<nat>,
}

impl<'a> XmlCursor<'a> {
    pub closed spec fn text(&self) -> Seq<u8> {
        self.text@
    }

    pub closed spec fn dangling_amp(&self) -> bool {
        self.dangling_amp@
    }

    pub closed spec fn end_names(&self) -> bool {
        self.end_names@
    }

    pub closed spec fn unmatched_ends(&self) -> bool {
        self.unmatched_ends@
    }

    /// How many events the reader has given.
    pub closed spec fn count(&self) -> nat {
        self.count@
    }

    /// The next event of this reader.
    pub open spec fn next_view(&self) -> EventView {
        xml_event(self.text(), self.dangling_amp(), self.end_names(), self.unmatched_ends(), self.count())
    }

    /// `Reader::buffer_position` now.
    pub open spec fn position(&self) -> u64 {
        xml_position(self.text(), self.dangling_amp(), self.end_names(), self.unmatched_ends(), self.count())
    }

    /// `Reader::error_position` now.
    pub open spec fn error_position(&self) -> u64 {
        xml_error_position(self.text(), self.dangling_amp(), self.end_names(), self.unmatched_ends(), self.count())
    }

    /// The same reader, further on or reconfigured: the same text.
    pub open spec fn same_text(&self, other: &Self) -> bool {
        self.text() == other.text()
    }
}

/// `Reader::from_str`: a reader over `text` with quick-xml's default
/// configuration (no dangling `&`, end names checked, no unmatched ends),
/// that has given no event yet.
#[verifier::external_body]
pub(crate) fn reader_from_str<'a>(text: &'a str) -> (r: XmlCursor<'a>)
    ensures
        r.text() == bytes_of(text),
        !r.dangling_amp(),
        r.end_names(),
        !r.unmatched_ends(),
        r.count() == 0,
{
    XmlCursor {
        reader: Reader::from_str(text),
        text: Ghost(bytes_of(text)),
        dangling_amp: Ghost(false),
        end_names: Ghost(true),
        unmatched_ends: Ghost(false),
        count: Ghost(0),
    }
}

/// Sets `Config::allow_dangling_amp` (through `Reader::config_mut`) before
/// any event is read: a `&` that starts no reference is read as text
/// instead of an error.
#[verifier::external_body]
pub(crate) fn set_allow_dangling_amp(c: &mut XmlCursor, on: bool)
    requires
        old(c).count() == 0,
    ensures
        final(c).text() == old(c).text(),
        final(c).dangling_amp() == on,
        final(c).end_names() == old(c).end_names(),
        final(c).unmatched_ends() == old(c).unmatched_ends(),
        final(c).count() == 0,
{
    c.reader.config_mut().allow_dangling_amp = on;
}

/// Sets `Config::check_end_names` (through `Reader::config_mut`) before any
/// event is read: whether a closing tag must name the innermost open
/// element.
#[verifier::external_body]
pub(crate) fn set_check_end_names(c: &mut XmlCursor, on: bool)
    requires
        old(c).count() == 0,
    ensures
        final(c).text() == old(c).text(),
        final(c).dangling_amp() == old(c).dangling_amp(),
        final(c).end_names() == on,
        final(c).unmatched_ends() == old(c).unmatched_ends(),
        final(c).count() == 0,
{
    c.reader.config_mut().check_end_names = on;
}

/// Sets `Config::allow_unmatched_ends` (through `Reader::config_mut`)
/// before any event is read: a closing tag with nothing open arrives as an
/// event instead of an error.
#[verifier::external_body]
pub(crate) fn set_allow_unmatched_ends(c: &mut XmlCursor, on: bool)
    requires
        old(c).count() == 0,
    ensures
        final(c).text() == old(c).text(),
        final(c).dangling_amp() == old(c).dangling_amp(),
        final(c).end_names() == old(c).end_names(),
        final(c).unmatched_ends() == on,
        final(c).count() == 0,
{
    c.reader.config_mut().allow_unmatched_ends = on;
}

/// A tokenizer over `text` for which every closing tag arrives as an event,
/// matched or not, and a bare `&` arrives as text; the tree builder applies
/// its own recovery rules to both.
pub(crate) fn open_reader<'a>(text: &'a str) -> (r: XmlCursor<'a>)
    ensures
        r.text() == bytes_of(text),
        r.dangling_amp(),
        !r.end_names(),
        r.unmatched_ends(),
        r.count() == 0,
{
    let mut reader = reader_from_str(text);
    set_allow_dangling_amp(&mut reader, true);
    set_check_end_names(&mut reader, false);
    set_allow_unmatched_ends(&mut reader, true);
    reader
}

/// `Reader::read_event`, with each event reduced to a `RawEvent`: the
/// reader's next event, after which it has given one more. On an empty
/// text every event is `Eof`.
#[verifier::external_body]
pub(crate) fn next_event(c: &mut XmlCursor) -> (r: RawEvent)
    ensures
        r@ == xml_event(old(c).text(), old(c).dangling_amp(), old(c).end_names(), old(c).unmatched_ends(), old(c).count()),
        old(c).text().len() == 0 ==> r@ == EventView::Eof,
        final(c).text() == old(c).text(),
        final(c).dangling_amp() == old(c).dangling_amp(),
        final(c).end_names() == old(c).end_names(),
        final(c).unmatched_ends() == old(c).unmatched_ends(),
        final(c).count() == old(c).count() + 1,
{
    match c.reader.read_event() {
        Ok(Event::Eof) => RawEvent::Eof,
        Ok(Event::Start(tag)) => RawEvent::Start(tag.name().as_ref().to_string()),
        Ok(Event::Empty(tag)) => RawEvent::Empty(tag.name().as_ref().to_string()),
        Ok(Event::End(tag)) => RawEvent::End(tag.name().as_ref().to_string()),
        Ok(Event::Text(_)) => RawEvent::Text,
        Ok(Event::GeneralRef(_)) => RawEvent::GeneralRef,
        Ok(Event::CData(_)) => RawEvent::CData,
        Ok(_) => RawEvent::Skipped,
        Err(_) => RawEvent::Malformed,
    }
}

/// `Reader::buffer_position`: the byte offset the reader has consumed up to.
#[verifier::external_body]
pub(crate) fn reader_position(c: &XmlCursor) -> (r: u64)
    ensures
        r == xml_position(c.text(), c.dangling_amp(), c.end_names(), c.unmatched_ends(), c.count()),
{
    c.reader.buffer_position()
}

/// `Reader::error_position`: the byte offset of the last markup the reader
/// could not read.
#[verifier::external_body]
pub(crate) fn reader_error_position(c: &XmlCursor) -> (r: u64)
    ensures
        r == xml_error_position(c.text(), c.dangling_amp(), c.end_names(), c.unmatched_ends(), c.count()),
{
    c.reader.error_position()
}

/// Whether `quick_xml::escape::unescape` rejects a text (an unknown entity
/// name, an invalid character reference, or an unterminated reference).
pub uninterp spec fn xml_unescape_fails(raw: Seq<char>) -> bool;

/// `quick_xml::escape::unescape(raw).is_err()`: the result is the named
/// function of the text.
#[verifier::external_body]
pub(crate) fn unescape_fails(raw: &str) -> (r: bool)
    ensures
        r == xml_unescape_fails(raw@),
{
    quick_xml::escape::unescape(raw).is_err()
}

} // verus!
