//! The XML reader of quick_xml, seen through plain tokens.
//!
//! quick_xml turns the bytes of a document into a stream of events. The
//! library reads that stream one event at a time and hands each on as an
//! [`XmlToken`] of plain values; everything that is decided about a sitemap
//! is decided in verified code over those tokens.
use vstd::prelude::*;

use quick_xml::events::Event;

verus! {

#[verifier::external_type_specification]
#[verifier::external_body]
#[verifier::reject_recursive_types(R)]
pub struct ExXmlReader<R>(quick_xml::Reader<R>);

#[verifier::external_type_specification]
#[verifier::external_body]
pub struct ExXmlError(quick_xml::Error);

#[verifier::external_type_specification]
#[verifier::external_body]
pub struct ExEscapeError(quick_xml::escape::EscapeError);

/// One event of the XML reader, with its data as plain bytes.
#[derive(Debug)]
pub enum XmlToken {
    /// A start tag; its qualified name as it stands in the input.
    Start(Vec<u8>),
    /// A self-closing tag; its qualified name.
    Empty(Vec<u8>),
    /// An end tag; its qualified name.
    End(Vec<u8>),
    /// Character data between markup, still escaped.
    Text(Vec<u8>),
    /// A general reference `&...;`; the bytes between `&` and `;`.
    Reference(Vec<u8>),
    /// Any other event (declaration, comment, CDATA, processing instruction, DOCTYPE).
    Other,
    /// The end of the document.
    Eof,
}

/// The mathematical value of an [`XmlToken`].
pub enum XmlTokenView {
    Start(Seq<u8>),
    Empty(Seq<u8>),
    End(Seq<u8>),
    Text(Seq<u8>),
    Reference(Seq<u8>),
    Other,
    Eof,
}

impl View for XmlToken {
    type V = XmlTokenView;

    open spec fn view(&self) -> XmlTokenView {
        match self {
            XmlToken::Start(n) => XmlTokenView::Start(n@),
            XmlToken::Empty(n) => XmlTokenView::Empty(n@),
            XmlToken::End(n) => XmlTokenView::End(n@),
            XmlToken::Text(t) => XmlTokenView::Text(t@),
            XmlToken::Reference(r) => XmlTokenView::Reference(r@),
            XmlToken::Other => XmlTokenView::Other,
            XmlToken::Eof => XmlTokenView::Eof,
        }
    }
}

/// The token that quick_xml's reader, configured to trim text, yields as the
/// event at `position` (counting from 0) of the document `input`; `None`
/// where the reader reports an error there.
pub uninterp spec fn xml_token_at(input: Seq<u8>, position: nat) -> Option<XmlTokenView>;

/// What quick_xml's `unescape` makes of `raw`; `None` where it reports an error.
pub uninterp spec fn xml_unescaped(raw: Seq<char>) -> Option<Seq<char>>;

/// The value of `c` as a digit in base `radix` (10, or 16 with the letters
/// in either case); `None` where it is no such digit.
pub open spec fn digit_value(c: char, radix: nat) -> Option<nat> {
    if '0' <= c && c <= '9' {
        Some((c as nat - 48) as nat)
    } else if radix == 16 && 'a' <= c && c <= 'f' {
        Some((c as nat - 87) as nat)
    } else if radix == 16 && 'A' <= c && c <= 'F' {
        Some((c as nat - 55) as nat)
    } else {
        None
    }
}

/// The number that `digits` write in base `radix`; `None` where one of them
/// is no digit of that base.
pub open spec fn numeral_value(digits: Seq<char>, radix: nat) -> Option<nat>
    decreases digits.len(),
{
    if digits.len() == 0 {
        Some(0)
    } else {
        match (numeral_value(digits.drop_last(), radix), digit_value(digits.last(), radix)) {
            (Some(v), Some(d)) => Some(v * radix + d),
            _ => None,
        }
    }
}

/// What std's `u32::from_str_radix` reads from `digits` when they carry no
/// sign: their value where they are one or more digits of the base and it
/// fits in a `u32`, `None` otherwise.
pub open spec fn u32_numeral(digits: Seq<char>, radix: nat) -> Option<nat> {
    if digits.len() == 0 {
        None
    } else {
        match numeral_value(digits, radix) {
            Some(v) => if v <= u32::MAX {
                Some(v)
            } else {
                None
            },
            None => None,
        }
    }
}

/// Whether `v` is the code of a `char`: at most `0x10FFFF` and no surrogate.
pub open spec fn is_scalar_value(v: nat) -> bool {
    v <= 0xD7FF || (0xE000 <= v && v <= 0x10FFFF)
}

/// The character that the character reference `name` (`#` then decimal
/// digits, or `#x` then hexadecimal digits) stands for, as quick_xml's
/// `BytesRef::resolve_char_ref` resolves it: `None` where the digits do not
/// read as a number, or the number is 0 or no character's code.
pub open spec fn xml_char_reference(name: Seq<char>) -> Option<char> {
    let num = name.skip(1);
    let code = if num.len() > 0 && num[0] == 'x' {
        u32_numeral(num.skip(1), 16)
    } else {
        u32_numeral(num, 10)
    };
    match code {
        Some(v) => if v != 0 && is_scalar_value(v) {
            Some(v as char)
        } else {
            None
        },
        None => None,
    }
}

/// A reader over one document, together with the document and the number of
/// events read so far. Only `open_cursor` makes one, so its reader is always
/// quick_xml's trimming reader over that document, with that many events
/// read from it.
pub(crate) struct XmlCursor<'a> {
    reader: quick_xml::Reader<&'a [u8]>,
    buf: Vec<u8>,
    input: Ghost<Seq<u8>>,
    position: Ghost<nat>,
}

impl<'a> View for XmlCursor<'a> {
    type V = (Seq<u8>, nat);

    closed spec fn view(&self) -> (Seq<u8>, nat) {
        (self.input@, self.position@)
    }
}

/// quick_xml's `Reader::from_reader` on `bytes`, with text trimming switched
/// on through `Config::trim_text`.
#[verifier::external_body]
fn trimming_reader<'a>(bytes: &'a [u8]) -> quick_xml::Reader<&'a [u8]> {
    let mut reader = quick_xml::Reader::from_reader(bytes);
    reader.config_mut().trim_text(true);
    reader
}

/// A cursor at the start of the document `bytes`.
pub(crate) fn open_cursor<'a>(bytes: &'a [u8]) -> (cursor: XmlCursor<'a>)
    ensures
        cursor@ == (bytes@, 0nat),
{
    XmlCursor { reader: trimming_reader(bytes), buf: Vec::new(), input: Ghost(bytes@), position: Ghost(0) }
}

/// Reads the next event with quick_xml's `Reader::read_event_into` and hands
/// it on as a token: the event at the cursor's position in the document, or
/// the reader's error there. A tag is handed on as its qualified name
/// (`BytesStart::name`, `BytesEnd::name`; attributes are left behind), text
/// and references as the bytes they hold; the other kinds of event only as
/// what they are.
#[verifier::external_body]
pub(crate) fn read_token(cursor: &mut XmlCursor) -> (res: Result<XmlToken, quick_xml::Error>)
    ensures
        final(cursor)@ == (old(cursor)@.0, old(cursor)@.1 + 1),
        match res {
            Ok(token) => xml_token_at(old(cursor)@.0, old(cursor)@.1) == Some(token@),
            Err(_) => xml_token_at(old(cursor)@.0, old(cursor)@.1) is None,
        },
{
    cursor.buf.clear();
    Ok(match cursor.reader.read_event_into(&mut cursor.buf)? {
        Event::Start(e) => XmlToken::Start(e.name().as_ref().to_vec()),
        Event::Empty(e) => XmlToken::Empty(e.name().as_ref().to_vec()),
        Event::End(e) => XmlToken::End(e.name().as_ref().to_vec()),
        Event::Text(t) => XmlToken::Text(t.to_vec()),
        Event::GeneralRef(r) => XmlToken::Reference(r.to_vec()),
        Event::Eof => XmlToken::Eof,
        _ => XmlToken::Other,
    })
}

/// quick_xml's `escape::unescape`: replaces the escapes in `raw` by what they
/// stand for, or reports an error.
#[verifier::external_body]
pub(crate) fn unescape(raw: &str) -> (res: Result<String, quick_xml::escape::EscapeError>)
    ensures
        match res {
            Ok(s) => xml_unescaped(raw@) == Some(s@),
            Err(_) => xml_unescaped(raw@) is None,
        },
{
    quick_xml::escape::unescape(raw).map(|s| s.into_owned())
}

/// Whether the reference `name` is a character reference (`&#...;`).
pub open spec fn is_char_reference(name: Seq<char>) -> bool {
    name.len() > 0 && name[0] == '#'
}

/// quick_xml's `BytesRef::resolve_char_ref` on the reference `name`: no
/// character where `name` does not start with `#`, else the character that
/// the reference stands for or an error.
#[verifier::external_body]
pub(crate) fn resolve_char_ref(name: &str) -> (res: Result<Option<char>, quick_xml::Error>)
    ensures
        !is_char_reference(name@) ==> res matches Ok(None),
        is_char_reference(name@) ==> match res {
            Ok(Some(c)) => xml_char_reference(name@) == Some(c),
            Ok(None) => false,
            Err(_) => xml_char_reference(name@) is None,
        },
{
    quick_xml::events::BytesRef::new(name).resolve_char_ref()
}

/// The five entities that XML predefines.
pub open spec fn predefined_entity(name: Seq<char>) -> Option<Seq<char>> {
    if name == seq!['l', 't'] {
        Some(seq!['<'])
    } else if name == seq!['g', 't'] {
        Some(seq!['>'])
    } else if name == seq!['a', 'm', 'p'] {
        Some(seq!['&'])
    } else if name == seq!['a', 'p', 'o', 's'] {
        Some(seq!['\''])
    } else if name == seq!['q', 'u', 'o', 't'] {
        Some(seq!['"'])
    } else {
        None
    }
}

/// quick_xml's `escape::resolve_xml_entity`: the text of one of the five
/// predefined entities, nothing for any other name.
#[verifier::external_body]
pub(crate) fn resolve_xml_entity(name: &str) -> (res: Option<&'static str>)
    ensures
        match res {
            Some(v) => predefined_entity(name@) == Some(v@),
            None => predefined_entity(name@) is None,
        },
{
    quick_xml::escape::resolve_xml_entity(name)
}

} // verus!
