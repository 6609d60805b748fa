//! References (`source` attributes of `tileset` and `image` tags) inside Tiled
//! XML files, read with quick-xml.
use vstd::prelude::*;
use quick_xml::Reader;
use quick_xml::events::Event;
use quick_xml::events::attributes::{AttrError, Attribute, Attributes};
use quick_xml::name::QName;
use crate::download::DownloadError;

verus! {

#[verifier::external_type_specification]
#[verifier::external_body]
#[verifier::reject_recursive_types(R)]
pub struct ExXmlReader<R>(Reader<R>);

#[verifier::external_type_specification]
#[verifier::external_body]
pub struct ExXmlAttributes<'a>(Attributes<'a>);

#[verifier::external_type_specification]
#[verifier::external_body]
pub struct ExXmlAttribute<'a>(Attribute<'a>);

#[verifier::external_type_specification]
#[verifier::external_body]
pub struct ExXmlAttrError(AttrError);

/// One event of an XML reader, by plain values: a start or empty-element tag
/// with the bytes of its raw name and the text of its whole content (name and
/// attributes), the end of input, any other event, or a parse error with its message.
pub enum XmlEvent {
    Tag { name: Vec<u8>, content: String },
    Eof,
    Other,
    Failed(String),
}

/// An XML event taken by views.
pub enum XmlToken {
    Tag(Seq<u8>, Seq<char>),
    Eof,
    Other,
    Failed(Seq<char>),
}

impl View for XmlEvent {
    type V = XmlToken;

    open spec fn view(&self) -> XmlToken {
        match self {
            XmlEvent::Tag { name, content } => XmlToken::Tag(name@, content@),
            XmlEvent::Eof => XmlToken::Eof,
            XmlEvent::Other => XmlToken::Other,
            XmlEvent::Failed(m) => XmlToken::Failed(m@),
        }
    }
}

/// Whether an event ends the reading: the end of input or an error.
pub open spec fn is_last_event(t: XmlToken) -> bool {
    t is Eof || t is Failed
}

/// A sequence of events that ends with its only end of input or error.
pub open spec fn closed_events(events: Seq<XmlToken>) -> bool {
    &&& events.len() > 0
    &&& is_last_event(events.last())
    &&& forall|i: int| 0 <= i < events.len() - 1 ==> !is_last_event(#[trigger] events[i])
}

/// One attribute of a tag, by plain values: the bytes of its raw key and raw
/// value, or a parse error with its message.
pub enum AttrItem {
    Pair { key: Vec<u8>, raw: Vec<u8> },
    Failed(String),
}

/// An attribute taken by views.
pub enum AttrToken {
    Pair(Seq<u8>, Seq<u8>),
    Failed(Seq<char>),
}

impl View for AttrItem {
    type V = AttrToken;

    open spec fn view(&self) -> AttrToken {
        match self {
            AttrItem::Pair { key, raw } => AttrToken::Pair(key@, raw@),
            AttrItem::Failed(m) => AttrToken::Failed(m@),
        }
    }
}

/// The events that a quick-xml `Reader` over `text`, with text trimming on,
/// yields, up to and including the first end of input or error.
pub uninterp spec fn trimmed_xml_events(text: Seq<char>) -> Seq<XmlToken>;

/// The events that a reader has yet to yield, up to and including the first end
/// of input or error.
pub uninterp spec fn pending_events(r: Reader<&[u8]>) -> Seq<XmlToken>;

/// The items, until it yields `None`, of a quick-xml `Attributes` iterator over
/// `buf` from byte `pos`, with the duplicate check off.
pub uninterp spec fn unchecked_attribute_items(buf: Seq<char>, pos: nat) -> Seq<AttrToken>;

/// The items that an attribute iterator has yet to yield.
pub uninterp spec fn pending_attributes(a: Attributes) -> Seq<AttrToken>;

/// What quick-xml's `decode_and_unescape_value` gives for a raw attribute value
/// read from UTF-8 input: the decoded and unescaped value, or the message of its error.
pub uninterp spec fn unescaped_value(raw: Seq<u8>) -> Result<Seq<char>, Seq<char>>;

/// `Reader::from_str` over `text`, then `trim_text(true)` on its configuration.
/// The contract claims that the reader will yield `trimmed_xml_events(text)`,
/// which ends with its only end of input or error (the reader stops on a
/// finite input).
#[verifier::external_body]
fn trimmed_reader<'a>(text: &'a str) -> (r: Reader<&'a [u8]>)
    ensures
        pending_events(r) == trimmed_xml_events(text@),
        closed_events(pending_events(r)),
{
    let mut r = Reader::from_str(text);
    r.config_mut().trim_text(true);
    r
}

/// `Reader::read_event_into`, with the event converted to plain values. The
/// contract claims that it yields the next pending event and consumes it.
#[verifier::external_body]
fn read_event_into(reader: &mut Reader<&[u8]>, buffer: &mut Vec<u8>) -> (e: XmlEvent)
    requires
        pending_events(*old(reader)).len() > 0,
    ensures
        e@ == pending_events(*old(reader))[0],
        pending_events(*final(reader)) == pending_events(*old(reader)).drop_first(),
{
    match reader.read_event_into(buffer) {
        Ok(Event::Start(t)) | Ok(Event::Empty(t)) => XmlEvent::Tag {
            name: t.name().as_ref().to_vec(),
            content: String::from_utf8_lossy(&t).into_owned(),
        },
        Ok(Event::Eof) => XmlEvent::Eof,
        Ok(_) => XmlEvent::Other,
        Err(err) => XmlEvent::Failed(err.to_string()),
    }
}

/// `Attributes::new(buf, pos)` with `with_checks(false)`: the same iterator
/// that `BytesStart::attributes` makes over a tag whose content is `buf` and
/// whose name is `pos` bytes long. The contract claims that it will yield
/// `unchecked_attribute_items(buf, pos)`.
#[verifier::external_body]
fn unchecked_attributes<'a>(buf: &'a str, pos: usize) -> (a: Attributes<'a>)
    ensures
        pending_attributes(a) == unchecked_attribute_items(buf@, pos as nat),
{
    let mut a = Attributes::new(buf, pos);
    a.with_checks(false);
    a
}

/// `Attributes::next`, with the attribute converted to plain values. The
/// contract claims that it yields the next pending item, or `None` when none is left.
#[verifier::external_body]
fn next_attribute(attributes: &mut Attributes) -> (item: Option<AttrItem>)
    ensures
        pending_attributes(*old(attributes)).len() == 0 ==> item is None,
        pending_attributes(*old(attributes)).len() > 0 ==> (item matches Some(i) && i@
            == pending_attributes(*old(attributes))[0] && pending_attributes(*final(attributes))
            == pending_attributes(*old(attributes)).drop_first()),
{
    match attributes.next() {
        Some(Ok(a)) => Some(AttrItem::Pair { key: a.key.as_ref().to_vec(), raw: a.value.into_owned() }),
        Some(Err(err)) => Some(AttrItem::Failed(err.to_string())),
        None => None,
    }
}

/// `Attribute::decode_and_unescape_value` on the attribute with key `key` and
/// raw value `raw`, with the decoder of a reader made by `trimmed_reader` (a
/// UTF-8 decoder, since the reader reads a `str`). The contract claims that
/// the result is `unescaped_value(raw)`: the value does not depend on the key.
#[verifier::external_body]
fn decode_and_unescape_value(reader: &Reader<&[u8]>, key: &[u8], raw: &[u8]) -> (v: Result<String, String>)
    ensures
        match v {
            Ok(s) => unescaped_value(raw@) == Ok::<Seq<char>, Seq<char>>(s@),
            Err(m) => unescaped_value(raw@) == Err::<Seq<char>, Seq<char>>(m@),
        },
{
    let attribute = Attribute { key: QName(key), value: std::borrow::Cow::Borrowed(raw) };
    match attribute.decode_and_unescape_value(reader.decoder()) {
        Ok(v) => Ok(v.into_owned()),
        Err(err) => Err(err.to_string()),
    }
}

/// `v` in front of the values of `rest`, or the error of `rest`.
pub open spec fn prefixed(v: Seq<char>, rest: Result<Seq<Seq<char>>, Seq<char>>) -> Result<Seq<Seq<char>>, Seq<char>> {
    match rest {
        Ok(s) => Ok(seq![v] + s),
        Err(e) => Err(e),
    }
}

/// The values of `a` followed by those of `b`, or the first error.
pub open spec fn chained(
    a: Result<Seq<Seq<char>>, Seq<char>>,
    b: Result<Seq<Seq<char>>, Seq<char>>,
) -> Result<Seq<Seq<char>>, Seq<char>> {
    match a {
        Err(e) => Err(e),
        Ok(x) => match b {
            Ok(y) => Ok(x + y),
            Err(e) => Err(e),
        },
    }
}

/// The unescaped values of the `source` attributes among `items`, in order; the
/// first attribute error, or the first error of unescaping a `source` value, ends it.
pub open spec fn attribute_sources(items: Seq<AttrToken>) -> Result<Seq<Seq<char>>, Seq<char>>
    decreases items.len(),
{
    if items.len() == 0 {
        Ok(Seq::empty())
    } else {
        match items[0] {
            AttrToken::Failed(m) => Err("failed to parse XML attribute: "@ + m),
            AttrToken::Pair(key, raw) => if key == source_key() {
                match unescaped_value(raw) {
                    Err(m) => Err("failed to decode XML attribute value: "@ + m),
                    Ok(v) => prefixed(v, attribute_sources(items.drop_first())),
                }
            } else {
                attribute_sources(items.drop_first())
            },
        }
    }
}

/// The bytes of `source`.
pub open spec fn source_key() -> Seq<u8> {
    seq![115u8, 111u8, 117u8, 114u8, 99u8, 101u8]
}

/// The bytes of `tileset`.
pub open spec fn tileset_tag() -> Seq<u8> {
    seq![116u8, 105u8, 108u8, 101u8, 115u8, 101u8, 116u8]
}

/// The bytes of `image`.
pub open spec fn image_tag() -> Seq<u8> {
    seq![105u8, 109u8, 97u8, 103u8, 101u8]
}

/// Whether a tag name is one whose `source` attribute names another file.
pub open spec fn is_reference_tag(name: Seq<u8>) -> bool {
    name == tileset_tag() || name == image_tag()
}

/// The references found in `events`, in order: the `source` values of every
/// `tileset` and `image` tag, up to the end of input; a parse error ends it.
pub open spec fn event_sources(events: Seq<XmlToken>) -> Result<Seq<Seq<char>>, Seq<char>>
    decreases events.len(),
{
    if events.len() == 0 {
        Ok(Seq::empty())
    } else {
        match events[0] {
            XmlToken::Eof => Ok(Seq::empty()),
            XmlToken::Failed(m) => Err("failed to parse tiled XML file: "@ + m),
            XmlToken::Other => event_sources(events.drop_first()),
            XmlToken::Tag(name, content) => if is_reference_tag(name) {
                chained(
                    attribute_sources(unchecked_attribute_items(content, name.len())),
                    event_sources(events.drop_first()),
                )
            } else {
                event_sources(events.drop_first())
            },
        }
    }
}

/// The references inside a Tiled XML (`.tmx` or `.tsx`) text.
pub open spec fn tiled_xml_references(text: Seq<char>) -> Result<Seq<Seq<char>>, Seq<char>> {
    event_sources(trimmed_xml_events(text))
}

/// The strings of `v` taken by views.
pub open spec fn string_views(v: Seq<String>) -> Seq<Seq<char>> {
    v.map_values(|s: String| s@)
}

/// The `source` values of `attributes`, in order, or the first error.
fn tag_sources(reader: &Reader<&[u8]>, attributes: Attributes) -> (r: Result<Vec<String>, DownloadError>)
    ensures
        match r {
            Ok(v) => attribute_sources(pending_attributes(attributes)) == Ok::<Seq<Seq<char>>, Seq<char>>(
                string_views(v@),
            ),
            Err(e) => attribute_sources(pending_attributes(attributes)) == Err::<Seq<Seq<char>>, Seq<char>>(e@),
        },
{
    let ghost all = pending_attributes(attributes);
    let mut rest = attributes;
    let mut found: Vec<String> = Vec::new();
    loop
        invariant
            all == pending_attributes(attributes),
            prefix_then(string_views(found@), attribute_sources(pending_attributes(rest)))
                == attribute_sources(all),
        decreases pending_attributes(rest).len(),
    {
        let ghost before = pending_attributes(rest);
        match next_attribute(&mut rest) {
            None => {
                assert(string_views(found@) + Seq::<Seq<char>>::empty() =~= string_views(found@));
                assert(attribute_sources(all) == Ok::<Seq<Seq<char>>, Seq<char>>(string_views(found@)));
                return Ok(found);
            },
            Some(AttrItem::Failed(m)) => {
                let mut msg = String::from_str("failed to parse XML attribute: ");
                msg.append(m.as_str());
                return Err(DownloadError::new(msg));
            },
            Some(AttrItem::Pair { key, raw }) => {
                let source: [u8; 6] = [115u8, 111u8, 117u8, 114u8, 99u8, 101u8];
                assert(source@ =~= source_key());
                let is_source = bytes_eq(&key, source.as_slice());
                assert(before[0] == AttrToken::Pair(key@, raw@));
                assert(is_source == (key@ == source_key()));
                if is_source {
                    match decode_and_unescape_value(reader, key.as_slice(), raw.as_slice()) {
                        Ok(v) => {
                            let ghost old_found = string_views(found@);
                            found.push(v);
                            assert(string_views(found@) =~= old_found.push(v@));
                            assert(attribute_sources(before) == prefixed(
                                v@,
                                attribute_sources(before.drop_first()),
                            ));
                            proof {
                                match attribute_sources(before.drop_first()) {
                                    Ok(t) => {
                                        assert(old_found + (seq![v@] + t) =~= old_found.push(v@) + t);
                                    },
                                    Err(_) => {},
                                }
                            }
                        },
                        Err(m) => {
                            let mut msg = String::from_str("failed to decode XML attribute value: ");
                            msg.append(m.as_str());
                            return Err(DownloadError::new(msg));
                        },
                    }
                }
            },
        }
    }
}

/// `found` in front of the values of `rest`, or the error of `rest`.
pub open spec fn prefix_then(
    found: Seq<Seq<char>>,
    rest: Result<Seq<Seq<char>>, Seq<char>>,
) -> Result<Seq<Seq<char>>, Seq<char>> {
    match rest {
        Ok(s) => Ok(found + s),
        Err(e) => Err(e),
    }
}

/// Whether the bytes of `v` are those of `lit`.
fn bytes_eq(v: &Vec<u8>, lit: &[u8]) -> (b: bool)
    ensures
        b == (v@ == lit@),
{
    if v.len() != lit.len() {
        return false;
    }
    let mut i: usize = 0;
    while i < v.len()
        invariant
            i <= v.len() == lit@.len(),
            forall|k: int| 0 <= k < i ==> v@[k] == lit@[k],
        decreases v.len() - i,
    {
        if v[i] != lit[i] {
            return false;
        }
        i = i + 1;
    }
    assert(v@ =~= lit@);
    true
}

/// The references (`source` attributes of `tileset` and `image` tags) inside
/// a Tiled XML text, in order of appearance.
pub fn xml_references(text: &str) -> (r: Result<Vec<String>, DownloadError>)
    ensures
        match r {
            Ok(v) => tiled_xml_references(text@) == Ok::<Seq<Seq<char>>, Seq<char>>(string_views(v@)),
            Err(e) => tiled_xml_references(text@) == Err::<Seq<Seq<char>>, Seq<char>>(e@),
        },
{
    let mut reader = trimmed_reader(text);
    let ghost all = pending_events(reader);
    let mut references: Vec<String> = Vec::new();
    let mut buffer: Vec<u8> = Vec::new();
    loop
        invariant
            all == trimmed_xml_events(text@),
            closed_events(pending_events(reader)),
            prefix_then(string_views(references@), event_sources(pending_events(reader)))
                == event_sources(all),
        decreases pending_events(reader).len(),
    {
        let ghost before = pending_events(reader);
        let ghost found_before = string_views(references@);
        let event = read_event_into(&mut reader, &mut buffer);
        proof {
            if !is_last_event(before[0]) {
                assert(before.len() > 1);
                assert(pending_events(reader) == before.drop_first());
                assert(before.drop_first().last() == before.last());
                assert forall|i: int| 0 <= i < before.drop_first().len() - 1 implies !is_last_event(
                    #[trigger] before.drop_first()[i],
                ) by {
                    assert(before.drop_first()[i] == before[i + 1]);
                }
            }
        }
        match event {
            XmlEvent::Tag { name, content } => {
                let tileset: [u8; 7] = [116u8, 105u8, 108u8, 101u8, 115u8, 101u8, 116u8];
                let image: [u8; 5] = [105u8, 109u8, 97u8, 103u8, 101u8];
                assert(tileset@ =~= tileset_tag());
                assert(image@ =~= image_tag());
                if bytes_eq(&name, tileset.as_slice()) || bytes_eq(&name, image.as_slice()) {
                    let attributes = unchecked_attributes(content.as_str(), name.len());
                    match tag_sources(&reader, attributes) {
                        Ok(mut found) => {
                            let ghost fv = string_views(found@);
                            references.append(&mut found);
                            assert(string_views(references@) =~= found_before + fv);
                            proof {
                                match event_sources(before.drop_first()) {
                                    Ok(t) => {
                                        assert(found_before + (fv + t) =~= (found_before + fv) + t);
                                    },
                                    Err(_) => {},
                                }
                            }
                        },
                        Err(e) => {
                            return Err(e);
                        },
                    }
                }
            },
            XmlEvent::Eof => {
                assert(found_before + Seq::<Seq<char>>::empty() =~= found_before);
                return Ok(references);
            },
            XmlEvent::Other => {},
            XmlEvent::Failed(m) => {
                let mut msg = String::from_str("failed to parse tiled XML file: ");
                msg.append(m.as_str());
                return Err(DownloadError::new(msg));
            },
        }
        buffer.clear();
    }
}

} // verus!
