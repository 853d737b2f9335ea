//! The renderer: a decoded tree, or a decode failure, as text for people to
//! read.
//!
//! The text resembles JSON. It is for display only: byte strings that are
//! not text come out as Base64, so the input cannot be had back from it.

use crate::model::{
    element_views, entry_views, lemma_dict_view, lemma_list_view, DecodeError, DecodeErrorType,
    DecodeErrorView, DecodedDocument, DictEntry, DictEntryView, Document, Element, ElementView,
};
use crate::text::{
    base64_encoding, base64_len, base64_text, decimal_text, escaped, integer_text, push_char,
    push_decimal, push_escaped, push_integer, utf8_text,
};
use vstd::prelude::*;
use vstd::string::StringExecFns;
use vstd::utf8::{decode_utf8, valid_utf8};

verus! {

pub const ERROR_OFFSET: &'static str = "ERROR! offset: ";

pub const ERROR_TYPE: &'static str = ", error type: ";

pub const ERROR_MESSAGE: &'static str = "\nmessage:\n";

/// `s` between double quotes.
pub open spec fn quoted(s: Seq<char>) -> Seq<char> {
    seq!['"'] + s + seq!['"']
}

/// The text of a byte string: the bytes read as UTF-8, quotes escaped, where
/// they are valid UTF-8, and their Base64 text where they are not; between
/// double quotes in both cases.
pub open spec fn bytes_text(bytes: Seq<u8>) -> Seq<char> {
    if valid_utf8(bytes) {
        quoted(escaped(decode_utf8(bytes)))
    } else {
        quoted(base64_encoding(bytes))
    }
}

/// Whether the text of a byte string can be made: it is valid UTF-8, or its
/// Base64 text has a length that fits `usize`.
pub open spec fn bytes_renderable(bytes: Seq<u8>) -> bool {
    valid_utf8(bytes) || base64_len(bytes.len()) <= usize::MAX
}

/// What stands between two items of a list or two entries of a dictionary.
pub open spec fn separator() -> Seq<char> {
    seq![',', ' ']
}

impl DictEntryView {
    /// The text of the entry: the key read as UTF-8 between double quotes,
    /// a colon and a space, and the text of the value.
    pub open spec fn text(self) -> Seq<char>
        decreases self, 0nat,
    {
        quoted(decode_utf8(self.key)) + seq![':', ' '] + self.value.text()
    }

    /// Whether the text of the entry can be made: the key is valid UTF-8 and
    /// the value is renderable.
    pub open spec fn renderable(self) -> bool
        decreases self,
    {
        valid_utf8(self.key) && self.value.renderable()
    }
}

impl ElementView {
    /// The text of the element.
    ///
    /// A byte string is `bytes_text`, an integer its decimal text, a list
    /// `[e1, e2, ...]`, a dictionary `{"k1": v1, "k2": v2, ...}` in the order
    /// in which it holds its entries. The empty list is `[]`, the empty
    /// dictionary `{}`.
    pub open spec fn text(self) -> Seq<char>
        decreases self, 0nat,
    {
        match self {
            ElementView::ByteString(bytes) => bytes_text(bytes),
            ElementView::Integer(value) => integer_text(value),
            ElementView::List(items) => seq!['['] + items_text(items, items.len()) + seq![']'],
            ElementView::Dict(entries) => seq!['{'] + entries_text(entries, entries.len()) + seq![
                '}',
            ],
        }
    }

    /// Whether the text of the element can be made: every byte string in it
    /// is `bytes_renderable`, and every key of a dictionary in it is valid
    /// UTF-8.
    pub open spec fn renderable(self) -> bool
        decreases self,
    {
        match self {
            ElementView::ByteString(bytes) => bytes_renderable(bytes),
            ElementView::Integer(_) => true,
            ElementView::List(items) => forall|i: int|
                0 <= i < items.len() ==> (#[trigger] items[i]).renderable(),
            ElementView::Dict(entries) => forall|i: int|
                0 <= i < entries.len() ==> (#[trigger] entries[i]).renderable(),
        }
    }
}

/// The texts of the first `count` of `items`, with `, ` between them.
pub open spec fn items_text(items: Seq<ElementView>, count: nat) -> Seq<char>
    decreases items, count,
{
    if count == 0 || count > items.len() {
        Seq::empty()
    } else if count == 1 {
        items[0].text()
    } else {
        items_text(items, (count - 1) as nat) + separator() + items[count - 1].text()
    }
}

/// The texts of the first `count` of `entries`, with `, ` between them.
pub open spec fn entries_text(entries: Seq<DictEntryView>, count: nat) -> Seq<char>
    decreases entries, count,
{
    if count == 0 || count > entries.len() {
        Seq::empty()
    } else if count == 1 {
        entries[0].text()
    } else {
        entries_text(entries, (count - 1) as nat) + separator() + entries[count - 1].text()
    }
}

/// The texts of the first `count` of `elements`, one after the other with
/// nothing between them.
pub open spec fn elements_text(elements: Seq<ElementView>, count: nat) -> Seq<char>
    decreases count,
{
    if count == 0 || count > elements.len() {
        Seq::empty()
    } else {
        elements_text(elements, (count - 1) as nat) + elements[count - 1].text()
    }
}

impl DecodeErrorType {
    /// The name of the category.
    pub open spec fn spec_name(self) -> &'static str {
        match self {
            DecodeErrorType::DispatchFailed => "DispatchFailed",
            DecodeErrorType::InvalidByteStringSize => "InvalidByteStringSize",
            DecodeErrorType::InvalidByteStringData => "InvalidByteStringData",
            DecodeErrorType::InvalidDictKey => "InvalidDictKey",
            DecodeErrorType::InvalidIntegerValue => "InvalidIntegerValue",
            DecodeErrorType::MissingDelimiter => "MissingDelimiter",
            DecodeErrorType::MissingEndDelimiter => "MissingEndDelimiter",
            DecodeErrorType::MissingStartDelimiter => "MissingStartDelimiter",
            DecodeErrorType::NothingToDecode => "NothingToDecode",
        }
    }

    /// The name of the category.
    pub fn name(&self) -> (name: &'static str)
        ensures
            name@ == self.spec_name()@,
    {
        match self {
            DecodeErrorType::DispatchFailed => "DispatchFailed",
            DecodeErrorType::InvalidByteStringSize => "InvalidByteStringSize",
            DecodeErrorType::InvalidByteStringData => "InvalidByteStringData",
            DecodeErrorType::InvalidDictKey => "InvalidDictKey",
            DecodeErrorType::InvalidIntegerValue => "InvalidIntegerValue",
            DecodeErrorType::MissingDelimiter => "MissingDelimiter",
            DecodeErrorType::MissingEndDelimiter => "MissingEndDelimiter",
            DecodeErrorType::MissingStartDelimiter => "MissingStartDelimiter",
            DecodeErrorType::NothingToDecode => "NothingToDecode",
        }
    }
}

impl DecodeErrorView {
    /// The text of the failure: its offset, the name of its category, and
    /// its message.
    pub open spec fn text(self) -> Seq<char> {
        ERROR_OFFSET@ + decimal_text(self.offset) + ERROR_TYPE@ + self.error_type.spec_name()@
            + ERROR_MESSAGE@ + self.msg
    }
}

/// The text of a decoded input: the texts of its elements one after the
/// other, or the text of the failure.
pub open spec fn document_text(document: Document) -> Seq<char> {
    match document {
        Ok(elements) => elements_text(elements, elements.len()),
        Err(e) => e.text(),
    }
}

/// Whether the text of a decoded input can be made: a failure always, the
/// elements if each of them is renderable.
pub open spec fn document_renderable(document: Document) -> bool {
    match document {
        Ok(elements) => forall|i: int|
            0 <= i < elements.len() ==> (#[trigger] elements[i]).renderable(),
        Err(_) => true,
    }
}

/// Puts `text` between double quotes.
pub fn quote(text: &str) -> (r: String)
    ensures
        r@ == quoted(text@),
{
    let mut r = String::new();
    push_char(&mut r, '"');
    r.append(text);
    push_char(&mut r, '"');
    assert(r@ =~= quoted(text@));
    r
}

/// Whether the encoded length that Base64 gives `len` bytes fits `usize`.
pub fn base64_fits(len: usize) -> (fits: bool)
    ensures
        fits == (base64_len(len as nat) <= usize::MAX),
{
    let groups = len / 3;
    if groups > usize::MAX / 4 {
        false
    } else if len % 3 == 0 {
        true
    } else {
        groups * 4 <= usize::MAX - 4
    }
}

/// Whether the text of the byte string `bytes` can be made.
pub fn is_bytes_renderable(bytes: &[u8]) -> (r: bool)
    ensures
        r == bytes_renderable(bytes@),
{
    match utf8_text(bytes) {
        Some(_) => true,
        None => base64_fits(bytes.len()),
    }
}

/// The text of the byte string `bytes`.
pub fn render_bytes(bytes: &[u8]) -> (r: String)
    requires
        bytes_renderable(bytes@),
    ensures
        r@ == bytes_text(bytes@),
{
    match utf8_text(bytes) {
        Some(text) => {
            let mut escaped_text = String::new();
            push_escaped(&mut escaped_text, text.as_str());
            assert(escaped_text@ =~= escaped(text@));
            quote(escaped_text.as_str())
        },
        None => {
            let encoded = base64_text(bytes);
            quote(encoded.as_str())
        },
    }
}

impl DictEntry {
    /// Whether the text of the entry can be made.
    pub fn is_renderable(&self) -> (r: bool)
        ensures
            r == self@.renderable(),
        decreases self,
    {
        match utf8_text(self.key.as_slice()) {
            Some(_) => self.value.is_renderable(),
            None => false,
        }
    }

    /// Appends the text of the entry to `text`.
    pub fn push_text(&self, text: &mut String)
        requires
            self@.renderable(),
        ensures
            final(text)@ == old(text)@ + self@.text(),
        decreases self,
    {
        match utf8_text(self.key.as_slice()) {
            Some(key) => {
                let key_text = quote(key.as_str());
                text.append(key_text.as_str());
                push_char(text, ':');
                push_char(text, ' ');
                self.value.push_text(text);
                assert(text@ =~= old(text)@ + self@.text());
            },
            None => {},
        }
    }

    /// The text of the entry: `"key": value`.
    pub fn render(&self) -> (text: String)
        requires
            self@.renderable(),
        ensures
            text@ == self@.text(),
    {
        let mut text = String::new();
        self.push_text(&mut text);
        assert(text@ =~= self@.text());
        text
    }
}

impl Element {
    /// Whether the text of the element can be made. It cannot where a key of
    /// a dictionary is not valid UTF-8, nor where a byte string is so long
    /// that its Base64 text has no length in `usize`.
    #[verifier::loop_isolation(false)]
    pub fn is_renderable(&self) -> (r: bool)
        ensures
            r == self@.renderable(),
        decreases self,
    {
        match self {
            Element::ByteString(bytes) => is_bytes_renderable(bytes.as_slice()),
            Element::Integer(_) => true,
            Element::List(items) => {
                proof {
                    lemma_list_view(*items);
                }
                let mut i: usize = 0;
                while i < items.len()
                    invariant
                        i <= items.len(),
                        self@ == ElementView::List(element_views(items@)),
                        forall|j: int| 0 <= j < i ==> (#[trigger] items@[j])@.renderable(),
                    decreases items.len() - i,
                {
                    if !items[i].is_renderable() {
                        assert(!(self@->List_0)[i as int].renderable());
                        return false;
                    }
                    i += 1;
                }
                let ghost views = element_views(items@);
                assert forall|j: int| 0 <= j < views.len() implies (#[trigger] views[j])
                    .renderable() by {
                    assert(items@[j]@.renderable());
                }
                true
            },
            Element::Dict(entries) => {
                proof {
                    lemma_dict_view(*entries);
                }
                let mut i: usize = 0;
                while i < entries.len()
                    invariant
                        i <= entries.len(),
                        self@ == ElementView::Dict(entry_views(entries@)),
                        forall|j: int| 0 <= j < i ==> (#[trigger] entries@[j])@.renderable(),
                    decreases entries.len() - i,
                {
                    if !entries[i].is_renderable() {
                        assert(!(self@->Dict_0)[i as int].renderable());
                        return false;
                    }
                    i += 1;
                }
                let ghost views = entry_views(entries@);
                assert forall|j: int| 0 <= j < views.len() implies (#[trigger] views[j])
                    .renderable() by {
                    assert(entries@[j]@.renderable());
                }
                true
            },
        }
    }

    /// Appends the text of the element to `text`.
    #[verifier::loop_isolation(false)]
    pub fn push_text(&self, text: &mut String)
        requires
            self@.renderable(),
        ensures
            final(text)@ == old(text)@ + self@.text(),
        decreases self,
    {
        match self {
            Element::ByteString(bytes) => {
                let rendered = render_bytes(bytes.as_slice());
                text.append(rendered.as_str());
            },
            Element::Integer(value) => {
                push_integer(text, *value);
            },
            Element::List(items) => {
                proof {
                    lemma_list_view(*items);
                }
                let ghost views = element_views(items@);
                push_char(text, '[');
                let mut i: usize = 0;
                while i < items.len()
                    invariant
                        i <= items.len(),
                        views == element_views(items@),
                        self@ == ElementView::List(views),
                        self@.renderable(),
                        text@ == old(text)@.push('[') + items_text(views, i as nat),
                    decreases items.len() - i,
                {
                    if i > 0 {
                        push_char(text, ',');
                        push_char(text, ' ');
                    }
                    assert((self@->List_0)[i as int].renderable());
                    items[i].push_text(text);
                    proof {
                        assert(views[i as int] == items@[i as int]@);
                        assert(text@ =~= old(text)@.push('[') + items_text(views, (i + 1) as nat));
                    }
                    i += 1;
                }
                push_char(text, ']');
                assert(text@ =~= old(text)@ + self@.text());
            },
            Element::Dict(entries) => {
                proof {
                    lemma_dict_view(*entries);
                }
                let ghost views = entry_views(entries@);
                push_char(text, '{');
                let mut i: usize = 0;
                while i < entries.len()
                    invariant
                        i <= entries.len(),
                        views == entry_views(entries@),
                        self@ == ElementView::Dict(views),
                        self@.renderable(),
                        text@ == old(text)@.push('{') + entries_text(views, i as nat),
                    decreases entries.len() - i,
                {
                    if i > 0 {
                        push_char(text, ',');
                        push_char(text, ' ');
                    }
                    assert((self@->Dict_0)[i as int].renderable());
                    entries[i].push_text(text);
                    proof {
                        assert(views[i as int] == entries@[i as int]@);
                        assert(text@ =~= old(text)@.push('{') + entries_text(
                            views,
                            (i + 1) as nat,
                        ));
                    }
                    i += 1;
                }
                push_char(text, '}');
                assert(text@ =~= old(text)@ + self@.text());
            },
        }
    }

    /// The text of the element.
    pub fn render(&self) -> (text: String)
        requires
            self@.renderable(),
        ensures
            text@ == self@.text(),
    {
        let mut text = String::new();
        self.push_text(&mut text);
        assert(text@ =~= self@.text());
        text
    }
}

impl DecodeError {
    /// The text of the failure: its offset, the name of its category, and
    /// its message.
    pub fn render(&self) -> (text: String)
        ensures
            text@ == self@.text(),
    {
        let mut text = String::new();
        text.append(ERROR_OFFSET);
        push_decimal(&mut text, self.offset as u64);
        text.append(ERROR_TYPE);
        text.append(self.error_type.name());
        text.append(ERROR_MESSAGE);
        text.append(self.msg);
        assert(text@ =~= self@.text());
        text
    }
}

impl DecodedDocument {
    /// Whether the text of the decoded input can be made: see
    /// `Element::is_renderable`. That of a failure always can.
    #[verifier::loop_isolation(false)]
    pub fn is_renderable(&self) -> (r: bool)
        ensures
            r == document_renderable(self@),
    {
        match self {
            DecodedDocument::Success(elements) => {
                let mut i: usize = 0;
                while i < elements.len()
                    invariant
                        i <= elements.len(),
                        self@ == Ok::<Seq<ElementView>, DecodeErrorView>(element_views(elements@)),
                        forall|j: int| 0 <= j < i ==> (#[trigger] elements@[j])@.renderable(),
                    decreases elements.len() - i,
                {
                    if !elements[i].is_renderable() {
                        assert(!(self@->Ok_0)[i as int].renderable());
                        return false;
                    }
                    i += 1;
                }
                let ghost views = element_views(elements@);
                assert forall|j: int| 0 <= j < views.len() implies (#[trigger] views[j])
                    .renderable() by {
                    assert(elements@[j]@.renderable());
                }
                true
            },
            DecodedDocument::Failure(_) => true,
        }
    }

    /// The text of the decoded input: the texts of its elements one after
    /// the other, or the text of the failure.
    #[verifier::loop_isolation(false)]
    pub fn render(&self) -> (text: String)
        requires
            document_renderable(self@),
        ensures
            text@ == document_text(self@),
    {
        match self {
            DecodedDocument::Success(elements) => {
                let ghost views = element_views(elements@);
                let mut text = String::new();
                let mut i: usize = 0;
                while i < elements.len()
                    invariant
                        i <= elements.len(),
                        views == element_views(elements@),
                        self@ == Ok::<Seq<ElementView>, DecodeErrorView>(views),
                        document_renderable(self@),
                        text@ == elements_text(views, i as nat),
                    decreases elements.len() - i,
                {
                    assert((self@->Ok_0)[i as int].renderable());
                    elements[i].push_text(&mut text);
                    proof {
                        assert(views[i as int] == elements@[i as int]@);
                    }
                    i += 1;
                }
                text
            },
            DecodedDocument::Failure(e) => e.render(),
        }
    }
}

} // verus!
