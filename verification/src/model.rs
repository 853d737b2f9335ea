//! The data model: decoded values, decode errors, and their mathematical views.

use vstd::prelude::*;

verus! {

/// The category of a decode failure.
#[derive(Debug, Clone, Copy, PartialEq, Eq, Structural)]
pub enum DecodeErrorType {
    /// The leading byte starts no known element, or an element was expected
    /// where the input ends.
    DispatchFailed,
    /// The length prefix of a byte string is not a decimal integer.
    InvalidByteStringSize,
    /// The payload of a byte string would reach past the end of the input.
    InvalidByteStringData,
    /// A dictionary key position does not hold a byte string.
    InvalidDictKey,
    /// The body of an integer is not a decimal integer that fits 64 bits.
    InvalidIntegerValue,
    /// A byte string lacks its `:` separator.
    MissingDelimiter,
    /// An integer, list or dictionary lacks its closing `e`.
    MissingEndDelimiter,
    /// An integer, list or dictionary lacks its leading `i`, `l` or `d`.
    MissingStartDelimiter,
    /// An integer was to be read from an empty run of bytes.
    NothingToDecode,
}

/// A decode failure: where it happened, why, and its category.
///
/// Inside a decoder the offset counts from the start of the slice that the
/// decoder was given; every caller adds what it had consumed before, so the
/// error that `decode` returns carries an offset into the whole input.
#[derive(Debug, PartialEq)]
pub struct DecodeError {
    pub offset: usize,
    pub msg: &'static str,
    pub error_type: DecodeErrorType,
}

/// The mathematical view of a [`DecodeError`].
pub struct DecodeErrorView {
    pub offset: nat,
    pub msg: Seq<char>,
    pub error_type: DecodeErrorType,
}

impl View for DecodeError {
    type V = DecodeErrorView;

    open spec fn view(&self) -> DecodeErrorView {
        DecodeErrorView { offset: self.offset as nat, msg: self.msg@, error_type: self.error_type }
    }
}

impl DecodeErrorView {
    /// The same failure, seen from `by` bytes further to the left.
    pub open spec fn shifted(self, by: nat) -> DecodeErrorView {
        DecodeErrorView { offset: self.offset + by, msg: self.msg, error_type: self.error_type }
    }
}

/// One key/value pair of a dictionary.
#[derive(Debug, PartialEq)]
pub struct DictEntry {
    pub key: Vec<u8>,
    pub value: Element,
}

/// One decoded value.
#[derive(Debug, PartialEq)]
pub enum Element {
    /// Arbitrary bytes, not necessarily text; may be empty.
    ByteString(Vec<u8>),
    /// A signed integer of 64 bits.
    Integer(i64),
    /// Elements in the order in which the input gives them.
    List(Vec<Element>),
    /// Key/value pairs in the order in which the input gives them. Keys are
    /// neither sorted nor made unique.
    Dict(Vec<DictEntry>),
}

/// The mathematical view of a [`DictEntry`].
pub struct DictEntryView {
    pub key: Seq<u8>,
    pub value: ElementView,
}

/// The mathematical view of an [`Element`].
pub enum ElementView {
    ByteString(Seq<u8>),
    Integer(int),
    List(Seq<ElementView>),
    Dict(Seq<DictEntryView>),
}

impl View for DictEntry {
    type V = DictEntryView;

    open spec fn view(&self) -> DictEntryView
        decreases self,
    {
        DictEntryView { key: self.key@, value: self.value@ }
    }
}

impl View for Element {
    type V = ElementView;

    open spec fn view(&self) -> ElementView
        decreases self,
    {
        match self {
            Element::ByteString(bytes) => ElementView::ByteString(bytes@),
            Element::Integer(value) => ElementView::Integer(*value as int),
            Element::List(items) => ElementView::List(
                Seq::new(
                    items.len() as nat,
                    |i: int| if 0 <= i < items.len() { items[i]@ } else { arbitrary() },
                ),
            ),
            Element::Dict(entries) => ElementView::Dict(
                Seq::new(
                    entries.len() as nat,
                    |i: int| if 0 <= i < entries.len() { entries[i]@ } else { arbitrary() },
                ),
            ),
        }
    }
}

/// The views of `elements`, one for one.
pub open spec fn element_views(elements: Seq<Element>) -> Seq<ElementView> {
    Seq::new(elements.len(), |i: int| elements[i]@)
}

/// The views of `entries`, one for one.
pub open spec fn entry_views(entries: Seq<DictEntry>) -> Seq<DictEntryView> {
    Seq::new(entries.len(), |i: int| entries[i]@)
}

/// A list is seen as the views of its items.
pub proof fn lemma_list_view(items: Vec<Element>)
    ensures
        Element::List(items)@ == ElementView::List(element_views(items@)),
{
    reveal_with_fuel(<Element as View>::view, 2);
    let seen = Element::List(items)@;
    assert(seen matches ElementView::List(views) && views =~= element_views(items@));
}

/// A dictionary is seen as the views of its entries.
pub proof fn lemma_dict_view(entries: Vec<DictEntry>)
    ensures
        Element::Dict(entries)@ == ElementView::Dict(entry_views(entries@)),
{
    reveal_with_fuel(<Element as View>::view, 2);
    let seen = Element::Dict(entries)@;
    assert(seen matches ElementView::Dict(views) && views =~= entry_views(entries@));
}

/// A decoded element and the offset of the first byte after it.
#[derive(Debug, PartialEq)]
pub struct ElementDecoded {
    pub element: Element,
    pub end_offset: usize,
}

/// What an element decoder returns.
#[derive(Debug, PartialEq)]
pub enum DecodeResult {
    Success(ElementDecoded),
    Failure(DecodeError),
}

/// The model of a [`DecodeResult`]: the element with the number of bytes
/// it took, or the failure.
pub type Decoded = Result<(ElementView, nat), DecodeErrorView>;

impl View for DecodeResult {
    type V = Decoded;

    open spec fn view(&self) -> Decoded {
        match self {
            DecodeResult::Success(decoded) => Ok((decoded.element@, decoded.end_offset as nat)),
            DecodeResult::Failure(e) => Err(e@),
        }
    }
}

/// What decoding a whole input returns: all of its elements, or the first
/// failure.
#[derive(Debug, PartialEq)]
pub enum DecodedDocument {
    Success(Vec<Element>),
    Failure(DecodeError),
}

/// The model of a [`DecodedDocument`].
pub type Document = Result<Seq<ElementView>, DecodeErrorView>;

impl View for DecodedDocument {
    type V = Document;

    open spec fn view(&self) -> Document {
        match self {
            DecodedDocument::Success(elements) => Ok(element_views(elements@)),
            DecodedDocument::Failure(e) => Err(e@),
        }
    }
}

} // verus!
