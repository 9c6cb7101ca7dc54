//! File names as JSON: every name survives, whatever bytes it is made of.
use crate::error::ReportError;
use crate::json::{outcome, put, Json, JsonView};
use crate::text::{hex, hex_digit_value, hex_is_lossless, hex_text, hex_text_reads_back};
use vstd::prelude::*;

verus! {

/// A path as its platform spells it.
#[derive(Debug, PartialEq)]
pub enum NativePath {
    /// The bytes of a Unix path.
    UnixBytes(Vec<u8>),
    /// The UTF-16 code units of a Windows path.
    WindowsUtf16(Vec<u16>),
    /// The text of a path on any other platform, where it has one.
    Portable(Option<String>),
}

/// A path as mathematics sees it.
pub enum PathView {
    UnixBytes(Seq<u8>),
    WindowsUtf16(Seq<u16>),
    Portable(Option<Seq<char>>),
}

impl View for NativePath {
    type V = PathView;

    open spec fn view(&self) -> PathView {
        match *self {
            NativePath::UnixBytes(bytes) => PathView::UnixBytes(bytes@),
            NativePath::WindowsUtf16(units) => PathView::WindowsUtf16(units@),
            NativePath::Portable(Some(text)) => PathView::Portable(Some(text@)),
            NativePath::Portable(None) => PathView::Portable(None),
        }
    }
}

/// Two bytes for each code unit, the low one first.
pub open spec fn little_endian(units: Seq<u16>) -> Seq<u8> {
    Seq::new(
        2 * units.len(),
        |i: int|
            if i % 2 == 0 {
                (units[i / 2] % 256) as u8
            } else {
                (units[i / 2] / 256) as u8
            },
    )
}

impl PathView {
    /// Whether the path can be encoded: all but a portable path without text.
    pub open spec fn encodable(self) -> bool {
        self != PathView::Portable(None)
    }

    /// The name of the encoding that the platform's paths use.
    pub open spec fn encoding(self) -> Seq<char> {
        match self {
            PathView::UnixBytes(_) => "unix-bytes-hex"@,
            PathView::WindowsUtf16(_) => "windows-utf16le-hex"@,
            PathView::Portable(_) => "utf8-hex"@,
        }
    }

    /// The bytes that the encoding spells out.
    pub open spec fn bytes(self) -> Seq<u8> {
        match self {
            PathView::UnixBytes(bytes) => bytes,
            PathView::WindowsUtf16(units) => little_endian(units),
            PathView::Portable(Some(text)) => vstd::utf8::encode_utf8(text),
            PathView::Portable(None) => Seq::empty(),
        }
    }

    /// The encoded path.
    pub open spec fn encoded(self) -> JsonView {
        JsonView::Object(
            map![
                "encoding"@ => JsonView::Text(self.encoding()),
                "value"@ => JsonView::Text(hex(self.bytes())),
            ],
        )
    }

    /// The encoded path, or the error for a path that has no encoding.
    pub open spec fn encoding_outcome(self) -> Result<JsonView, ReportError> {
        if self.encodable() {
            Ok(self.encoded())
        } else {
            Err(ReportError::UnencodablePath)
        }
    }
}

/// The bytes of UTF-16 code units, little-endian.
fn little_endian_bytes(units: &Vec<u16>) -> (r: Vec<u8>)
    ensures
        r@ == little_endian(units@),
{
    let mut r: Vec<u8> = Vec::new();
    let mut i: usize = 0;
    while i < units.len()
        invariant
            i <= units@.len(),
            r@ == little_endian(units@.take(i as int)),
        decreases units@.len() - i,
    {
        let unit: u16 = units[i];
        r.push((unit % 256) as u8);
        r.push((unit / 256) as u8);
        i = i + 1;
        assert(r@ =~= little_endian(units@.take(i as int)));
    }
    assert(units@.take(i as int) =~= units@);
    r
}

/// The JSON form of a path: the name of its encoding, and its bytes in hexadecimal.
pub fn encoded_path(path: &NativePath) -> (r: Result<Json, ReportError>)
    ensures
        outcome(r) == path@.encoding_outcome(),
{
    let (encoding, value) = match path {
        NativePath::UnixBytes(bytes) => ("unix-bytes-hex", hex_text(bytes.as_slice())),
        NativePath::WindowsUtf16(units) => {
            let bytes = little_endian_bytes(units);
            ("windows-utf16le-hex", hex_text(bytes.as_slice()))
        },
        NativePath::Portable(Some(text)) => ("utf8-hex", hex_text(text.as_str().as_bytes())),
        NativePath::Portable(None) => {
            return Err(ReportError::UnencodablePath);
        },
    };
    let mut members: Vec<(String, Json)> = Vec::new();
    put(&mut members, "encoding", Json::text(encoding));
    put(&mut members, "value", Json::Text(value));
    Ok(Json::Object(members))
}

proof fn lemma_little_endian_is_lossless(a: Seq<u16>, b: Seq<u16>)
    requires
        little_endian(a) == little_endian(b),
    ensures
        a == b,
{
    assert(little_endian(a).len() == 2 * a.len() && little_endian(b).len() == 2 * b.len());
    assert forall|i: int| 0 <= i < a.len() implies a[i] == b[i] by {
        let low = 2 * i;
        let high = 2 * i + 1;
        assert(low / 2 == i && low % 2 == 0 && high / 2 == i && high % 2 == 1);
        assert(little_endian(a)[low] == (a[i] % 256) as u8);
        assert(little_endian(b)[low] == (b[i] % 256) as u8);
        assert(little_endian(a)[high] == (a[i] / 256) as u8);
        assert(little_endian(b)[high] == (b[i] / 256) as u8);
    }
    assert(a =~= b);
}

/// Encoding loses nothing: two paths with the same encoded form are the same path.
pub proof fn encoded_path_is_lossless(a: PathView, b: PathView)
    requires
        a.encodable(),
        b.encodable(),
        a.encoded() == b.encoded(),
    ensures
        a == b,
{
    reveal_strlit("encoding");
    reveal_strlit("value");
    reveal_strlit("unix-bytes-hex");
    reveal_strlit("windows-utf16le-hex");
    reveal_strlit("utf8-hex");
    let left = a.encoded()->Object_0;
    let right = b.encoded()->Object_0;
    assert("encoding"@ != "value"@) by {
        assert("encoding"@.len() != "value"@.len());
    }
    assert(left["encoding"@] == right["encoding"@]);
    assert(left["value"@] == right["value"@]);
    assert(a.encoding().len() == b.encoding().len());
    hex_is_lossless(a.bytes(), b.bytes());
    match (a, b) {
        (PathView::WindowsUtf16(units), PathView::WindowsUtf16(others)) => {
            lemma_little_endian_is_lossless(units, others);
        },
        (PathView::Portable(Some(text)), PathView::Portable(Some(other))) => {
            vstd::utf8::encode_utf8_decode_utf8(text);
            vstd::utf8::encode_utf8_decode_utf8(other);
        },
        _ => {},
    }
}

/// An encoded path says which path it stands for: it names the platform's encoding, and its
/// hexadecimal digits, read back, are the path's own bytes; of a Windows path, its code units,
/// each with the low byte first. Only a path that has no text on its platform is refused.
pub proof fn encoded_path_reads_back(path: NativePath)
    ensures
        match path@.encoding_outcome() {
            Err(error) => {
                &&& path matches NativePath::Portable(None)
                &&& error == ReportError::UnencodablePath
            },
            Ok(encoded) => {
                &&& encoded matches JsonView::Object(members)
                &&& members.dom() == set!["encoding"@, "value"@]
                &&& members["value"@] matches JsonView::Text(value)
                &&& match path {
                    NativePath::UnixBytes(bytes) => {
                        &&& members["encoding"@] == JsonView::Text("unix-bytes-hex"@)
                        &&& value.len() == 2 * bytes@.len()
                        &&& forall|i: int|
                            0 <= i < bytes@.len() ==> #[trigger] bytes@[i] == 16 * hex_digit_value(
                                value[2 * i],
                            ) + hex_digit_value(value[2 * i + 1])
                    },
                    NativePath::WindowsUtf16(units) => {
                        &&& members["encoding"@] == JsonView::Text("windows-utf16le-hex"@)
                        &&& value.len() == 4 * units@.len()
                        &&& forall|i: int|
                            0 <= i < units@.len() ==> #[trigger] units@[i] == 16 * hex_digit_value(
                                value[4 * i],
                            ) + hex_digit_value(value[4 * i + 1]) + 256 * (16 * hex_digit_value(
                                value[4 * i + 2],
                            ) + hex_digit_value(value[4 * i + 3]))
                    },
                    NativePath::Portable(None) => false,
                    NativePath::Portable(Some(text)) => {
                        let bytes = vstd::utf8::encode_utf8(text@);
                        &&& members["encoding"@] == JsonView::Text("utf8-hex"@)
                        &&& value.len() == 2 * bytes.len()
                        &&& forall|i: int|
                            0 <= i < bytes.len() ==> #[trigger] bytes[i] == 16 * hex_digit_value(
                                value[2 * i],
                            ) + hex_digit_value(value[2 * i + 1])
                    },
                }
                &&& forall|j: int| 0 <= j < value.len() ==> 0 <= hex_digit_value(#[trigger] value[j])
            },
        },
{
    reveal_strlit("encoding");
    reveal_strlit("value");
    if path@.encodable() {
        let members = path@.encoded()->Object_0;
        let bytes = path@.bytes();
        hex_text_reads_back(bytes);
        assert("encoding"@.len() != "value"@.len());
        assert(members.dom() =~= set!["encoding"@, "value"@]);
        if let NativePath::WindowsUtf16(units) = path {
            let value = hex(bytes);
            assert forall|i: int| 0 <= i < units@.len() implies #[trigger] units@[i] == 16
                * hex_digit_value(value[4 * i]) + hex_digit_value(value[4 * i + 1]) + 256 * (16
                * hex_digit_value(value[4 * i + 2]) + hex_digit_value(value[4 * i + 3])) by {
                let low = 2 * i;
                let high = 2 * i + 1;
                assert(low / 2 == i && low % 2 == 0 && high / 2 == i && high % 2 == 1);
                assert(bytes[low] == (units@[i] % 256) as u8);
                assert(bytes[high] == (units@[i] / 256) as u8);
                assert(2 * low == 4 * i && 2 * high == 4 * i + 2);
            }
        }
    }
}

} // verus!
