use vstd::prelude::*;
use vstd::bytes::*;
use crate::errors::{BridgeError, CodecError};
use crate::text::{utf8_of, utf8_encode, utf8_decode};
use crate::strseq::{split_sep, join_sep, lemma_split_join, lemma_join_split, split_string,
    join_strings};

verus! {

/// A typed registry value: the closed set of native encodings the bridge
/// understands, plus `Other` for wire type tags it does not.
#[derive(Debug, Clone, PartialEq, Eq)]
pub enum Data {
    DWord(u32),
    QWord(u64),
    String(String),
    /// A string whose environment references are left unexpanded.
    ExpandString(String),
    /// An ordered, order-significant sequence of strings.
    MultiString(Vec<String>),
    Bytes(Vec<u8>),
    /// A typed value with no defined decoding; it only carries an
    /// unknown wire type tag through, and cannot be written back.
    Other,
}

/// The wire type tag that tells the codec which decoding rule governs a
/// byte buffer.
#[derive(Debug, Clone, Copy, PartialEq, Eq, Structural)]
pub enum ValueType {
    DWord,
    QWord,
    String,
    ExpandString,
    MultiString,
    Bytes,
    Other,
}

/// The mathematical shape of a typed registry value.
pub enum DataView {
    DWord(u32),
    QWord(u64),
    Text(Seq<char>),
    ExpandText(Seq<char>),
    MultiText(Seq<Seq<char>>),
    Bytes(Seq<u8>),
    Other,
}

impl View for Data {
    type V = DataView;

    open spec fn view(&self) -> DataView {
        match self {
            Data::DWord(x) => DataView::DWord(*x),
            Data::QWord(x) => DataView::QWord(*x),
            Data::String(s) => DataView::Text(s@),
            Data::ExpandString(s) => DataView::ExpandText(s@),
            Data::MultiString(v) => DataView::MultiText(v.deep_view()),
            Data::Bytes(b) => DataView::Bytes(b@),
            Data::Other => DataView::Other,
        }
    }
}

impl DeepView for Data {
    type V = DataView;

    open spec fn deep_view(&self) -> DataView {
        self.view()
    }
}

/// Copies a byte buffer.
fn clone_bytes(b: &Vec<u8>) -> (r: Vec<u8>)
    ensures
        r@ == b@,
{
    let mut out: Vec<u8> = Vec::new();
    let mut i: usize = 0;
    while i < b.len()
        invariant
            i <= b@.len(),
            out@ =~= b@.take(i as int),
        decreases b@.len() - i,
    {
        out.push(b[i]);
        i += 1;
    }
    proof {
        assert(b@.take(b@.len() as int) =~= b@);
    }
    out
}

impl Data {
    /// A copy of this value, equal under the view.
    pub fn duplicate(&self) -> (r: Data)
        ensures
            r@ == self@,
    {
        match self {
            Data::DWord(x) => Data::DWord(*x),
            Data::QWord(x) => Data::QWord(*x),
            Data::String(s) => Data::String(s.clone()),
            Data::ExpandString(s) => Data::ExpandString(s.clone()),
            Data::MultiString(v) => {
                let mut out: Vec<String> = Vec::new();
                let mut i: usize = 0;
                while i < v.len()
                    invariant
                        i <= v@.len(),
                        out.deep_view() =~~= v.deep_view().take(i as int),
                    decreases v@.len() - i,
                {
                    let ghost old_dv = out.deep_view();
                    out.push(v[i].clone());
                    proof {
                        assert(out.deep_view() =~~= old_dv.push(v.deep_view()[i as int]));
                        assert(out.deep_view() =~~= v.deep_view().take(i as int + 1));
                    }
                    i += 1;
                }
                proof {
                    assert(v.deep_view().take(v.deep_view().len() as int) =~~= v.deep_view());
                }
                Data::MultiString(out)
            },
            Data::Bytes(b) => Data::Bytes(clone_bytes(b)),
            Data::Other => Data::Other,
        }
    }
}

/// The tag that governs a value's wire form.
pub open spec fn spec_tag(d: DataView) -> ValueType {
    match d {
        DataView::DWord(_) => ValueType::DWord,
        DataView::QWord(_) => ValueType::QWord,
        DataView::Text(_) => ValueType::String,
        DataView::ExpandText(_) => ValueType::ExpandString,
        DataView::MultiText(_) => ValueType::MultiString,
        DataView::Bytes(_) => ValueType::Bytes,
        DataView::Other => ValueType::Other,
    }
}

/// The values whose wire form is defined and decodes back to them:
/// everything but `Other`, with a multi-string holding at least one
/// element and no NUL inside an element (NUL is the separator on the
/// wire, and an empty buffer decodes to one empty element).
pub open spec fn wf_data(d: DataView) -> bool {
    match d {
        DataView::MultiText(v) => v.len() >= 1 && forall|i: int|
            0 <= i < v.len() ==> !v[i].contains('\0'),
        DataView::Other => false,
        _ => true,
    }
}

/// The wire byte form of a value under its tag's encoding rule.
pub open spec fn spec_encode(d: DataView) -> Seq<u8> {
    match d {
        DataView::DWord(x) => spec_u32_to_le_bytes(x),
        DataView::QWord(x) => spec_u64_to_le_bytes(x),
        DataView::Text(s) => utf8_of(s),
        DataView::ExpandText(s) => utf8_of(s),
        DataView::MultiText(v) => utf8_of(join_sep(v, '\0')),
        DataView::Bytes(b) => b,
        DataView::Other => Seq::<u8>::empty(),
    }
}

/// Exactly when decoding `bytes` under `tag` fails, and how.
pub open spec fn spec_decode_err(tag: ValueType, bytes: Seq<u8>) -> Option<CodecError> {
    match tag {
        ValueType::DWord => if bytes.len() != 4 {
            Some(CodecError::LengthMismatch)
        } else {
            None
        },
        ValueType::QWord => if bytes.len() != 8 {
            Some(CodecError::LengthMismatch)
        } else {
            None
        },
        ValueType::String | ValueType::ExpandString | ValueType::MultiString => if forall|t:
            Seq<char>| utf8_of(t) != bytes {
            Some(CodecError::InvalidText)
        } else {
            None
        },
        ValueType::Bytes | ValueType::Other => None,
    }
}

/// What a successful decoding of `bytes` under `tag` is.
pub open spec fn spec_decode_ok(tag: ValueType, bytes: Seq<u8>, d: DataView) -> bool {
    match tag {
        ValueType::DWord => d == DataView::DWord(spec_u32_from_le_bytes(bytes)),
        ValueType::QWord => d == DataView::QWord(spec_u64_from_le_bytes(bytes)),
        ValueType::String => d matches DataView::Text(s) && utf8_of(s) == bytes,
        ValueType::ExpandString => d matches DataView::ExpandText(s) && utf8_of(s) == bytes,
        ValueType::MultiString => d matches DataView::MultiText(v) && exists|s: Seq<char>|
            utf8_of(s) == bytes && v == split_sep(s, '\0'),
        ValueType::Bytes => d == DataView::Bytes(bytes),
        ValueType::Other => d == DataView::Other,
    }
}

/// Decodes a wire byte buffer under a type tag into a typed value.
///
/// The clauses are the codec's laws. The first pins every outcome
/// down, success and failure alike. The second is one round-trip
/// direction: whatever decodes under a known tag re-encodes to the
/// very input bytes. The third is the other: for every well-formed
/// value whose encoding the bytes are, decoding returns exactly that
/// value.
pub fn decode(tag: ValueType, bytes: Vec<u8>) -> (r: Result<Data, CodecError>)
    ensures
        match spec_decode_err(tag, bytes@) {
            Some(e) => r == Err::<Data, CodecError>(e),
            None => r matches Ok(d) && spec_decode_ok(tag, bytes@, d@),
        },
        r matches Ok(d) ==> (tag != ValueType::Other ==> spec_encode(d@) == bytes@),
        forall|dv: DataView| #![trigger spec_encode(dv)]
            (wf_data(dv) && spec_tag(dv) == tag && spec_encode(dv) == bytes@) ==> (r matches Ok(d)
                && d@ == dv),
{
    match tag {
        ValueType::DWord => {
            proof {
                lemma_auto_spec_u32_to_from_le_bytes();
            }
            if bytes.len() != 4 {
                Err(CodecError::LengthMismatch)
            } else {
                let x = u32_from_le_bytes(bytes.as_slice());
                Ok(Data::DWord(x))
            }
        },
        ValueType::QWord => {
            proof {
                lemma_auto_spec_u64_to_from_le_bytes();
            }
            if bytes.len() != 8 {
                Err(CodecError::LengthMismatch)
            } else {
                let x = u64_from_le_bytes(bytes.as_slice());
                Ok(Data::QWord(x))
            }
        },
        ValueType::String => {
            match utf8_decode(bytes) {
                Some(s) => Ok(Data::String(s)),
                None => Err(CodecError::InvalidText),
            }
        },
        ValueType::ExpandString => {
            match utf8_decode(bytes) {
                Some(s) => Ok(Data::ExpandString(s)),
                None => Err(CodecError::InvalidText),
            }
        },
        ValueType::MultiString => {
            let ghost b = bytes@;
            match utf8_decode(bytes) {
                Some(s) => {
                    let parts = split_string(s.as_str(), '\0');
                    proof {
                        assert(utf8_of(s@) == b && parts.deep_view() == split_sep(s@, '\0'));
                        lemma_join_split(s@, '\0');
                        assert forall|dv: DataView| #![trigger spec_encode(dv)]
                            (wf_data(dv) && spec_tag(dv) == ValueType::MultiString
                                && spec_encode(dv) == b) implies DataView::MultiText(
                            parts.deep_view(),
                        ) == dv by {
                            let v = dv->MultiText_0;
                            assert(utf8_of(join_sep(v, '\0')) == b);
                            assert(join_sep(v, '\0') == s@);
                            lemma_split_join(v, '\0');
                        }
                    }
                    Ok(Data::MultiString(parts))
                },
                None => Err(CodecError::InvalidText),
            }
        },
        ValueType::Bytes => Ok(Data::Bytes(bytes)),
        ValueType::Other => Ok(Data::Other),
    }
}

/// Encodes a typed value into its wire byte form; the `Other` variant
/// has none and is rejected.
pub fn encode(d: &Data) -> (r: Result<Vec<u8>, BridgeError>)
    ensures
        d@ is Other <==> (r matches Err(e) && e == BridgeError::Rejected),
        !(d@ is Other) ==> (r matches Ok(b) && b@ == spec_encode(d@)),
{
    match d {
        Data::DWord(x) => {
            let b = u32_to_le_bytes(*x);
            proof {
                lemma_auto_spec_u32_to_from_le_bytes();
            }
            Ok(b)
        },
        Data::QWord(x) => {
            let b = u64_to_le_bytes(*x);
            proof {
                lemma_auto_spec_u64_to_from_le_bytes();
            }
            Ok(b)
        },
        Data::String(s) => Ok(utf8_encode(s.as_str())),
        Data::ExpandString(s) => Ok(utf8_encode(s.as_str())),
        Data::MultiString(v) => {
            if v.len() == 0 {
                let joined = String::new();
                proof {
                    assert(v.deep_view().len() == 0);
                    assert(join_sep(v.deep_view(), '\0') =~= Seq::<char>::empty());
                }
                Ok(utf8_encode(joined.as_str()))
            } else {
                proof {
                    reveal_strlit("\u{0}");
                }
                let joined = join_strings(v, "\u{0}");
                Ok(utf8_encode(joined.as_str()))
            }
        },
        Data::Bytes(b) => {
            let mut out: Vec<u8> = Vec::new();
            let mut i: usize = 0;
            while i < b.len()
                invariant
                    i <= b@.len(),
                    out@ =~= b@.take(i as int),
                decreases b@.len() - i,
            {
                out.push(b[i]);
                i += 1;
            }
            proof {
                assert(b@.take(b@.len() as int) =~= b@);
            }
            Ok(out)
        },
        Data::Other => Err(BridgeError::Rejected),
    }
}

} // verus!
