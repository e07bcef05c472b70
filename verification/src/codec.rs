//! Character encodings (encoding_rs, by their WHATWG names) and the
//! standard library's UTF-8 decoding.
use vstd::prelude::*;
use vstd::utf8::{decode_utf8, valid_utf8};
use encoding_rs::Encoding;

verus! {

#[verifier::external_type_specification]
#[verifier::external_body]
pub struct ExEncoding(Encoding);

/// One encoding of the WHATWG registry together with its WHATWG name, the
/// name being what identifies it in every contract.
pub struct Enc {
    name: &'static str,
    inner: &'static Encoding,
}

impl Enc {
    pub closed spec fn spec_name(&self) -> Seq<char> {
        self.name@
    }

    pub fn name(&self) -> (r: &'static str)
        ensures
            r@ == self.spec_name(),
    {
        self.name
    }
}

/// The WHATWG name of the encoding that a label resolves to, as
/// `Encoding::for_label` decides it.
pub uninterp spec fn whatwg_label_name(label: Seq<u8>) -> Option<Seq<char>>;

/// What decoding `bytes` with the named encoding gives (`Encoding::decode`,
/// which also honours a leading byte-order mark): the text, and whether
/// any malformed sequence was replaced.
pub uninterp spec fn whatwg_decode(encoding: Seq<char>, bytes: Seq<u8>) -> (Seq<char>, bool);

/// What `String::from_utf8_lossy` gives for bytes that are not valid UTF-8.
pub uninterp spec fn utf8_lossy(bytes: Seq<u8>) -> Seq<char>;

/// `Encoding::for_label`, paired with the found encoding's `name()`.
#[verifier::external_body]
pub(crate) fn encoding_for_label(label: &[u8]) -> (r: Option<Enc>)
    ensures
        r is Some <==> whatwg_label_name(label@) is Some,
        r matches Some(e) ==> e.spec_name() == whatwg_label_name(label@)->0,
{
    match Encoding::for_label(label) {
        Some(enc) => Some(Enc { name: enc.name(), inner: enc }),
        None => None,
    }
}

/// `encoding_rs::UTF_8`, named `UTF-8`.
#[verifier::external_body]
pub(crate) fn enc_utf8() -> (r: Enc)
    ensures
        r.spec_name() == seq!['U', 'T', 'F', '-', '8'],
{
    Enc { name: encoding_rs::UTF_8.name(), inner: encoding_rs::UTF_8 }
}

/// `encoding_rs::UTF_16LE`, named `UTF-16LE`.
#[verifier::external_body]
pub(crate) fn enc_utf16le() -> (r: Enc)
    ensures
        r.spec_name() == seq!['U', 'T', 'F', '-', '1', '6', 'L', 'E'],
{
    Enc { name: encoding_rs::UTF_16LE.name(), inner: encoding_rs::UTF_16LE }
}

/// `encoding_rs::UTF_16BE`, named `UTF-16BE`.
#[verifier::external_body]
pub(crate) fn enc_utf16be() -> (r: Enc)
    ensures
        r.spec_name() == seq!['U', 'T', 'F', '-', '1', '6', 'B', 'E'],
{
    Enc { name: encoding_rs::UTF_16BE.name(), inner: encoding_rs::UTF_16BE }
}

/// `encoding_rs::EUC_KR`, named `EUC-KR`.
#[verifier::external_body]
pub(crate) fn enc_euc_kr() -> (r: Enc)
    ensures
        r.spec_name() == seq!['E', 'U', 'C', '-', 'K', 'R'],
{
    Enc { name: encoding_rs::EUC_KR.name(), inner: encoding_rs::EUC_KR }
}

/// `Encoding::decode`: the result is the named function of the encoding's
/// name and the bytes.
#[verifier::external_body]
pub(crate) fn decode_with(enc: &Enc, bytes: &[u8]) -> (r: (String, bool))
    ensures
        r.0@ == whatwg_decode(enc.spec_name(), bytes@).0,
        r.1 == whatwg_decode(enc.spec_name(), bytes@).1,
{
    let (text, _, had_errors) = enc.inner.decode(bytes);
    (text.into_owned(), had_errors)
}

/// `std::str::from_utf8`, owned: succeeds exactly on valid UTF-8, with the
/// characters the bytes encode.
#[verifier::external_body]
pub(crate) fn utf8_text(bytes: &[u8]) -> (r: Option<String>)
    ensures
        r is Some <==> valid_utf8(bytes@),
        r matches Some(s) ==> s@ == decode_utf8(bytes@),
{
    match std::str::from_utf8(bytes) {
        Ok(s) => Some(s.to_owned()),
        Err(_) => None,
    }
}

/// `String::from_utf8_lossy`, owned: valid UTF-8 comes back unchanged,
/// anything else as the named function of the bytes.
#[verifier::external_body]
pub(crate) fn lossy_text(bytes: &[u8]) -> (r: String)
    ensures
        valid_utf8(bytes@) ==> r@ == decode_utf8(bytes@),
        !valid_utf8(bytes@) ==> r@ == utf8_lossy(bytes@),
{
    String::from_utf8_lossy(bytes).into_owned()
}

} // verus!
