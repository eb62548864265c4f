//! From texts to tokens and back.
//!
//! A tokenizer turns the input into tokens and tokens into text. It is a value
//! of the `tokenizers` crate; what it gives is held here in plain lists.

use crate::sentences::texts;
use crate::spans::Offsets;
use tokenizers::Tokenizer;
use vstd::prelude::*;

verus! {

/// The tokenizer of the `tokenizers` crate.
#[verifier::external_type_specification]
#[verifier::external_body]
pub struct ExTokenizer(Tokenizer);

/// An encoded text: for each token its id, whether the network is to attend to
/// it, its text, and the range of bytes that it stands for.
#[derive(Debug)]
pub struct TokenEncoding {
    pub ids: Vec<u32>,
    pub attention_mask: Vec<u32>,
    pub tokens: Vec<String>,
    pub offsets: Vec<Offsets>,
}

/// An encoded text, as sequences.
pub struct EncodingView {
    pub ids: Seq<u32>,
    pub attention_mask: Seq<u32>,
    pub tokens: Seq<Seq<char>>,
    pub offsets: Seq<Offsets>,
}

impl View for TokenEncoding {
    type V = EncodingView;

    open spec fn view(&self) -> EncodingView {
        EncodingView {
            ids: self.ids@,
            attention_mask: self.attention_mask@,
            tokens: texts(self.tokens@),
            offsets: self.offsets@,
        }
    }
}

/// What comes of encoding: an encoded text, or a message.
pub type EncodingOutcome = Result<EncodingView, Seq<char>>;

/// What comes of decoding: a text, or a message.
pub type DecodingOutcome = Result<Seq<char>, Seq<char>>;

/// What came of encoding.
pub open spec fn encoding_result(res: Result<TokenEncoding, String>) -> EncodingOutcome {
    match res {
        Ok(encoding) => Ok(encoding@),
        Err(message) => Err(message@),
    }
}

/// What came of decoding.
pub open spec fn decoding_result(res: Result<String, String>) -> DecodingOutcome {
    match res {
        Ok(text) => Ok(text@),
        Err(message) => Err(message@),
    }
}

/// What encoding a text, with the special tokens added, can come to. There is
/// nothing that it can come to where the call may fail to return.
pub uninterp spec fn encoding_outcomes(tokenizer: Tokenizer, text: Seq<char>) -> Set<
    EncodingOutcome,
>;

/// What decoding tokens, without the special ones, comes to. `None` where the
/// call does not return.
pub uninterp spec fn decoding_outcome(tokenizer: Tokenizer, ids: Seq<u32>) -> Option<
    DecodingOutcome,
>;

/// Whether encoding this text returns, with a result or an error. A tokenizer
/// can be set up so that it panics: with a stride that is too long for its
/// truncation.
pub open spec fn can_encode(tokenizer: &Tokenizer, text: Seq<char>) -> bool {
    encoding_outcomes(*tokenizer, text) != Set::<EncodingOutcome>::empty()
}

/// Whether decoding these tokens returns, with a result or an error. A tokenizer
/// can be set up so that it panics: with a decoder that strips more characters
/// than a token has.
pub open spec fn can_decode(tokenizer: &Tokenizer, ids: Seq<u32>) -> bool {
    decoding_outcome(*tokenizer, ids) is Some
}

/// `Tokenizer::encode` of the `tokenizers` crate, with special tokens added,
/// and `Encoding::get_ids`, `get_attention_mask`, `get_tokens` and
/// `get_offsets` on what it gives. The offsets are bytes of the text.
///
/// A tokenizer can be set up to draw random numbers, so the contract only says
/// that the result is one of those that the call can give for this tokenizer
/// and this text; which tokens these are is left unsaid.
#[verifier::external_body]
pub(crate) fn encode_input(tokenizer: &Tokenizer, text: &str) -> (res: Result<
    TokenEncoding,
    String,
>)
    requires
        can_encode(tokenizer, text@),
    ensures
        encoding_outcomes(*tokenizer, text@).contains(encoding_result(res)),
{
    match tokenizer.encode(text, true) {
        Ok(encoding) => Ok(
            TokenEncoding {
                ids: encoding.get_ids().to_vec(),
                attention_mask: encoding.get_attention_mask().to_vec(),
                tokens: encoding.get_tokens().to_vec(),
                offsets: encoding.get_offsets().to_vec(),
            },
        ),
        Err(e) => Err(e.to_string()),
    }
}

/// `Tokenizer::decode` of the `tokenizers` crate, with special tokens left out.
/// The result depends on the tokenizer and the ids alone; which text it is is
/// left unsaid.
#[verifier::external_body]
pub(crate) fn decode_ids(tokenizer: &Tokenizer, ids: &Vec<u32>) -> (res: Result<String, String>)
    requires
        can_decode(tokenizer, ids@),
    ensures
        decoding_outcome(*tokenizer, ids@) == Some(decoding_result(res)),
{
    match tokenizer.decode(ids, true) {
        Ok(text) => Ok(text),
        Err(e) => Err(e.to_string()),
    }
}

/// What encoding and decoding can come to.
pub struct Codec {
    pub encodes: spec_fn(Seq<char>, EncodingOutcome) -> bool,
    pub decodes: spec_fn(Seq<u32>, DecodingOutcome) -> bool,
}

/// What a tokenizer's encoding and decoding can come to.
pub open spec fn tokenizer_codec(tokenizer: &Tokenizer) -> Codec {
    Codec {
        encodes: |text: Seq<char>, outcome: EncodingOutcome|
            encoding_outcomes(*tokenizer, text).contains(outcome),
        decodes: |ids: Seq<u32>, outcome: DecodingOutcome|
            decoding_outcome(*tokenizer, ids) == Some(outcome),
    }
}

/// What encoding and decoding with two functions can come to.
pub open spec fn function_codec<
    E: Fn(&String) -> Result<TokenEncoding, String>,
    D: Fn(&Vec<u32>) -> Result<String, String>,
>(encode: E, decode: D) -> Codec {
    Codec {
        encodes: |text: Seq<char>, outcome: EncodingOutcome|
            exists|t: String, r: Result<TokenEncoding, String>|
                t@ == text && #[trigger] call_ensures(encode, (&t,), r) && encoding_result(r)
                    == outcome,
        decodes: |ids: Seq<u32>, outcome: DecodingOutcome|
            exists|i: Vec<u32>, r: Result<String, String>|
                i@ == ids && #[trigger] call_ensures(decode, (&i,), r) && decoding_result(r)
                    == outcome,
    }
}

/// Whether `a` comes to nothing that `b` cannot come to.
pub open spec fn codec_within(a: Codec, b: Codec) -> bool {
    &&& forall|text: Seq<char>, outcome: EncodingOutcome| #[trigger]
        (a.encodes)(text, outcome) ==> (b.encodes)(text, outcome)
    &&& forall|ids: Seq<u32>, outcome: DecodingOutcome| #[trigger]
        (a.decodes)(ids, outcome) ==> (b.decodes)(ids, outcome)
}

/// What encoding and decoding come to is what the tokenizer or the two functions
/// give, and nothing else: for the very text or tokens, and as it is.
pub proof fn law_codecs_are_what_is_called<
    E: Fn(&String) -> Result<TokenEncoding, String>,
    D: Fn(&Vec<u32>) -> Result<String, String>,
>(
    tokenizer: &Tokenizer,
    encode: E,
    decode: D,
    text: String,
    encoded: Result<TokenEncoding, String>,
    ids: Vec<u32>,
    decoded: Result<String, String>,
    outcome: EncodingOutcome,
    text_outcome: DecodingOutcome,
)
    ensures
        (tokenizer_codec(tokenizer).encodes)(text@, outcome) <==> encoding_outcomes(
            *tokenizer,
            text@,
        ).contains(outcome),
        (tokenizer_codec(tokenizer).decodes)(ids@, text_outcome) <==> decoding_outcome(
            *tokenizer,
            ids@,
        ) == Some(text_outcome),
        call_ensures(encode, (&text,), encoded) ==> (function_codec(encode, decode).encodes)(
            text@,
            encoding_result(encoded),
        ),
        (function_codec(encode, decode).encodes)(text@, outcome) ==> exists|
            t: String,
            r: Result<TokenEncoding, String>,
        |
            t@ == text@ && #[trigger] call_ensures(encode, (&t,), r) && encoding_result(r)
                == outcome,
        call_ensures(decode, (&ids,), decoded) ==> (function_codec(encode, decode).decodes)(
            ids@,
            decoding_result(decoded),
        ),
        (function_codec(encode, decode).decodes)(ids@, text_outcome) ==> exists|
            i: Vec<u32>,
            r: Result<String, String>,
        |
            i@ == ids@ && #[trigger] call_ensures(decode, (&i,), r) && decoding_result(r)
                == text_outcome,
        encoded matches Ok(e) ==> encoding_result(encoded) is Ok && encoding_result(encoded)->Ok_0.ids
            == e.ids@ && encoding_result(encoded)->Ok_0.attention_mask == e.attention_mask@
            && encoding_result(encoded)->Ok_0.offsets == e.offsets@ && encoding_result(
            encoded,
        )->Ok_0.tokens.len() == e.tokens@.len() && forall|k: int|
            0 <= k < e.tokens@.len() ==> encoding_result(encoded)->Ok_0.tokens[k]
                == #[trigger] e.tokens@[k]@,
        encoded matches Err(m) ==> encoding_result(encoded) == Err::<EncodingView, Seq<char>>(m@),
        decoded matches Ok(t) ==> decoding_result(decoded) == Ok::<Seq<char>, Seq<char>>(t@),
        decoded matches Err(m) ==> decoding_result(decoded) == Err::<Seq<char>, Seq<char>>(m@),
{
}

} // verus!
