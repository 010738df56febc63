//! Text preprocessing for UTF-8 files: trimming, line trimming, whitespace
//! collapsing, literal replacement, line prefix and suffix removal, line
//! splitting, SQL compaction and JSON/JSONC validation with minification.
//!
//! Every operation reads the UTF-8 bytes of its input and produces the bytes
//! of its output, which are valid UTF-8 again; each `*_len` function gives the
//! length of the matching output, so the sizing and the emitting pass always
//! agree. `pipeline` runs operations one after the other, and the `*_laws`
//! modules state what holds of the operations across all inputs.
use vstd::prelude::*;
use vstd::string::StringSliceAdditionalSpecFns;
use vstd::utf8::valid_utf8;

pub mod chars;
pub mod trim;
pub mod transforms;
pub mod lines;
pub mod text_laws;
pub mod sql;
pub mod sql_laws;
pub mod json;
pub mod json_laws;
pub mod pipeline;

verus! {

/// `core::str::from_utf8`: the bytes as text when they are well-formed UTF-8.
/// The contract claims that it succeeds exactly on the byte sequences that
/// vstd's `valid_utf8` accepts, and that the text it returns has exactly those
/// bytes.
#[verifier::external_body]
fn utf8_text(bytes: &[u8]) -> (r: Option<&str>)
    ensures
        r is Some <==> valid_utf8(bytes@),
        r matches Some(text) ==> text.spec_bytes() == bytes@,
{
    core::str::from_utf8(bytes).ok()
}

/// The processed bytes as text. Every operation of this crate turns UTF-8
/// text into UTF-8 text, so its output can always be read back.
pub fn as_str(bytes: &[u8]) -> (r: &str)
    requires
        valid_utf8(bytes@),
    ensures
        r.spec_bytes() == bytes@,
{
    match utf8_text(bytes) {
        Some(text) => text,
        None => {
            proof {
                assert(false);
            }
            ""
        },
    }
}

} // verus!
