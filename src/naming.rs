//! Names of the output files, from the input file's stem.

use vstd::prelude::*;
use vstd::string::{StringExecFns, StringSliceAdditionalSpecFns};
use vstd::utf8::encode_scalar;

verus! {

/// `.useless`, the extension of every encoded file.
pub open spec fn useless_extension() -> Seq<char> {
    seq!['.', 'u', 's', 'e', 'l', 'e', 's', 's']
}

/// `_decoded`, the suffix of a decoded file's stem.
pub open spec fn decoded_suffix() -> Seq<char> {
    seq!['_', 'd', 'e', 'c', 'o', 'd', 'e', 'd']
}

/// The name of the encoded file for an input whose stem is `stem`.
pub fn get_useless_output_name(stem: &str) -> (r: String)
    ensures
        r@ == stem@ + useless_extension(),
{
    let mut name = String::from_str(stem);
    name.append(".useless");
    proof {
        reveal_strlit(".useless");
        assert(".useless"@ =~= useless_extension());
    }
    name
}

/// The name of the decoded file for an encoded file whose stem is `stem`:
/// the stem, `_decoded`, and the extension after a dot where there is one.
pub fn get_decoded_output_name(stem: &str, extension: &str) -> (r: String)
    ensures
        r@ == (if extension@.len() == 0 {
            stem@ + decoded_suffix()
        } else {
            stem@ + decoded_suffix() + seq!['.'] + extension@
        }),
{
    let mut name = String::from_str(stem);
    name.append("_decoded");
    proof {
        reveal_strlit("_decoded");
        assert("_decoded"@ =~= decoded_suffix());
        if extension@.len() > 0 {
            let c = extension@[0] as u32;
            assert(encode_scalar(c).len() >= 1);
            assert(extension.spec_bytes().len() >= encode_scalar(c).len());
        }
    }
    if extension.as_bytes().len() != 0 {
        name.append(".");
        proof {
            reveal_strlit(".");
            assert("."@ =~= seq!['.']);
        }
        name.append(extension);
        assert(name@ =~= stem@ + decoded_suffix() + seq!['.'] + extension@);
    }
    name
}

} // verus!
