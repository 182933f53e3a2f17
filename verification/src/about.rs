use vstd::prelude::*;
use vstd::string::StringSliceAdditionalSpecFns;
use vstd::utf8::{decode_utf8, is_char_boundary};

verus! {

/// At most the first twelve bytes of `bytes`.
pub open spec fn short_sha_bytes(bytes: Seq<u8>) -> Seq<u8> {
    if bytes.len() <= 12 {
        bytes
    } else {
        bytes.subrange(0, 12)
    }
}

/// The version label shown on the About page and the text its copy button copies.
///
/// A released build shows `Warp <version>` and copies the bare version. A build from source
/// shows `Warp source` with the commit cut to its first twelve bytes and copies the full
/// commit; with neither known, both read `Warp source unknown`.
pub fn warp_version_text(app_version: Option<&str>, source_sha: Option<&str>) -> (r: (
    String,
    String,
))
    requires
        app_version is None && source_sha is Some && source_sha->0.spec_bytes().len() > 12
            ==> is_char_boundary(source_sha->0.spec_bytes(), 12),
    ensures
        app_version is Some ==> r.0@ == "Warp "@ + app_version->0@ && r.1@ == app_version->0@,
        app_version is None && source_sha is Some && source_sha->0@.len() > 0 ==> {
            &&& r.0@ == "Warp source "@ + decode_utf8(short_sha_bytes(source_sha->0.spec_bytes()))
            &&& r.1@ == "Warp source "@ + source_sha->0@
        },
        app_version is None && (source_sha is None || source_sha->0@.len() == 0) ==> {
            &&& r.0@ == "Warp source unknown"@
            &&& r.1@ == "Warp source unknown"@
        },
{
    broadcast use vstd::utf8::encode_utf8_decode_utf8;

    match app_version {
        Some(version) => {
            let mut label = String::from_str("Warp ");
            label.append(version);
            return (label, String::from_str(version));
        },
        None => {},
    }
    match source_sha {
        Some(sha) => {
            if !sha.is_empty() {
                let short = if sha.as_bytes().len() <= 12 {
                    sha
                } else {
                    let (head, _tail) = sha.split_at(12);
                    assert(head.spec_bytes() =~= short_sha_bytes(sha.spec_bytes()));
                    head
                };
                proof {
                    vstd::utf8::encode_utf8_decode_utf8(short@);
                }
                let mut label = String::from_str("Warp source ");
                label.append(short);
                let mut copy = String::from_str("Warp source ");
                copy.append(sha);
                return (label, copy);
            }
        },
        None => {},
    }
    (String::from_str("Warp source unknown"), String::from_str("Warp source unknown"))
}

} // verus!
