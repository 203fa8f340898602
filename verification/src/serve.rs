//! The pure decisions of the download handler: which file name a response
//! advertises, how it is disposed, and the media-type prefix the listing
//! templates group files by.

use crate::digits::pad_str;
use crate::digits::u64_to_dec_pad;
use crate::ledger::DbFile;
use vstd::prelude::*;

verus! {

/// The name a download advertises: the client-supplied one, or a stable
/// fallback derived from the token and file identities.
pub open spec fn spec_download_file_name(f: DbFile) -> Seq<char> {
    match f.name {
        Option::Some(n) => n@,
        Option::None => pad_str(f.token_id as nat, 4) + seq!['_'] + pad_str(f.id as nat, 4),
    }
}

pub fn download_file_name(f: &DbFile) -> (r: String)
    ensures
        r@ == spec_download_file_name(*f),
{
    match &f.name {
        Option::Some(n) => n.clone(),
        Option::None => {
            let mut s = u64_to_dec_pad(f.token_id, 4);
            s.append("_");
            let id_part = u64_to_dec_pad(f.id, 4);
            s.append(id_part.as_str());
            proof {
                reveal_strlit("_");
                assert("_"@ =~= seq!['_']);
                assert(s@ =~= spec_download_file_name(*f));
            }
            s
        },
    }
}

/// How a download response is disposed: an explicit download request gets
/// an attachment, anything else is shown inline.
pub fn content_disposition_kind(download: bool) -> (r: &'static str)
    ensures
        download ==> r@ == "attachment"@,
        !download ==> r@ == "inline"@,
{
    if download {
        "attachment"
    } else {
        "inline"
    }
}

/// The first `/`-separated segment of a media type, when the type has two:
/// what the listing templates group files by.
pub fn mime_prefix(m: &str) -> (r: Option<String>)
    ensures
        (r is Some) == (exists|i: int| 0 <= i < m@.len() && m@[i] == '/'),
        r matches Some(p) ==> exists|i: int|
            0 <= i < m@.len() && #[trigger] m@[i] == '/' && (forall|j: int|
                0 <= j < i ==> m@[j] != '/') && p@ == m@.subrange(0, i),
{
    let n = m.unicode_len();
    let mut i: usize = 0;
    while i < n
        invariant
            0 <= i <= n,
            n == m@.len(),
            forall|j: int| 0 <= j < i ==> m@[j] != '/',
        decreases n - i,
    {
        let c = m.get_char(i);
        if c == '/' {
            let p = m.substring_char(0, i);
            proof {
                assert(m@[i as int] == '/');
            }
            return Some(p.to_owned());
        }
        i = i + 1;
    }
    None
}

} // verus!
