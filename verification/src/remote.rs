use crate::decoding::decode;
use crate::digest::{digest_text, digest_text_decoding, HexError, D};
use crate::storage::{digest_of, set_item, with_node, KeyValue};
use crate::value::Node;
use vstd::prelude::*;

verus! {

/// Why what came back for a download is not taken into the store.
#[derive(Clone, Copy, Debug, PartialEq, Eq, Structural)]
pub enum DownloadError {
    /// The service did not answer with the status 200.
    Failed,
    /// The body of the answer is not the canonical text of a node.
    NotANode,
}

/// The address from which the node under a digest is downloaded.
pub open spec fn download_address(d: D) -> Seq<char> {
    "https://api.static.space/v1/raw/"@ + digest_text(d@)
}

/// The address from which the node under a digest is downloaded.
pub fn download_url(digest: &D) -> (url: String)
    ensures
        url@ == download_address(*digest),
{
    let url = String::from_str("https://api.static.space/v1/raw/");
    let hex = digest.to_hex();
    url.concat(hex.as_str())
}

/// Takes the answer to a download into the store: where the status is 200
/// and the body is the canonical text of a node, the node is stored under
/// its digest. Anything else leaves the store as it is.
pub fn accept_download(store: &mut KeyValue, status: u16, body: &str) -> (taken: Result<
    D,
    DownloadError,
>)
    ensures
        match taken {
            Ok(d) => status == 200 && decode(body@) is Some && d == digest_of(decode(body@)->Some_0)
                && final(store)@ == with_node(old(store)@, decode(body@)->Some_0),
            Err(DownloadError::Failed) => status != 200 && final(store)@ == old(store)@,
            Err(DownloadError::NotANode) => status == 200 && decode(body@) is None && final(store)@
                == old(store)@,
        },
{
    if status != 200 {
        return Err(DownloadError::Failed);
    }
    match Node::deserialize(body) {
        Some(node) => Ok(set_item(store, &node)),
        None => Err(DownloadError::NotANode),
    }
}

/// The place in the address bar that names a root: `/#`, then the text form
/// of its digest.
pub open spec fn location_of(d: D) -> Seq<char> {
    "/#"@ + digest_text(d@)
}

/// The place in the address bar that names a root.
pub fn root_location(d: &D) -> (location: String)
    ensures
        location@ == location_of(*d),
{
    let location = String::from_str("/#");
    let hex = d.to_hex();
    location.concat(hex.as_str())
}

/// The root that the fragment of an address names. A fragment of at most
/// one character names none; of a longer one, what follows its first
/// character is read as the text form of a digest.
pub fn root_in_fragment(fragment: &str) -> (named: Option<Result<D, HexError>>)
    ensures
        match named {
            None => fragment@.len() <= 1,
            Some(Ok(d)) => fragment@.len() > 1 && digest_text_decoding(fragment@.skip(1)) == Ok::<
                Seq<u8>,
                HexError,
            >(d@),
            Some(Err(e)) => fragment@.len() > 1 && digest_text_decoding(fragment@.skip(1)) == Err::<
                Seq<u8>,
                HexError,
            >(e),
        },
{
    let n = fragment.unicode_len();
    if n <= 1 {
        return None;
    }
    let rest = fragment.substring_char(1, n);
    assert(rest@ =~= fragment@.skip(1));
    Some(D::try_from_hex(rest))
}

} // verus!
