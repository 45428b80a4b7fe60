//! The addresses of the administration interface by which peers are listed,
//! added and removed.

use vstd::prelude::*;

verus! {

/// What `urlencoding::encode` makes of a text: the text with every byte of its
/// UTF-8 form percent-encoded, but for ASCII letters, digits, `-`, `_`, `.`
/// and `~`.
pub uninterp spec fn percent_encoded(text: Seq<char>) -> Seq<char>;

/// Percent-encodes `text`. The call is `urlencoding::encode`, whose result
/// depends on the text alone; the contract gives that result its name.
#[verifier::external_body]
fn percent_encode(text: &str) -> (encoded: String)
    ensures
        encoded@ == percent_encoded(text@),
{
    urlencoding::encode(text).into_owned()
}

/// The address under which the server at `server` lists and takes peers.
pub open spec fn peers_endpoint(server: Seq<char>) -> Seq<char> {
    "http://"@ + server + "/api/v1/admin/peers"@
}

/// The address under which the server at `server` removes the peer whose
/// percent-encoded name is `encoded_peer`.
pub open spec fn peer_endpoint(server: Seq<char>, encoded_peer: Seq<char>) -> Seq<char> {
    peers_endpoint(server) + "/"@ + encoded_peer
}

/// The address to which a request that lists or adds peers goes, for the
/// server at `server_addr`.
pub fn peers_url(server_addr: &str) -> (url: String)
    ensures
        url@ == peers_endpoint(server_addr@),
{
    let mut url = String::new();
    url.append("http://");
    url.append(server_addr);
    url.append("/api/v1/admin/peers");
    assert(url@ =~= peers_endpoint(server_addr@));
    url
}

/// The address to which a request that removes a peer goes, for the server at
/// `server_addr` and the peer whose percent-encoded name is `encoded_peer`.
pub fn encoded_peer_url(server_addr: &str, encoded_peer: &str) -> (url: String)
    ensures
        url@ == peer_endpoint(server_addr@, encoded_peer@),
{
    let mut url = peers_url(server_addr);
    url.append("/");
    url.append(encoded_peer);
    url
}

/// The address to which a request that removes the peer `peer` goes, for the
/// server at `server_addr`. The peer's name is percent-encoded.
pub fn peer_url(server_addr: &str, peer: &str) -> (url: String)
    ensures
        url@ == peer_endpoint(server_addr@, percent_encoded(peer@)),
{
    let encoded = percent_encode(peer);
    encoded_peer_url(server_addr, encoded.as_str())
}

} // verus!
