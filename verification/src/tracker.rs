//! What a client says to a tracker, and what the tracker answers.

use vstd::prelude::*;
use vstd::string::StringExecFns;
use crate::net::{decimal_text, percent_encode, percent_encoded, push_decimal};

verus! {

/// The digest that identifies a torrent.
pub type InfoHash = [u8; 20];

/// The name under which a client is known to the tracker.
pub type PeerId = [u8; 20];

/// What a tracker answers.
pub struct TrackerResponse<'a> {
    /// The number of seconds to wait before asking again.
    pub interval: u32,
    /// The peers: the four bytes of an IPv4 address, and a port.
    pub peers: &'a [([u8; 4], u16)],
}

/// What a [`TrackerRequest`] says.
pub ghost struct TrackerRequestView {
    /// The digest that identifies the torrent.
    pub info_hash: Seq<u8>,
    /// The name of the client.
    pub peer_id: Seq<u8>,
    /// The port on which the client listens.
    pub port: u16,
    /// The number of bytes sent to others so far.
    pub uploaded: u32,
    /// The number of bytes received so far.
    pub downloaded: u32,
    /// The number of bytes still to be received.
    pub left: u32,
    /// 1 where the list of peers is wanted in its compact form.
    pub compact: u8,
}

/// The query that a request makes: its fields by name, joined by `&`, the
/// two identifiers percent-encoded and the numbers in decimal.
pub open spec fn url_encoded(request: TrackerRequestView) -> Seq<char> {
    "info_hash="@ + percent_encoded(request.info_hash) + "&peer_id="@ + percent_encoded(
        request.peer_id,
    ) + "&port="@ + decimal_text(request.port as nat) + "&uploaded="@ + decimal_text(
        request.uploaded as nat,
    ) + "&downloaded="@ + decimal_text(request.downloaded as nat) + "&left="@ + decimal_text(
        request.left as nat,
    ) + "&compact="@ + decimal_text(request.compact as nat)
}

/// What a client says to a tracker.
#[derive(Debug, Clone)]
pub struct TrackerRequest<'a> {
    /// The digest that identifies the torrent.
    info_hash: &'a InfoHash,
    /// The name of the client.
    peer_id: &'a PeerId,
    /// The port on which the client listens.
    port: u16,
    /// The number of bytes sent to others so far.
    uploaded: u32,
    /// The number of bytes received so far.
    downloaded: u32,
    /// The number of bytes still to be received.
    left: u32,
    /// 1 where the list of peers is wanted in its compact form, which is
    /// the form in common use.
    compact: u8,
}

impl<'a> View for TrackerRequest<'a> {
    type V = TrackerRequestView;

    closed spec fn view(&self) -> TrackerRequestView {
        TrackerRequestView {
            info_hash: self.info_hash@,
            peer_id: self.peer_id@,
            port: self.port,
            uploaded: self.uploaded,
            downloaded: self.downloaded,
            left: self.left,
            compact: self.compact,
        }
    }
}

impl<'a> TrackerRequest<'a> {
    /// The first request of a client that has sent and received nothing
    /// yet, and asks for the compact list.
    pub fn new(info_hash: &'a InfoHash, peer_id: &'a PeerId, port: u16, left: u32) -> (r: Self)
        ensures
            r@ == (TrackerRequestView {
                info_hash: info_hash@,
                peer_id: peer_id@,
                port,
                uploaded: 0,
                downloaded: 0,
                left,
                compact: 1,
            }),
    {
        TrackerRequest {
            info_hash,
            peer_id,
            port,
            uploaded: 0,
            downloaded: 0,
            left,
            compact: 1,
        }
    }

    /// The query of the request.
    pub fn to_url_encoded(&self) -> (r: String)
        ensures
            r@ == url_encoded(self@),
    {
        let mut out = String::new();
        out.append("info_hash=");
        out.append(percent_encode(self.info_hash.as_slice()).as_str());
        out.append("&peer_id=");
        out.append(percent_encode(self.peer_id.as_slice()).as_str());
        out.append("&port=");
        push_decimal(&mut out, self.port as u32);
        out.append("&uploaded=");
        push_decimal(&mut out, self.uploaded);
        out.append("&downloaded=");
        push_decimal(&mut out, self.downloaded);
        out.append("&left=");
        push_decimal(&mut out, self.left);
        out.append("&compact=");
        push_decimal(&mut out, self.compact as u32);
        assert(out@ =~= url_encoded(self@));
        out
    }
}

} // verus!
