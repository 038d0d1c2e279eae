//! Which entry of a directory is the torrent to use: the first whose long
//! name ends in `torrent`.

use vstd::prelude::*;
use vstd::string::StringSliceAdditionalSpecFns;
use crate::bytes::same_bytes;

verus! {

/// The name ends in `torrent`.
pub open spec fn ends_in_torrent(name: Seq<u8>) -> bool {
    let ending = "torrent".spec_bytes();
    name.len() >= ending.len() && name.skip(name.len() - ending.len()) == ending
}

/// Whether `name` is the name of a torrent file.
pub fn is_torrent_name(name: &str) -> (r: bool)
    ensures
        r == ends_in_torrent(name.spec_bytes()),
{
    let bytes = name.as_bytes();
    let ending = "torrent".as_bytes();
    if bytes.len() < ending.len() {
        return false;
    }
    let (_, last) = bytes.split_at(bytes.len() - ending.len());
    assert(last@ =~= bytes@.skip(bytes@.len() - ending@.len()));
    same_bytes(last, ending)
}

/// Whether to take the entry that is passed now: none was taken before, the
/// entry has a long name, and that name ends in `torrent`.
pub fn takes(taken: bool, long_name: Option<&str>) -> (r: bool)
    ensures
        r == (match long_name {
            Some(name) => !taken && ends_in_torrent(name.spec_bytes()),
            None => false,
        }),
{
    match long_name {
        Some(name) => !taken && is_torrent_name(name),
        None => false,
    }
}

} // verus!
