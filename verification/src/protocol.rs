//! Decisions of the connection layer that sits above the store: which wire
//! protocol versions a connection may offer, and the URL it reports for
//! itself. The streams themselves live outside this crate.
use vstd::prelude::*;

verus! {

/// The wire protocol generations a connection can speak.
#[derive(Clone, Copy, PartialEq, Eq, Structural, Debug)]
pub enum Protocol {
    V1,
    V2,
}

/// The URL a connection reports: a custom one verbatim when set, otherwise
/// the repository path behind a `file://` scheme.
pub open spec fn url_spec(custom_url: Option<Seq<u8>>, path: Seq<u8>) -> Seq<u8> {
    match custom_url {
        Some(u) => u,
        None => seq![102u8, 105u8, 108u8, 101u8, 58u8, 47u8, 47u8] + path,
    }
}

pub fn connection_url(custom_url: &Option<Vec<u8>>, path: &Vec<u8>) -> (r: Vec<u8>)
    ensures
        match custom_url {
            Some(u) => r@ == url_spec(Some(u@), path@),
            None => r@ == url_spec(None, path@),
        },
{
    match custom_url {
        Some(u) => crate::bytes::copy_bytes(u),
        None => {
            let mut r: Vec<u8> = vec![102u8, 105u8, 108u8, 101u8, 58u8, 47u8, 47u8];
            let mut p = crate::bytes::copy_bytes(path);
            r.append(&mut p);
            proof {
                assert(r@ =~= url_spec(None, path@));
            }
            r
        },
    }
}

/// The versions a connection offers in its handshake: offering a downgrade
/// to the first generation could invite a very large advertisement, so a
/// connection that wants exactly that generation offers nothing, and any
/// other desire offers the configured set unchanged.
pub fn supported_protocol_versions(desired: Protocol, configured: &Vec<Protocol>) -> (r: Vec<
    Protocol,
>)
    ensures
        desired == Protocol::V1 ==> r@.len() == 0,
        desired != Protocol::V1 ==> r@ == configured@,
{
    match desired {
        Protocol::V1 => Vec::new(),
        Protocol::V2 => {
            let mut r: Vec<Protocol> = Vec::new();
            let mut i: usize = 0;
            while i < configured.len()
                invariant
                    i <= configured@.len(),
                    r@ == configured@.subrange(0, i as int),
                decreases configured@.len() - i,
            {
                r.push(configured[i]);
                i += 1;
                proof {
                    assert(configured@.subrange(0, i - 1).push(configured@[i - 1])
                        =~= configured@.subrange(0, i as int));
                }
            }
            proof {
                assert(configured@.subrange(0, configured@.len() as int) =~= configured@);
            }
            r
        },
    }
}

/// Whether a connection of this kind serves several requests in sequence.
pub fn connection_persists_across_multiple_requests() -> (r: bool)
    ensures
        r,
{
    true
}

} // verus!
