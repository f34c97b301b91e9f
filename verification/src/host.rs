//! Delivery hosts: recognising a host from a link's domain and ranking hosts
//! by a fixed priority table.

use vstd::prelude::*;

use crate::text::{find_char_from, find_sub_from, first_char_at, first_sub_at,
    lemma_first_char_props, lemma_first_sub_props, str_eq};

verus! {

/// The known delivery hosts.
#[derive(Clone, Debug, PartialEq, Eq, Structural)]
pub enum Host {
    Vivo,
    Vidoza,
    GoUnlimited,
    Unknown,
}

/// The characters of `https://`.
pub open spec fn https_lit() -> Seq<char> {
    seq!['h', 't', 't', 'p', 's', ':', '/', '/']
}

/// The characters of `vivo.sx`.
pub open spec fn vivo_lit() -> Seq<char> {
    seq!['v', 'i', 'v', 'o', '.', 's', 'x']
}

/// The characters of `gounlimited.to`.
pub open spec fn gounlimited_lit() -> Seq<char> {
    seq!['g', 'o', 'u', 'n', 'l', 'i', 'm', 'i', 't', 'e', 'd', '.', 't', 'o']
}

/// The characters of `vidoza.net`.
pub open spec fn vidoza_lit() -> Seq<char> {
    seq!['v', 'i', 'd', 'o', 'z', 'a', '.', 'n', 'e', 't']
}

/// The domain of a link: the text between the first `https://` and the next
/// `/` after it, if both are present.
pub open spec fn domain_of(s: Seq<char>) -> Option<Seq<char>> {
    match first_sub_at(s, https_lit(), 0) {
        None => None,
        Some(i) => match first_char_at(s, '/', i + 8) {
            None => None,
            Some(e) => Some(s.subrange(i + 8, e)),
        },
    }
}

/// The host a link's domain names; an unrecognised or missing domain is
/// `Unknown`.
pub open spec fn host_of(s: Seq<char>) -> Host {
    match domain_of(s) {
        None => Host::Unknown,
        Some(d) => if d == vivo_lit() {
            Host::Vivo
        } else if d == gounlimited_lit() {
            Host::GoUnlimited
        } else if d == vidoza_lit() {
            Host::Vidoza
        } else {
            Host::Unknown
        },
    }
}

/// The fixed priority table: a higher value is a more preferred host, and
/// unknown hosts rank lowest.
pub open spec fn priority_spec(h: Host) -> int {
    match h {
        Host::Vidoza => 3,
        Host::Vivo => 2,
        Host::GoUnlimited => 1,
        Host::Unknown => 0,
    }
}

impl Host {
    /// Recognises the host of a link from its domain.
    pub fn get_from_name(link: &str) -> (r: Host)
        ensures
            r == host_of(link@),
    {
        proof {
            reveal_strlit("https://");
            assert("https://"@ =~= https_lit());
        }
        let len = link.unicode_len();
        match find_sub_from(link, "https://", 0) {
            None => Host::Unknown,
            Some(i) => {
                proof {
                    lemma_first_sub_props(link@, https_lit(), 0);
                }
                match find_char_from(link, '/', i + 8) {
                    None => Host::Unknown,
                    Some(e) => {
                        proof {
                            lemma_first_char_props(link@, '/', i as int + 8);
                        }
                        let domain = link.substring_char(i + 8, e);
                        proof {
                            reveal_strlit("vivo.sx");
                            reveal_strlit("gounlimited.to");
                            reveal_strlit("vidoza.net");
                            assert("vivo.sx"@ =~= vivo_lit());
                            assert("gounlimited.to"@ =~= gounlimited_lit());
                            assert("vidoza.net"@ =~= vidoza_lit());
                        }
                        if str_eq(domain, "vivo.sx") {
                            Host::Vivo
                        } else if str_eq(domain, "gounlimited.to") {
                            Host::GoUnlimited
                        } else if str_eq(domain, "vidoza.net") {
                            Host::Vidoza
                        } else {
                            Host::Unknown
                        }
                    },
                }
            },
        }
    }

    /// The host's rank in the fixed priority table.
    pub fn priority(&self) -> (r: u32)
        ensures
            r as int == priority_spec(*self),
    {
        match self {
            Host::Vidoza => 3,
            Host::Vivo => 2,
            Host::GoUnlimited => 1,
            Host::Unknown => 0,
        }
    }
}

/// The priority of the host a link names, looked up by its domain.
pub fn link_priority(link: &str) -> (r: u32)
    ensures
        r as int == priority_spec(host_of(link@)),
{
    Host::get_from_name(link).priority()
}

} // verus!
