//! Replica addresses as they are given on the command line.

use crate::text::{has_prefix, joined, parse_u64, split, split_once};
use std::collections::BTreeMap;
use vstd::prelude::*;

verus! {

/// A replica's id within its shard's group.
pub type NodeId = u64;

/// Whether an address names its scheme.
pub open spec fn has_scheme(addr: Seq<char>) -> bool {
    "http://"@.is_prefix_of(addr) || "https://"@.is_prefix_of(addr)
}

/// An address with its scheme: plain `http` where it named none.
pub open spec fn normalized(addr: Seq<char>) -> Seq<char> {
    if has_scheme(addr) {
        addr
    } else {
        "http://"@ + addr
    }
}

/// Puts `http://` in front of an address that names neither `http://` nor `https://`.
pub fn normalize(addr: &str) -> (r: String)
    ensures
        r@ == normalized(addr@),
{
    if has_prefix(addr, "http://") || has_prefix(addr, "https://") {
        addr.to_owned()
    } else {
        joined("http://", addr)
    }
}

/// Normalizing an address that was normalized before changes nothing.
pub proof fn normalize_is_idempotent(addr: Seq<char>)
    ensures
        normalized(normalized(addr)) == normalized(addr),
{
    let scheme = "http://"@;
    assert((scheme + addr).subrange(0, scheme.len() as int) =~= scheme);
}

/// Why a peer list is refused. Each carries the offending peer as it was given.
#[derive(Debug)]
pub enum PeerError {
    /// There is no `=` between an id and an address.
    NotIdAddr(String),
    /// What stands before the `=` is no number.
    BadId(String),
}

/// What is wrong with a peer.
pub enum PeerFault {
    NotIdAddr(Seq<char>),
    BadId(Seq<char>),
}

impl View for PeerError {
    type V = PeerFault;

    open spec fn view(&self) -> PeerFault {
        match self {
            PeerError::NotIdAddr(p) => PeerFault::NotIdAddr(p@),
            PeerError::BadId(p) => PeerFault::BadId(p@),
        }
    }
}

impl PeerError {
    /// The message for a user.
    pub fn message(&self) -> (r: String)
        ensures
            r@ == match self@ {
                PeerFault::NotIdAddr(p) => "peer '"@ + p + "' must be in id=addr form"@,
                PeerFault::BadId(p) => "bad peer id in '"@ + p + "'"@,
            },
    {
        match self {
            PeerError::NotIdAddr(p) => crate::text::joined3(
                "peer '",
                p.as_str(),
                "' must be in id=addr form",
            ),
            PeerError::BadId(p) => crate::text::joined3("bad peer id in '", p.as_str(), "'"),
        }
    }
}

/// The id and the normalized address that an `id=addr` pair gives.
pub open spec fn peer_of(p: Seq<char>) -> Result<(u64, Seq<char>), PeerFault> {
    let at = crate::text::first_of(p, '=');
    if at >= p.len() {
        Err(PeerFault::NotIdAddr(p))
    } else {
        match crate::text::number_of(p.take(at)) {
            Some(id) => Ok((id, normalized(p.skip(at + 1)))),
            None => Err(PeerFault::BadId(p)),
        }
    }
}

/// The members that a peer list gives: of two peers with one id the later counts, and of several
/// faulty peers the first is reported.
pub open spec fn members_of(peers: Seq<Seq<char>>) -> Result<Map<u64, Seq<char>>, PeerFault>
    decreases peers.len(),
{
    if peers.len() == 0 {
        Ok(Map::empty())
    } else {
        match members_of(peers.drop_last()) {
            Err(e) => Err(e),
            Ok(members) => match peer_of(peers.last()) {
                Err(e) => Err(e),
                Ok((id, addr)) => Ok(members.insert(id, addr)),
            },
        }
    }
}

/// A fault among the first peers is the fault of the whole list.
proof fn lemma_fault_stays(peers: Seq<Seq<char>>, n: int)
    requires
        0 <= n <= peers.len(),
        members_of(peers.take(n)) is Err,
    ensures
        members_of(peers) == members_of(peers.take(n)),
    decreases peers.len() - n,
{
    if n == peers.len() {
        assert(peers.take(n) =~= peers);
    } else {
        assert(peers.take(n + 1).drop_last() =~= peers.take(n));
        lemma_fault_stays(peers, n + 1);
    }
}

/// Reads one `id=addr` pair.
fn parse_peer(p: &str) -> (r: Result<(NodeId, String), PeerError>)
    ensures
        match (r, peer_of(p@)) {
            (Ok((id, addr)), Ok((want_id, want_addr))) => id == want_id && addr@ == want_addr,
            (Err(e), Err(want)) => e@ == want,
            _ => false,
        },
{
    proof {
        crate::text::lemma_first_of(p@, '=');
    }
    match split_once(p, '=') {
        None => Err(PeerError::NotIdAddr(p.to_owned())),
        Some((id_text, addr)) => match parse_u64(id_text.as_str()) {
            Some(id) => Ok((id, normalize(addr.as_str()))),
            None => Err(PeerError::BadId(p.to_owned())),
        },
    }
}

/// The addresses of a member map as mathematical values.
pub open spec fn member_views(members: Map<u64, String>) -> Map<u64, Seq<char>> {
    members.map_values(|addr: String| addr@)
}

/// Reads the members of a shard's group from `id=addr` pairs.
pub fn parse_peers(peers: &[String]) -> (r: Result<BTreeMap<NodeId, String>, PeerError>)
    ensures
        match (r, members_of(crate::text::views(peers@))) {
            (Ok(members), Ok(want)) => member_views(members@) == want,
            (Err(e), Err(want)) => e@ == want,
            _ => false,
        },
{
    broadcast use vstd::std_specs::btree::group_btree_axioms;

    let ghost all = crate::text::views(peers@);
    let mut members: BTreeMap<NodeId, String> = BTreeMap::new();
    assert(member_views(members@) =~= Map::empty());
    assert(all.take(0) =~= Seq::empty());
    let mut i: usize = 0;
    while i < peers.len()
        invariant
            i <= peers.len(),
            all == crate::text::views(peers@),
            members_of(all.take(i as int)) == Ok::<Map<u64, Seq<char>>, PeerFault>(
                member_views(members@),
            ),
        decreases peers.len() - i,
    {
        assert(all.take(i + 1).drop_last() =~= all.take(i as int));
        assert(all.take(i + 1).last() == peers@[i as int]@);
        match parse_peer(peers[i].as_str()) {
            Err(e) => {
                proof {
                    lemma_fault_stays(all, i + 1);
                }
                return Err(e);
            },
            Ok((id, addr)) => {
                let ghost before = members@;
                members.insert(id, addr);
                assert(member_views(members@) =~= member_views(before).insert(id, addr@));
            },
        }
        i += 1;
    }
    assert(all.take(i as int) =~= all);
    Ok(members)
}

/// The normalized addresses of a comma-separated list.
pub open spec fn replicas_of(list: Seq<char>) -> Seq<Seq<char>> {
    crate::text::pieces(list, ',').map_values(|addr: Seq<char>| normalized(addr))
}

/// Reads one shard's replica addresses from a comma-separated list, in order.
pub fn parse_replicas(list: &str) -> (r: Vec<String>)
    ensures
        crate::text::views(r@) == replicas_of(list@),
{
    let parts = split(list, ',');
    let mut out: Vec<String> = Vec::new();
    let mut i: usize = 0;
    while i < parts.len()
        invariant
            i <= parts.len(),
            out.len() == i,
            forall|j: int| 0 <= j < i ==> (#[trigger] out@[j])@ == normalized(parts@[j]@),
        decreases parts.len() - i,
    {
        out.push(normalize(parts[i].as_str()));
        i += 1;
    }
    assert forall|j: int| 0 <= j < out@.len() implies #[trigger] crate::text::views(out@)[j]
        == replicas_of(list@)[j] by {
        assert(crate::text::views(parts@)[j] == parts@[j]@);
    }
    assert(crate::text::views(out@) =~= replicas_of(list@));
    out
}

/// An address with a scheme is kept as it is, and any other gets one before it.
pub proof fn addresses_get_a_scheme(addr: Seq<char>)
    ensures
        "http://"@.is_prefix_of(addr) || "https://"@.is_prefix_of(addr) ==> normalized(addr) == addr,
        !("http://"@.is_prefix_of(addr) || "https://"@.is_prefix_of(addr)) ==> normalized(addr)
            == "http://"@ + addr,
{
}

/// Nothing of a faulty peer is left out of what is said of it.
pub proof fn faults_show_the_peer(p: String)
    ensures
        PeerError::NotIdAddr(p)@ == PeerFault::NotIdAddr(p@),
        PeerError::BadId(p)@ == PeerFault::BadId(p@),
{
}

/// A peer is an id and an address around the first equals sign: the id a decimal numeral, the
/// address all that follows. Without such a sign, or with another id, it is refused, as it stands.
pub proof fn peers_are_cut_at_the_equals_sign(id: Seq<char>, addr: Seq<char>)
    requires
        forall|i: int| 0 <= i < id.len() ==> #[trigger] id[i] != '=',
    ensures
        peer_of(id) == Err::<(u64, Seq<char>), PeerFault>(PeerFault::NotIdAddr(id)),
        crate::text::number_of(id) matches Some(n) ==> peer_of(id + seq!['='] + addr) == Ok::<
            (u64, Seq<char>),
            PeerFault,
        >((n, normalized(addr))),
        crate::text::number_of(id) is None ==> peer_of(id + seq!['='] + addr) == Err::<
            (u64, Seq<char>),
            PeerFault,
        >(PeerFault::BadId(id + seq!['='] + addr)),
{
    let whole = id + seq!['='] + addr;
    let at = id.len() as int;
    crate::text::lemma_first_of_is(id, '=', at);
    assert forall|i: int| 0 <= i < at implies whole[i] != '=' by {
        assert(whole[i] == id[i]);
    }
    assert(whole[at] == '=');
    crate::text::lemma_first_of_is(whole, '=', at);
    assert(whole.take(at) =~= id);
    assert(whole.skip(at + 1) =~= addr);
}

/// Peers are read one by one: each adds its address under its id, in place of one read before, and
/// the first faulty one ends the reading.
pub proof fn peers_are_read_one_by_one(peers: Seq<Seq<char>>, p: Seq<char>)
    ensures
        members_of(Seq::empty()) == Ok::<Map<u64, Seq<char>>, PeerFault>(Map::empty()),
        match (members_of(peers), peer_of(p)) {
            (Err(fault), _) => members_of(peers.push(p)) == Err::<Map<u64, Seq<char>>, PeerFault>(
                fault,
            ),
            (Ok(_), Err(fault)) => members_of(peers.push(p)) == Err::<
                Map<u64, Seq<char>>,
                PeerFault,
            >(fault),
            (Ok(members), Ok((id, addr))) => members_of(peers.push(p)) == Ok::<
                Map<u64, Seq<char>>,
                PeerFault,
            >(members.insert(id, addr)),
        },
{
    assert(peers.push(p).drop_last() =~= peers);
}

/// A member map is shown id by id.
pub proof fn members_are_shown(members: Map<u64, String>, id: u64)
    ensures
        member_views(members).contains_key(id) <==> members.contains_key(id),
        members.contains_key(id) ==> member_views(members)[id] == members[id]@,
{
}

/// Every piece between commas is a replica, its address normalized.
pub proof fn replicas_are_the_pieces(list: Seq<char>, i: int)
    ensures
        replicas_of(list).len() == crate::text::pieces(list, ',').len(),
        0 <= i < replicas_of(list).len() ==> replicas_of(list)[i] == normalized(
            crate::text::pieces(list, ',')[i],
        ),
{
}

} // verus!
