//! Events: the immutable cells of a schedule. An event spans `len` consecutive
//! time units and optionally names a leader; the leader name is reduced to a
//! deterministic 64-bit identifier so that the hot loops compare integers.
use vstd::prelude::*;

verus! {

/// FNV-1a 64-bit offset basis.
pub const FNV_OFFSET: u64 = 0xcbf29ce484222325;

/// FNV-1a 64-bit prime.
pub const FNV_PRIME: u64 = 0x100000001b3;

/// FNV-1a over a byte string: the identifier derived from a leader name.
/// Equal names always give equal identifiers; distinct names may collide,
/// which degrades optimization quality but never the cost definition.
pub open spec fn leader_hash(s: Seq<u8>) -> u64
    decreases s.len(),
{
    if s.len() == 0 {
        FNV_OFFSET
    } else {
        (((leader_hash(s.drop_last()) ^ (s.last() as u64)) as nat * FNV_PRIME as nat)
            % 0x10000000000000000) as u64
    }
}

/// Computes `leader_hash` of a byte string.
pub fn hash_name(s: &Vec<u8>) -> (h: u64)
    ensures
        h == leader_hash(s@),
{
    let mut h: u64 = FNV_OFFSET;
    let mut i: usize = 0;
    while i < s.len()
        invariant
            i <= s.len(),
            h == leader_hash(s@.subrange(0, i as int)),
        decreases s.len() - i,
    {
        h = (h ^ (s[i] as u64)).wrapping_mul(FNV_PRIME);
        i = i + 1;
        proof {
            let pre = s@.subrange(0, i as int);
            assert(pre.drop_last() =~= s@.subrange(0, i - 1));
            assert(pre.last() == s@[i - 1]);
        }
    }
    proof {
        assert(s@.subrange(0, s@.len() as int) =~= s@);
    }
    h
}

/// One scheduled activity: a display name, an optional leader name, the
/// identifier derived from that name, and a positive length in time units.
#[derive(Debug, Clone, PartialEq)]
pub struct Event {
    pub name: Vec<u8>,
    pub leader_name: Option<Vec<u8>>,
    pub leader_id: Option<u64>,
    pub len: usize,
}

/// Well-formedness of an event: positive length, and the leader identifier is
/// present exactly when a leader name is, derived from it by `leader_hash`.
pub open spec fn event_wf(e: Event) -> bool {
    &&& e.len >= 1
    &&& match e.leader_name {
        Some(n) => e.leader_id == Some(leader_hash(n@)),
        None => e.leader_id is None,
    }
}

impl Event {
    /// Builds an event; derives the leader identifier from the leader name.
    pub fn new(name: Vec<u8>, leader_name: Option<Vec<u8>>, len: usize) -> (e: Event)
        requires
            len >= 1,
        ensures
            event_wf(e),
            e.name == name,
            e.leader_name == leader_name,
            e.len == len,
    {
        let leader_id = match &leader_name {
            Some(n) => Some(hash_name(n)),
            None => None,
        };
        Event { name, leader_name, leader_id, len }
    }
}

/// Which warm start to run before annealing.
pub enum Precalc {
    Shuffling,
    Greedily,
}

} // verus!
