use vstd::prelude::*;

use crate::cipher::{
    bounded, lemma_match_unique, lemma_pairing_symmetry, lemma_partner_bounded, lemma_without_value,
    match_index, matching, spec_is_paired, spec_partner, without_value, CipherError, Pair,
    SymmetricEncoder,
};

verus! {

/// The plugboard stage: a pairing set with the pass-through policy. A
/// paired value encodes to its partner; an unpaired value passes through
/// unchanged — the one stage in the chain that tolerates unpaired values.
#[derive(Clone, Debug)]
pub struct PlugBoard {
    pub encoder: SymmetricEncoder<usize>,
}

/// One plugboard connection, as handed back by `connect`.
#[derive(Clone, Copy, Debug)]
pub struct Connection {
    pub a: usize,
    pub b: usize,
}

impl Connection {
    /// The opposite end of the connection, or `None` when the connection
    /// does not touch `x`.
    pub fn connected_to(&self, x: usize) -> (r: Option<usize>)
        ensures
            r == if self.a == x {
                Some(self.b)
            } else if self.b == x {
                Some(self.a)
            } else {
                None::<usize>
            },
    {
        if self.a == x {
            return Some(self.b);
        }
        if self.b == x {
            return Some(self.a);
        }
        None
    }
}

/// What a plugboard does to `v`: the partner of a paired value, the
/// value itself otherwise.
pub open spec fn plug_spec(pairs: Seq<Pair<usize>>, v: int) -> int {
    if spec_is_paired(pairs, v) {
        spec_partner(pairs, v)
    } else {
        v
    }
}

impl PlugBoard {
    /// The connections currently plugged.
    pub open spec fn pairs(&self) -> Seq<Pair<usize>> {
        self.encoder.pairs@
    }

    /// What encoding does: the partner of a paired value, the value
    /// itself otherwise.
    pub open spec fn spec_encode(&self, v: int) -> int {
        plug_spec(self.pairs(), v)
    }

    /// An independent copy of the board: the same connections.
    pub(crate) fn copied(&self) -> (r: Self)
        ensures
            r.pairs() == self.pairs(),
    {
        PlugBoard { encoder: self.encoder.copied() }
    }

    /// A plugboard with nothing plugged.
    pub fn new() -> (r: Self)
        ensures
            r.pairs().len() == 0,
            matching(r.pairs()),
    {
        PlugBoard { encoder: SymmetricEncoder::empty() }
    }

    /// Substitutes `a` through the board: its partner when plugged, `a`
    /// itself when not.
    pub fn encode(&self, a: usize) -> (r: usize)
        ensures
            !spec_is_paired(self.pairs(), a as int) ==> r == a,
            matching(self.pairs()) ==> r == self.spec_encode(a as int),
    {
        match self.encoder.encode(a) {
            Ok(v) => v,
            Err(_) => a,
        }
    }

    /// Plugs `a` to `b`; `Conflict` when either end is already plugged,
    /// leaving the board unchanged. A matching stays a matching.
    pub fn connect(&mut self, a: usize, b: usize) -> (r: Result<Connection, CipherError>)
        ensures
            r is Ok <==> !spec_is_paired(old(self).pairs(), a as int) && !spec_is_paired(
                old(self).pairs(),
                b as int,
            ),
            r matches Ok(c) ==> c.a == a && c.b == b && final(self).pairs() == old(
                self,
            ).pairs().push(Pair { a, b }) && (matching(old(self).pairs()) ==> matching(
                final(self).pairs(),
            )),
            r is Err ==> r == Err::<Connection, CipherError>(CipherError::Conflict) && *final(self)
                == *old(self),
    {
        match self.encoder.pair(a, b) {
            Ok(e) => {
                self.encoder = e;
                Ok(Connection { a, b })
            },
            Err(_) => Err(CipherError::Conflict),
        }
    }

    /// Unplugs whatever connection touches `a`; a no-op when `a` is not
    /// plugged.
    pub fn disconnect(&mut self, a: usize)
        ensures
            final(self).pairs() == without_value(old(self).pairs(), a as int),
    {
        match self.encoder.unpair(a) {
            Ok(e) => {
                self.encoder = e;
            },
            Err(_) => {},
        }
    }

    /// Whether some connection touches `a`.
    pub fn is_connected(&self, a: usize) -> (r: bool)
        ensures
            r == spec_is_paired(self.pairs(), a as int),
    {
        self.encoder.is_paired(a)
    }
}

/// Pass-through on an empty board: with nothing plugged, every value
/// encodes to itself.
pub proof fn lemma_empty_pass_through(p: PlugBoard, v: int)
    requires
        p.pairs().len() == 0,
    ensures
        p.spec_encode(v) == v,
{
}

/// The plugboard substitution is an involution over `0..n`: applying it
/// twice returns every value, and the board never leaves the index range.
pub proof fn lemma_plugboard_involution(pairs: Seq<Pair<usize>>, n: nat, v: int)
    requires
        matching(pairs),
        bounded(pairs, n),
        0 <= v < n,
    ensures
        0 <= plug_spec(pairs, v) < n,
        plug_spec(pairs, plug_spec(pairs, v)) == v,
{
    if spec_is_paired(pairs, v) {
        lemma_partner_bounded(pairs, n, v);
        lemma_pairing_symmetry(pairs, v);
    }
}

/// After a disconnect, both former ends pass through unchanged, and every
/// connection not touching the value is kept.
pub proof fn lemma_disconnect_frees_both_ends(before: Seq<Pair<usize>>, v: int)
    requires
        matching(before),
    ensures
        !spec_is_paired(without_value(before, v), v),
        spec_is_paired(before, v) ==> !spec_is_paired(
            without_value(before, v),
            spec_partner(before, v),
        ),
        forall|u: int|
            spec_is_paired(before, u) && u != v && spec_partner(before, u) != v ==> (
            #[trigger] spec_is_paired(without_value(before, v), u)) && spec_partner(
                without_value(before, v),
                u,
            ) == spec_partner(before, u),
{
    let after = without_value(before, v);
    lemma_without_value(before, v);
    assert(!spec_is_paired(after, v)) by {
        if spec_is_paired(after, v) {
            let k = match_index(after, v);
            assert(after[k].has(v));
        }
    }
    if spec_is_paired(before, v) {
        let w = spec_partner(before, v);
        lemma_pairing_symmetry(before, v);
        if spec_is_paired(after, w) {
            let k = match_index(after, w);
            assert(after[k].has(w));
            assert(before.contains(after[k]));
            let j = choose|j: int| 0 <= j < before.len() && before[j] == after[k];
            lemma_match_unique(before, w, j);
            assert(before[j].other(w) == v);
            assert(before[j].has(v));
            assert(!after[k].has(v));
        }
    }
    assert forall|u: int|
        spec_is_paired(before, u) && u != v && spec_partner(before, u) != v implies (
    #[trigger] spec_is_paired(after, u)) && spec_partner(after, u) == spec_partner(
        before,
        u,
    ) by {
        let j = match_index(before, u);
        lemma_match_unique(before, u, j);
        assert(before[j].has(u));
        assert(!before[j].has(v)) by {
            if before[j].has(v) {
                lemma_match_unique(before, v, j);
                assert(before[j].other(u) != v);
            }
        }
        assert(after.contains(before[j]));
        let k = choose|k: int| 0 <= k < after.len() && after[k] == before[j];
        assert(after[k].has(u));
        lemma_match_unique(after, u, k);
    }
}

} // verus!
