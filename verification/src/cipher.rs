use vstd::prelude::*;

use rand::seq::SliceRandom;

verus! {

/// The error kinds the engine reports. All are deterministic, value-level
/// failures; none is fatal to the caller.
#[derive(Clone, Copy, Debug, PartialEq, Eq, Structural)]
pub enum CipherError {
    /// A symbol is absent from the alphabet.
    UnknownSymbol,
    /// An index is at or beyond the size of the table it addresses.
    IndexOutOfRange,
    /// A pairing was requested for a value that is already paired.
    Conflict,
    /// A lookup, unpair or index query found no pair for the value.
    NotFound,
    /// A position list does not match the rotor count.
    SizeMismatch,
}

/// The directed shape of a cipher stage: distinct forward and inverse
/// substitutions, as tables, rotors and rotor stacks need.
pub trait DirectedCipher {
    /// The inputs the stage is prepared for.
    spec fn accepts(&self, input: usize) -> bool;

    /// What encoding returns, errors included.
    spec fn enc_at(&self, input: usize) -> Result<usize, CipherError>;

    /// What decoding returns, errors included.
    spec fn dec_at(&self, input: usize) -> Result<usize, CipherError>;

    fn encode(&self, input: usize) -> (r: Result<usize, CipherError>)
        requires
            self.accepts(input),
        ensures
            r == self.enc_at(input),
    ;

    fn decode(&self, input: usize) -> (r: Result<usize, CipherError>)
        requires
            self.accepts(input),
        ensures
            r == self.dec_at(input),
    ;
}

/// The symmetric, involutive shape of a cipher stage: one self-inverse
/// substitution, as pairing sets and reflectors need.
pub trait SymmetricCipher {
    /// The states the stage is prepared for.
    spec fn sym_accepts(&self) -> bool;

    /// What the one substitution returns, errors included.
    spec fn sym_at(&self, input: usize) -> Result<usize, CipherError>;

    fn encode(&self, input: usize) -> (r: Result<usize, CipherError>)
        requires
            self.sym_accepts(),
        ensures
            r == self.sym_at(input),
    ;
}

/// The mathematical content of a substitution table: a forward and an
/// inverse sequence over `0..size`.
pub struct TableView {
    pub fwd: Seq<usize>,
    pub inv: Seq<usize>,
}

impl TableView {
    pub open spec fn size(&self) -> int {
        self.fwd.len() as int
    }

    /// `fwd` is a bijection over `0..size` and `inv` is its inverse, both
    /// directions materialized.
    pub open spec fn wf(&self) -> bool {
        &&& self.inv.len() == self.fwd.len()
        &&& forall|i: int|
            #![trigger self.fwd[i]]
            #![trigger self.inv[i]]
            0 <= i < self.size() ==> {
                &&& self.fwd[i] < self.size()
                &&& self.inv[i] < self.size()
                &&& self.inv[self.fwd[i] as int] == i
                &&& self.fwd[self.inv[i] as int] == i
            }
    }
}

/// `v` occurs somewhere in `s`.
pub open spec fn appears_in(s: Seq<usize>, v: int) -> bool {
    exists|i: int| 0 <= i < s.len() && (#[trigger] s[i]) == v
}

/// `s` lists each value of `0..n` exactly once.
pub open spec fn is_permutation_of(s: Seq<usize>, n: nat) -> bool {
    &&& s.len() == n
    &&& forall|i: int| 0 <= i < n ==> (#[trigger] s[i]) < n
    &&& forall|i: int, j: int|
        #![trigger s[i], s[j]]
        0 <= i < n && 0 <= j < n && i != j ==> s[i] != s[j]
    &&& forall|v: int| 0 <= v < n ==> #[trigger] appears_in(s, v)
}

/// A table keyed by a generating sequence, with a distinct forward and
/// inverse direction; the wiring of a rotor.
#[derive(Clone, Debug)]
pub struct DirectedEncoder<T> {
    pub encoding: Vec<T>,
    pub decoding: Vec<T>,
}

impl View for DirectedEncoder<usize> {
    type V = TableView;

    open spec fn view(&self) -> TableView {
        TableView { fwd: self.encoding@, inv: self.decoding@ }
    }
}

/// Relies on rand's `SliceRandom::shuffle`, a Fisher-Yates pass of swaps:
/// afterwards the slice holds exactly the elements it held, rearranged.
/// Nothing else can be promised of a randomized result.
#[verifier::external_body]
fn shuffle(values: &mut Vec<usize>)
    ensures
        final(values)@.to_multiset() == old(values)@.to_multiset(),
        final(values)@.len() == old(values)@.len(),
{
    values.shuffle(&mut rand::thread_rng());
}

/// The identity sequence `0, 1, .., n-1`.
pub open spec fn identity_seq(n: nat) -> Seq<usize> {
    Seq::new(n, |i: int| i as usize)
}

/// A sequence holding exactly the elements of `0..n`, in any order, lists
/// each of them once: it is a permutation.
proof fn lemma_permutation_from_multiset(s: Seq<usize>, n: nat)
    requires
        n <= usize::MAX,
        s.to_multiset() == identity_seq(n).to_multiset(),
    ensures
        is_permutation_of(s, n),
{
    broadcast use vstd::seq_lib::group_to_multiset_ensures;

    let id = identity_seq(n);
    assert(id.no_duplicates());
    id.lemma_multiset_has_no_duplicates();
    s.lemma_multiset_has_no_duplicates_conv();
    assert(s.len() == s.to_multiset().len());
    assert(id.len() == id.to_multiset().len());
    assert forall|i: int| 0 <= i < n implies (#[trigger] s[i]) < n by {
        assert(s.contains(s[i]));
        assert(s.to_multiset().count(s[i]) > 0);
        assert(id.contains(s[i]));
        let j = choose|j: int| 0 <= j < id.len() && id[j] == s[i];
        assert(s[i] == j as usize);
    }
    assert forall|v: int| 0 <= v < n implies #[trigger] appears_in(s, v) by {
        assert(id[v] == v as usize);
        assert(id.contains(v as usize));
        assert(id.to_multiset().count(v as usize) > 0);
        assert(s.contains(v as usize));
        let i = choose|i: int| 0 <= i < s.len() && s[i] == v as usize;
        assert(0 <= i < s.len() && (s[i] as int) == v);
    }
}

impl DirectedEncoder<usize> {
    /// Builds both directions from a generating permutation of `0..len`:
    /// the forward table is the sequence itself, the inverse is derived.
    pub fn new(values: Vec<usize>) -> (r: Self)
        requires
            is_permutation_of(values@, values@.len() as nat),
        ensures
            r@.wf(),
            r@.fwd == values@,
    {
        let n = values.len();
        let mut decoding: Vec<usize> = Vec::new();
        for _k in 0..n
            invariant
                decoding@.len() == _k,
                forall|t: int| 0 <= t < _k ==> (#[trigger] decoding@[t]) == 0usize,
        {
            decoding.push(0);
        }
        for i in 0..n
            invariant
                n == values@.len(),
                is_permutation_of(values@, n as nat),
                decoding@.len() == n,
                forall|j: int| 0 <= j < i ==> (#[trigger] decoding@[values@[j] as int]) == j,
        {
            let v = values[i];
            decoding[v] = i;
            proof {
                assert forall|j: int| 0 <= j < i + 1 implies (#[trigger] decoding@[values@[
                    j] as int]) == j by {
                    if j < i {
                        assert(values@[j] != values@[i as int]);
                    }
                }
            }
        }
        let encoding = values;
        proof {
            let r = TableView { fwd: encoding@, inv: decoding@ };
            assert forall|i: int|
                #![trigger r.fwd[i]]
                #![trigger r.inv[i]]
                0 <= i < r.size() implies {
                &&& r.fwd[i] < r.size()
                &&& r.inv[i] < r.size()
                &&& r.inv[r.fwd[i] as int] == i
                &&& r.fwd[r.inv[i] as int] == i
            } by {
                assert(appears_in(encoding@, i));
                let j = choose|j: int|
                    0 <= j < encoding@.len() && (#[trigger] encoding@[j]) == i;
                assert(decoding@[encoding@[j] as int] == j);
                assert(decoding@[i] == j);
            }
        }
        DirectedEncoder { encoding, decoding }
    }

    /// The identity table: every index encodes to itself.
    pub fn ascending(size: usize) -> (r: Self)
        ensures
            r@.wf(),
            r@.size() == size,
            forall|i: int| 0 <= i < size ==> r@.fwd[i] == i,
    {
        let mut values: Vec<usize> = Vec::new();
        for i in 0..size
            invariant
                values@.len() == i,
                forall|k: int| 0 <= k < i ==> (#[trigger] values@[k]) == k,
        {
            values.push(i);
        }
        proof {
            assert forall|v: int| 0 <= v < size implies #[trigger] appears_in(values@, v) by {
                assert(values@[v] == v);
            }
        }
        DirectedEncoder::new(values)
    }

    /// The reversed table: index `i` encodes to `size - 1 - i`.
    pub fn descending(size: usize) -> (r: Self)
        ensures
            r@.wf(),
            r@.size() == size,
            forall|i: int| 0 <= i < size ==> r@.fwd[i] == size - 1 - i,
    {
        let mut values: Vec<usize> = Vec::new();
        for i in 0..size
            invariant
                values@.len() == i,
                forall|k: int| 0 <= k < i ==> (#[trigger] values@[k]) == size - 1 - k,
        {
            values.push(size - 1 - i);
        }
        proof {
            assert forall|v: int| 0 <= v < size implies #[trigger] appears_in(values@, v) by {
                assert(values@[size - 1 - v] == v);
            }
        }
        DirectedEncoder::new(values)
    }

    /// A uniformly shuffled permutation: the one randomized, hence
    /// non-reproducible, construction in the engine.
    pub fn random(size: usize) -> (r: Self)
        ensures
            r@.wf(),
            r@.size() == size,
    {
        let mut values: Vec<usize> = Vec::new();
        for i in 0..size
            invariant
                values@.len() == i,
                forall|k: int| 0 <= k < i ==> (#[trigger] values@[k]) == k,
        {
            values.push(i);
        }
        proof {
            assert(values@ =~= identity_seq(size as nat));
        }
        shuffle(&mut values);
        proof {
            lemma_permutation_from_multiset(values@, size as nat);
        }
        DirectedEncoder::new(values)
    }

    /// The size of the index universe.
    pub fn len(&self) -> (r: usize)
        ensures
            r == self@.size(),
    {
        self.encoding.len()
    }

    /// A bounds-checked read of one direction's table.
    fn find(set: &Vec<usize>, value: usize) -> (r: Result<usize, CipherError>)
        ensures
            r == if (value as int) < set@.len() {
                Ok::<usize, CipherError>(set@[value as int])
            } else {
                Err::<usize, CipherError>(CipherError::IndexOutOfRange)
            },
    {
        if value < set.len() {
            Ok(set[value])
        } else {
            Err(CipherError::IndexOutOfRange)
        }
    }

    /// The forward substitution, or `IndexOutOfRange` at or beyond `size`.
    pub fn encode(&self, input: usize) -> (r: Result<usize, CipherError>)
        ensures
            r == if (input as int) < self@.size() {
                Ok::<usize, CipherError>(self@.fwd[input as int])
            } else {
                Err::<usize, CipherError>(CipherError::IndexOutOfRange)
            },
    {
        Self::find(&self.encoding, input)
    }

    /// The inverse substitution, or `IndexOutOfRange` at or beyond `size`.
    pub fn decode(&self, input: usize) -> (r: Result<usize, CipherError>)
        ensures
            r == if (input as int) < self@.inv.len() {
                Ok::<usize, CipherError>(self@.inv[input as int])
            } else {
                Err::<usize, CipherError>(CipherError::IndexOutOfRange)
            },
    {
        Self::find(&self.decoding, input)
    }
}

impl DirectedCipher for DirectedEncoder<usize> {
    /// A table answers every input, with an error at or beyond `size`.
    open spec fn accepts(&self, input: usize) -> bool {
        true
    }

    open spec fn enc_at(&self, input: usize) -> Result<usize, CipherError> {
        if (input as int) < self@.size() {
            Ok(self@.fwd[input as int])
        } else {
            Err(CipherError::IndexOutOfRange)
        }
    }

    open spec fn dec_at(&self, input: usize) -> Result<usize, CipherError> {
        if (input as int) < self@.inv.len() {
            Ok(self@.inv[input as int])
        } else {
            Err(CipherError::IndexOutOfRange)
        }
    }

    fn encode(&self, input: usize) -> (r: Result<usize, CipherError>) {
        DirectedEncoder::encode(self, input)
    }

    fn decode(&self, input: usize) -> (r: Result<usize, CipherError>) {
        DirectedEncoder::decode(self, input)
    }
}

impl SymmetricCipher for SymmetricEncoder<usize> {
    /// The pairing-set invariant: each value in at most one pair.
    open spec fn sym_accepts(&self) -> bool {
        matching(self.pairs@)
    }

    open spec fn sym_at(&self, input: usize) -> Result<usize, CipherError> {
        if spec_is_paired(self.pairs@, input as int) {
            Ok(spec_partner(self.pairs@, input as int) as usize)
        } else {
            Err(CipherError::NotFound)
        }
    }

    fn encode(&self, input: usize) -> (r: Result<usize, CipherError>) {
        SymmetricEncoder::encode(self, input)
    }
}

/// One unordered pair of a pairing set.
#[derive(Clone, Copy, Debug)]
pub struct Pair<T> {
    pub a: T,
    pub b: T,
}

impl Pair<usize> {
    /// The pair touches `v`.
    pub open spec fn has(&self, v: int) -> bool {
        self.a == v || self.b == v
    }

    /// The side of the pair opposite `v`.
    pub open spec fn other(&self, v: int) -> int {
        if self.a == v {
            self.b as int
        } else {
            self.a as int
        }
    }

    /// The two pairs touch no common value.
    pub open spec fn disjoint_from(&self, q: Pair<usize>) -> bool {
        self.a != q.a && self.a != q.b && self.b != q.a && self.b != q.b
    }

    /// The partner of `target` within this pair, or `NotFound` when the
    /// pair does not touch it.
    pub fn contains(&self, target: usize) -> (r: Result<usize, CipherError>)
        ensures
            r == if self.has(target as int) {
                Ok::<usize, CipherError>(self.other(target as int) as usize)
            } else {
                Err::<usize, CipherError>(CipherError::NotFound)
            },
    {
        if self.a == target {
            return Ok(self.b);
        }
        if self.b == target {
            return Ok(self.a);
        }
        Err(CipherError::NotFound)
    }
}

/// An element-for-element copy of a pair list.
fn copy_pairs(v: &Vec<Pair<usize>>) -> (r: Vec<Pair<usize>>)
    ensures
        r@ == v@,
{
    let n = v.len();
    let mut r: Vec<Pair<usize>> = Vec::new();
    for i in 0..n
        invariant
            n == v@.len(),
            r@ == v@.take(i as int),
    {
        r.push(v[i]);
        proof {
            assert(r@ =~= v@.take(i + 1));
        }
    }
    proof {
        assert(v@.take(n as int) =~= v@);
    }
    r
}

/// Some pair of the set touches `v`.
pub open spec fn spec_is_paired(pairs: Seq<Pair<usize>>, v: int) -> bool {
    exists|i: int| 0 <= i < pairs.len() && (#[trigger] pairs[i]).has(v)
}

/// An index of a pair touching `v` (under `matching` there is at most one).
pub open spec fn match_index(pairs: Seq<Pair<usize>>, v: int) -> int {
    choose|i: int| 0 <= i < pairs.len() && (#[trigger] pairs[i]).has(v)
}

/// The partner of `v` in the set.
pub open spec fn spec_partner(pairs: Seq<Pair<usize>>, v: int) -> int
    recommends
        spec_is_paired(pairs, v),
{
    pairs[match_index(pairs, v)].other(v)
}

/// Each value is touched by at most one pair: the set is a matching.
pub open spec fn matching(pairs: Seq<Pair<usize>>) -> bool {
    forall|i: int, j: int|
        #![trigger pairs[i], pairs[j]]
        0 <= i < j < pairs.len() ==> pairs[i].disjoint_from(pairs[j])
}

/// Every value a pair touches lies below `n`.
pub open spec fn bounded(pairs: Seq<Pair<usize>>, n: nat) -> bool {
    forall|i: int| 0 <= i < pairs.len() ==> (#[trigger] pairs[i]).a < n && pairs[i].b < n
}

/// Every value of `0..n` is paired: the matching is total.
pub open spec fn total_over(pairs: Seq<Pair<usize>>, n: nat) -> bool {
    forall|v: int| 0 <= v < n ==> #[trigger] spec_is_paired(pairs, v)
}

/// No pair joins a value with itself.
pub open spec fn no_self_pairs(pairs: Seq<Pair<usize>>) -> bool {
    forall|i: int| 0 <= i < pairs.len() ==> (#[trigger] pairs[i]).a != pairs[i].b
}

/// In a matching, the pair at any index touching `v` is the pair the
/// lookup functions speak of.
pub proof fn lemma_match_unique(pairs: Seq<Pair<usize>>, v: int, i: int)
    requires
        matching(pairs),
        0 <= i < pairs.len(),
        pairs[i].has(v),
    ensures
        spec_is_paired(pairs, v),
        match_index(pairs, v) == i,
        spec_partner(pairs, v) == pairs[i].other(v),
{
    assert(spec_is_paired(pairs, v));
    let j = match_index(pairs, v);
    if j != i {
        assert(pairs[i].disjoint_from(pairs[j]) || pairs[j].disjoint_from(pairs[i]));
    }
}

/// Pairing symmetry: whenever the set is a matching and `lookup(a) == b`,
/// also `lookup(b) == a`; lookup is an involution on paired values.
pub proof fn lemma_pairing_symmetry(pairs: Seq<Pair<usize>>, a: int)
    requires
        matching(pairs),
        spec_is_paired(pairs, a),
    ensures
        spec_is_paired(pairs, spec_partner(pairs, a)),
        spec_partner(pairs, spec_partner(pairs, a)) == a,
{
    let i = match_index(pairs, a);
    lemma_match_unique(pairs, a, i);
    let p = pairs[i];
    let u = p.other(a);
    assert(p.has(u));
    lemma_match_unique(pairs, u, i);
}

/// In a matching with no self-pairs, no paired value is its own partner.
pub proof fn lemma_no_fixed_point(pairs: Seq<Pair<usize>>, v: int)
    requires
        matching(pairs),
        no_self_pairs(pairs),
        spec_is_paired(pairs, v),
    ensures
        spec_partner(pairs, v) != v,
{
    let i = match_index(pairs, v);
    assert(0 <= i < pairs.len() && pairs[i].has(v));
}

/// A paired value's partner lies below `n` when the set is bounded by `n`.
pub proof fn lemma_partner_bounded(pairs: Seq<Pair<usize>>, n: nat, v: int)
    requires
        bounded(pairs, n),
        spec_is_paired(pairs, v),
    ensures
        0 <= spec_partner(pairs, v) < n,
{
    let i = match_index(pairs, v);
    assert(0 <= i < pairs.len() && pairs[i].has(v));
}

/// `pairs` with every pair touching `v` removed, order kept.
pub open spec fn without_value(pairs: Seq<Pair<usize>>, v: int) -> Seq<Pair<usize>>
    decreases pairs.len(),
{
    if pairs.len() == 0 {
        Seq::empty()
    } else {
        let rest = without_value(pairs.drop_last(), v);
        if pairs.last().has(v) {
            rest
        } else {
            rest.push(pairs.last())
        }
    }
}

/// What removal keeps: exactly the pairs not touching `v`, each a pair of
/// the original set; a matching stays a matching.
pub proof fn lemma_without_value(pairs: Seq<Pair<usize>>, v: int)
    ensures
        forall|k: int| 0 <= k < without_value(pairs, v).len() ==> !(#[trigger] without_value(
            pairs,
            v,
        )[k]).has(v) && pairs.contains(without_value(pairs, v)[k]),
        forall|j: int| 0 <= j < pairs.len() && !(#[trigger] pairs[j]).has(v) ==> without_value(
            pairs,
            v,
        ).contains(pairs[j]),
        matching(pairs) ==> matching(without_value(pairs, v)),
    decreases pairs.len(),
{
    let res = without_value(pairs, v);
    if pairs.len() == 0 {
    } else {
        let rest = pairs.drop_last();
        let p = pairs.last();
        lemma_without_value(rest, v);
        let sub = without_value(rest, v);
        assert(forall|k: int| 0 <= k < rest.len() ==> rest[k] == pairs[k]);
        assert forall|k: int| 0 <= k < sub.len() implies pairs.contains(sub[k]) by {
            assert(rest.contains(sub[k]));
            let j = choose|j: int| 0 <= j < rest.len() && rest[j] == sub[k];
            assert(pairs[j] == sub[k]);
        }
        assert forall|j: int|
            0 <= j < pairs.len() && !(#[trigger] pairs[j]).has(v) implies res.contains(
            pairs[j]) by {
            if j < pairs.len() - 1 {
                assert(rest[j] == pairs[j]);
                assert(sub.contains(pairs[j]));
                let k = choose|k: int| 0 <= k < sub.len() && sub[k] == pairs[j];
                assert(res[k] == pairs[j]);
            } else {
                assert(pairs[j] == p);
                assert(res[res.len() - 1] == p);
            }
        }
        if matching(pairs) {
            assert(matching(rest));
            assert forall|i: int, j: int|
                #![trigger res[i], res[j]]
                0 <= i < j < res.len() implies res[i].disjoint_from(res[j]) by {
                if p.has(v) {
                    assert(res[i] == sub[i] && res[j] == sub[j]);
                } else {
                    if j < res.len() - 1 {
                        assert(res[i] == sub[i] && res[j] == sub[j]);
                    } else {
                        assert(res[i] == sub[i] && res[j] == p);
                        assert(rest.contains(sub[i]));
                        let t = choose|t: int| 0 <= t < rest.len() && rest[t] == sub[i];
                        assert(pairs[t].disjoint_from(pairs[pairs.len() - 1]));
                    }
                }
            }
        }
    }
}

/// Round trips hold in both directions: a table's two substitutions are
/// mutually inverse bijections over `0..size`.
pub proof fn lemma_table_bijective(t: TableView)
    requires
        t.wf(),
    ensures
        forall|i: int|
            #![trigger t.fwd[i]]
            #![trigger t.inv[i]]
            0 <= i < t.size() ==> t.inv[t.fwd[i] as int] == i && t.fwd[t.inv[i] as int] == i,
{
}

/// A symmetric, self-inverse partial matching over `0..n`: the single
/// substitution shared by plugboards and reflectors.
#[derive(Clone, Debug)]
pub struct SymmetricEncoder<T> {
    pub pairs: Vec<Pair<T>>,
}

impl SymmetricEncoder<usize> {
    /// The partner of `value`, taken from the first pair touching it, or
    /// `NotFound` when no pair does. In a matching the first pair is the
    /// only one.
    pub fn encode(&self, value: usize) -> (r: Result<usize, CipherError>)
        ensures
            r is Ok <==> spec_is_paired(self.pairs@, value as int),
            r is Err ==> r == Err::<usize, CipherError>(CipherError::NotFound),
            r matches Ok(u) ==> exists|i: int|
                0 <= i < self.pairs@.len() && (#[trigger] self.pairs@[i]).has(value as int)
                    && self.pairs@[i].other(value as int) == u && (forall|j: int|
                    0 <= j < i ==> !(#[trigger] self.pairs@[j]).has(value as int)),
            matching(self.pairs@) && spec_is_paired(self.pairs@, value as int) ==> r == Ok::<
                usize,
                CipherError,
            >(spec_partner(self.pairs@, value as int) as usize),
    {
        let n = self.pairs.len();
        for i in 0..n
            invariant
                n == self.pairs@.len(),
                forall|j: int| 0 <= j < i ==> !(#[trigger] self.pairs@[j]).has(value as int),
        {
            let p = self.pairs[i];
            if let Ok(output) = p.contains(value) {
                proof {
                    if matching(self.pairs@) {
                        lemma_match_unique(self.pairs@, value as int, i as int);
                    }
                }
                return Ok(output);
            }
        }
        Err(CipherError::NotFound)
    }

    /// The same encoder with its pair list replaced outright.
    pub fn with_pairs(&self, pairs: Vec<Pair<usize>>) -> (r: Result<Self, CipherError>)
        ensures
            r matches Ok(s) && s.pairs@ == pairs@,
    {
        Ok(SymmetricEncoder { pairs })
    }

    /// Every value of `0..size` paired with itself: a degenerate matching
    /// used to probe pass-through behaviour.
    pub fn mirror(size: usize) -> (r: Self)
        ensures
            r.pairs@.len() == size,
            matching(r.pairs@),
            bounded(r.pairs@, size as nat),
            total_over(r.pairs@, size as nat),
            forall|v: int| 0 <= v < size ==> #[trigger] spec_partner(r.pairs@, v) == v,
    {
        let mut pairs: Vec<Pair<usize>> = Vec::new();
        for v in 0..size
            invariant
                pairs@.len() == v,
                forall|t: int| 0 <= t < v ==> (#[trigger] pairs@[t]).a == t && pairs@[t].b == t,
        {
            pairs.push(Pair { a: v, b: v });
        }
        proof {
            assert forall|v: int| 0 <= v < size implies #[trigger] spec_is_paired(pairs@, v) by {
                assert(pairs@[v].has(v));
            }
            assert forall|v: int| 0 <= v < size implies #[trigger] spec_partner(pairs@, v)
                == v by {
                assert(pairs@[v].has(v));
                lemma_match_unique(pairs@, v, v);
            }
        }
        SymmetricEncoder { pairs }
    }

    /// Value `v` paired with `size - 1 - v`, each unordered pair kept
    /// once; for odd sizes the middle value pairs with itself.
    pub fn flipped(size: usize) -> (r: Self)
        ensures
            matching(r.pairs@),
            bounded(r.pairs@, size as nat),
            total_over(r.pairs@, size as nat),
            forall|v: int| 0 <= v < size ==> #[trigger] spec_partner(r.pairs@, v) == size - 1 - v,
            size % 2 == 0 ==> no_self_pairs(r.pairs@),
            r.pairs@.len() == size / 2 + size % 2,
    {
        let half = size / 2 + size % 2;
        let mut pairs: Vec<Pair<usize>> = Vec::new();
        for v in 0..half
            invariant
                half == size / 2 + size % 2,
                pairs@.len() == v,
                forall|t: int|
                    0 <= t < v ==> (#[trigger] pairs@[t]).a == t && pairs@[t].b == size - 1 - t,
        {
            pairs.push(Pair { a: v, b: size - 1 - v });
        }
        proof {
            assert(2 * half >= size);
            assert(2 * (half - 1) < size);
            assert forall|v: int| 0 <= v < size implies #[trigger] spec_is_paired(pairs@, v) by {
                if v < half {
                    assert(pairs@[v].has(v));
                } else {
                    assert(pairs@[size - 1 - v].has(v));
                }
            }
            assert forall|v: int| 0 <= v < size implies #[trigger] spec_partner(pairs@, v) == size
                - 1 - v by {
                if v < half {
                    assert(pairs@[v].has(v));
                    lemma_match_unique(pairs@, v, v);
                } else {
                    assert(pairs@[size - 1 - v].has(v));
                    lemma_match_unique(pairs@, v, size - 1 - v);
                }
            }
        }
        SymmetricEncoder { pairs }
    }

    /// A uniformly random perfect matching: `0..size` is shuffled and
    /// consecutive elements are paired. A pair never joins a value with
    /// itself; for odd sizes one value is left unpaired.
    pub fn random(size: usize) -> (r: Self)
        ensures
            matching(r.pairs@),
            bounded(r.pairs@, size as nat),
            no_self_pairs(r.pairs@),
            size % 2 == 0 ==> total_over(r.pairs@, size as nat),
            r.pairs@.len() == size / 2,
    {
        let mut values: Vec<usize> = Vec::new();
        for i in 0..size
            invariant
                values@.len() == i,
                forall|k: int| 0 <= k < i ==> (#[trigger] values@[k]) == k,
        {
            values.push(i);
        }
        proof {
            assert(values@ =~= identity_seq(size as nat));
        }
        shuffle(&mut values);
        proof {
            lemma_permutation_from_multiset(values@, size as nat);
        }
        let half = size / 2;
        let mut pairs: Vec<Pair<usize>> = Vec::new();
        for k in 0..half
            invariant
                half == size / 2,
                values@.len() == size,
                is_permutation_of(values@, size as nat),
                pairs@.len() == k,
                forall|t: int|
                    0 <= t < k ==> (#[trigger] pairs@[t]).a == values@[2 * t] && pairs@[t].b
                        == values@[2 * t + 1],
        {
            let a = values[2 * k];
            let b = values[2 * k + 1];
            pairs.push(Pair { a, b });
        }
        proof {
            let s = values@;
            assert forall|i: int, j: int|
                #![trigger pairs@[i], pairs@[j]]
                0 <= i < j < pairs@.len() implies pairs@[i].disjoint_from(pairs@[j]) by {
                assert(s[2 * i] != s[2 * j] && s[2 * i] != s[2 * j + 1]);
                assert(s[2 * i + 1] != s[2 * j] && s[2 * i + 1] != s[2 * j + 1]);
            }
            assert forall|i: int| 0 <= i < pairs@.len() implies (#[trigger] pairs@[i]).a
                < size && pairs@[i].b < size && pairs@[i].a != pairs@[i].b by {
                assert(s[2 * i] < size && s[2 * i + 1] < size);
                assert(s[2 * i] != s[2 * i + 1]);
            }
            if size % 2 == 0 {
                assert forall|v: int| 0 <= v < size implies #[trigger] spec_is_paired(
                    pairs@, v) by {
                    assert(appears_in(s, v));
                    let idx = choose|idx: int| 0 <= idx < s.len() && (#[trigger] s[idx]) == v;
                    let t = idx / 2;
                    assert(idx == 2 * t || idx == 2 * t + 1);
                    assert(0 <= t < half);
                    assert(pairs@[t].has(v));
                }
            }
        }
        SymmetricEncoder { pairs }
    }

    /// An independent copy of the encoder: the same pairs.
    pub(crate) fn copied(&self) -> (r: Self)
        ensures
            r.pairs@ == self.pairs@,
    {
        SymmetricEncoder { pairs: copy_pairs(&self.pairs) }
    }

    /// The encoder with no pairs at all.
    pub fn empty() -> (r: Self)
        ensures
            r.pairs@.len() == 0,
    {
        SymmetricEncoder { pairs: Vec::new() }
    }

    /// The number of pairs held.
    pub fn len(&self) -> (r: usize)
        ensures
            r == self.pairs@.len(),
    {
        self.pairs.len()
    }

    /// Whether any pair touches `value`.
    pub fn is_paired(&self, value: usize) -> (r: bool)
        ensures
            r == spec_is_paired(self.pairs@, value as int),
    {
        let n = self.pairs.len();
        for i in 0..n
            invariant
                n == self.pairs@.len(),
                forall|j: int| 0 <= j < i ==> !(#[trigger] self.pairs@[j]).has(value as int),
        {
            let p = self.pairs[i];
            if p.contains(value).is_ok() {
                proof {
                    assert(self.pairs@[i as int].has(value as int));
                }
                return true;
            }
        }
        false
    }

    /// The position of the first pair touching `v`, or `NotFound` when no
    /// pair does.
    pub fn index_of(&self, v: usize) -> (r: Result<usize, CipherError>)
        ensures
            r is Ok <==> spec_is_paired(self.pairs@, v as int),
            r is Err ==> r == Err::<usize, CipherError>(CipherError::NotFound),
            r matches Ok(i) ==> i < self.pairs@.len() && self.pairs@[i as int].has(v as int) && (
            forall|j: int| 0 <= j < i ==> !(#[trigger] self.pairs@[j]).has(v as int)),
    {
        let n = self.pairs.len();
        for i in 0..n
            invariant
                n == self.pairs@.len(),
                forall|j: int| 0 <= j < i ==> !(#[trigger] self.pairs@[j]).has(v as int),
        {
            let p = self.pairs[i];
            if p.contains(v).is_ok() {
                return Ok(i);
            }
        }
        Err(CipherError::NotFound)
    }

    /// Adds the pair `{a, b}` to a new encoder; `Conflict` when either
    /// side is already paired. A matching stays a matching.
    pub fn pair(&self, a: usize, b: usize) -> (r: Result<Self, CipherError>)
        ensures
            r is Ok <==> !spec_is_paired(self.pairs@, a as int) && !spec_is_paired(
                self.pairs@,
                b as int,
            ),
            r matches Ok(s) ==> s.pairs@ == self.pairs@.push(Pair { a, b }) && (matching(
                self.pairs@,
            ) ==> matching(s.pairs@)),
            r is Err ==> r == Err::<Self, CipherError>(CipherError::Conflict),
    {
        if self.is_paired(a) || self.is_paired(b) {
            return Err(CipherError::Conflict);
        }
        let mut pairs = copy_pairs(&self.pairs);
        pairs.push(Pair { a, b });
        proof {
            assert(pairs@ =~= self.pairs@.push(Pair { a, b }));
            if matching(self.pairs@) {
                assert forall|i: int, j: int|
                    #![trigger pairs@[i], pairs@[j]]
                    0 <= i < j < pairs@.len() implies pairs@[i].disjoint_from(pairs@[j]) by {
                    if j < pairs@.len() - 1 {
                        assert(pairs@[i] == self.pairs@[i] && pairs@[j] == self.pairs@[j]);
                    } else {
                        assert(pairs@[i] == self.pairs@[i]);
                        assert(!self.pairs@[i].has(a as int) && !self.pairs@[i].has(b as int));
                    }
                }
            }
        }
        Ok(SymmetricEncoder { pairs })
    }

    /// Removes every pair touching `v`, keeping the rest in order; a
    /// no-op when `v` is unpaired.
    pub fn unpair(&self, v: usize) -> (r: Result<Self, CipherError>)
        ensures
            r matches Ok(s) && s.pairs@ == without_value(self.pairs@, v as int),
    {
        let n = self.pairs.len();
        let mut kept: Vec<Pair<usize>> = Vec::new();
        for i in 0..n
            invariant
                n == self.pairs@.len(),
                kept@ == without_value(self.pairs@.take(i as int), v as int),
        {
            let p = self.pairs[i];
            proof {
                assert(self.pairs@.take(i + 1).drop_last() =~= self.pairs@.take(i as int));
                assert(self.pairs@.take(i + 1).last() == self.pairs@[i as int]);
            }
            if p.contains(v).is_err() {
                kept.push(p);
            }
        }
        proof {
            assert(self.pairs@.take(n as int) =~= self.pairs@);
        }
        self.with_pairs(kept)
    }
}

} // verus!
