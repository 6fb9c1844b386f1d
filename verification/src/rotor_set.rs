use vstd::arithmetic::div_mod::lemma_fundamental_div_mod_converse;
use vstd::prelude::*;

use crate::cipher::{CipherError, DirectedCipher};
use crate::rotor::{lemma_rotor_round_trip, Rotor, RotorView};

verus! {

/// Every rotor of the stack is usable.
pub open spec fn all_wf(rs: Seq<RotorView>) -> bool {
    forall|i: int| 0 <= i < rs.len() ==> (#[trigger] rs[i]).wf()
}

/// Every rotor of the stack indexes the same universe `0..n`.
pub open spec fn uniform(rs: Seq<RotorView>, n: int) -> bool {
    forall|i: int| 0 <= i < rs.len() ==> (#[trigger] rs[i]).size() == n
}

/// The stack's forward substitution: `v` folded through each rotor's
/// encoding, first rotor first.
pub open spec fn stack_enc(rs: Seq<RotorView>, v: int) -> int
    decreases rs.len(),
{
    if rs.len() == 0 {
        v
    } else {
        rs.last().enc(stack_enc(rs.drop_last(), v))
    }
}

/// The stack's inverse substitution: `v` folded through each rotor's
/// decoding, last rotor first.
pub open spec fn stack_dec(rs: Seq<RotorView>, v: int) -> int
    decreases rs.len(),
{
    if rs.len() == 0 {
        v
    } else {
        stack_dec(rs.drop_last(), rs.last().dec(v))
    }
}

/// The stack one odometer step further: the first rotor always turns; a
/// rotor that was at its last contact turns the one after it as well.
pub open spec fn advanced_stack(rs: Seq<RotorView>) -> Seq<RotorView>
    decreases rs.len(),
{
    if rs.len() == 0 {
        rs
    } else {
        let first = rs[0];
        let rest = rs.drop_first();
        seq![first.advanced()] + (if first.position == first.size() - 1 {
            advanced_stack(rest)
        } else {
            rest
        })
    }
}

/// The offsets of the stack's rotors, first rotor first.
pub open spec fn positions_of(rs: Seq<RotorView>) -> Seq<int> {
    rs.map_values(|r: RotorView| r.position)
}

/// Stepping turns offsets only: it keeps the stack's length and every
/// wiring, and keeps every rotor usable.
pub proof fn lemma_advanced_stack_props(rs: Seq<RotorView>)
    requires
        all_wf(rs),
    ensures
        advanced_stack(rs).len() == rs.len(),
        forall|i: int| 0 <= i < rs.len() ==> (#[trigger] advanced_stack(rs)[i]).table
            == rs[i].table,
        all_wf(advanced_stack(rs)),
    decreases rs.len(),
{
    if rs.len() == 0 {
    } else {
        let rest = rs.drop_first();
        assert(forall|i: int| 0 <= i < rest.len() ==> rest[i] == rs[i + 1]);
        lemma_advanced_stack_props(rest);
        let adv = advanced_stack(rs);
        if rs[0].position == rs[0].size() - 1 {
            assert(forall|i: int|
                1 <= i < rs.len() ==> adv[i] == advanced_stack(rest)[i - 1]);
        } else {
            assert(forall|i: int| 1 <= i < rs.len() ==> adv[i] == rest[i - 1]);
        }
        assert(adv[0] == rs[0].advanced());
        assert(rs[0].advanced().wf());
        assert forall|i: int| 0 <= i < adv.len() implies (#[trigger] adv[i]).wf() by {
            if i >= 1 {
                assert(rest[i - 1].wf());
            }
        }
    }
}

/// The stack round trip: over a uniform stack, decoding undoes encoding
/// and encoding undoes decoding, and values never leave `0..n`.
pub proof fn lemma_stack_round_trip(rs: Seq<RotorView>, n: int, v: int)
    requires
        all_wf(rs),
        uniform(rs, n),
        0 <= v < n,
    ensures
        0 <= stack_enc(rs, v) < n,
        0 <= stack_dec(rs, v) < n,
        stack_dec(rs, stack_enc(rs, v)) == v,
        stack_enc(rs, stack_dec(rs, v)) == v,
    decreases rs.len(),
{
    if rs.len() == 0 {
    } else {
        let rest = rs.drop_last();
        let last = rs.last();
        assert(forall|i: int| 0 <= i < rest.len() ==> rest[i] == rs[i]);
        lemma_stack_round_trip(rest, n, v);
        lemma_rotor_round_trip(last, stack_enc(rest, v));
        lemma_rotor_round_trip(last, v);
        lemma_stack_round_trip(rest, n, last.dec(v));
    }
}

/// One odometer step over offsets alone: the first turns, wrapping at
/// `n`; a carry passes on exactly when the offset stood at `n - 1`.
pub open spec fn odometer_step(ps: Seq<int>, n: int) -> Seq<int>
    decreases ps.len(),
{
    if ps.len() == 0 {
        ps
    } else {
        seq![
            if ps[0] == n - 1 {
                0
            } else {
                ps[0] + 1
            },
        ] + (if ps[0] == n - 1 {
            odometer_step(ps.drop_first(), n)
        } else {
            ps.drop_first()
        })
    }
}

/// `k` odometer steps over offsets alone.
pub open spec fn odometer_steps(ps: Seq<int>, n: int, k: nat) -> Seq<int>
    decreases k,
{
    if k == 0 {
        ps
    } else {
        odometer_step(odometer_steps(ps, n, (k - 1) as nat), n)
    }
}

/// `k` odometer steps of a whole stack.
pub open spec fn stepped_stack(rs: Seq<RotorView>, k: nat) -> Seq<RotorView>
    decreases k,
{
    if k == 0 {
        rs
    } else {
        advanced_stack(stepped_stack(rs, (k - 1) as nat))
    }
}

/// The three base-`n` digits of `k`, least significant first: the
/// offsets a three-rotor odometer shows after `k` steps from rest.
pub open spec fn odometer_digits(n: int, k: int) -> Seq<int> {
    seq![k % n, (k / n) % n, (k / n / n) % n]
}

/// Stepping the stack moves the offsets exactly as the offset odometer
/// does.
pub proof fn lemma_advanced_positions(rs: Seq<RotorView>, n: int)
    requires
        all_wf(rs),
        uniform(rs, n),
    ensures
        positions_of(advanced_stack(rs)) =~= odometer_step(positions_of(rs), n),
    decreases rs.len(),
{
    if rs.len() == 0 {
    } else {
        let rest = rs.drop_first();
        assert(forall|i: int| 0 <= i < rest.len() ==> rest[i] == rs[i + 1]);
        lemma_advanced_positions(rest, n);
        assert(positions_of(rs).drop_first() =~= positions_of(rest));
        assert(positions_of(rs)[0] == rs[0].position);
        assert(rs[0].size() == n);
        if rs[0].position == n - 1 {
            assert(positions_of(advanced_stack(rs)) =~= seq![0int] + positions_of(
                advanced_stack(rest),
            ));
            assert(odometer_step(positions_of(rs), n) =~= seq![0int] + odometer_step(
                positions_of(rest),
                n,
            ));
        } else {
            assert(positions_of(advanced_stack(rs)) =~= seq![rs[0].position + 1] + positions_of(
                rest,
            ));
            assert(odometer_step(positions_of(rs), n) =~= seq![rs[0].position + 1] + positions_of(
                rest,
            ));
        }
    }
}

/// Repeated stepping keeps the stack usable and its wirings fixed, and
/// moves its offsets as `k` offset-odometer steps.
pub proof fn lemma_stepped_stack_positions(rs: Seq<RotorView>, n: int, k: nat)
    requires
        all_wf(rs),
        uniform(rs, n),
    ensures
        stepped_stack(rs, k).len() == rs.len(),
        all_wf(stepped_stack(rs, k)),
        uniform(stepped_stack(rs, k), n),
        positions_of(stepped_stack(rs, k)) =~= odometer_steps(positions_of(rs), n, k),
    decreases k,
{
    if k == 0 {
    } else {
        lemma_stepped_stack_positions(rs, n, (k - 1) as nat);
        let prev = stepped_stack(rs, (k - 1) as nat);
        lemma_advanced_stack_props(prev);
        assert forall|i: int| 0 <= i < prev.len() implies (#[trigger] advanced_stack(
            prev,
        )[i]).size() == n by {
            assert(advanced_stack(prev)[i].table == prev[i].table);
        }
        lemma_advanced_positions(prev, n);
    }
}

/// How one step of `x`'s base-`n` counter behaves: the low digit either
/// steps up or wraps to zero with a carry into the quotient.
proof fn lemma_div_mod_succ(x: int, n: int)
    requires
        n >= 1,
        x >= 0,
    ensures
        0 <= x % n < n,
        x / n >= 0,
        x % n == n - 1 ==> (x + 1) % n == 0 && (x + 1) / n == x / n + 1,
        x % n < n - 1 ==> (x + 1) % n == x % n + 1 && (x + 1) / n == x / n,
{
    vstd::arithmetic::div_mod::lemma_fundamental_div_mod(x, n);
    vstd::arithmetic::div_mod::lemma_div_pos_is_pos(x, n);
    vstd::arithmetic::div_mod::lemma_mod_bound(x, n);
    if x % n == n - 1 {
        assert(x + 1 == n * (x / n) + n);
        assert(n * (x / n) + n == (x / n + 1) * n) by (nonlinear_arith);
        lemma_fundamental_div_mod_converse(x + 1, n, x / n + 1, 0);
    } else {
        assert(x + 1 == (x / n) * n + (x % n + 1)) by (nonlinear_arith)
            requires
                x == n * (x / n) + x % n,
        ;
        lemma_fundamental_div_mod_converse(x + 1, n, x / n, x % n + 1);
    }
}

/// One offset-odometer step of a three-rotor stack, written out.
proof fn lemma_odometer_step3(a: int, b: int, c: int, n: int)
    ensures
        odometer_step(seq![a, b, c], n) =~= seq![
            if a == n - 1 {
                0int
            } else {
                a + 1
            },
            if a == n - 1 {
                if b == n - 1 {
                    0int
                } else {
                    b + 1
                }
            } else {
                b
            },
            if a == n - 1 && b == n - 1 {
                if c == n - 1 {
                    0int
                } else {
                    c + 1
                }
            } else {
                c
            },
        ],
{
    let s3 = seq![a, b, c];
    let s2 = seq![b, c];
    let s1 = seq![c];
    assert(s3.drop_first() =~= s2);
    assert(s2.drop_first() =~= s1);
    assert(s1.drop_first() =~= Seq::<int>::empty());
    assert(odometer_step(Seq::<int>::empty(), n) =~= Seq::<int>::empty());
    assert(odometer_step(s1, n) =~= seq![
        if c == n - 1 {
            0int
        } else {
            c + 1
        },
    ]);
    assert(odometer_step(s2, n) =~= seq![
        if b == n - 1 {
            0int
        } else {
            b + 1
        },
    ] + (if b == n - 1 {
        odometer_step(s1, n)
    } else {
        s1
    }));
}

/// One odometer step takes the digits of `j` to the digits of `j + 1`.
proof fn lemma_odometer_step_digits(n: int, j: int)
    requires
        n >= 1,
        j >= 0,
    ensures
        odometer_step(odometer_digits(n, j), n) =~= odometer_digits(n, j + 1),
{
    let a = j % n;
    let q = j / n;
    let b = q % n;
    let q2 = q / n;
    let c = q2 % n;
    lemma_div_mod_succ(j, n);
    lemma_div_mod_succ(q, n);
    lemma_div_mod_succ(q2, n);
    lemma_odometer_step3(a, b, c, n);
    if a < n - 1 {
        assert((j + 1) % n == a + 1 && (j + 1) / n == q);
    } else {
        assert((j + 1) % n == 0 && (j + 1) / n == q + 1);
        if b < n - 1 {
            assert((q + 1) % n == b + 1 && (q + 1) / n == q2);
        } else {
            assert((q + 1) % n == 0 && (q + 1) / n == q2 + 1);
        }
    }
    assert(odometer_step(odometer_digits(n, j), n) =~= odometer_digits(n, j + 1));
}

/// After `k` steps from rest, a three-rotor odometer shows the base-`n`
/// digits of `k`.
pub proof fn lemma_odometer_digits_from_rest(n: int, k: int)
    requires
        n >= 1,
        k >= 0,
    ensures
        odometer_steps(seq![0int, 0int, 0int], n, k as nat) =~= odometer_digits(n, k),
    decreases k,
{
    if k == 0 {
        lemma_fundamental_div_mod_converse(0, n, 0, 0);
        assert(odometer_digits(n, 0) =~= seq![0int, 0int, 0int]);
    } else {
        lemma_odometer_digits_from_rest(n, k - 1);
        lemma_odometer_step_digits(n, k - 1);
    }
}

/// The stack-stepping odometer: three rotors of size `n` starting at
/// rest return the first rotor to zero after `n` steps, having carried
/// into the second exactly once; after `n * n` steps the carry has
/// reached the third exactly once.
pub proof fn lemma_stack_stepping_odometer(rs: Seq<RotorView>, n: int)
    requires
        all_wf(rs),
        uniform(rs, n),
        rs.len() == 3,
        positions_of(rs) =~= seq![0int, 0int, 0int],
        n >= 2,
    ensures
        positions_of(stepped_stack(rs, n as nat)) =~= seq![0int, 1int, 0int],
        positions_of(stepped_stack(rs, (n * n) as nat)) =~= seq![0int, 0int, 1int],
{
    assert(n * n >= 2 * n) by (nonlinear_arith)
        requires
            n >= 2,
    ;
    lemma_stepped_stack_positions(rs, n, n as nat);
    lemma_stepped_stack_positions(rs, n, (n * n) as nat);
    lemma_odometer_digits_from_rest(n, n);
    lemma_odometer_digits_from_rest(n, n * n);
    lemma_fundamental_div_mod_converse(n, n, 1, 0);
    lemma_fundamental_div_mod_converse(1, n, 0, 1);
    lemma_fundamental_div_mod_converse(0, n, 0, 0);
    assert(odometer_digits(n, n) =~= seq![0int, 1int, 0int]);
    lemma_fundamental_div_mod_converse(n * n, n, n, 0);
    assert(odometer_digits(n, n * n) =~= seq![0int, 0int, 1int]);
}

/// An ordered stack of rotors; the first is the fastest, nearest the
/// plugboard. Encoding folds forward through every rotor, decoding folds
/// back, and one odometer step advances the offsets between symbols.
#[derive(Clone, Debug)]
pub struct RotorSet {
    pub rotors: Vec<Rotor>,
}

impl View for RotorSet {
    type V = Seq<RotorView>;

    open spec fn view(&self) -> Seq<RotorView> {
        Seq::new(self.rotors@.len(), |i: int| self.rotors@[i]@)
    }
}

impl RotorSet {
    /// A stack with no rotors: both substitutions are the identity.
    pub fn new() -> (r: Self)
        ensures
            r@.len() == 0,
    {
        RotorSet { rotors: Vec::new() }
    }

    /// The stack with one more rotor appended after the rest.
    pub fn with_rotor(&self, rotor: Rotor) -> (r: Self)
        ensures
            r@ == self@.push(rotor@),
    {
        let mut rs = self.copied();
        rs.rotors.push(rotor);
        proof {
            assert(rs@ =~= self@.push(rotor@));
        }
        rs
    }

    /// A stack built from a whole rotor list at once.
    pub fn with_rotors(rotors: Vec<Rotor>) -> (r: Self)
        ensures
            r@ == Seq::new(rotors@.len(), |i: int| rotors@[i]@),
    {
        RotorSet { rotors }
    }

    /// An element-for-element copy of the stack.
    pub(crate) fn copied(&self) -> (r: Self)
        ensures
            r@ == self@,
    {
        let len = self.rotors.len();
        let mut rotors: Vec<Rotor> = Vec::new();
        for i in 0..len
            invariant
                len == self.rotors@.len(),
                rotors@.len() == i,
                forall|j: int| 0 <= j < i ==> (#[trigger] rotors@[j])@ == self.rotors@[j]@,
        {
            rotors.push(self.rotors[i].copied());
        }
        let r = RotorSet { rotors };
        proof {
            assert(r@ =~= self@);
        }
        r
    }

    /// The current offset of every rotor, first rotor first.
    pub fn positions(&self) -> (r: Vec<usize>)
        ensures
            r@.len() == self@.len(),
            forall|i: int| 0 <= i < self@.len() ==> (#[trigger] r@[i]) == self@[i].position,
    {
        let len = self.rotors.len();
        let mut out: Vec<usize> = Vec::new();
        for i in 0..len
            invariant
                len == self.rotors@.len(),
                out@.len() == i,
                forall|j: int| 0 <= j < i ==> (#[trigger] out@[j]) == self@[j].position,
        {
            out.push(self.rotors[i].position);
        }
        out
    }

    /// The stack turned to the given offsets, rotor by rotor (each offset
    /// wrapped into its rotor's range); `SizeMismatch` when the list does
    /// not cover the rotors exactly.
    pub fn set_positions(&self, positions: &[usize]) -> (r: Result<Self, CipherError>)
        requires
            forall|i: int| 0 <= i < self@.len() ==> (#[trigger] self@[i]).size() > 0,
        ensures
            r is Ok <==> positions@.len() == self@.len(),
            r matches Ok(s) ==> s@.len() == self@.len() && (forall|i: int|
                0 <= i < self@.len() ==> (#[trigger] s@[i]).table == self@[i].table && s@[i].position
                    == (positions@[i] as int) % self@[i].size()),
            r is Err ==> r == Err::<Self, CipherError>(CipherError::SizeMismatch),
    {
        if positions.len() != self.rotors.len() {
            return Err(CipherError::SizeMismatch);
        }
        let len = self.rotors.len();
        let mut rotors: Vec<Rotor> = Vec::new();
        for i in 0..len
            invariant
                len == self.rotors@.len(),
                positions@.len() == len,
                forall|j: int| 0 <= j < self@.len() ==> (#[trigger] self@[j]).size() > 0,
                rotors@.len() == i,
                forall|j: int| 0 <= j < i ==> (#[trigger] rotors@[j])@.table == self@[j].table
                    && rotors@[j]@.position == (positions@[j] as int) % self@[j].size(),
        {
            let p = positions[i];
            proof {
                assert(self@[i as int] == self.rotors@[i as int]@);
                assert(self@[i as int].size() > 0);
            }
            match self.rotors[i].set_position(p) {
                Ok(rot) => rotors.push(rot),
                Err(_) => {
                    proof {
                        assert(false);
                    }
                },
            }
        }
        Ok(RotorSet { rotors })
    }

    /// The stack with every offset turned back to zero.
    pub fn reset_positions(&self) -> (r: Result<Self, CipherError>)
        requires
            forall|i: int| 0 <= i < self@.len() ==> (#[trigger] self@[i]).size() > 0,
        ensures
            r matches Ok(s) && s@.len() == self@.len() && (forall|i: int|
                0 <= i < self@.len() ==> (#[trigger] s@[i]).table == self@[i].table && s@[i].position
                    == 0),
    {
        let len = self.rotors.len();
        let mut zeros: Vec<usize> = Vec::new();
        for _i in 0..len
            invariant
                zeros@.len() == _i,
                forall|j: int| 0 <= j < _i ==> (#[trigger] zeros@[j]) == 0usize,
        {
            zeros.push(0);
        }
        let r = self.set_positions(zeros.as_slice());
        proof {
            assert(r is Ok);
            let s = r->Ok_0;
            assert forall|i: int| 0 <= i < self@.len() implies (#[trigger] s@[i]).table == self@[
                i].table && s@[i].position == 0 by {
                assert(zeros@[i] == 0usize);
                assert((0int) % self@[i].size() == 0) by {
                    vstd::arithmetic::div_mod::lemma_small_mod(0nat, self@[i].size() as nat);
                }
            }
        }
        r
    }

    /// Folds `value` forward through every rotor, first rotor first.
    pub fn encode(&self, value: usize) -> (r: Result<usize, CipherError>)
        requires
            all_wf(self@),
            self@.len() > 0 ==> uniform(self@, self@[0].size()) && (value as int)
                < self@[0].size(),
        ensures
            r matches Ok(v) && v == stack_enc(self@, value as int),
            self@.len() > 0 ==> 0 <= stack_enc(self@, value as int) < self@[0].size(),
    {
        let len = self.rotors.len();
        let mut current = value;
        for i in 0..len
            invariant
                len == self.rotors@.len(),
                all_wf(self@),
                len > 0 ==> uniform(self@, self@[0].size()) && (value as int) < self@[0].size(),
                current as int == stack_enc(self@.take(i as int), value as int),
                i > 0 ==> (current as int) < self@[0].size(),
                i == 0 ==> current == value,
        {
            proof {
                assert(self@.take(i + 1).drop_last() =~= self@.take(i as int));
                assert(self@.take(i + 1).last() == self@[i as int]);
            }
            current = match self.rotors[i].encode(current) {
                Ok(v) => v,
                Err(_) => {
                    proof {
                        assert(false);
                    }
                    0
                },
            };
        }
        proof {
            assert(self@.take(len as int) =~= self@);
        }
        Ok(current)
    }

    /// Folds `value` back through every rotor, last rotor first.
    pub fn decode(&self, value: usize) -> (r: Result<usize, CipherError>)
        requires
            all_wf(self@),
            self@.len() > 0 ==> uniform(self@, self@[0].size()) && (value as int)
                < self@[0].size(),
        ensures
            r matches Ok(v) && v == stack_dec(self@, value as int),
            self@.len() > 0 ==> 0 <= stack_dec(self@, value as int) < self@[0].size(),
    {
        let len = self.rotors.len();
        let mut current = value;
        let mut i = len;
        proof {
            assert(self@.take(len as int) =~= self@);
        }
        while i > 0
            invariant
                i <= len,
                len == self.rotors@.len(),
                all_wf(self@),
                len > 0 ==> uniform(self@, self@[0].size()) && (value as int) < self@[0].size(),
                stack_dec(self@, value as int) == stack_dec(self@.take(i as int), current as int),
                i < len ==> (current as int) < self@[0].size(),
                i == len ==> current == value,
            decreases i,
        {
            proof {
                assert(self@.take(i as int).drop_last() =~= self@.take(i - 1));
                assert(self@.take(i as int).last() == self@[i - 1]);
                if i < len {
                    assert(self@[i - 1].wf() && self@[i - 1].size() == self@[0].size());
                }
                lemma_rotor_round_trip(self@[i - 1], current as int);
            }
            current = match self.rotors[i - 1].decode(current) {
                Ok(v) => v,
                Err(_) => {
                    proof {
                        assert(false);
                    }
                    0
                },
            };
            i = i - 1;
        }
        Ok(current)
    }

    /// One odometer step: the first rotor turns; each rotor that stood at
    /// its last contact before turning carries into the next.
    pub fn next(&mut self)
        requires
            all_wf(old(self)@),
        ensures
            final(self)@ == advanced_stack(old(self)@),
            all_wf(final(self)@),
    {
        let ghost g: Seq<RotorView> = self@;
        let mut out: Vec<Rotor> = Vec::new();
        let mut carry = true;
        proof {
            assert(g.skip(0) =~= g);
            assert(Seq::new(0, |i: int| out@[i]@) + advanced_stack(g) =~= advanced_stack(g));
        }
        while self.rotors.len() > 0
            invariant
                all_wf(g),
                out@.len() + self.rotors@.len() == g.len(),
                self@ =~= g.skip(out@.len() as int),
                carry ==> advanced_stack(g) =~= Seq::new(out@.len(), |i: int| out@[i]@)
                    + advanced_stack(g.skip(out@.len() as int)),
                !carry ==> advanced_stack(g) =~= Seq::new(out@.len(), |i: int| out@[i]@) + g.skip(
                    out@.len() as int,
                ),
            decreases self.rotors@.len(),
        {
            let ghost k = out@.len() as int;
            let ghost pre_rotors = self.rotors@;
            let ghost out_pre = Seq::new(out@.len(), |i: int| out@[i]@);
            let ghost carry_pre = carry;
            let mut r = self.rotors.remove(0);
            proof {
                assert(r == pre_rotors[0]);
                assert(Seq::new(pre_rotors.len(), |i: int| pre_rotors[i]@) =~= g.skip(k));
                assert(r@ == g.skip(k)[0]);
                assert(g.skip(k)[0] == g[k]);
                assert(g.skip(k).drop_first() =~= g.skip(k + 1));
                assert(g[k].wf());
                assert(self@ =~= g.skip(k + 1)) by {
                    assert forall|i: int| 0 <= i < self.rotors@.len() implies self.rotors@[i]@
                        == g.skip(k + 1)[i] by {
                        assert(self.rotors@[i] == pre_rotors[i + 1]);
                        assert(pre_rotors[i + 1]@ == g.skip(k)[i + 1]);
                    }
                }
            }
            if carry {
                let pre = r.position;
                let sz = r.len();
                r.next();
                carry = pre == sz - 1;
                proof {
                    assert(r@ == g[k].advanced());
                    assert(carry == (g[k].position == g[k].size() - 1));
                }
            }
            let ghost rv = r@;
            out.push(r);
            proof {
                let views = Seq::new(out@.len(), |i: int| out@[i]@);
                assert(views =~= out_pre.push(rv));
                let tail = g.skip(k + 1);
                if carry_pre {
                    assert(advanced_stack(g.skip(k)) == seq![g[k].advanced()] + (if g[k].position
                        == g[k].size() - 1 {
                        advanced_stack(tail)
                    } else {
                        tail
                    }));
                    if carry {
                        assert(advanced_stack(g) =~= views + advanced_stack(tail));
                    } else {
                        assert(advanced_stack(g) =~= views + tail);
                    }
                } else {
                    assert(rv == g[k]);
                    assert(g.skip(k) =~= seq![g[k]] + tail);
                    assert(advanced_stack(g) =~= views + tail);
                }
            }
        }
        self.rotors = out;
        proof {
            assert(g.skip(g.len() as int) =~= Seq::<RotorView>::empty());
            assert(self@ =~= advanced_stack(g));
            lemma_advanced_stack_props(g);
        }
    }
}

impl DirectedCipher for RotorSet {
    /// A usable uniform stack, addressed inside its index universe.
    open spec fn accepts(&self, input: usize) -> bool {
        &&& all_wf(self@)
        &&& self@.len() > 0 ==> uniform(self@, self@[0].size()) && (input as int)
            < self@[0].size()
    }

    open spec fn enc_at(&self, input: usize) -> Result<usize, CipherError> {
        Ok(stack_enc(self@, input as int) as usize)
    }

    open spec fn dec_at(&self, input: usize) -> Result<usize, CipherError> {
        Ok(stack_dec(self@, input as int) as usize)
    }

    fn encode(&self, input: usize) -> (r: Result<usize, CipherError>) {
        RotorSet::encode(self, input)
    }

    fn decode(&self, input: usize) -> (r: Result<usize, CipherError>) {
        RotorSet::decode(self, input)
    }
}

} // verus!
