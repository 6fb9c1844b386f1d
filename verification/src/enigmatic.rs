use vstd::prelude::*;

use crate::cipher::CipherError;
use crate::machine::{lemma_encode_char_reciprocal, lemma_stepped_wf, Machine, MachineView};

verus! {

/// What running a string through a machine yields: the encoded symbols
/// (or the first error) together with the machine state left behind. The
/// rotors step once before every symbol, the failing one included.
pub open spec fn encode_run(m: MachineView, s: Seq<char>) -> (Result<Seq<char>, CipherError>,
    MachineView)
    decreases s.len(),
{
    if s.len() == 0 {
        (Ok(Seq::<char>::empty()), m)
    } else {
        let m1 = m.stepped();
        if !m.alphabet.contains(s[0]) {
            (Err(CipherError::UnknownSymbol), m1)
        } else {
            let c = m1.encode_char(s[0]);
            let rest = encode_run(m1, s.drop_first());
            match rest.0 {
                Ok(out) => (Ok(seq![c] + out), rest.1),
                Err(e) => (Err(e), rest.1),
            }
        }
    }
}

/// Machine reciprocity, end to end: a string of alphabet symbols encodes
/// without error; encoding the ciphertext from the same starting state
/// yields the original string exactly.
pub proof fn lemma_encode_run_reciprocal(m: MachineView, s: Seq<char>)
    requires
        m.wf(),
        forall|i: int| 0 <= i < s.len() ==> m.alphabet.contains(#[trigger] s[i]),
    ensures
        encode_run(m, s).0 is Ok,
        encode_run(m, s).0->Ok_0.len() == s.len(),
        forall|i: int|
            0 <= i < s.len() ==> m.alphabet.contains(#[trigger] encode_run(m, s).0->Ok_0[i]),
        encode_run(m, encode_run(m, s).0->Ok_0).0 == Ok::<Seq<char>, CipherError>(s),
    decreases s.len(),
{
    if s.len() == 0 {
        assert(encode_run(m, s).0 == Ok::<Seq<char>, CipherError>(Seq::<char>::empty()));
        assert(Seq::<char>::empty() =~= s);
    } else {
        let m1 = m.stepped();
        lemma_stepped_wf(m);
        let c = m1.encode_char(s[0]);
        lemma_encode_char_reciprocal(m1, s[0]);
        let tail = s.drop_first();
        assert(forall|i: int| 0 <= i < tail.len() ==> m.alphabet.contains(#[trigger] tail[i]))
            by {
            assert(forall|i: int| 0 <= i < tail.len() ==> tail[i] == s[i + 1]);
        }
        lemma_encode_run_reciprocal(m1, tail);
        let t = encode_run(m1, tail).0->Ok_0;
        let cipher = seq![c] + t;
        assert(encode_run(m, s).0 == Ok::<Seq<char>, CipherError>(cipher));
        assert(cipher.len() == s.len());
        assert forall|i: int| 0 <= i < s.len() implies m.alphabet.contains(
            #[trigger] cipher[i],
        ) by {
            if i > 0 {
                assert(cipher[i] == t[i - 1]);
            }
        }
        // The second run over the ciphertext undoes the first symbol by
        // symbol: each position sees the same stepped machine.
        assert(cipher[0] == c);
        assert(m1.encode_char(c) == s[0]);
        assert(cipher.drop_first() =~= t);
        assert(encode_run(m1, t).0 == Ok::<Seq<char>, CipherError>(tail));
        assert(encode_run(m, cipher).0 == Ok::<Seq<char>, CipherError>(seq![s[0]] + tail));
        assert(seq![s[0]] + tail =~= s);
    }
}

/// One symbol of a run, unfolded: how the run over the suffix from `i`
/// relates to the run over the suffix from `i + 1` on the stepped
/// machine.
proof fn lemma_encode_run_step(m: MachineView, s: Seq<char>, i: int)
    requires
        0 <= i < s.len(),
    ensures
        m.alphabet.contains(s[i]) ==> encode_run(m, s.skip(i)).1 == encode_run(
            m.stepped(),
            s.skip(i + 1),
        ).1 && encode_run(m, s.skip(i)).0 == match encode_run(m.stepped(), s.skip(i + 1)).0 {
            Ok(t) => Ok::<Seq<char>, CipherError>(seq![m.stepped().encode_char(s[i])] + t),
            Err(e) => Err::<Seq<char>, CipherError>(e),
        },
        !m.alphabet.contains(s[i]) ==> encode_run(m, s.skip(i)).0 == Err::<Seq<char>, CipherError>(
            CipherError::UnknownSymbol,
        ) && encode_run(m, s.skip(i)).1 == m.stepped(),
{
    let rest = s.skip(i);
    assert(rest.len() == s.len() - i);
    assert(rest[0] == s[i]);
    assert(rest.drop_first() =~= s.skip(i + 1));
}

/// Relies on `String::push`: appends exactly the one character to the
/// end of the string.
#[verifier::external_body]
fn push_char(s: &mut String, c: char)
    ensures
        final(s)@ == old(s)@.push(c),
{
    s.push(c);
}

/// The character-level wrapper around a machine: runs whole strings
/// through it, stepping the rotors once before each symbol.
pub struct Enigmatic {}

impl Enigmatic {
    /// Encodes `input` symbol by symbol, threading the machine state
    /// through; stops at the first symbol the alphabet lacks, with the
    /// rotors already stepped for it, exactly as `encode_run` describes.
    pub fn encode_str(m: &mut Machine, input: &str) -> (r: Result<String, CipherError>)
        requires
            old(m)@.wf(),
        ensures
            final(m)@.wf(),
            encode_run(old(m)@, input@).1 == final(m)@,
            match r {
                Ok(s) => encode_run(old(m)@, input@).0 == Ok::<Seq<char>, CipherError>(s@),
                Err(e) => encode_run(old(m)@, input@).0 == Err::<Seq<char>, CipherError>(e),
            },
    {
        let ghost m0 = m@;
        let ghost s = input@;
        let len = input.unicode_len();
        let mut out = String::new();
        proof {
            assert(s.skip(0) =~= s);
            assert(out@ + encode_run(m@, s).0->Ok_0 =~= encode_run(m@, s).0->Ok_0);
        }
        let mut i: usize = 0;
        let mut failed = false;
        while i < len && !failed
            invariant
                i <= len,
                len == s.len(),
                m@.wf(),
                input@ == s,
                !failed ==> encode_run(m0, s).1 == encode_run(m@, s.skip(i as int)).1,
                !failed ==> encode_run(m0, s).0 == match encode_run(m@, s.skip(i as int)).0 {
                    Ok(t) => Ok::<Seq<char>, CipherError>(out@ + t),
                    Err(e) => Err::<Seq<char>, CipherError>(e),
                },
                failed ==> encode_run(m0, s).0 == Err::<Seq<char>, CipherError>(
                    CipherError::UnknownSymbol,
                ) && encode_run(m0, s).1 == m@,
            decreases len - i + (if failed {
                0int
            } else {
                1int
            }),
        {
            let ghost m_pre = m@;
            let ghost out_pre = out@;
            let c = input.get_char(i);
            m.next();
            proof {
                lemma_stepped_wf(m_pre);
                lemma_encode_run_step(m_pre, s, i as int);
                assert(m@ == m_pre.stepped());
            }
            match m.encode(c) {
                Ok(o) => {
                    push_char(&mut out, o);
                    proof {
                        assert(m_pre.alphabet.contains(s[i as int]));
                        assert(m@.encode_char(s[i as int]) == o);
                        if encode_run(m@, s.skip(i + 1)).0 is Ok {
                            let t = encode_run(m@, s.skip(i + 1)).0->Ok_0;
                            assert(out_pre + (seq![o] + t) =~= out@ + t);
                        }
                    }
                },
                Err(_) => {
                    proof {
                        assert(!m_pre.alphabet.contains(s[i as int]));
                        assert(encode_run(m0, s).0 == Err::<Seq<char>, CipherError>(
                            CipherError::UnknownSymbol,
                        ));
                        assert(encode_run(m0, s).1 == m@);
                    }
                    failed = true;
                },
            }
            if !failed {
                i = i + 1;
            }
        }
        if failed {
            return Err(CipherError::UnknownSymbol);
        }
        proof {
            assert(i == len);
            assert(s.skip(len as int) =~= Seq::<char>::empty());
            assert(encode_run(m@, Seq::<char>::empty()).0 == Ok::<Seq<char>, CipherError>(
                Seq::<char>::empty(),
            ));
            assert(encode_run(m@, Seq::<char>::empty()).1 == m@);
            assert(encode_run(m0, s).1 == m@);
            assert(out@ + Seq::<char>::empty() =~= out@);
            assert(encode_run(m0, s).0 == Ok::<Seq<char>, CipherError>(out@));
        }
        Ok(out)
    }
}

} // verus!
