//! The transcript between prover and verifier.

use crate::field::gf2_128::F128;
use crate::field::gf2_256::F256;
use vstd::prelude::*;

verus! {

/// One step of a transcript.
pub enum Event {
    /// A domain-separation label was observed.
    Label(Seq<u8>),
    /// A message of field elements was observed.
    Message(Seq<F256>),
    /// A challenge was drawn.
    Draw,
}

/// A source of challenges that is bound to a transcript: every challenge is
/// determined by what was observed and drawn before it.
///
/// `transcript` and `answers` describe a source and cost nothing at run time. A
/// verified source gives both their meaning; one in plain Rust leaves them out.
pub trait Challenger {
    /// The steps so far.
    open spec fn transcript(&self) -> Seq<Event> {
        Seq::empty()
    }

    /// The challenge that is drawn after a transcript.
    open spec fn answers(&self) -> spec_fn(Seq<Event>) -> F256 {
        |t: Seq<Event>| F256::zero()
    }

    /// Binds a label into the transcript.
    fn observe_label(&mut self, label: &[u8])
        ensures
            final(self).transcript() == old(self).transcript().push(Event::Label(label@)),
            final(self).answers() == old(self).answers(),
    ;

    /// Binds a message into the transcript.
    fn observe_f256_slice(&mut self, values: &[F256])
        ensures
            final(self).transcript() == old(self).transcript().push(Event::Message(values@)),
            final(self).answers() == old(self).answers(),
    ;

    /// Draws one challenge.
    fn sample_f256(&mut self) -> (r: F256)
        ensures
            r == old(self).answers()(old(self).transcript()),
            final(self).transcript() == old(self).transcript().push(Event::Draw),
            final(self).answers() == old(self).answers(),
    ;
}

/// The transcript after `n` further draws.
pub open spec fn after_draws(t: Seq<Event>, n: nat) -> Seq<Event> {
    t + Seq::new(n, |i: int| Event::Draw)
}

/// The next `n` challenges.
pub open spec fn draws(answers: spec_fn(Seq<Event>) -> F256, t: Seq<Event>, n: nat) -> Seq<F256> {
    Seq::new(n, |i: int| answers(after_draws(t, i as nat)))
}

/// Draws `n` challenges, one after the other.
pub fn sample_f256_vec<Ch: Challenger>(challenger: &mut Ch, n: usize) -> (v: Vec<F256>)
    ensures
        v@ == draws(old(challenger).answers(), old(challenger).transcript(), n as nat),
        final(challenger).transcript() == after_draws(old(challenger).transcript(), n as nat),
        final(challenger).answers() == old(challenger).answers(),
        v@.len() == n,
        forall|i: int|
            0 <= i < n ==> #[trigger] v@[i] == old(challenger).answers()(
                old(challenger).transcript() + Seq::new(i as nat, |k: int| Event::Draw),
            ),
        final(challenger).transcript() == old(challenger).transcript() + Seq::new(
            n as nat,
            |k: int| Event::Draw,
        ),
{
    let mut v: Vec<F256> = Vec::new();
    let ghost a = challenger.answers();
    let ghost t = challenger.transcript();
    let mut i: usize = 0;
    proof {
        assert(after_draws(t, 0) =~= t);
    }
    while i < n
        invariant
            i <= n,
            v.len() == i,
            challenger.answers() == a,
            challenger.transcript() == after_draws(t, i as nat),
            forall|k: int| 0 <= k < i ==> #[trigger] v@[k] == a(after_draws(t, k as nat)),
        decreases n - i,
    {
        let c = challenger.sample_f256();
        v.push(c);
        proof {
            assert(challenger.transcript() =~= after_draws(t, (i + 1) as nat));
        }
        i = i + 1;
    }
    proof {
        assert(v@ =~= draws(a, t, n as nat));
    }
    v
}

// ---------------------------------------------------------------------------
// A seeded source for simulations and benchmarks.
// ---------------------------------------------------------------------------

/// The increment of the generator's state.
const GAMMA: u64 = 0x9E3779B97F4A7C15;

/// The number of draws in a transcript.
pub open spec fn count_draws(t: Seq<Event>) -> nat
    decreases t.len(),
{
    if t.len() == 0 {
        0
    } else {
        count_draws(t.drop_last()) + (if t.last() is Draw {
            1nat
        } else {
            0nat
        })
    }
}

/// The finalizer of SplitMix64.
pub open spec fn mix(s: u64) -> u64 {
    let a = (((s ^ (s >> 30u64)) * 0xBF58476D1CE4E5B9) % 0x1_0000_0000_0000_0000) as u64;
    let b = (((a ^ (a >> 27u64)) * 0x94D049BB133111EB) % 0x1_0000_0000_0000_0000) as u64;
    b ^ (b >> 31u64)
}

/// The state `k` steps after `s`.
pub open spec fn stepped(s: u64, k: int) -> u64 {
    ((s + k * 0x9E3779B97F4A7C15) % 0x1_0000_0000_0000_0000) as u64
}

/// The element made of the four outputs that follow state `s`.
pub open spec fn drawn(s: u64) -> F256 {
    F256 {
        c0: F128 { lo: mix(stepped(s, 1)), hi: mix(stepped(s, 2)) },
        c1: F128 { lo: mix(stepped(s, 3)), hi: mix(stepped(s, 4)) },
    }
}

/// Challenges from a seeded SplitMix64 generator. They depend on the number of
/// earlier draws only, not on what was observed, so this is no substitute for a
/// hash-based transcript.
pub struct RandomChallenger {
    state: u64,
    events: Ghost<Seq<Event>>,
}

/// Finalizes one state.
fn mix_state(s: u64) -> (r: u64)
    ensures
        r == mix(s),
        ({
            let a = (s ^ (s >> 30u64)).wrapping_mul(0xBF58476D1CE4E5B9);
            let b = (a ^ (a >> 27u64)).wrapping_mul(0x94D049BB133111EB);
            r == b ^ (b >> 31u64)
        }),
{
    let a: u64 = (s ^ (s >> 30)).wrapping_mul(0xBF58476D1CE4E5B9);
    let b: u64 = (a ^ (a >> 27)).wrapping_mul(0x94D049BB133111EB);
    b ^ (b >> 31)
}

impl RandomChallenger {
    /// The current state of the generator.
    pub closed spec fn generator(self) -> u64 {
        self.state
    }

    /// Starts from a seed with an empty transcript. The challenge after a
    /// transcript with `n` draws is made of the outputs `4n + 1` to `4n + 4`.
    pub fn new(seed: u64) -> (r: RandomChallenger)
        ensures
            r.transcript() == Seq::<Event>::empty(),
            forall|t: Seq<Event>| #[trigger]
                r.answers()(t) == drawn(stepped(seed, 4 * count_draws(t) as int)),
            forall|t: Seq<Event>|
                {
                    let n = 4 * count_draws(t) as int;
                    let v = #[trigger] r.answers()(t);
                    &&& v.c0.lo == mix(stepped(seed, n + 1))
                    &&& v.c0.hi == mix(stepped(seed, n + 2))
                    &&& v.c1.lo == mix(stepped(seed, n + 3))
                    &&& v.c1.hi == mix(stepped(seed, n + 4))
                },
    {
        let r = RandomChallenger { state: seed, events: Ghost(Seq::empty()) };
        proof {
            assert(count_draws(r.events@) == 0);
            assert forall|t: Seq<Event>|
                {
                    let n = 4 * count_draws(t) as int;
                    let v = #[trigger] r.answers()(t);
                    &&& v.c0.lo == mix(stepped(seed, n + 1))
                    &&& v.c0.hi == mix(stepped(seed, n + 2))
                    &&& v.c1.lo == mix(stepped(seed, n + 3))
                    &&& v.c1.hi == mix(stepped(seed, n + 4))
                } by {
                let n = 4 * count_draws(t) as int;
                lemma_stepped(seed, n, 1);
                lemma_stepped(seed, n, 2);
                lemma_stepped(seed, n, 3);
                lemma_stepped(seed, n, 4);
            }
        }
        r
    }

    fn next_u64(&mut self) -> (r: u64)
        ensures
            final(self).state == stepped(old(self).state, 1),
            r == mix(stepped(old(self).state, 1)),
            final(self).events == old(self).events,
    {
        self.state = self.state.wrapping_add(GAMMA);
        mix_state(self.state)
    }
}

/// Steps add up, and one step adds the increment.
pub proof fn lemma_stepped(s: u64, j: int, k: int)
    ensures
        stepped(stepped(s, j), k) == stepped(s, j + k),
        stepped(s, 0) == s,
        stepped(s, 1) == (s + 0x9E3779B97F4A7C15) % 0x1_0000_0000_0000_0000,
{
    let g = 0x9E3779B97F4A7C15int;
    let m = 0x1_0000_0000_0000_0000int;
    let a = s + j * g;
    vstd::arithmetic::div_mod::lemma_add_mod_noop(a, k * g, m);
    vstd::arithmetic::div_mod::lemma_add_mod_noop(a % m, k * g, m);
    assert((a % m) % m == a % m);
    assert(a + k * g == s + (j + k) * g) by (nonlinear_arith)
        requires
            a == s + j * g,
    ;
}

/// One more step adds one draw where it is a draw.
pub proof fn lemma_count(t: Seq<Event>, e: Event)
    ensures
        count_draws(Seq::empty()) == 0,
        count_draws(t.push(e)) == count_draws(t) + (if e is Draw {
            1nat
        } else {
            0nat
        }),
{
    assert(t.push(e).drop_last() =~= t);
}

impl Challenger for RandomChallenger {
    closed spec fn transcript(&self) -> Seq<Event> {
        self.events@
    }

    closed spec fn answers(&self) -> spec_fn(Seq<Event>) -> F256 {
        |t: Seq<Event>| drawn(stepped(self.state, 4 * (count_draws(t) - count_draws(self.events@))))
    }

    fn observe_label(&mut self, label: &[u8]) {
        proof {
            lemma_count(self.events@, Event::Label(label@));
        }
        self.events = Ghost(self.events@.push(Event::Label(label@)));
        proof {
            assert(final(self).answers() =~= old(self).answers());
        }
    }

    fn observe_f256_slice(&mut self, values: &[F256]) {
        proof {
            lemma_count(self.events@, Event::Message(values@));
        }
        self.events = Ghost(self.events@.push(Event::Message(values@)));
    }

    fn sample_f256(&mut self) -> (r: F256) {
        let ghost s = self.state;
        let ghost t = self.events@;
        let w0: u64 = self.next_u64();
        let w1: u64 = self.next_u64();
        let w2: u64 = self.next_u64();
        let w3: u64 = self.next_u64();
        self.events = Ghost(self.events@.push(Event::Draw));
        proof {
            lemma_stepped(s, 0, 0);
            lemma_stepped(s, 1, 1);
            lemma_stepped(s, 2, 1);
            lemma_stepped(s, 3, 1);
            lemma_count(t, Event::Draw);
            assert forall|u: Seq<Event>| #[trigger]
                self.answers()(u) == old(self).answers()(u) by {
                lemma_stepped(s, 4, 4 * (count_draws(u) - count_draws(t) - 1));
            }
            assert(self.answers() =~= old(self).answers());
        }
        F256 { c0: F128 { lo: w0, hi: w1 }, c1: F128 { lo: w2, hi: w3 } }
    }
}

} // verus!
