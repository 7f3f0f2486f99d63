use vstd::multiset::Multiset;
use vstd::prelude::*;

use crate::random::random_between;

verus! {

/// Something that can be drawn from, one outcome per draw.
///
/// `can_toss(n)` says that `n` further draws are allowed from the current
/// state, and `step(o, next)` that one draw from the current state may give
/// the outcome `o` and leave the state `next`.
pub trait Tossable: Sized {
    type Outcome;

    spec fn can_toss(&self, n: nat) -> bool;

    spec fn step(&self, o: Self::Outcome, next: Self) -> bool;

    /// A draw that was allowed leaves room for all the draws that were
    /// allowed after it.
    proof fn lemma_step_can_toss(&self, o: Self::Outcome, next: Self, n: nat)
        requires
            self.can_toss(n + 1),
            self.step(o, next),
        ensures
            next.can_toss(n),
    ;

    /// Room for some draws is room for fewer.
    proof fn lemma_can_toss_fewer(&self, m: nat, n: nat)
        requires
            self.can_toss(n),
            m <= n,
        ensures
            self.can_toss(m),
    ;

    /// Draws one outcome.
    fn toss(&mut self) -> (r: Self::Outcome)
        requires
            old(self).can_toss(1),
        ensures
            old(self).step(r, *final(self)),
    ;

    /// Draws `n` outcomes, one `toss` after the other, in call order.
    fn toss_many(&mut self, n: u64) -> (r: Vec<Self::Outcome>)
        requires
            old(self).can_toss(n as nat),
        ensures
            r@.len() == n,
            exists|states: Seq<Self>|
                #![trigger states.len()]
                states.len() == n + 1 && states[0] == *old(self) && states.last() == *final(self)
                    && forall|k: int|
                    0 <= k < n ==> #[trigger] states[k].step(r@[k], states[k + 1]),
    {
        let ghost start = *self;
        let ghost mut states: Seq<Self> = seq![*self];
        let mut out: Vec<Self::Outcome> = Vec::new();
        let mut i: u64 = 0;
        while i < n
            invariant
                i <= n,
                out@.len() == i,
                self.can_toss((n - i) as nat),
                states.len() == i + 1,
                states[0] == start,
                states[i as int] == *self,
                forall|k: int| 0 <= k < i ==> #[trigger] states[k].step(out@[k], states[k + 1]),
            decreases n - i,
        {
            let ghost before = *self;
            proof {
                self.lemma_can_toss_fewer(1, (n - i) as nat);
            }
            let o = self.toss();
            proof {
                before.lemma_step_can_toss(o, *self, (n - i - 1) as nat);
                states = states.push(*self);
            }
            out.push(o);
            i = i + 1;
        }
        assert(states.len() == n + 1 && states[0] == start && states.last() == *self);
        out
    }
}

/// `outs` is what a run of draws from `start` gave, one after the other,
/// with `end` the state that the run left; `toss_many` promises exactly this.
pub open spec fn is_run<T: Tossable>(start: T, outs: Seq<T::Outcome>, end: T) -> bool {
    exists|states: Seq<T>|
        #![trigger states.len()]
        states.len() == outs.len() + 1 && states[0] == start && states.last() == end && forall|
            k: int,
        |
            0 <= k < outs.len() ==> #[trigger] states[k].step(outs[k], states[k + 1])
}

/// The two faces of a coin.
#[derive(Clone, Copy, Debug, PartialEq, Eq, Structural)]
pub enum CoinFace {
    Heads,
    Tails,
}

impl CoinFace {
    /// The face's name as it is printed.
    pub fn label(&self) -> (r: &'static str)
        ensures
            r@ == face_label(*self),
    {
        match self {
            CoinFace::Heads => "heads",
            CoinFace::Tails => "tails",
        }
    }
}

impl AsRef<str> for CoinFace {
    fn as_ref(&self) -> (r: &str)
        ensures
            r@ == face_label(*self),
    {
        self.label()
    }
}

pub open spec fn face_label(f: CoinFace) -> Seq<char> {
    match f {
        CoinFace::Heads => "heads"@,
        CoinFace::Tails => "tails"@,
    }
}

/// A coin that falls on heads with a chance of `heads_probability` in a hundred.
pub struct Coin {
    heads_probability: u64,
}

impl Coin {
    /// The chance of heads, in hundredths.
    pub closed spec fn probability(&self) -> nat {
        self.heads_probability as nat
    }

    pub open spec fn wf(&self) -> bool {
        self.probability() <= 100
    }

    /// The face shown for a roll in `0..100`: heads when the roll is under
    /// the probability.
    pub open spec fn face_for_roll(&self, roll: nat) -> CoinFace {
        if roll < self.probability() {
            CoinFace::Heads
        } else {
            CoinFace::Tails
        }
    }

    pub fn new(heads_probability: u64) -> (r: Self)
        requires
            heads_probability <= 100,
        ensures
            r.wf(),
            r.probability() == heads_probability,
    {
        Self { heads_probability }
    }

    /// The face that the roll `roll`, drawn uniformly from `0..100`, gives.
    pub fn face(&self, roll: u64) -> (r: CoinFace)
        requires
            roll < 100,
        ensures
            r == self.face_for_roll(roll as nat),
    {
        if roll < self.heads_probability {
            CoinFace::Heads
        } else {
            CoinFace::Tails
        }
    }
}

impl Tossable for Coin {
    type Outcome = CoinFace;

    open spec fn can_toss(&self, n: nat) -> bool {
        self.wf()
    }

    open spec fn step(&self, o: CoinFace, next: Coin) -> bool {
        &&& next == *self
        &&& exists|roll: nat| roll < 100 && o == #[trigger] self.face_for_roll(roll)
    }

    proof fn lemma_step_can_toss(&self, o: CoinFace, next: Coin, n: nat) {
    }

    proof fn lemma_can_toss_fewer(&self, m: nat, n: nat) {
    }

    fn toss(&mut self) -> (r: CoinFace) {
        let roll = random_between(0, 99);
        self.face(roll)
    }
}

/// A die whose faces are the integers from `min` to `max`, both included.
pub struct Dice {
    pub min: u64,
    pub max: u64,
}

/// The message of the error that `Dice::new` returns on an empty range.
pub open spec fn invalid_range_message() -> Seq<char> {
    "Min must be > max"@
}

impl Dice {
    pub open spec fn wf(&self) -> bool {
        self.min < self.max
    }

    /// Fails exactly when `min >= max`.
    pub fn new(min: u64, max: u64) -> (r: Result<Self, &'static str>)
        ensures
            r is Ok <==> min < max,
            r matches Ok(d) ==> d.min == min && d.max == max,
            r matches Err(e) ==> e@ == invalid_range_message(),
    {
        if min >= max {
            proof {
                reveal_strlit("Min must be > max");
            }
            return Err("Min must be > max");
        }
        Ok(Self { min, max })
    }
}

impl Tossable for Dice {
    type Outcome = u64;

    open spec fn can_toss(&self, n: nat) -> bool {
        self.wf()
    }

    open spec fn step(&self, o: u64, next: Dice) -> bool {
        next == *self && self.min <= o <= self.max
    }

    proof fn lemma_step_can_toss(&self, o: u64, next: Dice, n: nat) {
    }

    proof fn lemma_can_toss_fewer(&self, m: nat, n: nat) {
    }

    fn toss(&mut self) -> (r: u64) {
        random_between(self.min, self.max)
    }
}

/// Draws with replacement from a fixed list of options.
pub struct Chooser {
    options: Vec<String>,
}

impl Chooser {
    /// The options drawn from, in the order given.
    pub closed spec fn pool(&self) -> Seq<String> {
        self.options@
    }

    pub fn new(options: Vec<String>) -> (r: Self)
        ensures
            r.pool() == options@,
    {
        Self { options }
    }

    /// The options drawn from.
    pub fn options(&self) -> (r: &Vec<String>)
        ensures
            r@ == self.pool(),
    {
        &self.options
    }

    /// The option at `idx`, where `idx` was drawn uniformly from the
    /// positions of the pool.
    pub fn pick(&self, idx: usize) -> (r: String)
        requires
            idx < self.pool().len(),
        ensures
            r == self.pool()[idx as int],
    {
        self.options[idx].clone()
    }
}

impl Tossable for Chooser {
    type Outcome = String;

    open spec fn can_toss(&self, n: nat) -> bool {
        self.pool().len() > 0
    }

    open spec fn step(&self, o: String, next: Chooser) -> bool {
        next == *self && self.pool().contains(o)
    }

    proof fn lemma_step_can_toss(&self, o: String, next: Chooser, n: nat) {
    }

    proof fn lemma_can_toss_fewer(&self, m: nat, n: nat) {
    }

    fn toss(&mut self) -> (r: String) {
        let idx = random_between(0, (self.options.len() - 1) as u64) as usize;
        self.pick(idx)
    }
}

/// Draws without replacement: each draw takes its option out of the pool.
pub struct Extractor {
    options: Vec<String>,
}

impl Extractor {
    /// The options that are left; their order carries no meaning.
    pub closed spec fn pool(&self) -> Seq<String> {
        self.options@
    }

    pub fn new(options: Vec<String>) -> (r: Self)
        ensures
            r.pool() == options@,
    {
        Self { options }
    }

    /// The options that are left.
    pub fn options(&self) -> (r: &Vec<String>)
        ensures
            r@ == self.pool(),
    {
        &self.options
    }

    /// Takes out and returns the option at `idx`, where `idx` was drawn
    /// uniformly from the positions of the pool; the last option fills
    /// its place.
    pub fn take(&mut self, idx: usize) -> (r: String)
        requires
            idx < old(self).pool().len(),
        ensures
            r == old(self).pool()[idx as int],
            final(self).pool().to_multiset() == old(self).pool().to_multiset().remove(r),
            final(self).pool().len() == old(self).pool().len() - 1,
    {
        let ghost before = self.options@;
        let r = self.options.swap_remove(idx);
        proof {
            let updated = before.update(idx as int, before.last());
            broadcast use vstd::seq_lib::group_to_multiset_ensures;

            vstd::seq_lib::to_multiset_update(before, idx as int, before.last());
            assert(updated.drop_last().push(updated.last()) == updated);
            vstd::seq_lib::to_multiset_build(updated.drop_last(), updated.last());
            assert(updated.last() == before.last());
            assert(before.contains(r));
            assert(before.to_multiset().count(r) > 0);
            let m = before.to_multiset();
            let m2 = self.options@.to_multiset();
            assert forall|x: String| #[trigger] m2.count(x) == m.remove(r).count(x) by {
                assert(m2.insert(before.last()).count(x) == m.insert(before.last()).remove(
                    r,
                ).count(x));
            }
            assert(m2 =~= m.remove(r));
        }
        r
    }
}

impl Tossable for Extractor {
    type Outcome = String;

    open spec fn can_toss(&self, n: nat) -> bool {
        n <= self.pool().len()
    }

    open spec fn step(&self, o: String, next: Extractor) -> bool {
        &&& self.pool().contains(o)
        &&& next.pool().len() + 1 == self.pool().len()
        &&& next.pool().to_multiset() == self.pool().to_multiset().remove(o)
    }

    proof fn lemma_step_can_toss(&self, o: String, next: Extractor, n: nat) {
    }

    proof fn lemma_can_toss_fewer(&self, m: nat, n: nat) {
    }

    fn toss(&mut self) -> (r: String) {
        let idx = random_between(0, (self.options.len() - 1) as u64) as usize;
        self.take(idx)
    }
}

/// In a run from a sampler whose draws never change its state, every state
/// of the run is the first.
proof fn lemma_run_states_fixed<T: Tossable>(states: Seq<T>, outs: Seq<T::Outcome>, k: int)
    requires
        states.len() == outs.len() + 1,
        forall|j: int| 0 <= j < outs.len() ==> #[trigger] states[j].step(outs[j], states[j + 1]),
        forall|s: T, o: T::Outcome, n: T| #[trigger] s.step(o, n) ==> n == s,
        0 <= k < states.len(),
    ensures
        states[k] == states[0],
    decreases k,
{
    if k > 0 {
        lemma_run_states_fixed(states, outs, k - 1);
        assert(states[k - 1].step(outs[k - 1], states[k - 1 + 1]));
    }
}

/// Every face thrown lies in the die's range, and throwing leaves the die
/// as it was.
pub proof fn lemma_dice_run_within(d: Dice, outs: Seq<u64>, end: Dice)
    requires
        is_run(d, outs, end),
    ensures
        end == d,
        forall|k: int| 0 <= k < outs.len() ==> d.min <= #[trigger] outs[k] <= d.max,
{
    let states = choose|states: Seq<Dice>|
        #![trigger states.len()]
        states.len() == outs.len() + 1 && states[0] == d && states.last() == end && forall|k: int|
            0 <= k < outs.len() ==> #[trigger] states[k].step(outs[k], states[k + 1]);
    lemma_run_states_fixed(states, outs, outs.len() as int);
    assert forall|k: int| 0 <= k < outs.len() implies d.min <= #[trigger] outs[k] <= d.max by {
        lemma_run_states_fixed(states, outs, k);
        assert(states[k].step(outs[k], states[k + 1]));
    }
}

/// A coin that never shows heads (probability 0) throws only tails, and one
/// that always does (probability 100) throws only heads; either way the coin
/// is left as it was.
pub proof fn lemma_coin_run_extremes(c: Coin, outs: Seq<CoinFace>, end: Coin)
    requires
        is_run(c, outs, end),
    ensures
        end == c,
        c.probability() == 0 ==> forall|k: int| 0 <= k < outs.len() ==> #[trigger] outs[k] == CoinFace::Tails,
        c.probability() == 100 ==> forall|k: int| 0 <= k < outs.len() ==> #[trigger] outs[k] == CoinFace::Heads,
{
    let states = choose|states: Seq<Coin>|
        #![trigger states.len()]
        states.len() == outs.len() + 1 && states[0] == c && states.last() == end && forall|k: int|
            0 <= k < outs.len() ==> #[trigger] states[k].step(outs[k], states[k + 1]);
    lemma_run_states_fixed(states, outs, outs.len() as int);
    assert forall|k: int| 0 <= k < outs.len() implies (c.probability() == 0 ==> outs[k]
        == CoinFace::Tails) && (c.probability() == 100 ==> outs[k] == CoinFace::Heads) by {
        lemma_run_states_fixed(states, outs, k);
        assert(states[k].step(outs[k], states[k + 1]));
    }
}

/// Choosing with replacement leaves the pool as it was, and every option
/// chosen is one of the pool.
pub proof fn lemma_chooser_run_keeps_pool(c: Chooser, outs: Seq<String>, end: Chooser)
    requires
        is_run(c, outs, end),
    ensures
        end == c,
        end.pool() == c.pool(),
        forall|k: int| 0 <= k < outs.len() ==> c.pool().contains(#[trigger] outs[k]),
{
    let states = choose|states: Seq<Chooser>|
        #![trigger states.len()]
        states.len() == outs.len() + 1 && states[0] == c && states.last() == end && forall|k: int|
            0 <= k < outs.len() ==> #[trigger] states[k].step(outs[k], states[k + 1]);
    lemma_run_states_fixed(states, outs, outs.len() as int);
    assert forall|k: int| 0 <= k < outs.len() implies c.pool().contains(#[trigger] outs[k]) by {
        lemma_run_states_fixed(states, outs, k);
        assert(states[k].step(outs[k], states[k + 1]));
    }
}

proof fn lemma_extractor_states(states: Seq<Extractor>, outs: Seq<String>, k: int)
    requires
        states.len() == outs.len() + 1,
        forall|j: int| 0 <= j < outs.len() ==> #[trigger] states[j].step(outs[j], states[j + 1]),
        0 <= k < states.len(),
    ensures
        states[k].pool().to_multiset().add(outs.take(k).to_multiset())
            == states[0].pool().to_multiset(),
        states[k].pool().len() + k == states[0].pool().len(),
    decreases k,
{
    broadcast use vstd::seq_lib::group_to_multiset_ensures;

    if k == 0 {
        assert(outs.take(0) == Seq::<String>::empty());
        assert(states[0].pool().to_multiset().add(Multiset::empty()) =~= states[0].pool().to_multiset());
    } else {
        lemma_extractor_states(states, outs, k - 1);
        let o = outs[k - 1];
        let before = states[k - 1].pool().to_multiset();
        let after = states[k].pool().to_multiset();
        assert(states[k - 1].step(outs[k - 1], states[k - 1 + 1]));
        assert(states[k - 1].step(o, states[k]));
        assert(before.count(o) > 0);
        assert(outs.take(k) == outs.take(k - 1).push(o));
        vstd::seq_lib::to_multiset_build(outs.take(k - 1), o);
        assert(after.add(outs.take(k).to_multiset()) =~= before.add(outs.take(k - 1).to_multiset()));
    }
}

/// Drawing without replacement neither loses nor makes an option: the
/// options drawn and those left make up the first pool, as a multiset.
pub proof fn lemma_extractor_run_conserves(e: Extractor, outs: Seq<String>, end: Extractor)
    requires
        is_run(e, outs, end),
    ensures
        end.pool().to_multiset().add(outs.to_multiset()) == e.pool().to_multiset(),
        end.pool().len() + outs.len() == e.pool().len(),
{
    let states = choose|states: Seq<Extractor>|
        #![trigger states.len()]
        states.len() == outs.len() + 1 && states[0] == e && states.last() == end && forall|k: int|
            0 <= k < outs.len() ==> #[trigger] states[k].step(outs[k], states[k + 1]);
    lemma_extractor_states(states, outs, outs.len() as int);
    assert(outs.take(outs.len() as int) == outs);
}

} // verus!
