use vstd::prelude::*;
use crate::patterns::texts;

verus! {

/// What a run of failures is counted against.
pub enum RateLimitKey {
    /// An event that failed validation.
    Event(String),
    /// The set of signing identities whose signatures failed to verify, in order.
    Signatures(Vec<String>),
    /// A server whose queries keep failing.
    Server(String),
    /// A compound query key.
    Query(String),
}

/// The model of a `RateLimitKey`.
pub enum KeyView {
    Event(Seq<char>),
    Signatures(Seq<Seq<char>>),
    Server(Seq<char>),
    Query(Seq<char>),
}

impl RateLimitKey {
    pub open spec fn view(&self) -> KeyView {
        match self {
            RateLimitKey::Event(s) => KeyView::Event(s@),
            RateLimitKey::Signatures(v) => KeyView::Signatures(texts(v@)),
            RateLimitKey::Server(s) => KeyView::Server(s@),
            RateLimitKey::Query(s) => KeyView::Query(s@),
        }
    }

    /// Whether two keys name the same thing.
    pub fn same_as(&self, other: &RateLimitKey) -> (r: bool)
        ensures
            r == (self.view() == other.view()),
    {
        match (self, other) {
            (RateLimitKey::Event(a), RateLimitKey::Event(b)) => *a == *b,
            (RateLimitKey::Server(a), RateLimitKey::Server(b)) => *a == *b,
            (RateLimitKey::Query(a), RateLimitKey::Query(b)) => *a == *b,
            (RateLimitKey::Signatures(a), RateLimitKey::Signatures(b)) => same_names(a, b),
            _ => false,
        }
    }
}

fn same_names(a: &Vec<String>, b: &Vec<String>) -> (r: bool)
    ensures
        r == (texts(a@) == texts(b@)),
{
    if a.len() != b.len() {
        assert(texts(a@).len() != texts(b@).len());
        return false;
    }
    let mut i: usize = 0;
    while i < a.len()
        invariant
            i <= a@.len(),
            a@.len() == b@.len(),
            forall|j: int| 0 <= j < i ==> a@[j]@ == b@[j]@,
        decreases a.len() - i,
    {
        if !(a[i] == b[i]) {
            assert(texts(a@)[i as int] != texts(b@)[i as int]);
            return false;
        }
        i = i + 1;
    }
    assert(texts(a@) =~= texts(b@));
    true
}

/// When the last failure happened, and how many failures there have been.
#[derive(PartialEq, Eq, Structural, Clone, Copy, Debug)]
pub struct RateLimitState {
    /// Milliseconds on the caller's monotonic clock.
    pub last_failure: u64,
    pub tries: u32,
}

/// How long to back off after a number of failures, never more than `max`.
#[derive(PartialEq, Eq, Structural, Clone, Copy, Debug)]
pub enum Backoff {
    /// `step` more for each failure.
    Linear { step: u64, max: u64 },
    /// `base` after the first failure, doubled for each further one.
    Exponential { base: u64, max: u64 },
}

pub open spec fn min_nat(a: nat, b: nat) -> nat {
    if a <= b { a } else { b }
}

/// The exponential wait after `tries` failures.
pub open spec fn doubling_wait(base: nat, max: nat, tries: nat) -> nat
    decreases tries,
{
    if tries == 0 {
        0
    } else if tries == 1 {
        min_nat(base, max)
    } else {
        min_nat(2 * doubling_wait(base, max, (tries - 1) as nat), max)
    }
}

/// The time that must pass after the last of `tries` failures.
pub open spec fn required_wait(policy: Backoff, tries: nat) -> nat {
    match policy {
        Backoff::Linear { step, max } => min_nat(step as nat * tries, max as nat),
        Backoff::Exponential { base, max } => doubling_wait(base as nat, max as nat, tries),
    }
}

/// The time that has passed from `last` to `now`; none if the clock reads earlier.
pub open spec fn elapsed(last: u64, now: u64) -> nat {
    if now >= last { (now - last) as nat } else { 0 }
}

/// Whether a caller should hold back, given the failures recorded in `m`.
pub open spec fn backoff_due(m: Map<KeyView, RateLimitState>, key: KeyView, now: u64, policy: Backoff) -> bool {
    m.contains_key(key) && elapsed(m[key].last_failure, now) < required_wait(policy, m[key].tries as nat)
}

/// The record after one more failure of `key` at `now`.
pub open spec fn after_failure(m: Map<KeyView, RateLimitState>, key: KeyView, now: u64) -> Map<
    KeyView,
    RateLimitState,
> {
    let tries: u32 = if m.contains_key(key) {
        if m[key].tries < u32::MAX { (m[key].tries + 1) as u32 } else { u32::MAX }
    } else {
        1
    };
    m.insert(key, RateLimitState { last_failure: now, tries })
}

proof fn lemma_doubling_saturates(base: nat, max: nat, k: nat, n: nat)
    requires
        1 <= k <= n,
        doubling_wait(base, max, k) == max,
    ensures
        doubling_wait(base, max, n) == max,
    decreases n - k,
{
    if n > k {
        lemma_doubling_saturates(base, max, k, (n - 1) as nat);
    }
}

proof fn lemma_doubling_bounded(base: nat, max: nat, n: nat)
    ensures
        doubling_wait(base, max, n) <= max,
    decreases n,
{
    if n > 1 {
        lemma_doubling_bounded(base, max, (n - 1) as nat);
    }
}

/// The wait that `policy` asks for after `tries` failures.
pub fn wait_after(policy: Backoff, tries: u32) -> (r: u64)
    ensures
        r == required_wait(policy, tries as nat),
{
    match policy {
        Backoff::Linear { step, max } => {
            if tries == 0 {
                assert(step * 0 == 0) by (nonlinear_arith);
                return 0;
            }
            let t = tries as u64;
            if step > max / t {
                assert(step * t > max) by (nonlinear_arith)
                    requires step > max / t, t > 0;
                max
            } else {
                assert(step * t <= max) by (nonlinear_arith)
                    requires step <= max / t, t > 0;
                let w = step * t;
                w
            }
        },
        Backoff::Exponential { base, max } => {
            if tries == 0 {
                return 0;
            }
            let mut w: u64 = if base <= max { base } else { max };
            let mut i: u32 = 1;
            while i < tries && w < max
                invariant
                    1 <= i <= tries,
                    w == doubling_wait(base as nat, max as nat, i as nat),
                decreases tries - i,
            {
                proof {
                    lemma_doubling_bounded(base as nat, max as nat, i as nat);
                }
                w = if w <= max / 2 { 2 * w } else { max };
                i = i + 1;
            }
            proof {
                if i < tries {
                    lemma_doubling_bounded(base as nat, max as nat, i as nat);
                    lemma_doubling_saturates(base as nat, max as nat, i as nat, tries as nat);
                }
            }
            w
        },
    }
}

/// Failure records per key. Entries appear on a key's first failure and are
/// updated on each later one; nothing removes them.
pub struct RateLimiter {
    entries: Vec<(RateLimitKey, RateLimitState)>,
    model: Ghost<Map<KeyView, RateLimitState>>,
}

impl RateLimiter {
    pub closed spec fn view(&self) -> Map<KeyView, RateLimitState> {
        self.model@
    }

    pub closed spec fn wf(&self) -> bool {
        &&& forall|i: int, j: int|
            0 <= i < j < self.entries@.len() ==> self.entries@[i].0.view() != self.entries@[j].0.view()
        &&& forall|i: int|
            0 <= i < self.entries@.len() ==> #[trigger] self.model@.contains_key(self.entries@[i].0.view())
                && self.model@[self.entries@[i].0.view()] == self.entries@[i].1
        &&& forall|k: KeyView|
            #[trigger] self.model@.contains_key(k) ==> exists|i: int|
                0 <= i < self.entries@.len() && self.entries@[i].0.view() == k
    }

    pub fn new() -> (r: Self)
        ensures
            r.wf(),
            r.view() == Map::<KeyView, RateLimitState>::empty(),
    {
        RateLimiter { entries: Vec::new(), model: Ghost(Map::empty()) }
    }

    fn position(&self, key: &RateLimitKey) -> (r: Option<usize>)
        requires
            self.wf(),
        ensures
            match r {
                Some(i) => i < self.entries@.len() && self.entries@[i as int].0.view() == key.view(),
                None => !self.view().contains_key(key.view()),
            },
    {
        let mut i: usize = 0;
        while i < self.entries.len()
            invariant
                i <= self.entries@.len(),
                forall|j: int| 0 <= j < i ==> self.entries@[j].0.view() != key.view(),
            decreases self.entries.len() - i,
        {
            if self.entries[i].0.same_as(key) {
                return Some(i);
            }
            i = i + 1;
        }
        None
    }

    /// The failures recorded for `key`, if any.
    pub fn get(&self, key: &RateLimitKey) -> (r: Option<RateLimitState>)
        requires
            self.wf(),
        ensures
            r is Some <==> self.view().contains_key(key.view()),
            r matches Some(st) ==> st == self.view()[key.view()],
    {
        match self.position(key) {
            Some(i) => {
                assert(self.model@.contains_key(self.entries@[i as int].0.view()));
                Some(self.entries[i].1)
            },
            None => None,
        }
    }

    /// Records one more failure of `key`, at `now`: the first failure counts
    /// one, each later one one more (the count stops at its largest value).
    pub fn record_failure(&mut self, key: RateLimitKey, now: u64)
        requires
            old(self).wf(),
        ensures
            final(self).wf(),
            final(self).view() == after_failure(old(self).view(), key.view(), now),
    {
        let ghost t = key.view();
        let ghost m = after_failure(self.model@, t, now);
        match self.position(&key) {
            Some(i) => {
                assert(self.model@.contains_key(self.entries@[i as int].0.view()));
                let tries = self.entries[i].1.tries;
                let tries = if tries < u32::MAX { tries + 1 } else { tries };
                let ghost before = self.entries@;
                self.entries.set(i, (key, RateLimitState { last_failure: now, tries }));
                self.model = Ghost(m);
                proof {
                    assert forall|k: KeyView| #[trigger] m.contains_key(k) implies exists|j: int|
                        0 <= j < self.entries@.len() && self.entries@[j].0.view() == k by {
                        if k != t {
                            let j = choose|j: int| 0 <= j < before.len() && before[j].0.view() == k;
                            assert(self.entries@[j].0.view() == k);
                        } else {
                            assert(self.entries@[i as int].0.view() == k);
                        }
                    }
                    assert forall|j: int| 0 <= j < self.entries@.len() implies #[trigger] m.contains_key(
                        self.entries@[j].0.view(),
                    ) && m[self.entries@[j].0.view()] == self.entries@[j].1 by {
                        if j != i {
                            assert(self.entries@[j] == before[j]);
                            assert(old(self).model@.contains_key(before[j].0.view()));
                        }
                    }
                    assert forall|a: int, b: int| 0 <= a < b < self.entries@.len() implies self.entries@[a].0.view()
                        != self.entries@[b].0.view() by {
                        assert(before[a].0.view() != before[b].0.view());
                    }
                }
            },
            None => {
                let ghost before = self.entries@;
                self.entries.push((key, RateLimitState { last_failure: now, tries: 1 }));
                self.model = Ghost(m);
                proof {
                    assert forall|k: KeyView| #[trigger] m.contains_key(k) implies exists|j: int|
                        0 <= j < self.entries@.len() && self.entries@[j].0.view() == k by {
                        if k != t {
                            let j = choose|j: int| 0 <= j < before.len() && before[j].0.view() == k;
                            assert(self.entries@[j].0.view() == k);
                        } else {
                            assert(self.entries@[before.len() as int].0.view() == k);
                        }
                    }
                    assert forall|a: int, b: int| 0 <= a < b < self.entries@.len() implies self.entries@[a].0.view()
                        != self.entries@[b].0.view() by {
                        if b == before.len() {
                            assert(old(self).model@.contains_key(before[a].0.view()));
                        }
                    }
                }
            },
        }
    }

    /// Whether a caller should skip `key` for now: it has failed before, and
    /// less time than `policy` asks for has passed since its last failure.
    /// This only advises; it never blocks.
    pub fn should_backoff(&self, key: &RateLimitKey, now: u64, policy: Backoff) -> (r: bool)
        requires
            self.wf(),
        ensures
            r == backoff_due(self.view(), key.view(), now, policy),
    {
        match self.get(key) {
            None => false,
            Some(st) => {
                let passed = if now >= st.last_failure { now - st.last_failure } else { 0 };
                passed < wait_after(policy, st.tries)
            },
        }
    }
}

/// Each further failure of a key raises its count (until the count reaches
/// its largest value), and with a clock that does not run backwards the
/// recorded time of the last failure never goes down.
pub proof fn lemma_failures_accumulate(m: Map<KeyView, RateLimitState>, key: KeyView, t1: u64, t2: u64)
    requires
        t1 <= t2,
        after_failure(m, key, t1)[key].tries < u32::MAX,
    ensures
        after_failure(after_failure(m, key, t1), key, t2)[key].tries > after_failure(m, key, t1)[key].tries,
        after_failure(after_failure(m, key, t1), key, t2)[key].last_failure >= after_failure(
            m,
            key,
            t1,
        )[key].last_failure,
        !m.contains_key(key) ==> after_failure(m, key, t1)[key].tries == 1,
        m.contains_key(key) && m[key].tries < u32::MAX ==> after_failure(m, key, t1)[key].tries
            == m[key].tries + 1,
{
}

} // verus!
