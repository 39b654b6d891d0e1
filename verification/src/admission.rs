use vstd::prelude::*;

verus! {

/// Milliseconds in one second: token refill is computed per elapsed second.
pub const MILLIS_PER_SECOND: u64 = 1000;

/// Per-client token-bucket state: the tokens still available, and the time
/// of the last refill that granted at least one whole token.
#[derive(Clone, Copy, Debug, PartialEq, Eq, Structural)]
pub struct TokenBucket {
    /// Tokens available to spend; never exceeds the controller's capacity.
    pub tokens: u64,
    /// Millisecond time from which the next refill is measured.
    pub last_refill: u64,
}

/// The bucket after granting the refill earned since `last_refill`: one token
/// per `rate` tokens' worth of elapsed seconds, capped at `cap`. A refill that
/// would grant no whole token leaves the bucket untouched, so no elapsed time
/// is forgotten before it adds up to a token.
pub open spec fn spec_refill(b: TokenBucket, now: u64, rate: u64, cap: u64) -> TokenBucket {
    let elapsed = if now >= b.last_refill {
        now - b.last_refill
    } else {
        0
    };
    let grant = elapsed * rate / (MILLIS_PER_SECOND as int);
    if grant >= 1 {
        TokenBucket {
            tokens: if b.tokens + grant >= cap {
                cap
            } else {
                (b.tokens + grant) as u64
            },
            last_refill: now,
        }
    } else {
        b
    }
}

/// One admission step on a single client's state: an unseen client starts
/// from a full bucket, the bucket is refilled, and a token is spent exactly
/// when one is available. The step yields the next bucket and the decision.
pub open spec fn spec_admit(
    state: Option<TokenBucket>,
    now: u64,
    rate: u64,
    cap: u64,
) -> (TokenBucket, bool) {
    let b = match state {
        Some(b0) => spec_refill(b0, now, rate, cap),
        None => TokenBucket { tokens: cap, last_refill: now },
    };
    if b.tokens >= 1 {
        (TokenBucket { tokens: (b.tokens - 1) as u64, last_refill: b.last_refill }, true)
    } else {
        (b, false)
    }
}

/// What compaction leaves of a single client's state: a bucket whose refill
/// has reached full capacity is stale and dropped, any other is kept as it is.
pub open spec fn spec_compact(
    state: Option<TokenBucket>,
    now: u64,
    rate: u64,
    cap: u64,
) -> Option<TokenBucket> {
    match state {
        Some(b) => if spec_refill(b, now, rate, cap).tokens == cap {
            None
        } else {
            Some(b)
        },
        None => None,
    }
}

/// The bucket the table holds for `client`, if any.
pub open spec fn find_bucket(s: Seq<(u64, TokenBucket)>, client: u64) -> Option<TokenBucket>
    decreases s.len(),
{
    if s.len() == 0 {
        None
    } else if s[0].0 == client {
        Some(s[0].1)
    } else {
        find_bucket(s.drop_first(), client)
    }
}

/// A client is absent from the table exactly when no entry bears its key.
proof fn lemma_find_bucket_none(s: Seq<(u64, TokenBucket)>, client: u64)
    ensures
        (find_bucket(s, client) is None) <==> (forall|j: int|
            0 <= j < s.len() ==> (#[trigger] s[j]).0 != client),
    decreases s.len(),
{
    if s.len() == 0 {
    } else {
        let d = s.drop_first();
        lemma_find_bucket_none(d, client);
        assert(forall|k: int| 0 <= k < d.len() ==> #[trigger] d[k] == s[k + 1]);
        if s[0].0 != client && find_bucket(d, client) is None {
            assert forall|j: int| 0 <= j < s.len() implies (#[trigger] s[j]).0 != client by {
                if j > 0 {
                    assert(d[j - 1].0 != client);
                }
            }
        }
        if forall|j: int| 0 <= j < s.len() ==> (#[trigger] s[j]).0 != client {
            assert(forall|k: int| 0 <= k < d.len() ==> (#[trigger] d[k]).0 != client);
            assert(find_bucket(d, client) is None);
        }
    }
}

/// The first entry bearing a key decides the lookup of that key.
proof fn lemma_find_bucket_at(s: Seq<(u64, TokenBucket)>, client: u64, i: int)
    requires
        0 <= i < s.len(),
        s[i].0 == client,
        forall|j: int| 0 <= j < i ==> (#[trigger] s[j]).0 != client,
    ensures
        find_bucket(s, client) == Some(s[i].1),
    decreases s.len(),
{
    if i == 0 {
    } else {
        lemma_find_bucket_at(s.drop_first(), client, i - 1);
    }
}

/// Appending an entry decides lookups only of keys the table did not hold.
proof fn lemma_find_bucket_push(s: Seq<(u64, TokenBucket)>, e: (u64, TokenBucket), k: u64)
    ensures
        find_bucket(s.push(e), k) == (if find_bucket(s, k) is Some {
            find_bucket(s, k)
        } else if e.0 == k {
            Some(e.1)
        } else {
            None
        }),
    decreases s.len(),
{
    let t = s.push(e);
    if s.len() == 0 {
        assert(t[0] == e);
        assert(t.drop_first() =~= Seq::<(u64, TokenBucket)>::empty());
        assert(find_bucket(Seq::<(u64, TokenBucket)>::empty(), k) is None);
    } else {
        assert(t[0] == s[0]);
        assert(t.drop_first() =~= s.drop_first().push(e));
        lemma_find_bucket_push(s.drop_first(), e, k);
    }
}

/// The run of admission decisions a single client sees over a series of
/// request times, starting from a given tracked state: the state after the
/// run, and each request's decision in order.
pub open spec fn spec_admit_run(
    state: Option<TokenBucket>,
    times: Seq<u64>,
    rate: u64,
    cap: u64,
) -> (Option<TokenBucket>, Seq<bool>)
    decreases times.len(),
{
    if times.len() == 0 {
        (state, Seq::empty())
    } else {
        let step = spec_admit(state, times[0], rate, cap);
        let rest = spec_admit_run(Some(step.0), times.drop_first(), rate, cap);
        (rest.0, seq![step.1] + rest.1)
    }
}

/// Within a window too short for one whole token to refill, a bucket only
/// ever loses tokens: each request is admitted exactly while tokens remain.
proof fn lemma_run_without_refill(b: TokenBucket, times: Seq<u64>, rate: u64, cap: u64)
    requires
        b.tokens <= cap,
        forall|i: int| 0 <= i < times.len() ==> #[trigger] times[i] >= b.last_refill,
        forall|i: int|
            0 <= i < times.len() ==> (#[trigger] times[i] - b.last_refill) * rate
                < MILLIS_PER_SECOND,
    ensures
        ({
            let run = spec_admit_run(Some(b), times, rate, cap);
            &&& run.1.len() == times.len()
            &&& forall|i: int| 0 <= i < times.len() ==> #[trigger] run.1[i] == (i < b.tokens)
            &&& run.0 == Some(
                TokenBucket {
                    tokens: if times.len() <= b.tokens {
                        (b.tokens - times.len()) as u64
                    } else {
                        0
                    },
                    last_refill: b.last_refill,
                },
            )
        }),
    decreases times.len(),
{
    if times.len() == 0 {
    } else {
        let elapsed = times[0] - b.last_refill;
        assert(elapsed * rate >= 0) by (nonlinear_arith)
            requires
                elapsed >= 0,
                rate >= 0,
        ;
        assert(elapsed * rate < MILLIS_PER_SECOND);
        vstd::arithmetic::div_mod::lemma_basic_div(elapsed * rate, MILLIS_PER_SECOND as int);
        assert(spec_refill(b, times[0], rate, cap) == b);
        let step = spec_admit(Some(b), times[0], rate, cap);
        let b1 = step.0;
        assert(b1.last_refill == b.last_refill);
        let d = times.drop_first();
        assert(forall|i: int| 0 <= i < d.len() ==> #[trigger] d[i] == times[i + 1]);
        lemma_run_without_refill(b1, d, rate, cap);
        let run = spec_admit_run(Some(b), times, rate, cap);
        let rest = spec_admit_run(Some(b1), d, rate, cap);
        assert(run.1 == seq![step.1] + rest.1);
        assert forall|i: int| 0 <= i < times.len() implies #[trigger] run.1[i] == (i
            < b.tokens) by {
            if i == 0 {
                assert(run.1[0] == step.1);
            } else {
                assert(run.1[i] == rest.1[i - 1]);
                assert(rest.1[i - 1] == (i - 1 < b1.tokens));
            }
        }
    }
}

/// Admission fairness: a client whose `cap + 1` requests all fall within a
/// window too short for one token to refill is admitted on exactly its
/// first `cap` requests and rejected on the extra one.
pub proof fn lemma_admission_fairness(cap: u64, rate: u64, times: Seq<u64>)
    requires
        cap >= 1,
        rate >= 1,
        times.len() == cap + 1,
        forall|i: int| 0 <= i < times.len() ==> #[trigger] times[i] >= times[0],
        forall|i: int|
            0 <= i < times.len() ==> (#[trigger] times[i] - times[0]) * rate < MILLIS_PER_SECOND,
    ensures
        ({
            let decisions = spec_admit_run(None, times, rate, cap).1;
            &&& decisions.len() == cap + 1
            &&& forall|i: int| 0 <= i < cap ==> #[trigger] decisions[i] == true
            &&& decisions[cap as int] == false
        }),
{
    let step = spec_admit(None, times[0], rate, cap);
    let b1 = step.0;
    assert(b1 == TokenBucket { tokens: (cap - 1) as u64, last_refill: times[0] });
    assert(step.1 == true);
    let d = times.drop_first();
    assert(forall|i: int| 0 <= i < d.len() ==> #[trigger] d[i] == times[i + 1]);
    lemma_run_without_refill(b1, d, rate, cap);
    let run = spec_admit_run(None, times, rate, cap);
    let rest = spec_admit_run(Some(b1), d, rate, cap);
    assert(run.1 == seq![step.1] + rest.1);
    assert forall|i: int| 0 <= i < cap implies #[trigger] run.1[i] == true by {
        if i == 0 {
        } else {
            assert(run.1[i] == rest.1[i - 1]);
            assert(rest.1[i - 1] == (i - 1 < b1.tokens));
        }
    }
    assert(run.1[cap as int] == rest.1[cap - 1]);
    assert(rest.1[cap - 1] == (cap - 1 < b1.tokens));
}

/// Admission recovery: once a full refill interval has passed since the
/// bucket's last grant — however few tokens it held, even none — the
/// client's next request is admitted.
pub proof fn lemma_admission_recovery(b: TokenBucket, now: u64, rate: u64, cap: u64)
    requires
        cap >= 1,
        rate >= 1,
        b.tokens <= cap,
        b.last_refill <= now,
        (now - b.last_refill) * rate >= MILLIS_PER_SECOND,
    ensures
        spec_admit(Some(b), now, rate, cap).1 == true,
{
    let elapsed = now - b.last_refill;
    let product = elapsed * rate;
    vstd::arithmetic::div_mod::lemma_div_is_ordered(
        MILLIS_PER_SECOND as int,
        product,
        MILLIS_PER_SECOND as int,
    );
    vstd::arithmetic::div_mod::lemma_div_by_self(MILLIS_PER_SECOND as int);
    assert(product / (MILLIS_PER_SECOND as int) >= 1);
}

/// Compaction never changes what a client is told next: a swept bucket was
/// fully refilled, and the fresh bucket a returning client starts from grants
/// exactly as many requests as the full bucket would have.
pub proof fn lemma_compact_preserves_decision(
    state: Option<TokenBucket>,
    tc: u64,
    now: u64,
    rate: u64,
    cap: u64,
)
    requires
        cap >= 1,
        rate >= 1,
        state matches Some(b) ==> b.tokens <= cap && b.last_refill <= tc,
        tc <= now,
    ensures
        spec_admit(spec_compact(state, tc, rate, cap), now, rate, cap).1 == spec_admit(
            state,
            now,
            rate,
            cap,
        ).1,
{
    if let Some(b) = state {
        if spec_refill(b, tc, rate, cap).tokens == cap {
            let e_tc = tc - b.last_refill;
            let e_now = now - b.last_refill;
            assert(e_tc * rate <= e_now * rate) by (nonlinear_arith)
                requires
                    0 <= e_tc <= e_now,
                    rate >= 0,
            ;
            vstd::arithmetic::div_mod::lemma_div_is_ordered(
                e_tc * rate,
                e_now * rate,
                MILLIS_PER_SECOND as int,
            );
            assert(spec_refill(b, now, rate, cap).tokens == cap);
        }
    }
}

/// Apply to a bucket the refill it has earned, exactly as `spec_refill`
/// describes. The arithmetic is carried out in 128 bits so that no elapsed
/// time or rate can overflow it.
fn refill_bucket(b: TokenBucket, now: u64, rate: u64, cap: u64) -> (r: TokenBucket)
    requires
        b.tokens <= cap,
    ensures
        r == spec_refill(b, now, rate, cap),
        r.tokens <= cap,
{
    let elapsed: u64 = if now >= b.last_refill {
        now - b.last_refill
    } else {
        0
    };
    proof {
        assert((elapsed as int) * (rate as int) <= (u64::MAX as int) * (u64::MAX as int))
            by (nonlinear_arith)
            requires
                elapsed <= u64::MAX,
                rate <= u64::MAX,
        ;
        assert((u64::MAX as int) * (u64::MAX as int) <= u128::MAX as int) by (nonlinear_arith);
    }
    let product: u128 = (elapsed as u128) * (rate as u128);
    let grant: u128 = product / (MILLIS_PER_SECOND as u128);
    if grant >= 1 {
        let tokens: u64 = if grant >= (cap as u128) {
            cap
        } else {
            let total: u128 = (b.tokens as u128) + grant;
            if total >= (cap as u128) {
                cap
            } else {
                total as u64
            }
        };
        TokenBucket { tokens, last_refill: now }
    } else {
        b
    }
}

/// A token-bucket admission controller keyed by client identity. Buckets are
/// created lazily on a client's first request and swept out once stale.
pub struct AdmissionController {
    capacity: u64,
    refill_rate_per_second: u64,
    buckets: Vec<(u64, TokenBucket)>,
}

impl AdmissionController {
    /// The burst size every bucket starts from and is capped at.
    pub closed spec fn spec_capacity(self) -> u64 {
        self.capacity
    }

    /// Tokens granted back per elapsed second.
    pub closed spec fn spec_rate(self) -> u64 {
        self.refill_rate_per_second
    }

    /// The state tracked for `client`, if the controller tracks it at all.
    pub closed spec fn spec_bucket(self, client: u64) -> Option<TokenBucket> {
        find_bucket(self.buckets@, client)
    }

    /// The controller's invariant: a real burst size and refill rate, one
    /// entry per client, and no bucket above capacity.
    pub closed spec fn wf(self) -> bool {
        &&& self.capacity >= 1
        &&& self.refill_rate_per_second >= 1
        &&& forall|i: int, j: int|
            0 <= i < j < self.buckets@.len() ==> (#[trigger] self.buckets@[i]).0 != (
            #[trigger] self.buckets@[j]).0
        &&& forall|i: int|
            0 <= i < self.buckets@.len() ==> (#[trigger] self.buckets@[i]).1.tokens
                <= self.capacity
    }

    /// Decide one request from `client` at time `now`: an unseen client
    /// lazily gets a full bucket, the bucket is refilled for the elapsed
    /// time, and a token is spent exactly when one is available. Rejection
    /// leaves the token count unchanged.
    pub fn admit_request(&mut self, client: u64, now: u64) -> (admitted: bool)
        requires
            old(self).wf(),
        ensures
            final(self).wf(),
            final(self).spec_capacity() == old(self).spec_capacity(),
            final(self).spec_rate() == old(self).spec_rate(),
            final(self).spec_bucket(client) == Some(
                spec_admit(
                    old(self).spec_bucket(client),
                    now,
                    old(self).spec_rate(),
                    old(self).spec_capacity(),
                ).0,
            ),
            admitted == spec_admit(
                old(self).spec_bucket(client),
                now,
                old(self).spec_rate(),
                old(self).spec_capacity(),
            ).1,
            forall|c: u64|
                c != client ==> final(self).spec_bucket(c) == old(self).spec_bucket(c),
    {
        let ghost s = self.buckets@;
        let mut i: usize = 0;
        while i < self.buckets.len() && self.buckets[i].0 != client
            invariant
                self.buckets@ == s,
                0 <= i <= s.len(),
                forall|j: int| 0 <= j < i ==> (#[trigger] s[j]).0 != client,
            decreases s.len() - i,
        {
            i += 1;
        }
        if i < self.buckets.len() {
            proof {
                lemma_find_bucket_at(s, client, i as int);
            }
            let b0 = self.buckets[i].1;
            let rb = refill_bucket(b0, now, self.refill_rate_per_second, self.capacity);
            let nb: TokenBucket;
            let admitted: bool;
            if rb.tokens >= 1 {
                nb = TokenBucket { tokens: rb.tokens - 1, last_refill: rb.last_refill };
                admitted = true;
            } else {
                nb = rb;
                admitted = false;
            }
            self.buckets.set(i, (client, nb));
            proof {
                assert forall|c: u64| true implies self.spec_bucket(c) == (if c == client {
                    Some(nb)
                } else {
                    find_bucket(s, c)
                }) by {
                    lemma_find_bucket_update(s, i as int, (client, nb), c);
                }
                assert forall|p: int, q: int|
                    0 <= p < q < self.buckets@.len() implies (#[trigger] self.buckets@[p]).0 != (
                #[trigger] self.buckets@[q]).0 by {
                    assert(s[p].0 != s[q].0);
                    assert(self.buckets@[p].0 == s[p].0 && self.buckets@[q].0 == s[q].0);
                }
            }
            admitted
        } else {
            proof {
                lemma_find_bucket_none(s, client);
            }
            let fresh = TokenBucket { tokens: self.capacity - 1, last_refill: now };
            self.buckets.push((client, fresh));
            proof {
                assert forall|c: u64| true implies self.spec_bucket(c) == (if c == client {
                    Some(fresh)
                } else {
                    find_bucket(s, c)
                }) by {
                    lemma_find_bucket_push(s, (client, fresh), c);
                }
                assert forall|p: int, q: int|
                    0 <= p < q < self.buckets@.len() implies (#[trigger] self.buckets@[p]).0 != (
                #[trigger] self.buckets@[q]).0 by {
                    if q < s.len() {
                        assert(s[p].0 != s[q].0);
                    } else {
                        assert(s[p].0 != client);
                    }
                }
            }
            true
        }
    }

    /// The bucket currently tracked for `client`, if any.
    pub fn bucket_for(&self, client: u64) -> (r: Option<TokenBucket>)
        ensures
            r == self.spec_bucket(client),
    {
        let ghost s = self.buckets@;
        let mut i: usize = 0;
        while i < self.buckets.len() && self.buckets[i].0 != client
            invariant
                self.buckets@ == s,
                0 <= i <= s.len(),
                forall|j: int| 0 <= j < i ==> (#[trigger] s[j]).0 != client,
            decreases s.len() - i,
        {
            i += 1;
        }
        if i < self.buckets.len() {
            proof {
                lemma_find_bucket_at(s, client, i as int);
            }
            Some(self.buckets[i].1)
        } else {
            proof {
                lemma_find_bucket_none(s, client);
            }
            None
        }
    }

    /// Sweep the table at time `now`: every bucket whose refill has reached
    /// full capacity belongs to a client idle long enough to have earned its
    /// whole burst back, and is dropped; every other bucket is kept as it is.
    pub fn compact(&mut self, now: u64)
        requires
            old(self).wf(),
        ensures
            final(self).wf(),
            final(self).spec_capacity() == old(self).spec_capacity(),
            final(self).spec_rate() == old(self).spec_rate(),
            forall|c: u64|
                final(self).spec_bucket(c) == spec_compact(
                    old(self).spec_bucket(c),
                    now,
                    old(self).spec_rate(),
                    old(self).spec_capacity(),
                ),
    {
        let ghost s = self.buckets@;
        let cap = self.capacity;
        let rate = self.refill_rate_per_second;
        let mut kept: Vec<(u64, TokenBucket)> = Vec::new();
        proof {
            assert forall|c: u64| true implies find_bucket(kept@, c) == spec_compact(
                find_bucket(s.take(0), c),
                now,
                rate,
                cap,
            ) by {
                lemma_find_bucket_none(kept@, c);
                lemma_find_bucket_none(s.take(0), c);
            }
        }
        let mut i: usize = 0;
        while i < self.buckets.len()
            invariant
                self.buckets@ == s,
                cap >= 1,
                rate >= 1,
                forall|p: int, q: int|
                    0 <= p < q < s.len() ==> (#[trigger] s[p]).0 != (#[trigger] s[q]).0,
                forall|p: int| 0 <= p < s.len() ==> (#[trigger] s[p]).1.tokens <= cap,
                0 <= i <= s.len(),
                forall|c: u64|
                    #[trigger] find_bucket(kept@, c) == spec_compact(
                        find_bucket(s.take(i as int), c),
                        now,
                        rate,
                        cap,
                    ),
                forall|p: int, q: int|
                    0 <= p < q < kept@.len() ==> (#[trigger] kept@[p]).0 != (#[trigger] kept@[q]).0,
                forall|p: int| 0 <= p < kept@.len() ==> (#[trigger] kept@[p]).1.tokens <= cap,
            decreases s.len() - i,
        {
            let ghost kept0 = kept@;
            let e = self.buckets[i];
            let rb = refill_bucket(e.1, now, rate, cap);
            proof {
                assert(s.take(i + 1) =~= s.take(i as int).push(s[i as int]));
                lemma_find_bucket_none(s.take(i as int), e.0);
            }
            if rb.tokens < cap {
                proof {
                    lemma_find_bucket_none(kept0, e.0);
                }
                kept.push(e);
            }
            proof {
                assert forall|c: u64| true implies #[trigger] find_bucket(kept@, c) == spec_compact(
                    find_bucket(s.take(i + 1), c),
                    now,
                    rate,
                    cap,
                ) by {
                    lemma_find_bucket_push(s.take(i as int), s[i as int], c);
                    if rb.tokens < cap {
                        lemma_find_bucket_push(kept0, e, c);
                    }
                }
                assert forall|p: int, q: int|
                    0 <= p < q < kept@.len() implies (#[trigger] kept@[p]).0 != (
                #[trigger] kept@[q]).0 by {
                    if q < kept0.len() {
                    } else {
                        lemma_find_bucket_at(kept0, kept0[p].0, p);
                    }
                }
            }
            i += 1;
        }
        proof {
            assert(s.take(s.len() as int) =~= s);
        }
        self.buckets = kept;
    }

    /// Create a controller that admits bursts of `capacity` requests and
    /// grants tokens back at `refill_rate_per_second`, tracking no client yet.
    pub fn new(capacity: u64, refill_rate_per_second: u64) -> (r: Self)
        requires
            capacity >= 1,
            refill_rate_per_second >= 1,
        ensures
            r.wf(),
            r.spec_capacity() == capacity,
            r.spec_rate() == refill_rate_per_second,
            forall|c: u64| r.spec_bucket(c) is None,
    {
        let r = AdmissionController { capacity, refill_rate_per_second, buckets: Vec::new() };
        proof {
            assert forall|c: u64| r.spec_bucket(c) is None by {
                lemma_find_bucket_none(r.buckets@, c);
            }
        }
        r
    }
}

/// Replacing the entry at a key's first position decides that key's lookup
/// and no other's.
proof fn lemma_find_bucket_update(
    s: Seq<(u64, TokenBucket)>,
    i: int,
    e: (u64, TokenBucket),
    k: u64,
)
    requires
        0 <= i < s.len(),
        s[i].0 == e.0,
        forall|j: int| 0 <= j < i ==> (#[trigger] s[j]).0 != e.0,
    ensures
        find_bucket(s.update(i, e), e.0) == Some(e.1),
        k != e.0 ==> find_bucket(s.update(i, e), k) == find_bucket(s, k),
    decreases s.len(),
{
    let t = s.update(i, e);
    assert(t[i] == e);
    assert(forall|j: int| 0 <= j < s.len() && j != i ==> #[trigger] t[j] == s[j]);
    if i == 0 {
        assert(t.drop_first() =~= s.drop_first());
    } else {
        assert(t[0] == s[0]);
        assert(t.drop_first() =~= s.drop_first().update(i - 1, e));
        lemma_find_bucket_update(s.drop_first(), i - 1, e, k);
    }
}

} // verus!
