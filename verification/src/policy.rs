use crate::clock::{elapsed, elapsed_between, millis_to_nanos, nanos_of_millis, Clock};
use crate::error::TransportError;
use vstd::prelude::*;
use vstd::string::*;

verus! {

/// Rate limiting configuration.
#[derive(Debug, Clone, Copy)]
pub struct RateLimit {
    /// Maximum number of commands allowed within the window.
    pub max_commands: u32,
    /// Window duration in milliseconds.
    pub window_ms: u64,
}

/// Policy controlling what commands are allowed and at what rate.
///
/// Time stamps are readings of the policy's own monotonic clock, in nanoseconds.
#[derive(Debug)]
pub struct TransportPolicy {
    /// If Some, only these command prefixes are allowed (each once). If None, all are allowed.
    allowed_prefixes: Option<Vec<String>>,
    /// If Some, rate limiting is enforced.
    rate_limit: Option<RateLimit>,
    /// Time stamps of the commands admitted within the current window.
    command_times: Vec<u128>,
    clock: Clock,
    /// The latest clock reading the policy has acted on.
    latest: u128,
}

/// The abstract state of a policy.
pub struct PolicyView {
    /// The set of allowed command prefixes, or None when every command is allowed.
    pub allowed: Option<Set<Seq<char>>>,
    pub limit: Option<RateLimit>,
    /// Time stamps (nanoseconds) of the commands admitted and not yet pruned.
    pub times: Seq<u128>,
}

/// What a policy check decides.
#[derive(PartialEq, Eq, Structural)]
pub enum Verdict {
    Admitted,
    Denied,
    Limited,
}

pub open spec fn is_prefix_of(prefix: Seq<char>, text: Seq<char>) -> bool {
    prefix.len() <= text.len() && text.subrange(0, prefix.len() as int) == prefix
}

/// Whether the allowlist lets `command` through.
pub open spec fn permits(allowed: Option<Set<Seq<char>>>, command: Seq<char>) -> bool {
    match allowed {
        None => true,
        Some(prefixes) => exists|p: Seq<char>| prefixes.contains(p) && is_prefix_of(p, command),
    }
}

pub open spec fn window_nanos(limit: RateLimit) -> int {
    millis_to_nanos(limit.window_ms)
}

/// Whether time stamp `t` falls within the window that ends at `now`.
pub open spec fn in_window(now: u128, limit: RateLimit) -> spec_fn(u128) -> bool {
    |t: u128| elapsed(now, t) < window_nanos(limit)
}

/// The time stamps that still fall within the window at `now`.
pub open spec fn recent(times: Seq<u128>, now: u128, limit: RateLimit) -> Seq<u128> {
    times.filter(in_window(now, limit))
}

/// The text of a denial for `command`.
pub open spec fn denial_text(command: Seq<char>) -> Seq<char> {
    "command '"@ + command + "' does not match any allowed prefix"@
}

/// The state after checking `command` at time `now`, and the verdict.
pub open spec fn check_spec(p: PolicyView, command: Seq<char>, now: u128) -> (PolicyView, Verdict) {
    if !permits(p.allowed, command) {
        (p, Verdict::Denied)
    } else {
        match p.limit {
            None => (p, Verdict::Admitted),
            Some(limit) => {
                let kept = recent(p.times, now, limit);
                if kept.len() >= limit.max_commands {
                    (PolicyView { times: kept, ..p }, Verdict::Limited)
                } else {
                    (PolicyView { times: kept.push(now), ..p }, Verdict::Admitted)
                }
            },
        }
    }
}

/// How each verdict shows in the result of `check`.
pub open spec fn reports(result: Result<(), TransportError>, verdict: Verdict, command: Seq<char>) -> bool {
    match verdict {
        Verdict::Admitted => result is Ok,
        Verdict::Denied => result matches Err(TransportError::PolicyDenied(msg)) && msg@ == denial_text(command),
        Verdict::Limited => result matches Err(TransportError::RateLimited),
    }
}

impl View for TransportPolicy {
    type V = PolicyView;

    closed spec fn view(&self) -> PolicyView {
        PolicyView {
            allowed: match self.allowed_prefixes {
                None => None,
                Some(v) => Some(v@.map_values(|s: String| s@).to_set()),
            },
            limit: self.rate_limit,
            times: self.command_times@,
        }
    }
}

/// `str::starts_with` with a `&str` pattern: whether `prefix` begins `text`.
/// UTF-8 is prefix-free, so a byte prefix is a character prefix.
#[verifier::external_body]
fn str_starts_with(text: &str, prefix: &str) -> (begins: bool)
    ensures
        begins == is_prefix_of(prefix@, text@),
{
    text.starts_with(prefix)
}

impl TransportPolicy {
    /// The invariant: each allowed prefix is held once, and no more time stamps
    /// are kept than the rate limit admits.
    pub closed spec fn wf(&self) -> bool {
        &&& (self.allowed_prefixes matches Some(v) ==> v@.map_values(|s: String| s@).no_duplicates())
        &&& (self.rate_limit matches Some(l) ==> self.command_times@.len() <= l.max_commands)
        &&& (self.rate_limit is None ==> self.command_times@.len() == 0)
    }

    /// The clock on which the policy stamps admitted commands.
    pub closed spec fn clock(&self) -> Clock {
        self.clock
    }

    /// The latest clock reading the policy has acted on; the monotonic clock
    /// never reads less than it again.
    pub closed spec fn latest(&self) -> u128 {
        self.latest
    }

    /// Reads the clock. `Instant` readings never decrease, so the reading is
    /// taken as at least the latest one acted on.
    fn reading(&self) -> (now: u128)
        ensures
            now >= self.latest(),
    {
        let read = self.clock.now();
        if read < self.latest {
            self.latest
        } else {
            read
        }
    }

    /// Create a permissive policy that allows everything.
    pub fn allow_all() -> (policy: Self)
        ensures
            policy.wf(),
            policy.latest() == 0,
            policy@.allowed is None,
            policy@.limit is None,
            policy@.times == Seq::<u128>::empty(),
    {
        Self { allowed_prefixes: None, rate_limit: None, command_times: Vec::new(), clock: Clock::start(), latest: 0 }
    }

    /// Create a policy that only allows commands starting with the given prefixes.
    pub fn allow_only(prefixes: Vec<String>, rate_limit: Option<RateLimit>) -> (policy: Self)
        ensures
            policy.wf(),
            policy.latest() == 0,
            policy@.allowed == Some(prefixes@.map_values(|s: String| s@).to_set()),
            policy@.limit == rate_limit,
            policy@.times == Seq::<u128>::empty(),
    {
        let ghost given = prefixes@.map_values(|s: String| s@);
        let mut unique: Vec<String> = Vec::new();
        let mut i: usize = 0;
        while i < prefixes.len()
            invariant
                i <= prefixes.len(),
                given == prefixes@.map_values(|s: String| s@),
                unique@.map_values(|s: String| s@).no_duplicates(),
                unique@.map_values(|s: String| s@).to_set() == given.take(i as int).to_set(),
            decreases prefixes.len() - i,
        {
            let ghost u = unique@.map_values(|s: String| s@);
            let mut seen = false;
            let mut j: usize = 0;
            while j < unique.len()
                invariant
                    j <= unique.len(),
                    i < prefixes.len(),
                    u == unique@.map_values(|s: String| s@),
                    seen == exists|k: int| 0 <= k < j && u[k] == prefixes@[i as int]@,
                decreases unique.len() - j,
            {
                assert(u[j as int] == unique@[j as int]@);
                if unique[j] == prefixes[i] {
                    seen = true;
                }
                j += 1;
            }
            proof {
                assert(given.take(i + 1) == given.take(i as int).push(given[i as int]));
            }
            if !seen {
                unique.push(prefixes[i].clone());
                assert(unique@.map_values(|s: String| s@) == u.push(given[i as int]));
                let ghost x = given[i as int];
                assert forall|a: Seq<char>| u.push(x).contains(a) <==> given.take(i + 1).contains(a) by {
                    if u.push(x).contains(a) && a != x {
                        let k = choose|k: int| 0 <= k < u.push(x).len() && u.push(x)[k] == a;
                        assert(u.contains(a));
                        assert(u.to_set().contains(a));
                        assert(given.take(i as int).contains(a));
                        let m = choose|m: int| 0 <= m < i && #[trigger] given.take(i as int)[m] == a;
                        assert(given.take(i + 1)[m] == a);
                    }
                    if given.take(i + 1).contains(a) && a != x {
                        let m = choose|m: int| 0 <= m < i + 1 && #[trigger] given.take(i + 1)[m] == a;
                        assert(given.take(i as int)[m] == a);
                        assert(given.take(i as int).to_set().contains(a));
                        assert(u.contains(a));
                        let k = choose|k: int| 0 <= k < u.len() && u[k] == a;
                        assert(u.push(x)[k] == a);
                    }
                    if a == x {
                        assert(u.push(x)[u.len() as int] == x);
                        assert(given.take(i + 1)[i as int] == x);
                    }
                }
                assert(unique@.map_values(|s: String| s@).to_set() =~= given.take(i + 1).to_set());
            } else {
                assert(u.to_set() =~= given.take(i + 1).to_set());
            }
            i += 1;
        }
        assert(given.take(prefixes.len() as int) == given);
        Self {
            allowed_prefixes: Some(unique),
            rate_limit,
            command_times: Vec::new(),
            clock: Clock::start(),
            latest: 0,
        }
    }

    /// Create a policy with only rate limiting.
    pub fn with_rate_limit(rate_limit: RateLimit) -> (policy: Self)
        ensures
            policy.wf(),
            policy.latest() == 0,
            policy@.allowed is None,
            policy@.limit == Some(rate_limit),
            policy@.times == Seq::<u128>::empty(),
    {
        Self {
            allowed_prefixes: None,
            rate_limit: Some(rate_limit),
            command_times: Vec::new(),
            clock: Clock::start(),
            latest: 0,
        }
    }
}

impl TransportPolicy {
    /// Whether some allowed prefix begins `command`; true when there is no allowlist.
    fn prefix_allowed(&self, command: &str) -> (allowed: bool)
        ensures
            allowed == permits(self@.allowed, command@),
    {
        match &self.allowed_prefixes {
            None => true,
            Some(prefixes) => {
                let ghost ps = prefixes@.map_values(|s: String| s@);
                let mut i: usize = 0;
                while i < prefixes.len()
                    invariant
                        i <= prefixes.len(),
                        ps == prefixes@.map_values(|s: String| s@),
                        self@.allowed == Some(ps.to_set()),
                        forall|k: int| 0 <= k < i ==> !is_prefix_of(#[trigger] ps[k], command@),
                    decreases prefixes.len() - i,
                {
                    assert(ps[i as int] == prefixes@[i as int]@);
                    if str_starts_with(command, prefixes[i].as_str()) {
                        assert(ps.to_set().contains(ps[i as int]));
                        assert(is_prefix_of(ps[i as int], command@));
                        assert(self@.allowed == Some(ps.to_set()));
                        return true;
                    }
                    i += 1;
                }
                assert forall|p: Seq<char>| ps.to_set().contains(p) implies !is_prefix_of(p, command@) by {
                    let k = choose|k: int| 0 <= k < ps.len() && ps[k] == p;
                    assert(!is_prefix_of(ps[k], command@));
                }
                false
            },
        }
    }

    /// Check if `command` is allowed under this policy at clock reading `now`
    /// (nanoseconds). Returns Ok(()) if allowed, Err with reason if denied.
    pub fn check_at(&mut self, command: &str, now: u128) -> (result: Result<(), TransportError>)
        requires
            old(self).wf(),
        ensures
            final(self).wf(),
            final(self).clock() == old(self).clock(),
            final(self).latest() == old(self).latest(),
            final(self)@ == check_spec(old(self)@, command@, now).0,
            reports(result, check_spec(old(self)@, command@, now).1, command@),
    {
        // Check command prefix allowlist
        if !self.prefix_allowed(command) {
            let text = String::from_str("command '").concat(command).concat(
                "' does not match any allowed prefix",
            );
            return Err(TransportError::PolicyDenied(text));
        }
        // Check rate limit

        match self.rate_limit {
            None => Ok(()),
            Some(limit) => {
                let window: u128 = nanos_of_millis(limit.window_ms);
                let ghost pred = in_window(now, limit);
                let ghost times = self.command_times@;
                // Prune old entries
                let mut kept: Vec<u128> = Vec::new();
                let mut i: usize = 0;
                while i < self.command_times.len()
                    invariant
                        i <= times.len(),
                        times == self.command_times@,
                        window == window_nanos(limit),
                        pred == in_window(now, limit),
                        kept@ == times.take(i as int).filter(pred),
                    decreases times.len() - i,
                {
                    let t = self.command_times[i];
                    let age: u128 = elapsed_between(now, t);
                    proof {
                        assert(times.take(i + 1) == times.take(i as int).push(t));
                        times.take(i as int).lemma_filter_push(t, pred);
                        assert(pred(t) == (age < window));
                    }
                    if age < window {
                        kept.push(t);
                    }
                    i += 1;
                }
                assert(times.take(times.len() as int) == times);
                proof {
                    times.lemma_filter_len(pred);
                }
                if kept.len() >= limit.max_commands as usize {
                    self.command_times = kept;
                    return Err(TransportError::RateLimited);
                }
                kept.push(now);
                self.command_times = kept;
                Ok(())
            },
        }
    }

    /// Check if a command is allowed under this policy, at the current time.
    /// Returns Ok(()) if allowed, Err with reason if denied.
    pub fn check(&mut self, command: &str) -> (result: Result<(), TransportError>)
        requires
            old(self).wf(),
        ensures
            final(self).wf(),
            final(self).clock() == old(self).clock(),
            final(self).latest() >= old(self).latest(),
            final(self)@ == check_spec(old(self)@, command@, final(self).latest()).0,
            reports(result, check_spec(old(self)@, command@, final(self).latest()).1, command@),
    {
        let now = self.reading();
        let result = self.check_at(command, now);
        self.latest = now;
        result
    }
}


/// The state after checking each `(command, time)` event in turn, and how many
/// of the events were admitted.
pub open spec fn run_checks(p: PolicyView, events: Seq<(Seq<char>, u128)>) -> (PolicyView, nat)
    decreases events.len(),
{
    if events.len() == 0 {
        (p, 0)
    } else {
        let before = run_checks(p, events.drop_last());
        let step = check_spec(before.0, events.last().0, events.last().1);
        (step.0, if step.1 == Verdict::Admitted { before.1 + 1 } else { before.1 })
    }
}

/// The time stamps at or after `start`.
pub open spec fn stamps_from(times: Seq<u128>, start: int) -> Seq<u128> {
    times.filter(|t: u128| t >= start)
}

/// Filtering by a weaker predicate first changes nothing.
proof fn lemma_filter_absorbs(s: Seq<u128>, weak: spec_fn(u128) -> bool, strong: spec_fn(u128) -> bool)
    requires
        forall|e: u128| #[trigger] strong(e) ==> weak(e),
    ensures
        s.filter(weak).filter(strong) == s.filter(strong),
    decreases s.len(),
{
    if s.len() > 0 {
        let init = s.drop_last();
        lemma_filter_absorbs(init, weak, strong);
        assert(s == init.push(s.last()));
        init.lemma_filter_push(s.last(), weak);
        init.lemma_filter_push(s.last(), strong);
        init.filter(weak).lemma_filter_push(s.last(), strong);
    }
}

/// The strengthened form of the rate-limit law: the admitted events of a
/// burst are all still recorded, and the record never outgrows the limit.
proof fn lemma_burst_recorded(p: PolicyView, limit: RateLimit, events: Seq<(Seq<char>, u128)>, start: int)
    requires
        p.limit == Some(limit),
        p.times.len() <= limit.max_commands,
        forall|i: int| 0 <= i < events.len() ==> start <= #[trigger] events[i].1 < start + window_nanos(limit),
    ensures
        run_checks(p, events).0.limit == Some(limit),
        run_checks(p, events).0.times.len() <= limit.max_commands,
        stamps_from(run_checks(p, events).0.times, start).len() >= run_checks(p, events).1,
    decreases events.len(),
{
    if events.len() > 0 {
        let init = events.drop_last();
        assert forall|i: int| 0 <= i < init.len() implies start <= #[trigger] init[i].1 < start + window_nanos(limit) by {
            assert(init[i] == events[i]);
        }
        lemma_burst_recorded(p, limit, init, start);
        let before = run_checks(p, init);
        let (command, now) = events.last();
        assert(start <= events[events.len() - 1].1 < start + window_nanos(limit));
        if permits(before.0.allowed, command) {
            let times = before.0.times;
            let pred = in_window(now, limit);
            let from = |t: u128| t >= start;
            let kept = times.filter(pred);
            assert(kept == recent(times, now, limit));
            assert forall|e: u128| #[trigger] from(e) implies pred(e) by {}
            lemma_filter_absorbs(times, pred, from);
            times.lemma_filter_len(pred);
            if kept.len() < limit.max_commands {
                kept.lemma_filter_push(now, from);
                assert(stamps_from(kept.push(now), start) == kept.filter(from).push(now));
            }
        }
    }
}

/// Law: with a rate limit, of any sequence of commands checked within one
/// window (every check at a time in `[start, start + window)`), at most
/// `max_commands` are admitted, whatever the commands and however the
/// checks are ordered in time.
pub proof fn lemma_rate_limit_within_window(
    p: PolicyView,
    limit: RateLimit,
    events: Seq<(Seq<char>, u128)>,
    start: int,
)
    requires
        p.limit == Some(limit),
        p.times.len() <= limit.max_commands,
        forall|i: int| 0 <= i < events.len() ==> start <= #[trigger] events[i].1 < start + window_nanos(limit),
    ensures
        run_checks(p, events).1 <= limit.max_commands,
{
    lemma_burst_recorded(p, limit, events, start);
    let last = run_checks(p, events).0.times;
    last.lemma_filter_len(|t: u128| t >= start);
}

/// Law: the allowlist alone decides a denial, whatever the time, and a denied
/// command leaves the policy as it was, so it uses up none of the rate limit.
pub proof fn lemma_denial_by_allowlist(p: PolicyView, command: Seq<char>, now: u128)
    ensures
        (check_spec(p, command, now).1 == Verdict::Denied) == !permits(p.allowed, command),
        !permits(p.allowed, command) ==> check_spec(p, command, now).0 == p,
{
}

/// Law: a policy without allowlist and without rate limit (as `allow_all`
/// makes) admits every command and never changes.
pub proof fn lemma_allow_all_admits(p: PolicyView, command: Seq<char>, now: u128)
    requires
        p.allowed is None,
        p.limit is None,
    ensures
        check_spec(p, command, now) == (p, Verdict::Admitted),
{
}

/// Whether the events are checked in time order.
pub open spec fn in_time_order(events: Seq<(Seq<char>, u128)>) -> bool {
    forall|i: int, j: int| 0 <= i <= j < events.len() ==> #[trigger] events[i].1 <= #[trigger] events[j].1
}

/// The time stamps of the events that were admitted, in order.
pub open spec fn admitted_times(p: PolicyView, events: Seq<(Seq<char>, u128)>) -> Seq<u128>
    decreases events.len(),
{
    if events.len() == 0 {
        Seq::empty()
    } else {
        let before = admitted_times(p, events.drop_last());
        if check_spec(run_checks(p, events.drop_last()).0, events.last().0, events.last().1).1
            == Verdict::Admitted {
            before.push(events.last().1)
        } else {
            before
        }
    }
}

/// The verdict on each event, in order.
pub open spec fn run_verdicts(p: PolicyView, events: Seq<(Seq<char>, u128)>) -> Seq<Verdict>
    decreases events.len(),
{
    if events.len() == 0 {
        Seq::empty()
    } else {
        run_verdicts(p, events.drop_last()).push(
            check_spec(run_checks(p, events.drop_last()).0, events.last().0, events.last().1).1,
        )
    }
}

/// A later window holds no stamp that an earlier one has dropped.
proof fn lemma_window_narrows(earlier: u128, later: u128, limit: RateLimit)
    requires
        earlier <= later,
    ensures
        forall|t: u128| #[trigger] in_window(later, limit)(t) ==> in_window(earlier, limit)(t),
{
}

/// Pruning at `earlier` changes nothing that a later window sees.
proof fn lemma_prune_then_recent(times: Seq<u128>, earlier: u128, later: u128, limit: RateLimit)
    requires
        earlier <= later,
    ensures
        recent(recent(times, earlier, limit), later, limit) == recent(times, later, limit),
{
    lemma_window_narrows(earlier, later, limit);
    lemma_filter_absorbs(times, in_window(earlier, limit), in_window(later, limit));
}

proof fn lemma_filter_len_mono(s: Seq<u128>, narrow: spec_fn(u128) -> bool, wide: spec_fn(u128) -> bool)
    requires
        forall|i: int| 0 <= i < s.len() && #[trigger] narrow(s[i]) ==> wide(s[i]),
    ensures
        s.filter(narrow).len() <= s.filter(wide).len(),
    decreases s.len(),
{
    if s.len() > 0 {
        let init = s.drop_last();
        assert forall|i: int| 0 <= i < init.len() && #[trigger] narrow(init[i]) implies wide(init[i]) by {
            assert(init[i] == s[i]);
        }
        lemma_filter_len_mono(init, narrow, wide);
        assert(s == init.push(s.last()));
        init.lemma_filter_push(s.last(), narrow);
        init.lemma_filter_push(s.last(), wide);
        assert(narrow(s[s.len() - 1]) ==> wide(s[s.len() - 1]));
    }
}

/// On a fresh policy with a rate limit, checks in time order keep a record
/// that every later window sees exactly as it sees the admitted history; the
/// allowlist and limit never change, and admitted stamps are no later than
/// the last check.
proof fn lemma_record_matches_history(p: PolicyView, limit: RateLimit, events: Seq<(Seq<char>, u128)>)
    requires
        p.limit == Some(limit),
        p.times.len() == 0,
        in_time_order(events),
    ensures
        run_checks(p, events).0.limit == Some(limit),
        run_checks(p, events).0.allowed == p.allowed,
        forall|t: u128|
            (events.len() == 0 || events.last().1 <= t) ==> #[trigger] recent(run_checks(p, events).0.times, t, limit)
                == recent(admitted_times(p, events), t, limit),
        events.len() > 0 ==> forall|i: int|
            0 <= i < admitted_times(p, events).len() ==> #[trigger] admitted_times(p, events)[i]
                <= events.last().1,
    decreases events.len(),
{
    if events.len() == 0 {
        assert(p.times == Seq::<u128>::empty());
    } else {
        let init = events.drop_last();
        assert forall|i: int, j: int| 0 <= i <= j < init.len() implies #[trigger] init[i].1 <= #[trigger] init[j].1 by {
            assert(init[i] == events[i] && init[j] == events[j]);
        }
        lemma_record_matches_history(p, limit, init);
        let q = run_checks(p, init).0;
        let history = admitted_times(p, init);
        let (command, now) = events.last();
        assert(events.last() == events[events.len() - 1]);
        if init.len() > 0 {
            assert(init.last() == events[init.len() - 1]);
            assert(events[init.len() - 1].1 <= events[events.len() - 1].1);
        }
        if permits(q.allowed, command) {
            let kept = recent(q.times, now, limit);
            assert forall|t: u128| now <= t implies #[trigger] recent(kept, t, limit) == recent(history, t, limit) by {
                lemma_prune_then_recent(q.times, now, t, limit);
            }
            if kept.len() < limit.max_commands {
                assert forall|t: u128| now <= t implies #[trigger] recent(kept.push(now), t, limit) == recent(
                    history.push(now),
                    t,
                    limit,
                ) by {
                    kept.lemma_filter_push(now, in_window(t, limit));
                    history.lemma_filter_push(now, in_window(t, limit));
                    assert(recent(kept, t, limit) == recent(history, t, limit));
                }
                assert forall|i: int| 0 <= i < history.push(now).len() implies #[trigger] history.push(now)[i] <= now by {
                    if i < history.len() {
                        assert(history.push(now)[i] == history[i]);
                    }
                }
            } else {
                assert forall|t: u128| now <= t implies #[trigger] recent(kept, t, limit) == recent(history, t, limit) by {
                    lemma_prune_then_recent(q.times, now, t, limit);
                }
            }
        }
    }
}

/// Law (the rate limit over the whole history): on a fresh policy with a rate
/// limit, after any checks made in time order, a command that the allowlist
/// lets through, checked no earlier than those, is admitted exactly when fewer
/// than `max_commands` of the admitted commands fall within the window before
/// it; otherwise it is rate limited.
pub proof fn lemma_rate_limit_over_history(
    p: PolicyView,
    limit: RateLimit,
    events: Seq<(Seq<char>, u128)>,
    command: Seq<char>,
    now: u128,
)
    requires
        p.limit == Some(limit),
        p.times.len() == 0,
        in_time_order(events),
        events.len() > 0 ==> events.last().1 <= now,
        permits(p.allowed, command),
    ensures
        check_spec(run_checks(p, events).0, command, now).1 == if recent(
            admitted_times(p, events),
            now,
            limit,
        ).len() < limit.max_commands {
            Verdict::Admitted
        } else {
            Verdict::Limited
        },
{
    lemma_record_matches_history(p, limit, events);
    assert(recent(run_checks(p, events).0.times, now, limit) == recent(admitted_times(p, events), now, limit));
}

/// Law (the rate limit in every window): on a fresh policy with a rate limit,
/// of any checks made in time order, at most `max_commands` of those admitted
/// fall within any one window `[start, start + window)`; with a limit of zero
/// none is admitted.
pub proof fn lemma_rate_limit_any_window(
    p: PolicyView,
    limit: RateLimit,
    events: Seq<(Seq<char>, u128)>,
    start: int,
)
    requires
        p.limit == Some(limit),
        p.times.len() == 0,
        in_time_order(events),
    ensures
        admitted_times(p, events).filter(|t: u128| start <= t < start + window_nanos(limit)).len()
            <= limit.max_commands,
    decreases events.len(),
{
    let win = |t: u128| start <= t < start + window_nanos(limit);
    if events.len() > 0 {
        let init = events.drop_last();
        assert forall|i: int, j: int| 0 <= i <= j < init.len() implies #[trigger] init[i].1 <= #[trigger] init[j].1 by {
            assert(init[i] == events[i] && init[j] == events[j]);
        }
        lemma_rate_limit_any_window(p, limit, init, start);
        lemma_record_matches_history(p, limit, init);
        let history = admitted_times(p, init);
        let q = run_checks(p, init).0;
        let (command, now) = events.last();
        assert(events.last() == events[events.len() - 1]);
        if init.len() > 0 {
            assert(init.last() == events[init.len() - 1]);
            assert(events[init.len() - 1].1 <= events[events.len() - 1].1);
        }
        history.lemma_filter_push(now, win);
        if check_spec(q, command, now).1 == Verdict::Admitted && win(now) {
            assert(recent(q.times, now, limit) == recent(history, now, limit));
            assert forall|i: int| 0 <= i < history.len() && #[trigger] win(history[i]) implies in_window(
                now,
                limit,
            )(history[i]) by {
                if init.len() > 0 {
                    assert(history[i] <= init.last().1);
                }
            }
            lemma_filter_len_mono(history, win, in_window(now, limit));
        }
    }
}

/// Two states that every check from `from` on treats alike: the same
/// allowlist and limit, and records that look the same in every later window.
pub open spec fn same_outlook(q: PolicyView, p: PolicyView, from: int) -> bool {
    &&& q.allowed == p.allowed
    &&& q.limit == p.limit
    &&& forall|t: u128, l: RateLimit|
        from <= t && p.limit == Some(l) ==> #[trigger] recent(q.times, t, l) == recent(p.times, t, l)
}

proof fn lemma_same_outlook_runs(q: PolicyView, p: PolicyView, from: int, events: Seq<(Seq<char>, u128)>)
    requires
        same_outlook(q, p, from),
        in_time_order(events),
        events.len() > 0 ==> from <= events[0].1,
    ensures
        run_verdicts(q, events) == run_verdicts(p, events),
        events.len() > 0 ==> same_outlook(run_checks(q, events).0, run_checks(p, events).0, events.last().1 as int),
    decreases events.len(),
{
    if events.len() > 0 {
        let init = events.drop_last();
        assert forall|i: int, j: int| 0 <= i <= j < init.len() implies #[trigger] init[i].1 <= #[trigger] init[j].1 by {
            assert(init[i] == events[i] && init[j] == events[j]);
        }
        if init.len() > 0 {
            assert(init[0] == events[0]);
        }
        lemma_same_outlook_runs(q, p, from, init);
        let qs = run_checks(q, init).0;
        let ps = run_checks(p, init).0;
        let (command, now) = events.last();
        assert(events.last() == events[events.len() - 1]);
        assert(events[0].1 <= events[events.len() - 1].1);
        let at: int = if init.len() > 0 { init.last().1 as int } else { from };
        if init.len() > 0 {
            assert(init.last() == events[init.len() - 1]);
            assert(events[init.len() - 1].1 <= events[events.len() - 1].1);
        }
        assert(same_outlook(qs, ps, at));
        assert(at <= now);
        match ps.limit {
            None => {},
            Some(l) => {
                assert(recent(qs.times, now, l) == recent(ps.times, now, l));
                if permits(ps.allowed, command) {
                    let kept = recent(ps.times, now, l);
                    assert forall|t: u128, l2: RateLimit|
                        now <= t && ps.limit == Some(l2) implies #[trigger] recent(
                        check_spec(qs, command, now).0.times,
                        t,
                        l2,
                    ) == recent(check_spec(ps, command, now).0.times, t, l2) by {
                        assert(l2 == l);
                    }
                } else {
                    assert forall|t: u128, l2: RateLimit|
                        now <= t && ps.limit == Some(l2) implies #[trigger] recent(qs.times, t, l2) == recent(
                        ps.times,
                        t,
                        l2,
                    ) by {
                        assert(recent(qs.times, t, l2) == recent(ps.times, t, l2));
                    }
                }
            },
        }
    }
}

/// Law (a rejected check takes no slot): after a check that is denied or rate
/// limited at `now`, every later sequence of checks in time order gets the
/// same verdicts as if the rejected check had never been made.
pub proof fn lemma_rejected_check_takes_no_slot(
    p: PolicyView,
    command: Seq<char>,
    now: u128,
    events: Seq<(Seq<char>, u128)>,
)
    requires
        check_spec(p, command, now).1 != Verdict::Admitted,
        in_time_order(events),
        events.len() > 0 ==> now <= events[0].1,
    ensures
        run_verdicts(check_spec(p, command, now).0, events) == run_verdicts(p, events),
{
    let q = check_spec(p, command, now).0;
    assert forall|t: u128, l: RateLimit| now <= t && p.limit == Some(l) implies #[trigger] recent(q.times, t, l)
        == recent(p.times, t, l) by {
        if permits(p.allowed, command) {
            lemma_prune_then_recent(p.times, now, t, l);
        }
    }
    lemma_same_outlook_runs(q, p, now as int, events);
}

/// Law (the window slides): with a rate limit of at least one command, a
/// command that the allowlist lets through is admitted whenever every recorded
/// command lies a full window or more before the reading it is checked at.
pub proof fn lemma_window_slides(p: PolicyView, limit: RateLimit, command: Seq<char>, now: u128)
    requires
        p.limit == Some(limit),
        limit.max_commands >= 1,
        permits(p.allowed, command),
        forall|i: int| 0 <= i < p.times.len() ==> elapsed(now, #[trigger] p.times[i]) >= window_nanos(limit),
    ensures
        check_spec(p, command, now).1 == Verdict::Admitted,
        check_spec(p, command, now).0.times == seq![now],
{
    let pred = in_window(now, limit);
    assert(p.times.all(|x: u128| !pred(x)));
    p.times.lemma_all_neg_filter_empty(pred);
    assert(recent(p.times, now, limit) =~= Seq::<u128>::empty());
    assert(Seq::<u128>::empty().push(now) =~= seq![now]);
}

} // verus!
