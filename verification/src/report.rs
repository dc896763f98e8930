//! The read-only report: collect every managed entry in file order, and
//! resolve a production IP for each inactive one under a bounded-retry
//! policy.
//!
//! The policy allows up to three lookup attempts with a pause between
//! them, driven from outside: the caller asks [`Resolver::wants_attempt`],
//! performs one DNS lookup, hands the outcome to [`Resolver::record`] and
//! repeats.  An answer that differs from the override IP settles the
//! result at once; an answer equal to the override is kept provisionally;
//! a failed attempt changes nothing.  An active entry admits no attempt
//! at all, so its production IP stays absent whatever a resolver would
//! have answered.

use vstd::prelude::*;
use vstd::string::StrSliceExecFns;

use crate::codec::{decode, decode_spec, EntryView, ManagedEntry};
use crate::text::str_eq;

verus! {

/// The managed entries of the file, in file order, as parsed — their
/// production IPs still absent.
pub open spec fn collected(lines: Seq<Seq<char>>) -> Seq<EntryView>
    decreases lines.len(),
{
    if lines.len() == 0 {
        Seq::empty()
    } else {
        let rest = collected(lines.drop_last());
        match decode_spec(lines.last()) {
            Some(e) => rest.push(e),
            None => rest,
        }
    }
}

/// Extract every managed entry, keeping file order and silently passing
/// over every line that is not managed.
pub fn collect(lines: &Vec<String>) -> (r: Vec<ManagedEntry>)
    ensures
        r.deep_view() == collected(lines.deep_view()),
{
    let ghost lv = lines.deep_view();
    let n: usize = lines.len();
    let mut out: Vec<ManagedEntry> = Vec::new();
    let mut i: usize = 0;
    while i < n
        invariant
            i <= n,
            n == lines.len(),
            lv == lines.deep_view(),
            out.deep_view() == collected(lv.take(i as int)),
        decreases n - i,
    {
        let line: &String = &lines[i];
        proof {
            assert(lv[i as int] == line@);
        }
        match decode(line.as_str()) {
            Some(entry) => {
                out.push(entry);
            },
            None => {},
        }
        proof {
            assert(lv.take(i as int + 1).drop_last() =~= lv.take(i as int));
            assert(lv.take(i as int + 1).last() == lv[i as int]);
            assert(out.deep_view() =~= collected(lv.take(i as int + 1)));
        }
        i = i + 1;
    }
    proof {
        assert(lv.take(n as int) =~= lv);
    }
    out
}

/// Every collected entry comes out of [`decode_spec`], so its production
/// IP is absent.
pub proof fn lemma_collected_no_prod_ip(lines: Seq<Seq<char>>)
    ensures
        forall|k: int| 0 <= k < collected(lines).len() ==> (#[trigger] collected(lines)[k]).prod_ip
            is None,
    decreases lines.len(),
{
    if lines.len() > 0 {
        lemma_collected_no_prod_ip(lines.drop_last());
    }
}

/// The ghost state of one entry's resolution.
pub struct ResolverView {
    pub dev_ip: Seq<char>,
    pub attempts_left: int,
    pub result: Option<Seq<char>>,
    pub settled: bool,
}

/// How many lookup attempts an inactive entry is granted.
pub open spec fn max_attempts() -> int {
    3
}

/// The state a resolver starts in: an active entry gets no attempt, an
/// inactive one gets the full allowance.
pub open spec fn initial_resolver(dev_ip: Seq<char>, active: bool) -> ResolverView {
    ResolverView {
        dev_ip,
        attempts_left: if active {
            0
        } else {
            max_attempts()
        },
        result: None,
        settled: false,
    }
}

/// Another lookup is still wanted: attempts remain and nothing settled
/// the result yet.
pub open spec fn wants_lookup(v: ResolverView) -> bool {
    v.attempts_left > 0 && !v.settled
}

/// One recorded lookup outcome: an address differing from the override
/// settles the result; one equal to it is kept provisionally; a failed
/// lookup changes nothing but the allowance.
pub open spec fn stepped(v: ResolverView, outcome: Option<Seq<char>>) -> ResolverView {
    match outcome {
        Some(addr) => ResolverView {
            dev_ip: v.dev_ip,
            attempts_left: v.attempts_left - 1,
            result: Some(addr),
            settled: addr != v.dev_ip,
        },
        None => ResolverView {
            dev_ip: v.dev_ip,
            attempts_left: v.attempts_left - 1,
            result: v.result,
            settled: v.settled,
        },
    }
}

/// The state after feeding a whole run of outcomes to a resolver, each
/// taken only while a lookup is still wanted.
pub open spec fn run_resolver(v: ResolverView, outcomes: Seq<Option<Seq<char>>>) -> ResolverView
    decreases outcomes.len(),
{
    if outcomes.len() == 0 || !wants_lookup(v) {
        v
    } else {
        run_resolver(stepped(v, outcomes[0]), outcomes.drop_first())
    }
}

/// The bounded-retry policy for one entry, driven by the caller who
/// performs the actual lookups.
pub struct Resolver {
    dev_ip: String,
    attempts_left: u8,
    result: Option<String>,
    settled: bool,
}

impl View for Resolver {
    type V = ResolverView;

    closed spec fn view(&self) -> ResolverView {
        ResolverView {
            dev_ip: self.dev_ip@,
            attempts_left: self.attempts_left as int,
            result: self.result.deep_view(),
            settled: self.settled,
        }
    }
}

impl Resolver {
    /// Start resolving one entry.  An active entry is granted no attempt.
    pub fn new(entry: &ManagedEntry) -> (r: Resolver)
        ensures
            r@ == initial_resolver(entry@.ip, entry@.active),
    {
        Resolver {
            dev_ip: entry.ip.clone(),
            attempts_left: if entry.active {
                0
            } else {
                3
            },
            result: None,
            settled: false,
        }
    }

    /// Whether the caller should perform (another) lookup.
    pub fn wants_attempt(&self) -> (b: bool)
        ensures
            b == wants_lookup(self@),
    {
        self.attempts_left > 0 && !self.settled
    }

    /// Record the outcome of one lookup attempt.
    pub fn record(&mut self, outcome: Option<String>)
        requires
            wants_lookup(old(self)@),
        ensures
            final (self)@ == stepped(old(self)@, outcome.deep_view()),
    {
        self.attempts_left = self.attempts_left - 1;
        match outcome {
            Some(addr) => {
                self.settled = !str_eq(addr.as_str(), self.dev_ip.as_str());
                self.result = Some(addr);
            },
            None => {},
        }
    }

    /// The production IP the attempts yielded, if any.
    pub fn finish(self) -> (r: Option<String>)
        ensures
            r.deep_view() == self@.result,
    {
        self.result
    }
}

/// The entry as the report carries it: an inactive entry takes the
/// resolved production IP, an active one stays without, whatever was
/// handed in.
pub fn with_prod_ip(entry: ManagedEntry, prod: Option<String>) -> (r: ManagedEntry)
    ensures
        r@.ip == entry@.ip,
        r@.domain == entry@.domain,
        r@.alias == entry@.alias,
        r@.active == entry@.active,
        r@.prod_ip == if entry@.active {
            None::<Seq<char>>
        } else {
            prod.deep_view()
        },
{
    if entry.active {
        ManagedEntry { prod_ip: None, ..entry }
    } else {
        ManagedEntry { prod_ip: prod, ..entry }
    }
}

/// An answer differing from the override wins, even on the last attempt:
/// with the override answered twice and another address third, the
/// result is that other address.
pub proof fn lemma_retry_prefers_different(dev_ip: Seq<char>, other: Seq<char>)
    requires
        other != dev_ip,
    ensures
        run_resolver(
            initial_resolver(dev_ip, false),
            seq![Some(dev_ip), Some(dev_ip), Some(other)],
        ).result == Some(other),
{
    let v0 = initial_resolver(dev_ip, false);
    let outcomes = seq![Some(dev_ip), Some(dev_ip), Some(other)];
    let v1 = stepped(v0, Some(dev_ip));
    let v2 = stepped(v1, Some(dev_ip));
    let v3 = stepped(v2, Some(other));
    assert(outcomes.drop_first() =~= seq![Some(dev_ip), Some(other)]);
    assert(outcomes.drop_first().drop_first() =~= seq![Some(other)]);
    assert(outcomes.drop_first().drop_first().drop_first() =~= Seq::<Option<Seq<char>>>::empty());
    assert(run_resolver(v0, outcomes) == run_resolver(v1, outcomes.drop_first()));
    assert(run_resolver(v1, outcomes.drop_first()) == run_resolver(
        v2,
        outcomes.drop_first().drop_first(),
    ));
    assert(run_resolver(v2, outcomes.drop_first().drop_first()) == run_resolver(
        v3,
        outcomes.drop_first().drop_first().drop_first(),
    ));
    assert(run_resolver(v3, outcomes.drop_first().drop_first().drop_first()) == v3);
}

/// When every attempt fails to resolve, the result stays absent.
pub proof fn lemma_retry_exhaustion(dev_ip: Seq<char>)
    ensures
        run_resolver(
            initial_resolver(dev_ip, false),
            seq![None::<Seq<char>>, None::<Seq<char>>, None::<Seq<char>>],
        ).result is None,
{
    let v0 = initial_resolver(dev_ip, false);
    let outcomes = seq![None::<Seq<char>>, None::<Seq<char>>, None::<Seq<char>>];
    let v1 = stepped(v0, None);
    let v2 = stepped(v1, None);
    let v3 = stepped(v2, None);
    assert(outcomes.drop_first() =~= seq![None::<Seq<char>>, None::<Seq<char>>]);
    assert(outcomes.drop_first().drop_first() =~= seq![None::<Seq<char>>]);
    assert(outcomes.drop_first().drop_first().drop_first() =~= Seq::<Option<Seq<char>>>::empty());
    assert(run_resolver(v0, outcomes) == run_resolver(v1, outcomes.drop_first()));
    assert(run_resolver(v1, outcomes.drop_first()) == run_resolver(
        v2,
        outcomes.drop_first().drop_first(),
    ));
    assert(run_resolver(v2, outcomes.drop_first().drop_first()) == run_resolver(
        v3,
        outcomes.drop_first().drop_first().drop_first(),
    ));
    assert(run_resolver(v3, outcomes.drop_first().drop_first().drop_first()) == v3);
}

/// An active entry never resolves: its resolver wants no attempt, and
/// whatever outcomes are around, running it changes nothing and yields
/// no production IP.
pub proof fn lemma_active_never_resolves(dev_ip: Seq<char>, outcomes: Seq<Option<Seq<char>>>)
    ensures
        !wants_lookup(initial_resolver(dev_ip, true)),
        run_resolver(initial_resolver(dev_ip, true), outcomes) == initial_resolver(dev_ip, true),
        run_resolver(initial_resolver(dev_ip, true), outcomes).result is None,
{
}

/// What the mode column shows.
pub fn mode_label(entry: &ManagedEntry) -> (r: &'static str)
    ensures
        entry@.active ==> r@ == "DEV"@,
        !entry@.active ==> r@ == "PROD"@,
{
    if entry.active {
        "DEV"
    } else {
        "PROD"
    }
}

/// What the alias column shows: the alias, unless it is absent or just
/// repeats the domain.
pub open spec fn spec_alias_display(e: EntryView) -> Seq<char> {
    match e.alias {
        Some(a) => if a == e.domain {
            Seq::empty()
        } else {
            a
        },
        None => Seq::empty(),
    }
}

pub fn alias_display<'a>(entry: &'a ManagedEntry) -> (r: &'a str)
    ensures
        r@ == spec_alias_display(entry@),
{
    proof {
        reveal_strlit("");
        assert(""@ =~= Seq::<char>::empty());
    }
    match &entry.alias {
        Some(a) => {
            if str_eq(a.as_str(), entry.domain.as_str()) {
                ""
            } else {
                a.as_str()
            }
        },
        None => "",
    }
}

/// What the production-IP column shows: nothing for an active entry, the
/// resolved IP for an inactive one, and a dash when resolution failed.
pub open spec fn spec_prod_ip_display(e: EntryView) -> Seq<char> {
    if e.active {
        Seq::empty()
    } else {
        match e.prod_ip {
            Some(p) => p,
            None => "-"@,
        }
    }
}

pub fn prod_ip_display<'a>(entry: &'a ManagedEntry) -> (r: &'a str)
    ensures
        r@ == spec_prod_ip_display(entry@),
{
    proof {
        reveal_strlit("");
        assert(""@ =~= Seq::<char>::empty());
    }
    if entry.active {
        ""
    } else {
        match &entry.prod_ip {
            Some(p) => p.as_str(),
            None => "-",
        }
    }
}

} // verus!
