//! Snapshots of the configuration (silos): naming, ordering and pruning.
use vstd::prelude::*;
use vstd::seq_lib::{to_multiset_build, to_multiset_insert};
use crate::config::Config;

verus! {

/// At most this many snapshots are kept.
pub const MAX_AUTO_SILOS: usize = 5;

/// One stored snapshot of the configuration.
pub struct Silo {
    pub id: String,
    pub timestamp: u64,
    pub label: String,
    pub reason: String,
    pub config_snapshot: Config,
}

/// The character of a decimal digit.
pub open spec fn digit_char(d: nat) -> char {
    (48 + d) as char
}

/// Decimal notation of a number, without leading zeros.
pub open spec fn decimal(n: nat) -> Seq<char>
    decreases n,
{
    if n < 10 {
        seq![digit_char(n)]
    } else {
        decimal(n / 10).push(digit_char(n % 10))
    }
}

fn digit_str(d: u64) -> (r: &'static str)
    requires
        d < 10,
    ensures
        r@ == seq![digit_char(d as nat)],
{
    proof {
        reveal_strlit("0");
        reveal_strlit("1");
        reveal_strlit("2");
        reveal_strlit("3");
        reveal_strlit("4");
        reveal_strlit("5");
        reveal_strlit("6");
        reveal_strlit("7");
        reveal_strlit("8");
        reveal_strlit("9");
    }
    match d {
        0 => "0",
        1 => "1",
        2 => "2",
        3 => "3",
        4 => "4",
        5 => "5",
        6 => "6",
        7 => "7",
        8 => "8",
        _ => "9",
    }
}

/// Decimal notation of `n`.
pub fn decimal_string(n: u64) -> (r: String)
    ensures
        r@ == decimal(n as nat),
    decreases n,
{
    if n < 10 {
        String::from_str(digit_str(n))
    } else {
        let mut s = decimal_string(n / 10);
        s.append(digit_str(n % 10));
        s
    }
}

/// The id of a silo taken at a Unix time.
pub open spec fn silo_id_spec(ts: u64) -> Seq<char> {
    "silo_"@ + decimal(ts as nat)
}

/// Names a silo after the Unix time it was taken at.
pub fn silo_id(ts: u64) -> (r: String)
    ensures
        r@ == silo_id_spec(ts),
{
    let mut r = String::from_str("silo_");
    let d = decimal_string(ts);
    r.append(d.as_str());
    r
}

impl Silo {
    /// A snapshot of `config` taken at Unix time `now`.
    pub fn new(config: Config, label: String, reason: String, now: u64) -> (r: Silo)
        ensures
            r.id@ == silo_id_spec(now),
            r.timestamp == now,
            r.label == label,
            r.reason == reason,
            r.config_snapshot == config,
    {
        Silo { id: silo_id(now), timestamp: now, label, reason, config_snapshot: config }
    }
}

/// Timestamps never increase along the list.
pub open spec fn newest_first(s: Seq<Silo>) -> bool {
    forall|i: int, j: int| 0 <= i < j < s.len() ==> #[trigger] s[i].timestamp >= #[trigger] s[j].timestamp
}

/// No two silos share a timestamp.
pub open spec fn distinct_timestamps(s: Seq<Silo>) -> bool {
    forall|i: int, j: int|
        0 <= i < s.len() && 0 <= j < s.len() && i != j ==> #[trigger] s[i].timestamp
            != #[trigger] s[j].timestamp
}

fn insert_newest_first(out: &mut Vec<Silo>, s: Silo)
    requires
        newest_first(old(out)@),
    ensures
        newest_first(final(out)@),
        final(out)@.to_multiset() == old(out)@.to_multiset().insert(s),
{
    let mut k: usize = 0;
    while k < out.len() && out[k].timestamp >= s.timestamp
        invariant
            out@ == old(out)@,
            k <= out.len(),
            forall|i: int| 0 <= i < k ==> #[trigger] out@[i].timestamp >= s.timestamp,
        decreases out.len() - k,
    {
        k = k + 1;
    }
    let ghost before = out@;
    proof {
        to_multiset_insert(before, k as int, s);
    }
    out.insert(k, s);
    assert(out@ =~= before.insert(k as int, s));
}

/// Orders silos newest first.
pub fn sort_newest_first(silos: Vec<Silo>) -> (r: Vec<Silo>)
    ensures
        newest_first(r@),
        r@.to_multiset() == silos@.to_multiset(),
{
    let ghost all = silos@;
    let mut rest = silos;
    let mut out: Vec<Silo> = Vec::new();
    let ghost mut n: int = 0;
    assert(all.skip(0) =~= all);
    assert(all.take(0) =~= Seq::<Silo>::empty());
    while rest.len() > 0
        invariant
            0 <= n <= all.len(),
            rest@ == all.skip(n),
            newest_first(out@),
            out@.to_multiset() == all.take(n).to_multiset(),
        decreases rest@.len(),
    {
        let s = rest.remove(0);
        proof {
            assert(s == all[n]);
            assert(rest@ =~= all.skip(n + 1));
            assert(all.take(n + 1) =~= all.take(n).push(s));
            to_multiset_build(all.take(n), s);
            n = n + 1;
        }
        insert_newest_first(&mut out, s);
    }
    assert(all.take(n) =~= all);
    out
}

/// Ids of the silos past the newest `MAX_AUTO_SILOS` of a newest-first list.
pub fn silos_to_prune(sorted: &Vec<Silo>) -> (r: Vec<String>)
    ensures
        r@.len() == (if sorted@.len() > MAX_AUTO_SILOS {
            sorted@.len() - MAX_AUTO_SILOS
        } else {
            0
        }),
        forall|i: int| 0 <= i < r@.len() ==> #[trigger] r@[i] == sorted@[i + MAX_AUTO_SILOS].id,
{
    let mut out: Vec<String> = Vec::new();
    let mut i: usize = MAX_AUTO_SILOS;
    while i < sorted.len()
        invariant
            MAX_AUTO_SILOS <= i,
            sorted@.len() > MAX_AUTO_SILOS ==> i <= sorted@.len(),
            sorted@.len() <= MAX_AUTO_SILOS ==> i == MAX_AUTO_SILOS,
            out@.len() == i - MAX_AUTO_SILOS,
            forall|k: int| 0 <= k < out@.len() ==> #[trigger] out@[k] == sorted@[k + MAX_AUTO_SILOS].id,
        decreases sorted@.len() - i,
    {
        out.push(sorted[i].id.clone());
        i = i + 1;
    }
    out
}

/// The silos a newest-first listing keeps after pruning.
pub open spec fn retained(sorted: Seq<Silo>) -> Seq<Silo> {
    if sorted.len() > MAX_AUTO_SILOS {
        sorted.take(MAX_AUTO_SILOS as int)
    } else {
        sorted
    }
}

/// The newest silo, the one a rollback restores.
pub fn latest_silo(sorted: &Vec<Silo>) -> (r: Option<&Silo>)
    ensures
        sorted@.len() == 0 ==> r is None,
        sorted@.len() > 0 ==> r == Some(&sorted@[0]),
{
    if sorted.len() == 0 {
        None
    } else {
        Some(&sorted[0])
    }
}

/// A listing of silos with distinct timestamps (each silo file is named by
/// its timestamp) comes out with strictly decreasing timestamps, and after a
/// silo is created and the list pruned, at most `MAX_AUTO_SILOS` remain.
pub proof fn lemma_granary_bounded_and_ordered(silos: Seq<Silo>, sorted: Seq<Silo>)
    requires
        newest_first(sorted),
        sorted.to_multiset() == silos.to_multiset(),
        distinct_timestamps(silos),
    ensures
        forall|i: int, j: int|
            0 <= i < j < sorted.len() ==> #[trigger] sorted[i].timestamp > #[trigger] sorted[j].timestamp,
        retained(sorted).len() <= MAX_AUTO_SILOS,
        forall|i: int, j: int|
            0 <= i < j < retained(sorted).len() ==> #[trigger] retained(sorted)[i].timestamp
                > #[trigger] retained(sorted)[j].timestamp,
{
    assert forall|i: int, j: int|
        0 <= i < j < sorted.len() implies #[trigger] sorted[i].timestamp > #[trigger] sorted[j].timestamp by {
        if sorted[i].timestamp == sorted[j].timestamp {
            lemma_distinct_survives(silos, sorted, i, j);
        }
    }
    assert forall|i: int, j: int|
        0 <= i < j < retained(sorted).len() implies #[trigger] retained(sorted)[i].timestamp
        > #[trigger] retained(sorted)[j].timestamp by {
        assert(retained(sorted)[i] == sorted[i]);
        assert(retained(sorted)[j] == sorted[j]);
        if sorted[i].timestamp == sorted[j].timestamp {
            lemma_distinct_survives(silos, sorted, i, j);
        }
    }
}

proof fn lemma_distinct_survives(silos: Seq<Silo>, sorted: Seq<Silo>, i: int, j: int)
    requires
        sorted.to_multiset() == silos.to_multiset(),
        distinct_timestamps(silos),
        0 <= i < j < sorted.len(),
    ensures
        sorted[i].timestamp != sorted[j].timestamp,
{
    broadcast use vstd::seq_lib::group_seq_properties;
    let a = sorted[i];
    let b = sorted[j];
    assert(sorted.to_multiset().count(a) > 0) by {
        assert(sorted.contains(a));
    }
    assert(sorted.to_multiset().count(b) > 0) by {
        assert(sorted.contains(b));
    }
    assert(silos.contains(a));
    assert(silos.contains(b));
    let ia = choose|k: int| 0 <= k < silos.len() && silos[k] == a;
    let ib = choose|k: int| 0 <= k < silos.len() && silos[k] == b;
    if a.timestamp == b.timestamp {
        assert(ia == ib);
        assert(a == b);
        // the same silo twice in `sorted` means twice in `silos`
        assert(sorted.to_multiset().count(a) >= 2) by {
            lemma_count_two(sorted, i, j);
        }
        lemma_distinct_count_one(silos, a);
    }
}

proof fn lemma_count_two(s: Seq<Silo>, i: int, j: int)
    requires
        0 <= i < j < s.len(),
        s[i] == s[j],
    ensures
        s.to_multiset().count(s[i]) >= 2,
{
    broadcast use vstd::seq_lib::group_seq_properties;
    let x = s[i];
    let left = s.take(j);
    let right = s.skip(j);
    assert(s =~= left + right);
    vstd::seq_lib::lemma_multiset_commutative(left, right);
    assert(left.contains(x)) by {
        assert(left[i] == x);
    }
    assert(right.contains(x)) by {
        assert(right[0] == x);
    }
    assert(left.to_multiset().count(x) >= 1);
    assert(right.to_multiset().count(x) >= 1);
}

proof fn lemma_distinct_count_one(s: Seq<Silo>, x: Silo)
    requires
        distinct_timestamps(s),
    ensures
        s.to_multiset().count(x) <= 1,
    decreases s.len(),
{
    broadcast use vstd::seq_lib::group_seq_properties;
    if s.len() > 0 {
        let init = s.drop_last();
        assert(distinct_timestamps(init)) by {
            assert forall|i: int, j: int|
                0 <= i < init.len() && 0 <= j < init.len() && i != j implies #[trigger] init[i].timestamp
                != #[trigger] init[j].timestamp by {
                assert(init[i] == s[i]);
                assert(init[j] == s[j]);
            }
        }
        lemma_distinct_count_one(init, x);
        assert(s =~= init.push(s.last()));
        to_multiset_build(init, s.last());
        if s.last() == x && init.to_multiset().count(x) > 0 {
            assert(init.contains(x));
            let k = choose|k: int| 0 <= k < init.len() && init[k] == x;
            assert(s[k] == x);
            assert(s[s.len() - 1] == x);
            assert(s[k].timestamp == s[s.len() - 1].timestamp);
        }
        assert(s.to_multiset() == init.to_multiset().insert(s.last()));
    }
}

} // verus!
