use vstd::prelude::*;
use crate::month::{MonthKey, key_lt};
use crate::receipt::{Receipt, TIMESTAMP_FORMAT, parsed_date_time, parse_date_time};

verus! {

/// The receipts of one month, in input order, with the sum of their amounts.
#[derive(Clone, Debug)]
pub struct Group {
    pub key: MonthKey,
    pub receipts: Vec<Receipt>,
    pub total: u128,
}

/// Aggregation stopped at the receipt at `index`, whose purchase timestamp
/// does not parse.
#[derive(Clone, Copy, Debug, PartialEq, Eq, Structural)]
pub struct ParseError {
    pub index: usize,
}

/// The month a receipt is grouped under, or `None` where its timestamp does
/// not parse.
pub open spec fn receipt_month(r: Receipt) -> Option<MonthKey> {
    match parsed_date_time(r.purchase_date@, TIMESTAMP_FORMAT@) {
        Some(f) => Some(MonthKey { year: f.0 as i32, month: f.1 as u32 }),
        None => None,
    }
}

/// The receipts among the first `n` whose key is `k`, in input order.
pub open spec fn members(rs: Seq<Receipt>, ks: Seq<MonthKey>, k: MonthKey, n: nat) -> Seq<Receipt>
    decreases n,
{
    if n == 0 {
        seq![]
    } else {
        let prev = members(rs, ks, k, (n - 1) as nat);
        if ks[n - 1] == k {
            prev.push(rs[n - 1])
        } else {
            prev
        }
    }
}

/// The sum of the amounts of `s`.
pub open spec fn amount_sum(s: Seq<Receipt>) -> int
    decreases s.len(),
{
    if s.len() == 0 {
        0
    } else {
        amount_sum(s.drop_last()) + s.last().amount
    }
}

/// The keys of `gs`, in order.
pub open spec fn group_keys(gs: Seq<Group>) -> Seq<MonthKey> {
    gs.map_values(|g: Group| g.key)
}

/// `gs` groups receipt `rs[i]` under `ks[i]`: one group per distinct key, in
/// chronological order, each holding exactly its receipts in input order and
/// their sum.
pub open spec fn is_grouping(rs: Seq<Receipt>, ks: Seq<MonthKey>, gs: Seq<Group>) -> bool {
    &&& forall|i: int, j: int| 0 <= i < j < gs.len() ==> key_lt(#[trigger] gs[i].key, #[trigger] gs[j].key)
    &&& forall|x: MonthKey| group_keys(gs).contains(x) <==> ks.contains(x)
    &&& forall|i: int| 0 <= i < gs.len() ==> {
        &&& (#[trigger] gs[i]).receipts@ == members(rs, ks, gs[i].key, rs.len())
        &&& gs[i].total == amount_sum(gs[i].receipts@)
    }
}

pub open spec fn strictly_sorted(r: Seq<MonthKey>) -> bool {
    forall|i: int, j: int| 0 <= i < j < r.len() ==> key_lt(#[trigger] r[i], #[trigger] r[j])
}

/// Adds `k` to the sorted keys `r` unless it is there already.
fn insert_key(r: &mut Vec<MonthKey>, k: MonthKey)
    requires
        strictly_sorted(old(r)@),
    ensures
        strictly_sorted(final(r)@),
        final(r)@.contains(k),
        forall|x: MonthKey| old(r)@.contains(x) ==> final(r)@.contains(x),
        forall|x: MonthKey| final(r)@.contains(x) ==> x == k || old(r)@.contains(x),
{
    let mut p: usize = 0;
    while p < r.len() && r[p].is_before(&k)
        invariant
            p <= r.len(),
            forall|i: int| 0 <= i < p ==> key_lt(#[trigger] r[i], k),
        decreases r.len() - p,
    {
        p = p + 1;
    }
    if p < r.len() && r[p] == k {
        assert(r@[p as int] == k);
    } else {
        let ghost before = r@;
        assert(p < r.len() ==> !key_lt(r[p as int], k) && r[p as int] != k);
        r.insert(p, k);
        assert(r@ == before.subrange(0, p as int).push(k) + before.subrange(p as int, before.len() as int));
        assert forall|i: int, j: int| 0 <= i < j < r.len() implies key_lt(#[trigger] r@[i], #[trigger] r@[j]) by {
            if j < p {
                assert(r@[i] == before[i] && r@[j] == before[j]);
            } else if j == p {
                assert(r@[i] == before[i]);
            } else if i == p {
                assert(r@[j] == before[j - 1]);
                if j - 1 > p {
                    assert(key_lt(before[p as int], before[j - 1]));
                }
            } else if i < p {
                assert(r@[i] == before[i] && r@[j] == before[j - 1]);
            } else {
                assert(r@[i] == before[i - 1] && r@[j] == before[j - 1]);
            }
        }
        assert(r@[p as int] == k);
        assert forall|x: MonthKey| before.contains(x) implies r@.contains(x) by {
            let i = choose|i: int| 0 <= i < before.len() && before[i] == x;
            if i < p {
                assert(r@[i] == x);
            } else {
                assert(r@[i + 1] == x);
            }
        }
        assert forall|x: MonthKey| r@.contains(x) implies x == k || before.contains(x) by {
            let i = choose|i: int| 0 <= i < r@.len() && r@[i] == x;
            if i < p {
                assert(before[i] == x);
            } else if i > p {
                assert(before[i - 1] == x);
            }
        }
    }
}

/// The distinct keys of `ks`, in chronological order.
fn sorted_distinct_keys(ks: &Vec<MonthKey>) -> (r: Vec<MonthKey>)
    ensures
        strictly_sorted(r@),
        forall|x: MonthKey| r@.contains(x) <==> ks@.contains(x),
{
    let mut r: Vec<MonthKey> = Vec::new();
    let mut n: usize = 0;
    while n < ks.len()
        invariant
            n <= ks.len(),
            strictly_sorted(r@),
            forall|x: MonthKey| r@.contains(x) <==> ks@.subrange(0, n as int).contains(x),
        decreases ks.len() - n,
    {
        let ghost before = r@;
        insert_key(&mut r, ks[n]);
        assert forall|x: MonthKey| r@.contains(x) <==> ks@.subrange(0, n + 1).contains(x) by {
            let s = ks@.subrange(0, n + 1);
            assert(s == ks@.subrange(0, n as int).push(ks@[n as int]));
            if ks@.subrange(0, n as int).contains(x) {
                let i = choose|i: int| 0 <= i < n && ks@.subrange(0, n as int)[i] == x;
                assert(s[i] == x);
            }
            if s.contains(x) {
                let i = choose|i: int| 0 <= i < n + 1 && s[i] == x;
                if i < n {
                    assert(ks@.subrange(0, n as int)[i] == x);
                }
            }
            if x == ks@[n as int] {
                assert(s[n as int] == x);
            }
        }
        n = n + 1;
    }
    assert(ks@.subrange(0, n as int) == ks@);
    r
}

/// The receipts of `rs` whose key in `ks` is `k`, in input order, with the
/// sum of their amounts.
fn collect_group(rs: &Vec<Receipt>, ks: &Vec<MonthKey>, k: MonthKey) -> (g: Group)
    requires
        rs.len() == ks.len(),
    ensures
        g.key == k,
        g.receipts@ == members(rs@, ks@, k, rs.len() as nat),
        g.total == amount_sum(g.receipts@),
{
    let mut out: Vec<Receipt> = Vec::new();
    let mut total: u128 = 0;
    let mut i: usize = 0;
    while i < rs.len()
        invariant
            i <= rs.len() == ks.len(),
            out@ == members(rs@, ks@, k, i as nat),
            total == amount_sum(out@),
            out.len() <= i,
            total <= out.len() * 0xFFFF_FFFF_FFFF_FFFFu64,
        decreases rs.len() - i,
    {
        if ks[i] == k {
            let ghost prev = out@;
            proof {
                assert(out.len() < 0x1_0000_0000_0000_0000) by {
                    assert(i < rs.len());
                    assert(rs.len() <= usize::MAX);
                }
                assert((out.len() + 1) * 0xFFFF_FFFF_FFFF_FFFFu64 < 0x1_0000_0000_0000_0000_0000_0000_0000_0000)
                    by (nonlinear_arith)
                    requires out.len() < 0x1_0000_0000_0000_0000;
                assert((out.len() + 1) * 0xFFFF_FFFF_FFFF_FFFFu64 == out.len() * 0xFFFF_FFFF_FFFF_FFFFu64 + 0xFFFF_FFFF_FFFF_FFFFu64)
                    by (nonlinear_arith);
            }
            total = total + rs[i].amount as u128;
            out.push(rs[i].copied());
            assert(out@.drop_last() =~= prev);
        }
        i = i + 1;
    }
    Group { key: k, receipts: out, total }
}

/// Groups `rs[i]` under `ks[i]` (see `is_grouping`).
pub fn group_by_keys(rs: &Vec<Receipt>, ks: &Vec<MonthKey>) -> (gs: Vec<Group>)
    requires
        rs.len() == ks.len(),
    ensures
        is_grouping(rs@, ks@, gs@),
{
    let keys = sorted_distinct_keys(ks);
    let mut gs: Vec<Group> = Vec::new();
    let mut i: usize = 0;
    while i < keys.len()
        invariant
            i <= keys.len(),
            rs.len() == ks.len(),
            strictly_sorted(keys@),
            gs.len() == i,
            forall|a: int| 0 <= a < i ==> (#[trigger] gs[a]).key == keys[a],
            forall|a: int| 0 <= a < i ==> {
                &&& (#[trigger] gs[a]).receipts@ == members(rs@, ks@, gs[a].key, rs.len() as nat)
                &&& gs[a].total == amount_sum(gs[a].receipts@)
            },
        decreases keys.len() - i,
    {
        let g = collect_group(rs, ks, keys[i]);
        gs.push(g);
        i = i + 1;
    }
    assert forall|a: int, b: int| 0 <= a < b < gs.len() implies key_lt(#[trigger] gs@[a].key, #[trigger] gs@[b].key) by {
        assert(key_lt(keys@[a], keys@[b]));
    }
    assert(group_keys(gs@) =~= keys@);
    assert forall|a: int| 0 <= a < gs.len() implies {
        &&& (#[trigger] gs@[a]).receipts@ == members(rs@, ks@, gs@[a].key, rs@.len())
        &&& gs@[a].total == amount_sum(gs@[a].receipts@)
    } by {
        assert(gs[a] == gs@[a]);
    }
    gs
}


/// The month of each receipt of `rs`, where every timestamp parses.
pub open spec fn receipt_months(rs: Seq<Receipt>) -> Seq<MonthKey> {
    Seq::new(rs.len(), |i: int| receipt_month(rs[i]).unwrap())
}

pub open spec fn all_parse(rs: Seq<Receipt>) -> bool {
    forall|i: int| 0 <= i < rs.len() ==> (#[trigger] receipt_month(rs[i])) is Some
}

/// Groups receipts by the month of their purchase timestamp. Fails with the
/// index of the first receipt whose timestamp does not parse; no groups are
/// produced then.
pub fn group_by_month(rs: &Vec<Receipt>) -> (r: Result<Vec<Group>, ParseError>)
    ensures
        match r {
            Ok(gs) => all_parse(rs@) && is_grouping(rs@, receipt_months(rs@), gs@),
            Err(e) => {
                &&& e.index < rs.len()
                &&& receipt_month(rs@[e.index as int]) is None
                &&& forall|j: int| 0 <= j < e.index ==> (#[trigger] receipt_month(rs@[j])) is Some
            },
        },
{
    let mut ks: Vec<MonthKey> = Vec::new();
    let mut i: usize = 0;
    while i < rs.len()
        invariant
            i <= rs.len(),
            ks.len() == i,
            forall|j: int| 0 <= j < i ==> (#[trigger] receipt_month(rs@[j])) is Some,
            forall|j: int| 0 <= j < i ==> ks@[j] == receipt_month(rs@[j]).unwrap(),
        decreases rs.len() - i,
    {
        match parse_date_time(rs[i].purchase_date.as_str(), TIMESTAMP_FORMAT) {
            Some(t) => {
                ks.push(MonthKey { year: t.year, month: t.month });
            },
            None => {
                return Err(ParseError { index: i });
            },
        }
        i = i + 1;
    }
    assert(ks@ =~= receipt_months(rs@));
    Ok(group_by_keys(rs, &ks))
}


/// The number of receipts held by the groups `gs`.
pub open spec fn receipt_count(gs: Seq<Group>) -> int
    decreases gs.len(),
{
    if gs.len() == 0 {
        0
    } else {
        receipt_count(gs.drop_last()) + gs.last().receipts@.len()
    }
}

spec fn members_count(rs: Seq<Receipt>, ks: Seq<MonthKey>, keys: Seq<MonthKey>, n: nat) -> int
    decreases keys.len(),
{
    if keys.len() == 0 {
        0
    } else {
        members_count(rs, ks, keys.drop_last(), n) + members(rs, ks, keys.last(), n).len()
    }
}

proof fn lemma_members_count_zero(rs: Seq<Receipt>, ks: Seq<MonthKey>, keys: Seq<MonthKey>)
    ensures
        members_count(rs, ks, keys, 0) == 0,
    decreases keys.len(),
{
    if keys.len() > 0 {
        lemma_members_count_zero(rs, ks, keys.drop_last());
    }
}

proof fn lemma_members_count_step(rs: Seq<Receipt>, ks: Seq<MonthKey>, keys: Seq<MonthKey>, n: nat)
    requires
        n < ks.len(),
        keys.no_duplicates(),
    ensures
        members_count(rs, ks, keys, n + 1) == members_count(rs, ks, keys, n) + if keys.contains(ks[n as int]) { 1int } else { 0int },
    decreases keys.len(),
{
    if keys.len() > 0 {
        let init = keys.drop_last();
        assert(init.no_duplicates());
        lemma_members_count_step(rs, ks, init, n);
        let x = ks[n as int];
        if keys.last() == x {
            assert(!init.contains(x)) by {
                if init.contains(x) {
                    let i = choose|i: int| 0 <= i < init.len() && init[i] == x;
                    assert(keys[i] == keys[keys.len() - 1]);
                }
            }
            assert(keys.contains(x)) by { assert(keys[keys.len() - 1] == x); }
        } else {
            assert(keys.contains(x) == init.contains(x)) by {
                if keys.contains(x) {
                    let i = choose|i: int| 0 <= i < keys.len() && keys[i] == x;
                    assert(init[i] == x);
                }
                if init.contains(x) {
                    let i = choose|i: int| 0 <= i < init.len() && init[i] == x;
                    assert(keys[i] == x);
                }
            }
        }
    }
}

proof fn lemma_members_count_all(rs: Seq<Receipt>, ks: Seq<MonthKey>, keys: Seq<MonthKey>, n: nat)
    requires
        n <= ks.len(),
        keys.no_duplicates(),
        forall|j: int| 0 <= j < n ==> keys.contains(#[trigger] ks[j]),
    ensures
        members_count(rs, ks, keys, n) == n,
    decreases n,
{
    if n == 0 {
        lemma_members_count_zero(rs, ks, keys);
    } else {
        lemma_members_count_all(rs, ks, keys, (n - 1) as nat);
        lemma_members_count_step(rs, ks, keys, (n - 1) as nat);
        assert(keys.contains(ks[n - 1]));
    }
}

proof fn lemma_count_by_keys(rs: Seq<Receipt>, ks: Seq<MonthKey>, gs: Seq<Group>)
    requires
        forall|i: int| 0 <= i < gs.len() ==> (#[trigger] gs[i]).receipts@ == members(rs, ks, gs[i].key, rs.len()),
    ensures
        receipt_count(gs) == members_count(rs, ks, group_keys(gs), rs.len()),
    decreases gs.len(),
{
    if gs.len() > 0 {
        let init = gs.drop_last();
        assert(group_keys(init) =~= group_keys(gs).drop_last());
        assert forall|i: int| 0 <= i < init.len() implies (#[trigger] init[i]).receipts@ == members(rs, ks, init[i].key, rs.len()) by {
            assert(init[i] == gs[i]);
        }
        lemma_count_by_keys(rs, ks, init);
        assert(gs[gs.len() - 1].receipts@ == members(rs, ks, gs.last().key, rs.len()));
    }
}

proof fn lemma_members_have_key(rs: Seq<Receipt>, ks: Seq<MonthKey>, k: MonthKey, n: nat)
    requires
        n <= rs.len() == ks.len(),
    ensures
        forall|i: int| 0 <= i < n && ks[i] == k ==> members(rs, ks, k, n).contains(#[trigger] rs[i]),
        forall|x: Receipt| members(rs, ks, k, n).contains(x) ==> exists|i: int| 0 <= i < n && ks[i] == k && rs[i] == x,
    decreases n,
{
    if n > 0 {
        let m = (n - 1) as nat;
        lemma_members_have_key(rs, ks, k, m);
        let prev = members(rs, ks, k, m);
        let cur = members(rs, ks, k, n);
        assert forall|i: int| 0 <= i < n && ks[i] == k implies cur.contains(#[trigger] rs[i]) by {
            if i < m {
                let p = choose|p: int| 0 <= p < prev.len() && prev[p] == rs[i];
                assert(cur[p] == rs[i]);
            } else {
                assert(cur[cur.len() - 1] == rs[i]);
            }
        }
        assert forall|x: Receipt| cur.contains(x) implies exists|i: int| 0 <= i < n && ks[i] == k && rs[i] == x by {
            let p = choose|p: int| 0 <= p < cur.len() && cur[p] == x;
            if ks[m as int] != k {
                assert(cur == prev);
                assert(prev.contains(x));
            } else if p < prev.len() {
                assert(prev[p] == x);
                assert(prev.contains(x));
            } else {
                assert(ks[m as int] == k && rs[m as int] == x);
            }
        }
    }
}

/// A grouping partitions its receipts: each receipt's key has a group and
/// the receipt lies in it, no two groups share a key, a group holds only
/// receipts of its key, and the groups hold exactly as many receipts as were given.
pub proof fn lemma_grouping_partitions(rs: Seq<Receipt>, ks: Seq<MonthKey>, gs: Seq<Group>)
    requires
        rs.len() == ks.len(),
        is_grouping(rs, ks, gs),
    ensures
        forall|i: int| 0 <= i < rs.len() ==> group_keys(gs).contains(#[trigger] ks[i]),
        forall|a: int, i: int| 0 <= a < gs.len() && 0 <= i < rs.len() && gs[a].key == ks[i] ==> (#[trigger] gs[a].receipts@.contains(#[trigger] rs[i])),
        forall|a: int, b: int| 0 <= a < b < gs.len() ==> (#[trigger] gs[a]).key != (#[trigger] gs[b]).key,
        forall|a: int, x: Receipt| 0 <= a < gs.len() && (#[trigger] gs[a].receipts@.contains(x)) ==> exists|i: int| 0 <= i < rs.len() && ks[i] == gs[a].key && rs[i] == x,
        receipt_count(gs) == rs.len(),
{
    let keys = group_keys(gs);
    assert forall|i: int| 0 <= i < rs.len() implies keys.contains(#[trigger] ks[i]) by {
        assert(ks.contains(ks[i]));
    }
    assert forall|a: int, i: int| 0 <= a < gs.len() && 0 <= i < rs.len() && gs[a].key == ks[i] implies (#[trigger] gs[a].receipts@.contains(#[trigger] rs[i])) by {
        lemma_members_have_key(rs, ks, gs[a].key, rs.len());
        assert(gs[a].receipts@ == members(rs, ks, gs[a].key, rs.len()));
    }
    assert forall|a: int, b: int| 0 <= a < b < gs.len() implies (#[trigger] gs[a]).key != (#[trigger] gs[b]).key by {
        assert(key_lt(gs[a].key, gs[b].key));
    }
    assert forall|a: int, x: Receipt| 0 <= a < gs.len() && (#[trigger] gs[a].receipts@.contains(x)) implies exists|i: int| 0 <= i < rs.len() && ks[i] == gs[a].key && rs[i] == x by {
        lemma_members_have_key(rs, ks, gs[a].key, rs.len());
        assert(gs[a].receipts@ == members(rs, ks, gs[a].key, rs.len()));
    }
    assert(keys.no_duplicates()) by {
        assert forall|a: int, b: int| 0 <= a < keys.len() && 0 <= b < keys.len() && a != b implies keys[a] != keys[b] by {
            if a < b {
                assert(key_lt(gs[a].key, gs[b].key));
            } else {
                assert(key_lt(gs[b].key, gs[a].key));
            }
        }
    }
    lemma_members_count_all(rs, ks, keys, rs.len());
    lemma_count_by_keys(rs, ks, gs);
}

} // verus!
