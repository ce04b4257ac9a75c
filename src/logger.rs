use vstd::prelude::*;
use crate::department::{
    DepartmentMapping, department_of, opt_view, get_department_from_barcode,
    has_valid_department_prefix,
};
use crate::text::same_text;

verus! {

/// What a scan does to an item.
#[derive(Debug, Clone, Copy, PartialEq, Eq, Structural)]
pub enum Action {
    CheckIn,
    CheckOut,
}

impl Action {
    /// The action's name as stored and shown: `check-in` or `check-out`.
    pub fn as_str(&self) -> (r: &'static str)
        ensures
            *self == Action::CheckIn ==> r@ == "check-in"@,
            *self == Action::CheckOut ==> r@ == "check-out"@,
    {
        match self {
            Action::CheckIn => "check-in",
            Action::CheckOut => "check-out",
        }
    }
}

/// One record of the transaction log. `timestamp` is in milliseconds since the
/// Unix epoch; `id` is the record's sequence id, the same as in storage.
pub struct ScanLog {
    pub id: u64,
    pub timestamp: i64,
    pub barcode: String,
    pub action: Action,
    pub department: Option<String>,
}

/// The model of a log record.
pub struct ScanEntry {
    pub id: u64,
    pub timestamp: i64,
    pub barcode: Seq<char>,
    pub action: Action,
    pub department: Option<Seq<char>>,
}

impl View for ScanLog {
    type V = ScanEntry;

    open spec fn view(&self) -> ScanEntry {
        ScanEntry {
            id: self.id,
            timestamp: self.timestamp,
            barcode: self.barcode@,
            action: self.action,
            department: opt_view(self.department),
        }
    }
}

pub fn clone_text(o: &Option<String>) -> (r: Option<String>)
    ensures
        r == *o,
{
    match o {
        Some(s) => Some(s.clone()),
        None => None,
    }
}

impl ScanLog {
    pub fn duplicate(&self) -> (r: ScanLog)
        ensures
            r == *self,
    {
        ScanLog {
            id: self.id,
            timestamp: self.timestamp,
            barcode: self.barcode.clone(),
            action: self.action,
            department: clone_text(&self.department),
        }
    }
}

/// The outcome of a scan: what was done and the barcode's department.
pub struct ScanAction {
    pub action: Action,
    pub department: Option<String>,
}

#[derive(Debug, Clone, Copy, PartialEq, Eq, Structural)]
pub enum LedgerError {
    /// The barcode starts with no configured department prefix.
    UnknownDepartment,
}

/// `a` comes no later than `b`: by timestamp, ties broken by sequence id.
pub open spec fn key_le(a: ScanEntry, b: ScanEntry) -> bool {
    a.timestamp < b.timestamp || (a.timestamp == b.timestamp && a.id <= b.id)
}

/// No record of the log for the same barcode comes after `e`.
pub open spec fn is_latest(log: Seq<ScanEntry>, e: ScanEntry) -> bool {
    forall|j: int| 0 <= j < log.len() && (#[trigger] log[j]).barcode == e.barcode ==> key_le(log[j], e)
}

/// `e` is a check-out that no later record of its barcode follows.
pub open spec fn is_current_checkout(log: Seq<ScanEntry>, e: ScanEntry) -> bool {
    e.action == Action::CheckOut && is_latest(log, e)
}

/// `a` comes strictly before `b`: by timestamp, ties broken by sequence id.
pub open spec fn before(a: ScanEntry, b: ScanEntry) -> bool {
    a.timestamp < b.timestamp || (a.timestamp == b.timestamp && a.id < b.id)
}

/// Newest first: timestamps descending, ties by sequence id descending.
pub open spec fn newest_first(r: Seq<ScanEntry>) -> bool {
    forall|a: int, c: int| 0 <= a < c < r.len() ==> before(#[trigger] r[c], #[trigger] r[a])
}

/// Entry `a` of `r` is one of the first `n` records of the log, and that
/// record makes its item checked out.
pub open spec fn listed_from(log: Seq<ScanEntry>, r: Seq<ScanEntry>, a: int, n: int) -> bool {
    exists|j: int| 0 <= j < n && j < log.len() && r[a] == #[trigger] log[j] && is_current_checkout(log, log[j])
}

/// Record `j` of the log is in `r`.
pub open spec fn appears_in(log: Seq<ScanEntry>, r: Seq<ScanEntry>, j: int) -> bool {
    exists|a: int| 0 <= a < r.len() && #[trigger] r[a] == log[j]
}

/// `r` lists exactly the records that make their items checked out, newest first.
pub open spec fn checked_out_listing(log: Seq<ScanEntry>, r: Seq<ScanEntry>) -> bool {
    &&& newest_first(r)
    &&& forall|a: int| 0 <= a < r.len() ==> #[trigger] listed_from(log, r, a, log.len() as int)
    &&& forall|j: int| 0 <= j < log.len() && is_current_checkout(log, log[j]) ==> #[trigger] appears_in(log, r, j)
}

/// The checked-out records, newest first.
pub open spec fn checked_out_list(log: Seq<ScanEntry>) -> Seq<ScanEntry> {
    choose|r: Seq<ScanEntry>| checked_out_listing(log, r)
}

proof fn lemma_listed_index(log: Seq<ScanEntry>, r: Seq<ScanEntry>, a: int) -> (j: int)
    requires
        checked_out_listing(log, r),
        0 <= a < r.len(),
    ensures
        0 <= j < log.len(),
        r[a] == log[j],
        is_current_checkout(log, log[j]),
{
    assert(listed_from(log, r, a, log.len() as int));
    choose|j: int| 0 <= j < log.len() && j < log.len() && r[a] == #[trigger] log[j] && is_current_checkout(log, log[j])
}

proof fn lemma_listings_agree(log: Seq<ScanEntry>, r1: Seq<ScanEntry>, r2: Seq<ScanEntry>, d: int)
    requires
        ordered(log),
        checked_out_listing(log, r1),
        checked_out_listing(log, r2),
        0 <= d <= r1.len(),
        d <= r2.len(),
    ensures
        forall|a: int| 0 <= a < d ==> r1[a] == r2[a],
    decreases d,
{
    if d > 0 {
        let k = d - 1;
        lemma_listings_agree(log, r1, r2, k);
        let x = r1[k];
        let y = r2[k];
        if x != y {
            let jx = lemma_listed_index(log, r1, k);
            let jy = lemma_listed_index(log, r2, k);
            if jx < jy {
                assert(log[jx].id < log[jy].id);
            } else if jy < jx {
                assert(log[jy].id < log[jx].id);
            }
            if before(y, x) {
                assert(appears_in(log, r2, jx));
                let c = choose|c: int| 0 <= c < r2.len() && #[trigger] r2[c] == log[jx];
                if c < k {
                    assert(r1[c] == r2[c]);
                    assert(before(r1[k], r1[c]));
                } else if c > k {
                    assert(before(r2[c], r2[k]));
                }
            } else {
                assert(before(x, y));
                assert(appears_in(log, r1, jy));
                let c = choose|c: int| 0 <= c < r1.len() && #[trigger] r1[c] == log[jy];
                if c < k {
                    assert(r1[c] == r2[c]);
                    assert(before(r2[k], r2[c]));
                } else if c > k {
                    assert(before(r1[c], r1[k]));
                }
            }
        }
    }
}

/// There is only one listing of the checked-out records, newest first.
pub proof fn lemma_listing_unique(log: Seq<ScanEntry>, r1: Seq<ScanEntry>, r2: Seq<ScanEntry>)
    requires
        ordered(log),
        checked_out_listing(log, r1),
        checked_out_listing(log, r2),
    ensures
        r1 == r2,
{
    let n = if r1.len() <= r2.len() { r1.len() } else { r2.len() };
    lemma_listings_agree(log, r1, r2, n as int);
    if r1.len() > r2.len() {
        let j = lemma_listed_index(log, r1, n as int);
        assert(appears_in(log, r2, j));
        let c = choose|c: int| 0 <= c < r2.len() && #[trigger] r2[c] == log[j];
        assert(r1[c] == r2[c]);
        assert(before(r1[n as int], r1[c]));
    } else if r2.len() > r1.len() {
        let j = lemma_listed_index(log, r2, n as int);
        assert(appears_in(log, r1, j));
        let c = choose|c: int| 0 <= c < r1.len() && #[trigger] r1[c] == log[j];
        assert(r1[c] == r2[c]);
        assert(before(r2[n as int], r2[c]));
    }
    assert(r1 =~= r2);
}

/// The authoritative status: the most recent record of `b` is a check-out.
pub open spec fn is_checked_out(log: Seq<ScanEntry>, b: Seq<char>) -> bool {
    exists|i: int| 0 <= i < log.len() && log[i].barcode == b && #[trigger] is_current_checkout(log, log[i])
}

/// The latest timestamp in the log, or `i64::MIN` for an empty log.
pub open spec fn latest_of(log: Seq<ScanEntry>) -> i64
    decreases log.len(),
{
    if log.len() == 0 {
        i64::MIN
    } else {
        let t = latest_of(log.drop_last());
        if log.last().timestamp > t { log.last().timestamp } else { t }
    }
}

/// The model of a ledger: its department table and its log.
pub struct LedgerView {
    pub mappings: Seq<DepartmentMapping>,
    pub log: Seq<ScanEntry>,
}

/// Sequence ids strictly increase along the log.
pub open spec fn ordered(log: Seq<ScanEntry>) -> bool {
    forall|i: int, j: int| 0 <= i < j < log.len() ==> (#[trigger] log[i]).id < (#[trigger] log[j]).id
}

/// The id the next record gets: one more than the last, or 1 for an empty log.
pub open spec fn next_id(log: Seq<ScanEntry>) -> int {
    if log.len() == 0 { 1 } else { log.last().id + 1 }
}

/// The time a record made at `now` is stamped with: the clock never runs
/// backwards along the log.
pub open spec fn stamp_of(log: Seq<ScanEntry>, now: i64) -> i64 {
    if now > latest_of(log) { now } else { latest_of(log) }
}

/// The ledger after appending a record.
pub open spec fn append(
    v: LedgerView,
    barcode: Seq<char>,
    action: Action,
    department: Option<Seq<char>>,
    now: i64,
) -> LedgerView {
    LedgerView {
        mappings: v.mappings,
        log: v.log.push(
            ScanEntry {
                id: next_id(v.log) as u64,
                timestamp: stamp_of(v.log, now),
                barcode,
                action,
                department,
            },
        ),
    }
}

/// What a scan of `b` does: check in what is checked out, check out the rest.
pub open spec fn scan_action(log: Seq<ScanEntry>, b: Seq<char>) -> Action {
    if is_checked_out(log, b) {
        Action::CheckIn
    } else {
        Action::CheckOut
    }
}

/// The ledger after a successful scan of `b`.
pub open spec fn scan(v: LedgerView, b: Seq<char>, now: i64) -> LedgerView {
    append(v, b, scan_action(v.log, b), department_of(v.mappings, b), now)
}

pub open spec fn cache_has(cache: Seq<String>, b: Seq<char>) -> bool {
    exists|i: int| 0 <= i < cache.len() && (#[trigger] cache[i])@ == b
}

pub proof fn lemma_latest_bound(log: Seq<ScanEntry>)
    ensures
        forall|i: int| 0 <= i < log.len() ==> (#[trigger] log[i]).timestamp <= latest_of(log),
    decreases log.len(),
{
    if log.len() > 0 {
        lemma_latest_bound(log.drop_last());
        assert forall|i: int| 0 <= i < log.len() implies (#[trigger] log[i]).timestamp <= latest_of(log) by {
            if i < log.len() - 1 {
                assert(log[i] == log.drop_last()[i]);
            }
        }
    }
}

/// Appending a record that comes after every other one makes it decide the
/// status of its barcode and leaves every other barcode's status alone.
pub proof fn lemma_append_status(v: LedgerView, barcode: Seq<char>, action: Action, department: Option<Seq<char>>, now: i64)
    requires
        ordered(v.log),
        next_id(v.log) <= u64::MAX,
    ensures
        ordered(append(v, barcode, action, department, now).log),
        next_id(append(v, barcode, action, department, now).log) == next_id(v.log) + 1,
        forall|b: Seq<char>| #[trigger] is_checked_out(append(v, barcode, action, department, now).log, b)
            == if b == barcode { action == Action::CheckOut } else { is_checked_out(v.log, b) },
{
    let log = v.log;
    let n = log.len();
    let nl = append(v, barcode, action, department, now).log;
    let e = nl[n as int];
    lemma_latest_bound(log);
    assert(nl.drop_last() =~= log);
    assert forall|i: int| 0 <= i < n implies (#[trigger] log[i]).id < e.id by {
        if i < n - 1 {
            assert(log[i].id < log[n - 1].id);
        }
    }
    assert forall|i: int, j: int| 0 <= i < j < nl.len() implies (#[trigger] nl[i]).id < (#[trigger] nl[j]).id by {
        assert(nl[i] == log[i]);
        if j < n {
            assert(nl[j] == log[j]);
        }
    }
    assert forall|j: int| 0 <= j < n implies key_le(#[trigger] nl[j], e) && !key_le(e, nl[j]) by {
        assert(nl[j] == log[j]);
    }
    assert forall|b: Seq<char>| #[trigger] is_checked_out(nl, b)
        == if b == barcode { action == Action::CheckOut } else { is_checked_out(log, b) } by {
        if b == barcode {
            if action == Action::CheckOut {
                assert(is_current_checkout(nl, nl[n as int]));
            } else {
                if is_checked_out(nl, b) {
                    let i = choose|i: int| 0 <= i < nl.len() && nl[i].barcode == b && #[trigger] is_current_checkout(nl, nl[i]);
                    assert(nl[n as int].barcode == nl[i].barcode);
                    assert(key_le(nl[n as int], nl[i]));
                }
            }
        } else {
            if is_checked_out(nl, b) {
                let i = choose|i: int| 0 <= i < nl.len() && nl[i].barcode == b && #[trigger] is_current_checkout(nl, nl[i]);
                assert(i < n);
                assert(nl[i] == log[i]);
                assert forall|j: int| 0 <= j < log.len() && (#[trigger] log[j]).barcode == log[i].barcode implies key_le(log[j], log[i]) by {
                    assert(nl[j] == log[j]);
                }
                assert(is_current_checkout(log, log[i]));
            }
            if is_checked_out(log, b) {
                let i = choose|i: int| 0 <= i < log.len() && log[i].barcode == b && #[trigger] is_current_checkout(log, log[i]);
                assert(nl[i] == log[i]);
                assert forall|j: int| 0 <= j < nl.len() && (#[trigger] nl[j]).barcode == nl[i].barcode implies key_le(nl[j], nl[i]) by {
                    if j < n {
                        assert(nl[j] == log[j]);
                    }
                }
                assert(is_current_checkout(nl, nl[i]));
            }
        }
    }
}

pub open spec fn no_dups(cache: Seq<String>) -> bool {
    forall|i: int, j: int| 0 <= i < j < cache.len() ==> (#[trigger] cache[i])@ != (#[trigger] cache[j])@
}

proof fn lemma_cache_remove(cache: Seq<String>, i: int)
    requires
        no_dups(cache),
        0 <= i < cache.len(),
    ensures
        no_dups(cache.remove(i)),
        forall|x: Seq<char>| #[trigger] cache_has(cache.remove(i), x) == (cache_has(cache, x) && x != cache[i]@),
{
    let r = cache.remove(i);
    assert forall|a: int, c: int| 0 <= a < c < r.len() implies (#[trigger] r[a])@ != (#[trigger] r[c])@ by {
        let a2 = if a < i { a } else { a + 1 };
        let c2 = if c < i { c } else { c + 1 };
        assert(r[a] == cache[a2]);
        assert(r[c] == cache[c2]);
    }
    assert forall|x: Seq<char>| #[trigger] cache_has(r, x) == (cache_has(cache, x) && x != cache[i]@) by {
        if cache_has(r, x) {
            let c = choose|c: int| 0 <= c < r.len() && (#[trigger] r[c])@ == x;
            let c2 = if c < i { c } else { c + 1 };
            assert(r[c] == cache[c2]);
            assert(cache_has(cache, x));
            if x == cache[i]@ {
                if c2 < i {
                    assert((cache[c2])@ != (cache[i])@);
                } else {
                    assert((cache[i])@ != (cache[c2])@);
                }
            }
        }
        if cache_has(cache, x) && x != cache[i]@ {
            let c = choose|c: int| 0 <= c < cache.len() && (#[trigger] cache[c])@ == x;
            assert(c != i);
            let c2 = if c < i { c } else { c - 1 };
            assert(r[c2] == cache[c]);
        }
    }
}

proof fn lemma_cache_push(cache: Seq<String>, s: String)
    requires
        no_dups(cache),
        !cache_has(cache, s@),
    ensures
        no_dups(cache.push(s)),
        forall|x: Seq<char>| #[trigger] cache_has(cache.push(s), x) == (cache_has(cache, x) || x == s@),
{
    let r = cache.push(s);
    assert forall|a: int, c: int| 0 <= a < c < r.len() implies (#[trigger] r[a])@ != (#[trigger] r[c])@ by {
        assert(r[a] == cache[a]);
        if c < cache.len() {
            assert(r[c] == cache[c]);
        }
    }
    assert forall|x: Seq<char>| #[trigger] cache_has(r, x) == (cache_has(cache, x) || x == s@) by {
        if cache_has(r, x) {
            let c = choose|c: int| 0 <= c < r.len() && (#[trigger] r[c])@ == x;
            if c < cache.len() {
                assert(r[c] == cache[c]);
            }
        }
        if cache_has(cache, x) {
            let c = choose|c: int| 0 <= c < cache.len() && (#[trigger] cache[c])@ == x;
            assert(r[c] == cache[c]);
        }
        if x == s@ {
            assert(r[cache.len() as int] == s);
        }
    }
}


/// How many records in `s` are for barcode `b`.
pub open spec fn count_barcode(s: Seq<ScanEntry>, b: Seq<char>) -> nat
    decreases s.len(),
{
    if s.len() == 0 {
        0
    } else {
        count_barcode(s.drop_last(), b) + if s.last().barcode == b { 1nat } else { 0nat }
    }
}

/// At most one record of a barcode makes it checked out.
pub proof fn lemma_current_unique(log: Seq<ScanEntry>, i: int, j: int)
    requires
        ordered(log),
        0 <= i < log.len(),
        0 <= j < log.len(),
        log[i].barcode == log[j].barcode,
        is_current_checkout(log, log[i]),
        is_current_checkout(log, log[j]),
    ensures
        i == j,
{
    assert(key_le(log[i], log[j]));
    assert(key_le(log[j], log[i]));
    if i < j {
        assert(log[i].id < log[j].id);
    } else if j < i {
        assert(log[j].id < log[i].id);
    }
}

proof fn lemma_count_unique(s: Seq<ScanEntry>, b: Seq<char>, k: int)
    requires
        forall|i: int| 0 <= i < s.len() && (#[trigger] s[i]).barcode == b ==> i == k,
    ensures
        count_barcode(s, b) == if 0 <= k < s.len() && s[k].barcode == b { 1nat } else { 0nat },
    decreases s.len(),
{
    if s.len() > 0 {
        let d = s.drop_last();
        assert forall|i: int| 0 <= i < d.len() && (#[trigger] d[i]).barcode == b implies i == k by {
            assert(d[i] == s[i]);
        }
        lemma_count_unique(d, b, k);
        if 0 <= k < d.len() {
            assert(d[k] == s[k]);
        }
    }
}

/// A scan flips the status of the scanned barcode.
pub proof fn lemma_scan_flips(v: LedgerView, b: Seq<char>, now: i64)
    requires
        ordered(v.log),
        next_id(v.log) <= u64::MAX,
    ensures
        ordered(scan(v, b, now).log),
        scan(v, b, now).mappings == v.mappings,
        next_id(scan(v, b, now).log) == next_id(v.log) + 1,
        is_checked_out(scan(v, b, now).log, b) == !is_checked_out(v.log, b),
{
    lemma_append_status(v, b, scan_action(v.log, b), department_of(v.mappings, b), now);
}

/// From a barcode that is not checked out, four successive scans check it
/// out, in, out and in again.
pub proof fn lemma_scans_alternate(v: LedgerView, b: Seq<char>, t1: i64, t2: i64, t3: i64, t4: i64)
    requires
        ordered(v.log),
        next_id(v.log) + 3 <= u64::MAX,
        department_of(v.mappings, b).is_some(),
        !is_checked_out(v.log, b),
    ensures
        scan_action(v.log, b) == Action::CheckOut,
        scan_action(scan(v, b, t1).log, b) == Action::CheckIn,
        scan_action(scan(scan(v, b, t1), b, t2).log, b) == Action::CheckOut,
        scan_action(scan(scan(scan(v, b, t1), b, t2), b, t3).log, b) == Action::CheckIn,
{
    lemma_scan_flips(v, b, t1);
    let v1 = scan(v, b, t1);
    lemma_scan_flips(v1, b, t2);
    let v2 = scan(v1, b, t2);
    lemma_scan_flips(v2, b, t3);
}

/// Two forced check-outs in a row of a barcode with a department leave exactly
/// one record of it among the checked-out items.
pub proof fn lemma_force_check_out_twice(v: LedgerView, b: Seq<char>, t1: i64, t2: i64, listed: Seq<ScanEntry>)
    requires
        ordered(v.log),
        next_id(v.log) + 1 <= u64::MAX,
        department_of(v.mappings, b).is_some(),
        checked_out_listing(
            append(
                append(v, b, Action::CheckOut, department_of(v.mappings, b), t1),
                b,
                Action::CheckOut,
                department_of(v.mappings, b),
                t2,
            ).log,
            listed,
        ),
    ensures
        count_barcode(listed, b) == 1,
{
    let d = department_of(v.mappings, b);
    let v1 = append(v, b, Action::CheckOut, d, t1);
    lemma_append_status(v, b, Action::CheckOut, d, t1);
    lemma_append_status(v1, b, Action::CheckOut, d, t2);
    let v2 = append(v1, b, Action::CheckOut, d, t2);
    let log = v2.log;
    assert(is_checked_out(log, b));
    let k = choose|i: int| 0 <= i < log.len() && log[i].barcode == b && #[trigger] is_current_checkout(log, log[i]);
    assert(appears_in(log, listed, k));
    let a0 = choose|a: int| 0 <= a < listed.len() && #[trigger] listed[a] == log[k];
    assert forall|a: int| 0 <= a < listed.len() && (#[trigger] listed[a]).barcode == b implies a == a0 by {
        assert(listed_from(log, listed, a, log.len() as int));
        let j = choose|j: int| 0 <= j < log.len() && j < log.len() && listed[a] == #[trigger] log[j] && is_current_checkout(log, log[j]);
        lemma_current_unique(log, j, k);
        if a < a0 {
            assert(before(listed[a0], listed[a]));
        } else if a0 < a {
            assert(before(listed[a], listed[a0]));
        }
    }
    lemma_count_unique(listed, b, a0);
}

proof fn lemma_insert_index(s: Seq<ScanEntry>, p: int, x: ScanEntry)
    requires
        0 <= p <= s.len(),
    ensures
        (s.take(p).push(x) + s.skip(p)).len() == s.len() + 1,
        forall|i: int| 0 <= i < p ==> #[trigger] (s.take(p).push(x) + s.skip(p))[i] == s[i],
        (s.take(p).push(x) + s.skip(p))[p] == x,
        forall|i: int| p < i <= s.len() ==> #[trigger] (s.take(p).push(x) + s.skip(p))[i] == s[i - 1],
{
    let t = s.take(p).push(x) + s.skip(p);
    assert forall|i: int| p < i <= s.len() implies #[trigger] t[i] == s[i - 1] by {
        assert(t[i] == s.skip(p)[i - p - 1]);
    }
}

/// Placing record `i` at the first position whose entry is older keeps the
/// listing of the first `i` records a listing of the first `i + 1`.
proof fn lemma_listing_insert(log: Seq<ScanEntry>, ov: Seq<ScanEntry>, i: int, p: int, nv: Seq<ScanEntry>)
    requires
        ordered(log),
        0 <= i < log.len(),
        is_current_checkout(log, log[i]),
        0 <= p <= ov.len(),
        nv == ov.take(p).push(log[i]) + ov.skip(p),
        newest_first(ov),
        forall|a: int| 0 <= a < ov.len() ==> #[trigger] listed_from(log, ov, a, i),
        forall|j: int| 0 <= j < i && is_current_checkout(log, log[j]) ==> #[trigger] appears_in(log, ov, j),
        forall|a: int| 0 <= a < p ==> before(log[i], #[trigger] ov[a]),
        p < ov.len() ==> !before(log[i], ov[p]),
    ensures
        newest_first(nv),
        forall|a: int| 0 <= a < nv.len() ==> #[trigger] listed_from(log, nv, a, i + 1),
        forall|j: int| 0 <= j < i + 1 && is_current_checkout(log, log[j]) ==> #[trigger] appears_in(log, nv, j),
{
    let x = log[i];
    lemma_insert_index(ov, p, x);
    // Every entry so far is an earlier record, so it has a smaller id than `x`.
    assert forall|a: int| 0 <= a < ov.len() implies (#[trigger] ov[a]).id < x.id by {
        assert(listed_from(log, ov, a, i));
        let j = choose|j: int| 0 <= j < i && j < log.len() && ov[a] == #[trigger] log[j] && is_current_checkout(log, log[j]);
        assert(log[j].id < log[i].id);
    }
    if p < ov.len() {
        assert(before(ov[p], x));
        assert forall|c: int| p <= c < ov.len() implies before(#[trigger] ov[c], x) by {
            if c > p {
                assert(before(ov[c], ov[p]));
            }
        }
    }
    assert forall|a: int, c: int| 0 <= a < c < nv.len() implies before(#[trigger] nv[c], #[trigger] nv[a]) by {
        if c < p {
            assert(before(ov[c], ov[a]));
        } else if c == p {
        } else if a < p {
            assert(before(ov[c - 1], ov[a]) || c - 1 == a);
            if c - 1 != a {
                assert(before(ov[c - 1], ov[a]));
            }
            assert(before(ov[c - 1], x));
        } else if a == p {
            assert(before(ov[c - 1], x));
        } else {
            assert(before(ov[c - 1], ov[a - 1]));
        }
    }
    assert forall|a: int| 0 <= a < nv.len() implies #[trigger] listed_from(log, nv, a, i + 1) by {
        if a < p {
            assert(listed_from(log, ov, a, i));
            let j = choose|j: int| 0 <= j < i && j < log.len() && ov[a] == #[trigger] log[j] && is_current_checkout(log, log[j]);
            assert(nv[a] == log[j]);
        } else if a == p {
            assert(nv[a] == log[i]);
        } else {
            assert(listed_from(log, ov, a - 1, i));
            let j = choose|j: int| 0 <= j < i && j < log.len() && ov[a - 1] == #[trigger] log[j] && is_current_checkout(log, log[j]);
            assert(nv[a] == log[j]);
        }
    }
    assert forall|j: int| 0 <= j < i + 1 && is_current_checkout(log, log[j]) implies #[trigger] appears_in(log, nv, j) by {
        if j < i {
            assert(appears_in(log, ov, j));
            let a = choose|a: int| 0 <= a < ov.len() && #[trigger] ov[a] == log[j];
            if a < p {
                assert(nv[a] == log[j]);
            } else {
                assert(nv[a + 1] == log[j]);
            }
        } else {
            assert(nv[p] == log[j]);
        }
    }
}

pub open spec fn views(v: Seq<ScanLog>) -> Seq<ScanEntry> {
    v.map_values(|e: ScanLog| e@)
}

/// `s` with `x` placed at position `p`.
fn insert_at(s: &Vec<ScanLog>, p: usize, x: &ScanLog) -> (r: Vec<ScanLog>)
    requires
        p <= s.len(),
    ensures
        views(r@) == views(s@).take(p as int).push(x@) + views(s@).skip(p as int),
{
    let mut r: Vec<ScanLog> = Vec::new();
    let mut q: usize = 0;
    while q < p
        invariant
            q <= p <= s.len(),
            r@ == s@.take(q as int),
        decreases p - q,
    {
        r.push(s[q].duplicate());
        q = q + 1;
        proof {
            assert(r@ =~= s@.take(q as int));
        }
    }
    r.push(x.duplicate());
    while q < s.len()
        invariant
            p <= q <= s.len(),
            r@ == s@.take(p as int).push(*x) + s@.subrange(p as int, q as int),
        decreases s.len() - q,
    {
        r.push(s[q].duplicate());
        q = q + 1;
        proof {
            assert(r@ =~= s@.take(p as int).push(*x) + s@.subrange(p as int, q as int));
        }
    }
    proof {
        let sv = views(s@);
        assert(s@.subrange(p as int, s.len() as int) =~= s@.skip(p as int));
        lemma_insert_index(sv, p as int, x@);
        let rv = views(r@);
        assert forall|k: int| 0 <= k < rv.len() implies #[trigger] rv[k] == (sv.take(p as int).push(x@) + sv.skip(p as int))[k] by {
            if k < p {
                assert(r@[k] == s@[k]);
            } else if k > p {
                assert(r@[k] == s@.skip(p as int)[k - p - 1]);
            }
        }
        assert(rv =~= sv.take(p as int).push(x@) + sv.skip(p as int));
    }
    r
}

/// The transaction ledger: the department table, the append-only log, and a
/// cache of the barcodes that the log says are checked out.
pub struct Logger {
    mappings: Vec<DepartmentMapping>,
    log: Vec<ScanLog>,
    checked_out_cache: Vec<String>,
    latest_timestamp: i64,
}

impl View for Logger {
    type V = LedgerView;

    closed spec fn view(&self) -> LedgerView {
        LedgerView { mappings: self.mappings@, log: self.log@.map_values(|e: ScanLog| e@) }
    }
}

impl Logger {
    /// The cache holds each barcode once, exactly the barcodes that the log
    /// says are checked out, and the latest timestamp is at hand.
    pub closed spec fn cache_ok(&self) -> bool {
        &&& no_dups(self.checked_out_cache@)
        &&& forall|b: Seq<char>| #[trigger] cache_has(self.checked_out_cache@, b) == is_checked_out(self@.log, b)
        &&& self.latest_timestamp == latest_of(self@.log)
        &&& self.log@.len() == self@.log.len()
    }

    pub open spec fn wf(&self) -> bool {
        ordered(self@.log) && self.cache_ok()
    }

    proof fn lemma_log_view(&self)
        ensures
            self@.log.len() == self.log@.len(),
            forall|i: int| 0 <= i < self.log@.len() ==> #[trigger] self@.log[i] == self.log@[i]@,
    {
    }

    /// A ledger over `mappings` and the stored `history`, in storage order,
    /// whose sequence ids strictly increase. The cache is built from the log.
    pub fn new(mappings: Vec<DepartmentMapping>, history: Vec<ScanLog>) -> (r: Logger)
        requires
            ordered(history@.map_values(|e: ScanLog| e@)),
        ensures
            r.wf(),
            r@.mappings == mappings@,
            r@.log == history@.map_values(|e: ScanLog| e@),
    {
        let ghost hv = history@.map_values(|e: ScanLog| e@);
        let mut latest: i64 = i64::MIN;
        let mut i: usize = 0;
        while i < history.len()
            invariant
                i <= history.len(),
                hv == history@.map_values(|e: ScanLog| e@),
                latest == latest_of(hv.take(i as int)),
            decreases history.len() - i,
        {
            proof {
                assert(hv.take(i + 1).drop_last() =~= hv.take(i as int));
                assert(hv.take(i + 1).last() == history@[i as int]@);
            }
            if history[i].timestamp > latest {
                latest = history[i].timestamp;
            }
            i = i + 1;
        }
        proof {
            assert(hv.take(hv.len() as int) =~= hv);
        }
        let mut r = Logger { mappings, log: history, checked_out_cache: Vec::new(), latest_timestamp: latest };
        r.rebuild_cache();
        r
    }

    /// The id the next record gets; `None` once the ids are used up.
    pub fn next_id(&self) -> (r: Option<u64>)
        requires
            self.wf(),
        ensures
            r == (if next_id(self@.log) <= u64::MAX { Some(next_id(self@.log) as u64) } else { None::<u64> }),
    {
        proof {
            self.lemma_log_view();
        }
        if self.log.len() == 0 {
            Some(1)
        } else {
            let last = self.log[self.log.len() - 1].id;
            if last < u64::MAX { Some(last + 1) } else { None }
        }
    }

    /// Where `barcode` stands in the cache.
    fn cache_position(&self, barcode: &str) -> (r: Option<usize>)
        ensures
            match r {
                Some(i) => i < self.checked_out_cache.len() && self.checked_out_cache@[i as int]@ == barcode@,
                None => !cache_has(self.checked_out_cache@, barcode@),
            },
    {
        let mut i: usize = 0;
        while i < self.checked_out_cache.len()
            invariant
                i <= self.checked_out_cache.len(),
                forall|k: int| 0 <= k < i ==> (#[trigger] self.checked_out_cache@[k])@ != barcode@,
            decreases self.checked_out_cache.len() - i,
        {
            if same_text(self.checked_out_cache[i].as_str(), barcode) {
                return Some(i);
            }
            i = i + 1;
        }
        None
    }

    /// The timestamp that a record made at `now` gets.
    pub fn stamp(&self, now: i64) -> (r: i64)
        requires
            self.wf(),
        ensures
            r == stamp_of(self@.log, now),
    {
        if now > self.latest_timestamp { now } else { self.latest_timestamp }
    }

    /// Appends a record of `action` on `barcode` made at `now`, and brings the
    /// cache along in the same step. Returns the record.
    pub fn record(&mut self, barcode: &str, action: Action, department: Option<String>, now: i64) -> (r: ScanLog)
        requires
            old(self).wf(),
            next_id(old(self)@.log) <= u64::MAX,
        ensures
            final(self).wf(),
            final(self)@ == append(old(self)@, barcode@, action, opt_view(department), now),
            r@ == final(self)@.log.last(),
    {
        proof {
            self.lemma_log_view();
            lemma_append_status(self@, barcode@, action, opt_view(department), now);
        }
        let ghost before = self@;
        let t = self.stamp(now);
        let id = if self.log.len() == 0 { 1 } else { self.log[self.log.len() - 1].id + 1 };
        let entry = ScanLog { id, timestamp: t, barcode: barcode.to_string(), action, department };
        let pos = self.cache_position(barcode);
        let ghost old_cache = self.checked_out_cache@;
        let r = entry.duplicate();
        self.log.push(entry);
        if t > self.latest_timestamp {
            self.latest_timestamp = t;
        }
        match action {
            Action::CheckOut => {
                if pos.is_none() {
                    let b = barcode.to_string();
                    proof {
                        lemma_cache_push(old_cache, b);
                    }
                    self.checked_out_cache.push(b);
                }
            },
            Action::CheckIn => {
                if let Some(i) = pos {
                    proof {
                        lemma_cache_remove(old_cache, i as int);
                    }
                    self.checked_out_cache.remove(i);
                }
            },
        }
        proof {
            assert(self@.log =~= append(before, barcode@, action, opt_view(department), now).log);
            assert(self@.log.drop_last() =~= before.log);
        }
        r
    }

    /// The department table.
    pub fn mappings(&self) -> (r: &Vec<DepartmentMapping>)
        ensures
            r@ == self@.mappings,
    {
        &self.mappings
    }

    /// The log, oldest record first.
    pub fn logs(&self) -> (r: &Vec<ScanLog>)
        requires
            self.wf(),
        ensures
            r@.map_values(|e: ScanLog| e@) == self@.log,
    {
        &self.log
    }

    /// Replaces the department table; the log and the cache stay as they are.
    pub fn set_department_mappings(&mut self, mappings: Vec<DepartmentMapping>)
        requires
            old(self).wf(),
        ensures
            final(self).wf(),
            final(self)@ == (LedgerView { mappings: mappings@, log: old(self)@.log }),
    {
        self.mappings = mappings;
    }

    /// Whether some department prefix starts `barcode`, compared case-insensitively.
    pub fn has_valid_department_prefix(&self, barcode: &str) -> (r: bool)
        ensures
            r == department_of(self@.mappings, barcode@).is_some(),
    {
        has_valid_department_prefix(&self.mappings, barcode)
    }

    /// What a scan of `barcode` would do now, without doing it: check in a
    /// checked-out item, check out any other, and fail for a barcode without a
    /// department.
    pub fn plan_scan(&self, barcode: &str) -> (r: Result<ScanAction, LedgerError>)
        requires
            self.wf(),
        ensures
            r.is_ok() == department_of(self@.mappings, barcode@).is_some(),
            match r {
                Ok(a) => a.action == scan_action(self@.log, barcode@)
                    && opt_view(a.department) == department_of(self@.mappings, barcode@),
                Err(e) => e == LedgerError::UnknownDepartment,
            },
    {
        let department = get_department_from_barcode(&self.mappings, barcode);
        if department.is_none() {
            return Err(LedgerError::UnknownDepartment);
        }
        let pos = self.cache_position(barcode);
        proof {
            if pos.is_some() {
                assert(cache_has(self.checked_out_cache@, barcode@));
            }
        }
        let action = if pos.is_some() {
            Action::CheckIn
        } else {
            Action::CheckOut
        };
        Ok(ScanAction { action, department })
    }

    /// Scans `barcode` at time `now`: a checked-out item is checked in, any
    /// other is checked out, and the record is appended. A barcode without a
    /// department is refused and nothing changes.
    pub fn process_barcode_scan(&mut self, barcode: &str, now: i64) -> (r: Result<ScanAction, LedgerError>)
        requires
            old(self).wf(),
            next_id(old(self)@.log) <= u64::MAX,
        ensures
            final(self).wf(),
            r.is_ok() == department_of(old(self)@.mappings, barcode@).is_some(),
            match r {
                Ok(a) => {
                    &&& a.action == scan_action(old(self)@.log, barcode@)
                    &&& opt_view(a.department) == department_of(old(self)@.mappings, barcode@)
                    &&& final(self)@ == scan(old(self)@, barcode@, now)
                },
                Err(e) => e == LedgerError::UnknownDepartment && final(self)@ == old(self)@,
            },
    {
        let planned = self.plan_scan(barcode);
        match planned {
            Ok(a) => {
                let department = clone_text(&a.department);
                self.record(barcode, a.action, department, now);
                Ok(a)
            },
            Err(e) => Err(e),
        }
    }

    fn force(&mut self, barcode: &str, action: Action, now: i64) -> (r: Result<ScanAction, LedgerError>)
        requires
            old(self).wf(),
            next_id(old(self)@.log) <= u64::MAX,
        ensures
            final(self).wf(),
            r.is_ok() == department_of(old(self)@.mappings, barcode@).is_some(),
            match r {
                Ok(a) => {
                    &&& a.action == action
                    &&& opt_view(a.department) == department_of(old(self)@.mappings, barcode@)
                    &&& final(self)@ == append(old(self)@, barcode@, action, department_of(old(self)@.mappings, barcode@), now)
                },
                Err(e) => e == LedgerError::UnknownDepartment && final(self)@ == old(self)@,
            },
    {
        let department = get_department_from_barcode(&self.mappings, barcode);
        if department.is_none() {
            return Err(LedgerError::UnknownDepartment);
        }
        self.record(barcode, action, clone_text(&department), now);
        Ok(ScanAction { action, department })
    }

    /// Records a check-in of `barcode` at `now` whatever its status; refused,
    /// with nothing changed, for a barcode without a department.
    pub fn force_check_in(&mut self, barcode: &str, now: i64) -> (r: Result<ScanAction, LedgerError>)
        requires
            old(self).wf(),
            next_id(old(self)@.log) <= u64::MAX,
        ensures
            final(self).wf(),
            r.is_ok() == department_of(old(self)@.mappings, barcode@).is_some(),
            match r {
                Ok(a) => {
                    &&& a.action == Action::CheckIn
                    &&& opt_view(a.department) == department_of(old(self)@.mappings, barcode@)
                    &&& final(self)@ == append(old(self)@, barcode@, Action::CheckIn, department_of(old(self)@.mappings, barcode@), now)
                },
                Err(e) => e == LedgerError::UnknownDepartment && final(self)@ == old(self)@,
            },
    {
        self.force(barcode, Action::CheckIn, now)
    }

    /// Records a check-out of `barcode` at `now` whatever its status; refused,
    /// with nothing changed, for a barcode without a department.
    pub fn force_check_out(&mut self, barcode: &str, now: i64) -> (r: Result<ScanAction, LedgerError>)
        requires
            old(self).wf(),
            next_id(old(self)@.log) <= u64::MAX,
        ensures
            final(self).wf(),
            r.is_ok() == department_of(old(self)@.mappings, barcode@).is_some(),
            match r {
                Ok(a) => {
                    &&& a.action == Action::CheckOut
                    &&& opt_view(a.department) == department_of(old(self)@.mappings, barcode@)
                    &&& final(self)@ == append(old(self)@, barcode@, Action::CheckOut, department_of(old(self)@.mappings, barcode@), now)
                },
                Err(e) => e == LedgerError::UnknownDepartment && final(self)@ == old(self)@,
            },
    {
        self.force(barcode, Action::CheckOut, now)
    }

    /// The records that make their items checked out, computed from the log
    /// (not the cache), newest first: by timestamp descending, ties by
    /// sequence id descending.
    pub fn get_checked_out_items(&self) -> (r: Vec<ScanLog>)
        requires
            self.wf(),
        ensures
            r@.map_values(|e: ScanLog| e@) == checked_out_list(self@.log),
            checked_out_listing(self@.log, r@.map_values(|e: ScanLog| e@)),
            r.len() <= self@.log.len(),
    {
        proof {
            self.lemma_log_view();
        }
        let ghost log = self@.log;
        let mut out: Vec<ScanLog> = Vec::new();
        let mut i: usize = 0;
        while i < self.log.len()
            invariant
                self.wf(),
                log == self@.log,
                self.log@.len() == log.len(),
                forall|k: int| 0 <= k < self.log@.len() ==> #[trigger] log[k] == self.log@[k]@,
                i <= self.log.len(),
                out.len() <= i,
                newest_first(views(out@)),
                forall|a: int| 0 <= a < out.len() ==> #[trigger] listed_from(log, views(out@), a, i as int),
                forall|j: int| 0 <= j < i && is_current_checkout(log, log[j]) ==> #[trigger] appears_in(log, views(out@), j),
            decreases self.log.len() - i,
        {
            if self.is_current_checkout_at(i) {
                let e = &self.log[i];
                let ghost ov = views(out@);
                let mut p: usize = 0;
                while p < out.len()
                    && (e.timestamp < out[p].timestamp || (e.timestamp == out[p].timestamp && e.id < out[p].id))
                    invariant
                        p <= out.len(),
                        ov == views(out@),
                        forall|a: int| 0 <= a < p ==> before(log[i as int], #[trigger] ov[a]),
                        e@ == log[i as int],
                    decreases out.len() - p,
                {
                    p = p + 1;
                }
                let next = insert_at(&out, p, e);
                proof {
                    lemma_listing_insert(log, ov, i as int, p as int, views(next@));
                }
                out = next;
            } else {
                proof {
                    assert forall|a: int| 0 <= a < out.len() implies #[trigger] listed_from(log, views(out@), a, i + 1) by {
                        assert(listed_from(log, views(out@), a, i as int));
                    }
                }
            }
            i = i + 1;
        }
        proof {
            let ov = views(out@);
            assert(checked_out_listing(log, ov));
            lemma_listing_unique(log, ov, checked_out_list(log));
        }
        out
    }

    /// Empties the log; nothing is checked out afterwards.
    pub fn clear_all_logs(&mut self)
        requires
            old(self).wf(),
        ensures
            final(self).wf(),
            final(self)@ == (LedgerView { mappings: old(self)@.mappings, log: Seq::empty() }),
    {
        self.log = Vec::new();
        self.checked_out_cache = Vec::new();
        self.latest_timestamp = i64::MIN;
        proof {
            assert(self@.log =~= Seq::<ScanEntry>::empty());
        }
    }

    /// Whether record `i` makes its item checked out, from the log alone.
    fn is_current_checkout_at(&self, i: usize) -> (r: bool)
        requires
            i < self.log.len(),
        ensures
            r == is_current_checkout(self@.log, self@.log[i as int]),
    {
        proof {
            self.lemma_log_view();
        }
        let e = &self.log[i];
        if e.action != Action::CheckOut {
            return false;
        }
        let mut j: usize = 0;
        while j < self.log.len()
            invariant
                self@.log.len() == self.log@.len(),
                forall|k: int| 0 <= k < self.log@.len() ==> #[trigger] self@.log[k] == self.log@[k]@,
                i < self.log.len(),
                e == self.log@[i as int],
                j <= self.log.len(),
                forall|k: int| 0 <= k < j && (#[trigger] self@.log[k]).barcode == e@.barcode ==> key_le(self@.log[k], e@),
            decreases self.log.len() - j,
        {
            let f = &self.log[j];
            if same_text(f.barcode.as_str(), e.barcode.as_str()) {
                if !(f.timestamp < e.timestamp || (f.timestamp == e.timestamp && f.id <= e.id)) {
                    proof {
                        assert(self@.log[j as int].barcode == self@.log[i as int].barcode);
                        assert(!key_le(self@.log[j as int], self@.log[i as int]));
                    }
                    return false;
                }
            }
            j = j + 1;
        }
        true
    }

    /// Refills the cache from the log.
    fn rebuild_cache(&mut self)
        requires
            ordered(old(self)@.log),
            old(self).latest_timestamp == latest_of(old(self)@.log),
            old(self).log@.len() == old(self)@.log.len(),
        ensures
            final(self).wf(),
            final(self)@ == old(self)@,
    {
        proof {
            self.lemma_log_view();
        }
        let mut cache: Vec<String> = Vec::new();
        let mut i: usize = 0;
        while i < self.log.len()
            invariant
                ordered(self@.log),
                self.log@.len() == self@.log.len(),
                forall|k: int| 0 <= k < self.log@.len() ==> #[trigger] self@.log[k] == self.log@[k]@,
                i <= self.log.len(),
                forall|a: int, c: int| 0 <= a < c < cache.len() ==> (#[trigger] cache@[a])@ != (#[trigger] cache@[c])@,
                forall|b: Seq<char>| #[trigger] cache_has(cache@, b) == exists|k: int|
                    0 <= k < i && self@.log[k].barcode == b && #[trigger] is_current_checkout(self@.log, self@.log[k]),
            decreases self.log.len() - i,
        {
            let cur = self.is_current_checkout_at(i);
            let ghost log = self@.log;
            if cur {
                let ghost b = log[i as int].barcode;
                proof {
                    assert forall|k: int| 0 <= k < i && log[k].barcode == b implies !#[trigger] is_current_checkout(log, log[k]) by {
                        if is_current_checkout(log, log[k]) {
                            assert(key_le(log[k], log[i as int]));
                            assert(key_le(log[i as int], log[k]));
                        }
                    }
                }
                let ghost old_cache = cache@;
                cache.push(self.log[i].barcode.clone());
                proof {
                    assert forall|x: Seq<char>| #[trigger] cache_has(cache@, x) == exists|k: int|
                        0 <= k < i + 1 && log[k].barcode == x && #[trigger] is_current_checkout(log, log[k]) by {
                        if cache_has(cache@, x) {
                            let c = choose|c: int| 0 <= c < cache.len() && (#[trigger] cache@[c])@ == x;
                            if c < old_cache.len() {
                                assert(cache_has(old_cache, x));
                            } else {
                                assert(is_current_checkout(log, log[i as int]));
                            }
                        }
                        if exists|k: int| 0 <= k < i + 1 && log[k].barcode == x && #[trigger] is_current_checkout(log, log[k]) {
                            let k = choose|k: int| 0 <= k < i + 1 && log[k].barcode == x && #[trigger] is_current_checkout(log, log[k]);
                            if k < i {
                                assert(cache_has(old_cache, x));
                                let c = choose|c: int| 0 <= c < old_cache.len() && (#[trigger] old_cache[c])@ == x;
                                assert(cache@[c] == old_cache[c]);
                            } else {
                                assert(cache@[old_cache.len() as int]@ == x);
                            }
                        }
                    }
                    assert forall|a: int, c: int| 0 <= a < c < cache.len() implies (#[trigger] cache@[a])@ != (#[trigger] cache@[c])@ by {
                        if c == old_cache.len() {
                            if cache@[a]@ == b {
                                assert(cache_has(old_cache, b));
                            }
                        } else {
                            assert(cache@[a] == old_cache[a]);
                            assert(cache@[c] == old_cache[c]);
                        }
                    }
                }
            } else {
                proof {
                    assert forall|x: Seq<char>| #[trigger] cache_has(cache@, x) == exists|k: int|
                        0 <= k < i + 1 && log[k].barcode == x && #[trigger] is_current_checkout(log, log[k]) by {
                        if exists|k: int| 0 <= k < i + 1 && log[k].barcode == x && #[trigger] is_current_checkout(log, log[k]) {
                            let k = choose|k: int| 0 <= k < i + 1 && log[k].barcode == x && #[trigger] is_current_checkout(log, log[k]);
                            assert(k < i);
                        }
                    }
                }
            }
            i = i + 1;
        }
        self.checked_out_cache = cache;
        proof {
            assert forall|b: Seq<char>| #[trigger] cache_has(self.checked_out_cache@, b) == is_checked_out(self@.log, b) by {
                if is_checked_out(self@.log, b) {
                    let k = choose|k: int| 0 <= k < self@.log.len() && self@.log[k].barcode == b && #[trigger] is_current_checkout(self@.log, self@.log[k]);
                    assert(exists|k: int| 0 <= k < self.log@.len() && self@.log[k].barcode == b && #[trigger] is_current_checkout(self@.log, self@.log[k]));
                }
            }
        }
    }
}

} // verus!
