use vstd::prelude::*;
use crate::logger::{Logger, ScanEntry, ScanLog, checked_out_list, clone_text};
use crate::department::opt_view;
use crate::text::{parse_i64, parsed_i64, same_text};

verus! {

pub const HOUR_MS: i64 = 3600000;

/// Hours after which a checked-out item is overdue, unless configured otherwise.
pub const DEFAULT_THRESHOLD_HOURS: i64 = 24;

/// A checked-out item past the threshold. Times are milliseconds since the Unix
/// epoch; `hours_overdue` counts whole hours since the check-out.
pub struct OverdueItem {
    pub barcode: String,
    pub department: Option<String>,
    pub checked_out_time: i64,
    pub hours_overdue: i64,
}

pub struct OverdueView {
    pub barcode: Seq<char>,
    pub department: Option<Seq<char>>,
    pub checked_out_time: i64,
    pub hours_overdue: i64,
}

impl View for OverdueItem {
    type V = OverdueView;

    open spec fn view(&self) -> OverdueView {
        OverdueView {
            barcode: self.barcode@,
            department: opt_view(self.department),
            checked_out_time: self.checked_out_time,
            hours_overdue: self.hours_overdue,
        }
    }
}

/// Overdue items of one department: how many, and the longest overdue in hours.
pub struct DepartmentAlert {
    pub department: String,
    pub overdue_count: i64,
    pub oldest_hours: i64,
}

/// Overdue exactly when the time since check-out is strictly more than the threshold.
pub open spec fn overdue(checked_out_time: i64, now: i64, threshold_hours: i64) -> bool {
    now - checked_out_time > threshold_hours * HOUR_MS
}

pub open spec fn overdue_view(e: ScanEntry, now: i64) -> OverdueView {
    OverdueView {
        barcode: e.barcode,
        department: e.department,
        checked_out_time: e.timestamp,
        hours_overdue: whole_hours(now - e.timestamp) as i64,
    }
}

/// Whole hours in `ms` milliseconds, rounded toward zero.
pub open spec fn whole_hours(ms: int) -> int {
    if ms >= 0 {
        ms / (HOUR_MS as int)
    } else {
        -((-ms) / (HOUR_MS as int))
    }
}

fn hours_in(ms: i128) -> (r: i64)
    requires
        -0x1_0000_0000_0000_0000 < ms < 0x1_0000_0000_0000_0000,
    ensures
        r == whole_hours(ms as int),
{
    let a: i128 = if ms >= 0 { ms } else { -ms };
    let h: i128 = a / (HOUR_MS as i128);
    assert(0 <= h <= a) by (nonlinear_arith)
        requires
            0 <= a,
            h == a / 3600000,
    ;
    if ms >= 0 { h as i64 } else { -(h as i64) }
}

/// The overdue records among `items`, in order.
pub open spec fn overdue_of(items: Seq<ScanEntry>, now: i64, threshold_hours: i64) -> Seq<OverdueView>
    decreases items.len(),
{
    if items.len() == 0 {
        seq![]
    } else {
        let rest = overdue_of(items.drop_last(), now, threshold_hours);
        let e = items.last();
        if overdue(e.timestamp, now, threshold_hours) {
            rest.push(overdue_view(e, now))
        } else {
            rest
        }
    }
}

/// Whether an item checked out at `checked_out_time` is overdue at `now`.
pub fn is_overdue(checked_out_time: i64, now: i64, threshold_hours: i64) -> (r: bool)
    ensures
        r == overdue(checked_out_time, now, threshold_hours),
{
    let elapsed: i128 = (now as i128) - (checked_out_time as i128);
    let th: i128 = threshold_hours as i128;
    assert(-0x1_0000_0000_0000_0000_0000_0000 < th * 3600000 < 0x1_0000_0000_0000_0000_0000_0000) by (nonlinear_arith)
        requires
            i64::MIN <= th <= i64::MAX,
    ;
    let limit: i128 = th * 3600000;
    elapsed > limit
}


/// At exactly the threshold an item is not overdue; one millisecond later it is.
pub proof fn lemma_overdue_boundary(checked_out_time: i64, threshold_hours: i64)
    requires
        i64::MIN <= checked_out_time + threshold_hours * HOUR_MS,
        checked_out_time + threshold_hours * HOUR_MS + 1 <= i64::MAX,
    ensures
        !overdue(checked_out_time, (checked_out_time + threshold_hours * HOUR_MS) as i64, threshold_hours),
        overdue(checked_out_time, (checked_out_time + threshold_hours * HOUR_MS + 1) as i64, threshold_hours),
{
}

/// The label an item is grouped under: its department, or `Unknown`.
pub open spec fn label_of(d: Option<Seq<char>>) -> Seq<char> {
    match d {
        Some(s) => s,
        None => "Unknown"@,
    }
}

/// How many of `items` fall under label `l`.
pub open spec fn count_label(items: Seq<OverdueView>, l: Seq<char>) -> int
    decreases items.len(),
{
    if items.len() == 0 {
        0
    } else {
        count_label(items.drop_last(), l) + if label_of(items.last().department) == l { 1int } else { 0int }
    }
}

/// The most hours overdue among the items under label `l`, and at least 0.
pub open spec fn oldest_of(items: Seq<OverdueView>, l: Seq<char>) -> i64
    decreases items.len(),
{
    if items.len() == 0 {
        0
    } else {
        let m = oldest_of(items.drop_last(), l);
        if label_of(items.last().department) == l && items.last().hours_overdue > m {
            items.last().hours_overdue
        } else {
            m
        }
    }
}

/// `a` is the rollup of the items under its department label.
pub open spec fn alert_of(items: Seq<OverdueView>, a: DepartmentAlert) -> bool {
    &&& a.overdue_count == count_label(items, a.department@)
    &&& a.oldest_hours == oldest_of(items, a.department@)
    &&& a.overdue_count > 0
}

proof fn lemma_label_absent(items: Seq<OverdueView>, l: Seq<char>)
    requires
        forall|m: int| 0 <= m < items.len() ==> label_of((#[trigger] items[m]).department) != l,
    ensures
        count_label(items, l) == 0,
        oldest_of(items, l) == 0,
    decreases items.len(),
{
    if items.len() > 0 {
        let d = items.drop_last();
        assert forall|m: int| 0 <= m < d.len() implies label_of((#[trigger] d[m]).department) != l by {
            assert(d[m] == items[m]);
        }
        lemma_label_absent(d, l);
    }
}

proof fn lemma_count_bound(items: Seq<OverdueView>, l: Seq<char>)
    ensures
        0 <= count_label(items, l) <= items.len(),
    decreases items.len(),
{
    if items.len() > 0 {
        lemma_count_bound(items.drop_last(), l);
    }
}

impl DepartmentAlert {
    pub fn duplicate(&self) -> (r: DepartmentAlert)
        ensures
            r == *self,
    {
        DepartmentAlert {
            department: self.department.clone(),
            overdue_count: self.overdue_count,
            oldest_hours: self.oldest_hours,
        }
    }
}

pub open spec fn distinct_departments(s: Seq<DepartmentAlert>) -> bool {
    forall|i: int, j: int| 0 <= i < j < s.len() ==> (#[trigger] s[i]).department@ != (#[trigger] s[j]).department@
}

pub open spec fn by_count_desc(s: Seq<DepartmentAlert>) -> bool {
    forall|i: int, j: int| 0 <= i < j < s.len() ==> (#[trigger] s[i]).overdue_count >= (#[trigger] s[j]).overdue_count
}

pub open spec fn has_department(s: Seq<DepartmentAlert>, l: Seq<char>) -> bool {
    exists|i: int| 0 <= i < s.len() && (#[trigger] s[i]).department@ == l
}

/// Groups the items by department label in order of first appearance.
fn group_items(items: &Vec<OverdueItem>) -> (r: Vec<DepartmentAlert>)
    requires
        items.len() < i64::MAX,
    ensures
        forall|i: int| 0 <= i < r.len() ==> alert_of(items@.map_values(|o: OverdueItem| o@), #[trigger] r@[i]),
        distinct_departments(r@),
        forall|m: int| 0 <= m < items.len() ==> has_department(r@, label_of((#[trigger] items@[m])@.department)),
{
    let ghost iv = items@.map_values(|o: OverdueItem| o@);
    let mut groups: Vec<DepartmentAlert> = Vec::new();
    let mut k: usize = 0;
    while k < items.len()
        invariant
            k <= items.len(),
            items.len() < i64::MAX,
            iv == items@.map_values(|o: OverdueItem| o@),
            forall|i: int| 0 <= i < groups.len() ==> alert_of(iv.take(k as int), #[trigger] groups@[i]),
            distinct_departments(groups@),
            forall|m: int| 0 <= m < k ==> has_department(groups@, label_of((#[trigger] iv[m]).department)),
        decreases items.len() - k,
    {
        let item = &items[k];
        let label = match &item.department {
            Some(d) => d.clone(),
            None => "Unknown".to_string(),
        };
        let ghost pre = iv.take(k as int);
        let ghost post = iv.take(k + 1);
        proof {
            assert(post.drop_last() =~= pre);
            assert(post.last() == iv[k as int]);
            assert(iv[k as int] == item@);
            assert(label@ == label_of(item@.department));
            lemma_count_bound(pre, label@);
        }
        let mut j: usize = 0;
        while j < groups.len()
            invariant
                j <= groups.len(),
                forall|q: int| 0 <= q < j ==> (#[trigger] groups@[q]).department@ != label@,
            ensures
                j <= groups.len(),
                forall|q: int| 0 <= q < j ==> (#[trigger] groups@[q]).department@ != label@,
                j < groups.len() ==> groups@[j as int].department@ == label@,
            decreases groups.len() - j,
        {
            if same_text(groups[j].department.as_str(), label.as_str()) {
                break;
            }
            j = j + 1;
        }
        let ghost old_groups = groups@;
        if j < groups.len() {
            let g = &groups[j];
            let oldest = if item.hours_overdue > g.oldest_hours { item.hours_overdue } else { g.oldest_hours };
            let updated = DepartmentAlert {
                department: g.department.clone(),
                overdue_count: g.overdue_count + 1,
                oldest_hours: oldest,
            };
            groups.set(j, updated);
            proof {
                assert forall|i: int| 0 <= i < groups.len() implies alert_of(post, #[trigger] groups@[i]) by {
                    if i != j {
                        assert(groups@[i] == old_groups[i]);
                        if i < j {
                            assert(old_groups[i].department@ != old_groups[j as int].department@);
                        } else {
                            assert(old_groups[j as int].department@ != old_groups[i].department@);
                        }
                    }
                }
                assert forall|a: int, b: int| 0 <= a < b < groups.len()
                    implies (#[trigger] groups@[a]).department@ != (#[trigger] groups@[b]).department@ by {
                    assert(old_groups[a].department@ != old_groups[b].department@);
                }
                assert forall|m: int| 0 <= m < k + 1 implies has_department(groups@, label_of((#[trigger] iv[m]).department)) by {
                    if m < k {
                        let c = choose|c: int| 0 <= c < old_groups.len() && (#[trigger] old_groups[c]).department@ == label_of(iv[m].department);
                        assert(groups@[c].department@ == old_groups[c].department@);
                    } else {
                        assert(groups@[j as int].department@ == label@);
                    }
                }
            }
        } else {
            proof {
                assert forall|m: int| 0 <= m < pre.len() implies label_of((#[trigger] pre[m]).department) != label@ by {
                    assert(pre[m] == iv[m]);
                    if label_of(iv[m].department) == label@ {
                        let c = choose|c: int| 0 <= c < old_groups.len() && (#[trigger] old_groups[c]).department@ == label_of(iv[m].department);
                    }
                }
                lemma_label_absent(pre, label@);
            }
            let oldest = if item.hours_overdue > 0 { item.hours_overdue } else { 0 };
            groups.push(DepartmentAlert { department: label, overdue_count: 1, oldest_hours: oldest });
            proof {
                assert forall|i: int| 0 <= i < groups.len() implies alert_of(post, #[trigger] groups@[i]) by {
                    if i < old_groups.len() {
                        assert(groups@[i] == old_groups[i]);
                    }
                }
                assert forall|m: int| 0 <= m < k + 1 implies has_department(groups@, label_of((#[trigger] iv[m]).department)) by {
                    if m < k {
                        let c = choose|c: int| 0 <= c < old_groups.len() && (#[trigger] old_groups[c]).department@ == label_of(iv[m].department);
                        assert(groups@[c] == old_groups[c]);
                    } else {
                        assert(groups@[old_groups.len() as int].department@ == label_of(iv[m].department));
                    }
                }
            }
        }
        k = k + 1;
    }
    proof {
        assert(iv.take(iv.len() as int) =~= iv);
        assert forall|m: int| 0 <= m < items.len() implies has_department(groups@, label_of((#[trigger] items@[m])@.department)) by {
            assert(iv[m] == items@[m]@);
        }
    }
    groups
}


pub open spec fn inserted(s: Seq<DepartmentAlert>, p: int, g: DepartmentAlert) -> Seq<DepartmentAlert> {
    s.take(p).push(g) + s.skip(p)
}

proof fn lemma_inserted(s: Seq<DepartmentAlert>, p: int, g: DepartmentAlert)
    requires
        0 <= p <= s.len(),
    ensures
        inserted(s, p, g).len() == s.len() + 1,
        forall|i: int| 0 <= i < p ==> #[trigger] inserted(s, p, g)[i] == s[i],
        inserted(s, p, g)[p] == g,
        forall|i: int| p < i <= s.len() ==> #[trigger] inserted(s, p, g)[i] == s[i - 1],
{
    let t = inserted(s, p, g);
    assert forall|i: int| p < i <= s.len() implies #[trigger] t[i] == s[i - 1] by {
        assert(t[i] == s.skip(p)[i - p - 1]);
    }
}

/// `g` placed after every element of `s` whose count is at least its own.
fn insert_by_count(s: &Vec<DepartmentAlert>, g: &DepartmentAlert) -> (r: Vec<DepartmentAlert>)
    requires
        by_count_desc(s@),
    ensures
        by_count_desc(r@),
        exists|p: int| 0 <= p <= s.len() && r@ == inserted(s@, p, *g),
{
    let mut p: usize = 0;
    while p < s.len() && s[p].overdue_count >= g.overdue_count
        invariant
            p <= s.len(),
            forall|i: int| 0 <= i < p ==> (#[trigger] s@[i]).overdue_count >= g.overdue_count,
        decreases s.len() - p,
    {
        p = p + 1;
    }
    let mut r: Vec<DepartmentAlert> = Vec::new();
    let mut q: usize = 0;
    while q < p
        invariant
            q <= p <= s.len(),
            r@ == s@.take(q as int),
        decreases p - q,
    {
        r.push(s[q].duplicate());
        q = q + 1;
        proof {
            assert(r@ =~= s@.take(q as int));
        }
    }
    r.push(g.duplicate());
    while q < s.len()
        invariant
            p <= q <= s.len(),
            r@ == s@.take(p as int).push(*g) + s@.subrange(p as int, q as int),
        decreases s.len() - q,
    {
        r.push(s[q].duplicate());
        q = q + 1;
        proof {
            assert(r@ =~= s@.take(p as int).push(*g) + s@.subrange(p as int, q as int));
        }
    }
    proof {
        assert(s@.subrange(p as int, s.len() as int) =~= s@.skip(p as int));
        assert(r@ == inserted(s@, p as int, *g));
        lemma_inserted(s@, p as int, *g);
        assert forall|i: int, j: int| 0 <= i < j < r.len() implies (#[trigger] r@[i]).overdue_count >= (#[trigger] r@[j]).overdue_count by {
            if j < p {
            } else if j == p {
            } else if i < p {
                assert(s@[i].overdue_count >= s@[j - 1].overdue_count);
            } else if i == p {
                if p < s.len() {
                    assert(s@[p as int].overdue_count < g.overdue_count);
                    assert(s@[p as int].overdue_count >= s@[j - 1].overdue_count || j - 1 == p);
                }
            } else {
                assert(s@[i - 1].overdue_count >= s@[j - 1].overdue_count);
            }
        }
    }
    r
}

/// Every element of `out` is one of the first `k` groups.
#[verifier::opaque]
pub open spec fn drawn_from(out: Seq<DepartmentAlert>, groups: Seq<DepartmentAlert>, k: int) -> bool {
    forall|i: int| #![trigger out[i]] 0 <= i < out.len() ==> exists|j: int| #![trigger groups[j]] 0 <= j < k && out[i] == groups[j]
}

/// Each of the first `k` groups is in `out`.
#[verifier::opaque]
pub open spec fn all_placed(out: Seq<DepartmentAlert>, groups: Seq<DepartmentAlert>, k: int) -> bool {
    forall|j: int| #![trigger groups[j]] 0 <= j < k ==> exists|i: int| #![trigger out[i]] 0 <= i < out.len() && out[i] == groups[j]
}

proof fn lemma_insert_step(
    out: Seq<DepartmentAlert>,
    groups: Seq<DepartmentAlert>,
    k: int,
    p: int,
    next: Seq<DepartmentAlert>,
)
    requires
        0 <= k < groups.len(),
        0 <= p <= out.len(),
        next == inserted(out, p, groups[k]),
        distinct_departments(groups),
        distinct_departments(out),
        drawn_from(out, groups, k),
        all_placed(out, groups, k),
    ensures
        distinct_departments(next),
        drawn_from(next, groups, k + 1),
        all_placed(next, groups, k + 1),
{
    reveal(drawn_from);
    reveal(all_placed);
    let g = groups[k];
    lemma_inserted(out, p, g);
    assert forall|i: int| 0 <= i < out.len() implies (#[trigger] out[i]).department@ != g.department@ by {
        let j = choose|j: int| #![trigger groups[j]] 0 <= j < k && out[i] == groups[j];
        assert(groups[j].department@ != groups[k].department@);
    }
    assert forall|a: int, b: int| 0 <= a < b < next.len() implies (#[trigger] next[a]).department@ != (#[trigger] next[b]).department@ by {
        if b < p {
        } else if b == p {
        } else if a < p {
            assert(out[a].department@ != out[b - 1].department@);
        } else if a == p {
            assert(out[b - 1].department@ != g.department@);
        } else {
            assert(out[a - 1].department@ != out[b - 1].department@);
        }
    }
    assert forall|i: int| #![trigger next[i]] 0 <= i < next.len() implies exists|j: int| #![trigger groups[j]] 0 <= j < k + 1 && next[i] == groups[j] by {
        if i < p {
            let j = choose|j: int| #![trigger groups[j]] 0 <= j < k && out[i] == groups[j];
            assert(next[i] == groups[j]);
        } else if i == p {
            assert(next[i] == groups[k]);
        } else {
            let j = choose|j: int| #![trigger groups[j]] 0 <= j < k && out[i - 1] == groups[j];
            assert(next[i] == groups[j]);
        }
    }
    assert forall|j: int| #![trigger groups[j]] 0 <= j < k + 1 implies exists|i: int| #![trigger next[i]] 0 <= i < next.len() && next[i] == groups[j] by {
        if j < k {
            let i = choose|i: int| #![trigger out[i]] 0 <= i < out.len() && out[i] == groups[j];
            if i < p {
                assert(next[i] == groups[j]);
            } else {
                assert(next[i + 1] == groups[j]);
            }
        } else {
            assert(next[p] == groups[j]);
        }
    }
}

/// Overdue items rolled up by department label (`Unknown` for none): one entry
/// per label, with its count and the most hours overdue (at least 0), largest
/// count first.
pub fn department_rollup(items: &Vec<OverdueItem>) -> (r: Vec<DepartmentAlert>)
    requires
        items.len() < i64::MAX,
    ensures
        forall|i: int| 0 <= i < r.len() ==> alert_of(items@.map_values(|o: OverdueItem| o@), #[trigger] r@[i]),
        distinct_departments(r@),
        forall|m: int| 0 <= m < items.len() ==> has_department(r@, label_of((#[trigger] items@[m])@.department)),
        by_count_desc(r@),
{
    let groups = group_items(items);
    let ghost iv = items@.map_values(|o: OverdueItem| o@);
    let mut out: Vec<DepartmentAlert> = Vec::new();
    let mut k: usize = 0;
    proof {
        assert(drawn_from(out@, groups@, 0)) by {
            reveal(drawn_from);
        }
        assert(all_placed(out@, groups@, 0)) by {
            reveal(all_placed);
        }
    }
    while k < groups.len()
        invariant
            k <= groups.len(),
            iv == items@.map_values(|o: OverdueItem| o@),
            forall|i: int| 0 <= i < groups.len() ==> alert_of(iv, #[trigger] groups@[i]),
            distinct_departments(groups@),
            by_count_desc(out@),
            distinct_departments(out@),
            drawn_from(out@, groups@, k as int),
            all_placed(out@, groups@, k as int),
        decreases groups.len() - k,
    {
        let g = &groups[k];
        let next = insert_by_count(&out, g);
        proof {
            let p = choose|p: int| 0 <= p <= out.len() && next@ == inserted(out@, p, *g);
            lemma_insert_step(out@, groups@, k as int, p, next@);
        }
        out = next;
        k = k + 1;
    }
    proof {
        assert forall|i: int| 0 <= i < out.len() implies alert_of(iv, #[trigger] out@[i]) by {
            reveal(drawn_from);
            let j = choose|j: int| #![trigger groups@[j]] 0 <= j < k && out@[i] == groups@[j];
        }
        assert forall|m: int| 0 <= m < items.len() implies has_department(out@, label_of((#[trigger] items@[m])@.department)) by {
            reveal(all_placed);
            let c = choose|c: int| 0 <= c < groups.len() && (#[trigger] groups@[c]).department@ == label_of(items@[m]@.department);
            let i = choose|i: int| #![trigger out@[i]] 0 <= i < out.len() && out@[i] == groups@[c];
        }
    }
    out
}

/// Periodic overdue checks against a threshold in hours.
pub struct AlertManager {
    pub threshold_hours: i64,
}

impl AlertManager {
    /// The threshold from its stored setting: a whole number of hours, or the
    /// default when the setting is missing or not a number.
    pub fn new(threshold_setting: Option<&str>) -> (r: AlertManager)
        ensures
            r.threshold_hours == match threshold_setting {
                Some(s) => match parsed_i64(s@) {
                    Some(v) => v,
                    None => DEFAULT_THRESHOLD_HOURS,
                },
                None => DEFAULT_THRESHOLD_HOURS,
            },
    {
        let threshold_hours = match threshold_setting {
            Some(s) => match parse_i64(s) {
                Some(v) => v,
                None => DEFAULT_THRESHOLD_HOURS,
            },
            None => DEFAULT_THRESHOLD_HOURS,
        };
        AlertManager { threshold_hours }
    }

    /// The checked-out items, as the log has them, that are overdue at `now`.
    pub fn check_overdue_items(&self, ledger: &Logger, now: i64) -> (r: Vec<OverdueItem>)
        requires
            ledger.wf(),
        ensures
            r@.map_values(|o: OverdueItem| o@) == overdue_of(checked_out_list(ledger@.log), now, self.threshold_hours),
            r.len() <= ledger@.log.len(),
    {
        let items = ledger.get_checked_out_items();
        let ghost iv = items@.map_values(|e: ScanLog| e@);
        let mut out: Vec<OverdueItem> = Vec::new();
        let mut i: usize = 0;
        while i < items.len()
            invariant
                i <= items.len(),
                iv == items@.map_values(|e: ScanLog| e@),
                out@.map_values(|o: OverdueItem| o@) == overdue_of(iv.take(i as int), now, self.threshold_hours),
            decreases items.len() - i,
        {
            let e = &items[i];
            proof {
                assert(iv.take(i + 1).drop_last() =~= iv.take(i as int));
                assert(iv.take(i + 1).last() == iv[i as int]);
                assert(iv[i as int] == e@);
            }
            if is_overdue(e.timestamp, now, self.threshold_hours) {
                let d: i128 = (now as i128) - (e.timestamp as i128);
                let ghost before = out@.map_values(|o: OverdueItem| o@);
                out.push(
                    OverdueItem {
                        barcode: e.barcode.clone(),
                        department: clone_text(&e.department),
                        checked_out_time: e.timestamp,
                        hours_overdue: hours_in(d),
                    },
                );
                proof {
                    assert(out@.map_values(|o: OverdueItem| o@) =~= before.push(overdue_view(e@, now)));
                }
            }
            i = i + 1;
        }
        proof {
            assert(iv.take(iv.len() as int) =~= iv);
            lemma_overdue_len(iv, now, self.threshold_hours);
            assert(out@.map_values(|o: OverdueItem| o@).len() == out.len());
        }
        out
    }

    /// The overdue items at `now` rolled up by department, largest count first.
    pub fn get_department_alert_stats(&self, ledger: &Logger, now: i64) -> (r: Vec<DepartmentAlert>)
        requires
            ledger.wf(),
            ledger@.log.len() < i64::MAX,
        ensures
            ({
                let items = overdue_of(checked_out_list(ledger@.log), now, self.threshold_hours);
                &&& forall|i: int| 0 <= i < r.len() ==> alert_of(items, #[trigger] r@[i])
                &&& distinct_departments(r@)
                &&& forall|m: int| 0 <= m < items.len() ==> has_department(r@, label_of((#[trigger] items[m]).department))
                &&& by_count_desc(r@)
            }),
    {
        let items = self.check_overdue_items(ledger, now);
        proof {
            lemma_overdue_len(checked_out_list(ledger@.log), now, self.threshold_hours);
            assert(items@.map_values(|o: OverdueItem| o@).len() == items.len());
        }
        let r = department_rollup(&items);
        proof {
            let iv = items@.map_values(|o: OverdueItem| o@);
            assert forall|m: int| 0 <= m < iv.len() implies has_department(r@, label_of((#[trigger] iv[m]).department)) by {
                assert(iv[m] == items@[m]@);
            }
        }
        r
    }
}

proof fn lemma_overdue_len(items: Seq<ScanEntry>, now: i64, threshold_hours: i64)
    ensures
        overdue_of(items, now, threshold_hours).len() <= items.len(),
    decreases items.len(),
{
    if items.len() > 0 {
        lemma_overdue_len(items.drop_last(), now, threshold_hours);
    }
}

} // verus!

verus! {

pub open spec fn as_listed(e: ScanEntry) -> OverdueView {
    OverdueView { barcode: e.barcode, department: e.department, checked_out_time: e.timestamp, hours_overdue: 0 }
}

/// The label of item `m` has an entry in `r`.
pub open spec fn covered_at(r: Seq<(String, i64)>, items: Seq<OverdueView>, m: int) -> bool {
    exists|i: int| 0 <= i < r.len() && (#[trigger] r[i]).0@ == label_of(items[m].department)
}

/// Every label of `items` has an entry in `r`.
pub open spec fn labels_covered(r: Seq<(String, i64)>, items: Seq<OverdueView>) -> bool {
    forall|m: int| 0 <= m < items.len() ==> #[trigger] covered_at(r, items, m)
}

/// The checked-out records as items with no hours counted.
pub open spec fn listed(log: Seq<ScanEntry>) -> Seq<OverdueView> {
    checked_out_list(log).map_values(|e: ScanEntry| as_listed(e))
}

impl Logger {
    /// The checked-out items, as the log has them, counted by department label
    /// (`Unknown` for none): one entry per label, largest count first.
    pub fn get_department_stats(&self) -> (r: Vec<(String, i64)>)
        requires
            self.wf(),
            self@.log.len() < i64::MAX,
        ensures
            forall|i: int| 0 <= i < r.len() ==> (#[trigger] r@[i]).1 == count_label(listed(self@.log), r@[i].0@) && r@[i].1 > 0,
            forall|i: int, j: int| 0 <= i < j < r.len() ==> (#[trigger] r@[i]).0@ != (#[trigger] r@[j]).0@,
            labels_covered(r@, listed(self@.log)),
            forall|i: int, j: int| 0 <= i < j < r.len() ==> (#[trigger] r@[i]).1 >= (#[trigger] r@[j]).1,
    {
        let logs = self.get_checked_out_items();
        let ghost lv = logs@.map_values(|e: ScanLog| e@);
        proof {
        }
        let mut items: Vec<OverdueItem> = Vec::new();
        let mut i: usize = 0;
        while i < logs.len()
            invariant
                i <= logs.len(),
                lv == logs@.map_values(|e: ScanLog| e@),
                items.len() == i,
                forall|k: int| 0 <= k < i ==> (#[trigger] items@[k])@ == as_listed(lv[k]),
            decreases logs.len() - i,
        {
            let e = &logs[i];
            items.push(OverdueItem {
                barcode: e.barcode.clone(),
                department: clone_text(&e.department),
                checked_out_time: e.timestamp,
                hours_overdue: 0,
            });
            i = i + 1;
        }
        proof {
            assert(items@.map_values(|o: OverdueItem| o@) =~= listed(self@.log));
        }
        let alerts = department_rollup(&items);
        let ghost iv = items@.map_values(|o: OverdueItem| o@);
        let mut r: Vec<(String, i64)> = Vec::new();
        let mut k: usize = 0;
        while k < alerts.len()
            invariant
                k <= alerts.len(),
                r.len() == k,
                forall|q: int| 0 <= q < k ==> (#[trigger] r@[q]).0 == alerts@[q].department && r@[q].1 == alerts@[q].overdue_count,
            decreases alerts.len() - k,
        {
            r.push((alerts[k].department.clone(), alerts[k].overdue_count));
            k = k + 1;
        }
        proof {
            assert(iv =~= listed(self@.log));
            let rv = r@;
            assert forall|m: int| 0 <= m < iv.len() implies #[trigger] covered_at(rv, iv, m) by {
                assert(iv[m] == items@[m]@);
                let c = choose|c: int| 0 <= c < alerts.len() && (#[trigger] alerts@[c]).department@ == label_of(items@[m]@.department);
                assert(rv[c].0@ == alerts@[c].department@);
            }
            assert forall|i: int, j: int| 0 <= i < j < r.len() implies (#[trigger] r@[i]).1 >= (#[trigger] r@[j]).1 by {
                assert(alerts@[i].overdue_count >= alerts@[j].overdue_count);
            }
            assert forall|i: int, j: int| 0 <= i < j < r.len() implies (#[trigger] r@[i]).0@ != (#[trigger] r@[j]).0@ by {
                assert(alerts@[i].department@ != alerts@[j].department@);
            }
            assert forall|i: int| 0 <= i < r.len() implies (#[trigger] r@[i]).1 == count_label(iv, r@[i].0@) && r@[i].1 > 0 by {
                assert(alert_of(iv, alerts@[i]));
            }
            assert(labels_covered(r@, iv));
        }
        r
    }
}

} // verus!
