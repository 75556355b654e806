use vstd::prelude::*;
use crate::system::{age_at, ProcessItem};
use crate::text::{
    ascii_lower, chars_of, contains_chars, decimal, has_infix, lowercase, push_decimal, to_ascii_lowercase,
    to_lowercase, trim, trimmed,
};
use crate::ui::SortKey;

verus! {

/// Lexicographic order of character sequences by code point, a proper prefix
/// coming first: the order of `String`s.
pub open spec fn text_lt(a: Seq<char>, b: Seq<char>) -> bool
    decreases a.len(),
{
    if a.len() == 0 {
        b.len() > 0
    } else if b.len() == 0 {
        false
    } else if a[0] != b[0] {
        a[0] < b[0]
    } else {
        text_lt(a.drop_first(), b.drop_first())
    }
}

/// Exactly one of `a < b`, `a == b`, `b < a` holds.
pub proof fn lemma_text_trichotomy(a: Seq<char>, b: Seq<char>)
    ensures
        text_lt(a, b) || a == b || text_lt(b, a),
        !(text_lt(a, b) && text_lt(b, a)),
        text_lt(a, b) ==> a != b,
    decreases a.len(),
{
    if a.len() > 0 && b.len() > 0 && a[0] == b[0] {
        lemma_text_trichotomy(a.drop_first(), b.drop_first());
        if a.drop_first() == b.drop_first() {
            assert(a =~= seq![a[0]] + a.drop_first());
            assert(b =~= seq![b[0]] + b.drop_first());
        }
    } else if a.len() == 0 && b.len() == 0 {
        assert(a =~= b);
    } else if a.len() > 0 && b.len() > 0 {
        assert(a[0] != b[0]);
    }
}

/// The order of texts is transitive.
pub proof fn lemma_text_transitive(a: Seq<char>, b: Seq<char>, c: Seq<char>)
    requires
        text_lt(a, b),
        text_lt(b, c),
    ensures
        text_lt(a, c),
    decreases a.len(),
{
    if a.len() > 0 && b.len() > 0 && c.len() > 0 && a[0] == b[0] && b[0] == c[0] {
        lemma_text_transitive(a.drop_first(), b.drop_first(), c.drop_first());
    }
}

/// The value a row is sorted by under one column.
pub enum SortVal {
    Num(nat),
    Txt(Seq<char>),
}

/// The value that `key` sorts `p` by at time `now`: the pid, the ASCII-lowered
/// name, the CPU order key, the memory, the sum of the disk read and write
/// rates, or the age.
pub open spec fn sort_value(p: ProcessItem, key: SortKey, now: u64) -> SortVal {
    match key {
        SortKey::Pid => SortVal::Num(p.pid as nat),
        SortKey::Name => SortVal::Txt(ascii_lower(p.name@)),
        SortKey::Cpu => SortVal::Num(p.cpu_order as nat),
        SortKey::Memory => SortVal::Num(p.memory_bytes as nat),
        SortKey::Disk => SortVal::Num((p.disk_read_bytes_sec + p.disk_write_bytes_sec) as nat),
        SortKey::Age => SortVal::Num(age_at(p.start_time, now) as nat),
    }
}

/// Strict order of sort values of one kind.
pub open spec fn val_lt(a: SortVal, b: SortVal) -> bool {
    match (a, b) {
        (SortVal::Num(x), SortVal::Num(y)) => x < y,
        (SortVal::Txt(x), SortVal::Txt(y)) => text_lt(x, y),
        _ => false,
    }
}

/// Row `i` comes before row `j` in the ascending order: a smaller sort value,
/// or an equal one and an earlier place in `items` (the sort is stable).
pub open spec fn row_before(items: Seq<ProcessItem>, key: SortKey, now: u64, i: int, j: int) -> bool {
    let a = sort_value(items[i], key, now);
    let b = sort_value(items[j], key, now);
    val_lt(a, b) || (a == b && i < j)
}

/// Row `i` is shown above row `j`: ascending, or the exact reverse of it.
pub open spec fn shown_above(items: Seq<ProcessItem>, key: SortKey, ascending: bool, now: u64, i: int, j: int) -> bool {
    if ascending {
        row_before(items, key, now, i, j)
    } else {
        row_before(items, key, now, j, i)
    }
}

/// The search text in the form rows are matched against: trimmed and lowered.
pub open spec fn normalized_query(query: Seq<char>) -> Seq<char> {
    lowercase(trimmed(query))
}

/// Whether a row matches a normalized search text: every row matches an empty
/// one; otherwise the text must occur in the ASCII-lowered name or in the pid.
pub open spec fn row_matches(p: ProcessItem, q: Seq<char>) -> bool {
    q.len() == 0 || has_infix(ascii_lower(p.name@), q) || has_infix(decimal(p.pid as nat), q)
}

/// At most this many rows are shown.
pub const MAX_DISPLAY: usize = 100;

/// The rows of `items` that the process table shows, by position in `items`.
pub open spec fn is_table(items: Seq<ProcessItem>, query: Seq<char>, key: SortKey, ascending: bool, now: u64, shown: Seq<usize>) -> bool {
    let q = normalized_query(query);
    &&& shown.len() <= MAX_DISPLAY
    &&& shown.no_duplicates()
    &&& forall|a: int| 0 <= a < shown.len() ==> #[trigger] shown[a] < items.len() && row_matches(items[shown[a] as int], q)
    &&& forall|a: int, b: int| 0 <= a < b < shown.len() ==> shown_above(items, key, ascending, now, #[trigger] shown[a] as int, #[trigger] shown[b] as int)
    &&& forall|i: int| 0 <= i < items.len() && row_matches(items[i], q) && !shown.contains(i as usize) ==> shown.len() == MAX_DISPLAY
        && forall|a: int| 0 <= a < shown.len() ==> shown_above(items, key, ascending, now, #[trigger] shown[a] as int, i)
}

enum SortValue {
    Num(u128),
    Txt(Vec<char>),
}

impl SortValue {
    spec fn view(&self) -> SortVal {
        match self {
            SortValue::Num(n) => SortVal::Num(*n as nat),
            SortValue::Txt(t) => SortVal::Txt(t@),
        }
    }
}

fn text_less(a: &Vec<char>, b: &Vec<char>) -> (r: bool)
    ensures
        r == text_lt(a@, b@),
{
    let mut i: usize = 0;
    assert(a@.skip(0) =~= a@ && b@.skip(0) =~= b@);
    while i < a.len() && i < b.len() && a[i] == b[i]
        invariant
            i <= a.len(),
            i <= b.len(),
            text_lt(a@, b@) == text_lt(a@.skip(i as int), b@.skip(i as int)),
        decreases a.len() - i,
    {
        assert(a@.skip(i as int).drop_first() =~= a@.skip(i + 1));
        assert(b@.skip(i as int).drop_first() =~= b@.skip(i + 1));
        i = i + 1;
    }
    if i == a.len() {
        i < b.len()
    } else if i == b.len() {
        false
    } else {
        a[i] < b[i]
    }
}

fn value_less(a: &SortValue, b: &SortValue) -> (r: bool)
    ensures
        r == val_lt(a.view(), b.view()),
{
    match (a, b) {
        (SortValue::Num(x), SortValue::Num(y)) => *x < *y,
        (SortValue::Txt(x), SortValue::Txt(y)) => text_less(x, y),
        _ => false,
    }
}

fn value_of(p: &ProcessItem, key: SortKey, now: u64) -> (v: SortValue)
    ensures
        v.view() == sort_value(*p, key, now),
{
    match key {
        SortKey::Pid => SortValue::Num(p.pid as u128),
        SortKey::Name => {
            let lower = to_ascii_lowercase(p.name.as_str());
            SortValue::Txt(chars_of(lower.as_str()))
        },
        SortKey::Cpu => SortValue::Num(p.cpu_order as u128),
        SortKey::Memory => SortValue::Num(p.memory_bytes as u128),
        SortKey::Disk => SortValue::Num(p.disk_read_bytes_sec as u128 + p.disk_write_bytes_sec as u128),
        SortKey::Age => SortValue::Num(p.age_secs_at(now) as u128),
    }
}

/// Whether `p` matches the normalized search text `q`.
pub fn row_matches_query(p: &ProcessItem, q: &Vec<char>) -> (r: bool)
    ensures
        r == row_matches(*p, q@),
{
    if q.len() == 0 {
        return true;
    }
    let name = to_ascii_lowercase(p.name.as_str());
    if contains_chars(&chars_of(name.as_str()), q) {
        return true;
    }
    let mut digits = String::new();
    push_decimal(&mut digits, p.pid as u128);
    assert(digits@ =~= decimal(p.pid as nat));
    contains_chars(&chars_of(digits.as_str()), q)
}

/// The sort values of one column are totally ordered.
proof fn lemma_value_order(items: Seq<ProcessItem>, key: SortKey, now: u64, i: int, j: int, k: int)
    ensures
        ({
            let a = sort_value(items[i], key, now);
            let b = sort_value(items[j], key, now);
            let c = sort_value(items[k], key, now);
            &&& val_lt(a, b) || a == b || val_lt(b, a)
            &&& !(val_lt(a, b) && val_lt(b, a))
            &&& !(val_lt(a, b) && a == b)
            &&& (val_lt(a, b) && val_lt(b, c)) ==> val_lt(a, c)
        }),
{
    let a = sort_value(items[i], key, now);
    let b = sort_value(items[j], key, now);
    let c = sort_value(items[k], key, now);
    if key == SortKey::Name {
        let (x, y, z) = (a->Txt_0, b->Txt_0, c->Txt_0);
        lemma_text_trichotomy(x, y);
        if text_lt(x, y) && text_lt(y, z) {
            lemma_text_transitive(x, y, z);
        }
    }
}

/// `s` lists rows in ascending order.
pub open spec fn ascending_rows(items: Seq<ProcessItem>, key: SortKey, now: u64, s: Seq<usize>) -> bool {
    forall|a: int, b: int| 0 <= a < b < s.len() ==> row_before(items, key, now, #[trigger] s[a] as int, #[trigger] s[b] as int)
}

/// Inserts row `x`, which comes after every row of `order` in `items`, into
/// its place in the ascending order.
fn insert_row(
    keys: &Vec<SortValue>,
    order: &mut Vec<usize>,
    x: usize,
    Ghost(items): Ghost<Seq<ProcessItem>>,
    key: SortKey,
    now: u64,
)
    requires
        keys.len() == items.len(),
        x < items.len(),
        forall|i: int| 0 <= i < items.len() ==> (#[trigger] keys@[i]).view() == sort_value(items[i], key, now),
        forall|a: int| 0 <= a < old(order).len() ==> #[trigger] old(order)@[a] < x,
        ascending_rows(items, key, now, old(order)@),
    ensures
        ascending_rows(items, key, now, final(order)@),
        final(order)@.len() == old(order)@.len() + 1,
        forall|e: usize| final(order)@.contains(e) <==> (old(order)@.contains(e) || e == x),
        forall|a: int| 0 <= a < final(order).len() ==> #[trigger] final(order)@[a] <= x,
{
    let mut pos: usize = 0;
    while pos < order.len() && !value_less(&keys[x], &keys[order[pos]])
        invariant
            keys.len() == items.len(),
            x < items.len(),
            forall|i: int| 0 <= i < items.len() ==> (#[trigger] keys@[i]).view() == sort_value(items[i], key, now),
            forall|a: int| 0 <= a < order.len() ==> #[trigger] order@[a] < x,
            pos <= order.len(),
            forall|p: int| 0 <= p < pos ==> !val_lt(sort_value(items[x as int], key, now), sort_value(items[#[trigger] order@[p] as int], key, now)),
        decreases order.len() - pos,
    {
        pos = pos + 1;
    }
    let ghost old_order = order@;
    order.insert(pos, x);
    assert(order@ == old_order.insert(pos as int, x));
    assert forall|a: int, b: int| 0 <= a < b < order@.len() implies row_before(items, key, now, #[trigger] order@[a] as int, #[trigger] order@[b] as int) by {
        let ia = order@[a] as int;
        let ib = order@[b] as int;
        lemma_value_order(items, key, now, ia, ib, ib);
        if a < pos && b < pos {
            assert(order@[a] == old_order[a] && order@[b] == old_order[b]);
        } else if a > pos && b > pos {
            assert(order@[a] == old_order[a - 1] && order@[b] == old_order[b - 1]);
        } else if a < pos && b > pos {
            assert(order@[a] == old_order[a] && order@[b] == old_order[b - 1]);
        } else if a == pos {
            // x goes before every later row
            assert(ia == x);
            assert(order@[b] == old_order[b - 1]);
            let ip = old_order[pos as int] as int;
            assert(val_lt(sort_value(items[x as int], key, now), sort_value(items[ip], key, now)));
            if b - 1 > pos {
                assert(row_before(items, key, now, ip, ib));
            }
            lemma_value_order(items, key, now, x as int, ip, ib);
        } else {
            // b == pos: every earlier row goes before x
            assert(ib == x);
            assert(order@[a] == old_order[a]);
            assert(!val_lt(sort_value(items[x as int], key, now), sort_value(items[ia], key, now)));
            lemma_value_order(items, key, now, ia, x as int, x as int);
        }
    }
    assert forall|e: usize| order@.contains(e) <==> (old_order.contains(e) || e == x) by {
        if order@.contains(e) {
            let a = choose|a: int| 0 <= a < order@.len() && order@[a] == e;
            if a < pos {
                assert(old_order[a] == e);
            } else if a > pos {
                assert(old_order[a - 1] == e);
            }
        }
        if old_order.contains(e) {
            let a = choose|a: int| 0 <= a < old_order.len() && old_order[a] == e;
            if a < pos {
                assert(order@[a] == e);
            } else {
                assert(order@[a + 1] == e);
            }
        }
        if e == x {
            assert(order@[pos as int] == e);
        }
    }
    assert forall|a: int| 0 <= a < order.len() implies #[trigger] order@[a] <= x by {
        if a < pos {
            assert(order@[a] == old_order[a]);
        } else if a > pos {
            assert(order@[a] == old_order[a - 1]);
        }
    }
}

/// An ascending sequence of distinct positions has no duplicates.
proof fn lemma_ascending_distinct(items: Seq<ProcessItem>, key: SortKey, now: u64, s: Seq<usize>)
    requires
        ascending_rows(items, key, now, s),
        forall|a: int| 0 <= a < s.len() ==> #[trigger] s[a] < items.len(),
    ensures
        s.no_duplicates(),
{
    assert forall|a: int, b: int| 0 <= a < s.len() && 0 <= b < s.len() && a != b implies s[a] != s[b] by {
        let (lo, hi) = if a < b { (a, b) } else { (b, a) };
        assert(row_before(items, key, now, s[lo] as int, s[hi] as int));
        lemma_value_order(items, key, now, s[lo] as int, s[hi] as int, s[hi] as int);
    }
}

/// The rows the process table shows, by position in `items`, at time `now`
/// (seconds since the Unix epoch, for the age column): the rows matching the
/// trimmed and lowered search text, stably sorted by `key`, reversed when
/// descending, and cut to the first `MAX_DISPLAY`.
pub fn filter_and_sort_at(items: &Vec<ProcessItem>, query: &str, key: SortKey, ascending: bool, now: u64) -> (shown: Vec<usize>)
    ensures
        is_table(items@, query@, key, ascending, now, shown@),
        trimmed(query@).len() == 0 ==> normalized_query(query@).len() == 0,
{
    let trimmed_query = trim(query);
    let lowered = to_lowercase(trimmed_query.as_str());
    let q = chars_of(lowered.as_str());
    assert(q@ == normalized_query(query@));
    let n = items.len();
    let mut keys: Vec<SortValue> = Vec::new();
    let mut i: usize = 0;
    while i < n
        invariant
            n == items.len(),
            i <= n,
            keys.len() == i,
            forall|k: int| 0 <= k < i ==> (#[trigger] keys@[k]).view() == sort_value(items@[k], key, now),
        decreases n - i,
    {
        let v = value_of(&items[i], key, now);
        keys.push(v);
        i = i + 1;
    }
    let mut order: Vec<usize> = Vec::new();
    let mut i: usize = 0;
    while i < n
        invariant
            n == items.len(),
            i <= n,
            keys.len() == n,
            forall|k: int| 0 <= k < n ==> (#[trigger] keys@[k]).view() == sort_value(items@[k], key, now),
            ascending_rows(items@, key, now, order@),
            forall|a: int| 0 <= a < order.len() ==> #[trigger] order@[a] < i,
            forall|e: usize| order@.contains(e) <==> (e < i && row_matches(items@[e as int], q@)),
        decreases n - i,
    {
        if row_matches_query(&items[i], &q) {
            insert_row(&keys, &mut order, i, Ghost(items@), key, now);
            assert forall|a: int| 0 <= a < order.len() implies #[trigger] order@[a] < i + 1 by {}
        }
        i = i + 1;
    }
    proof {
        lemma_ascending_distinct(items@, key, now, order@);
    }
    let mut full: Vec<usize>;
    if ascending {
        full = order;
    } else {
        full = Vec::new();
        let mut k: usize = order.len();
        while k > 0
            invariant
                k <= order.len(),
                full.len() == order.len() - k,
                forall|a: int| 0 <= a < full.len() ==> #[trigger] full@[a] == order@[order.len() - 1 - a],
            decreases k,
        {
            k = k - 1;
            full.push(order[k]);
        }
    }
    let ghost whole = full@;
    proof {
        assert(whole.len() == order@.len());
        assert forall|a: int, b: int| 0 <= a < b < whole.len() implies shown_above(items@, key, ascending, now, #[trigger] whole[a] as int, #[trigger] whole[b] as int) by {
            if !ascending {
                let oa = order.len() - 1 - a;
                let ob = order.len() - 1 - b;
                assert(whole[a] == order@[oa] && whole[b] == order@[ob]);
            }
        }
        assert forall|e: usize| whole.contains(e) <==> order@.contains(e) by {
            if whole.contains(e) {
                let a = choose|a: int| 0 <= a < whole.len() && whole[a] == e;
                if !ascending {
                    assert(order@[order.len() - 1 - a] == e);
                }
            }
            if order@.contains(e) {
                let a = choose|a: int| 0 <= a < order@.len() && order@[a] == e;
                if !ascending {
                    assert(whole[order.len() - 1 - a] == e);
                }
            }
        }
        assert forall|a: int, b: int| 0 <= a < whole.len() && 0 <= b < whole.len() && a != b implies whole[a] != whole[b] by {
            if !ascending {
                assert(whole[a] == order@[order.len() - 1 - a] && whole[b] == order@[order.len() - 1 - b]);
            }
        }
    }
    full.truncate(MAX_DISPLAY);
    proof {
        assert(full@ == whole.take(full@.len() as int)) by {
            assert(full@ =~= whole.take(full@.len() as int));
        }
        let q = normalized_query(query@);
        assert forall|a: int| 0 <= a < full@.len() implies #[trigger] full@[a] < items.len() && row_matches(items@[full@[a] as int], q) by {
            assert(whole.contains(whole[a]));
        }
        assert forall|a: int, b: int| 0 <= a < b < full@.len() implies shown_above(items@, key, ascending, now, #[trigger] full@[a] as int, #[trigger] full@[b] as int) by {
            assert(full@[a] == whole[a] && full@[b] == whole[b]);
        }
        assert forall|a: int, b: int| 0 <= a < full@.len() && 0 <= b < full@.len() && a != b implies full@[a] != full@[b] by {
            assert(full@[a] == whole[a] && full@[b] == whole[b]);
        }
        assert forall|i: int| 0 <= i < items.len() && row_matches(items@[i], q) && !full@.contains(i as usize) implies full@.len() == MAX_DISPLAY
            && forall|a: int| 0 <= a < full@.len() ==> shown_above(items@, key, ascending, now, #[trigger] full@[a] as int, i) by {
            assert(order@.contains(i as usize));
            assert(whole.contains(i as usize));
            let w = choose|w: int| 0 <= w < whole.len() && whole[w] == i as usize;
            if w < full@.len() {
                assert(full@[w] == i as usize);
            }
            assert forall|a: int| 0 <= a < full@.len() implies shown_above(items@, key, ascending, now, #[trigger] full@[a] as int, i) by {
                assert(full@[a] == whole[a]);
                assert(whole[w] == i as usize);
            }
        }
    }
    full
}

/// The rows the process table shows, with ages taken from the system clock.
pub fn filter_and_sort(items: &Vec<ProcessItem>, query: &str, key: SortKey, ascending: bool) -> (shown: Vec<usize>)
    ensures
        exists|now: u64| is_table(items@, query@, key, ascending, now, shown@),
        trimmed(query@).len() == 0 ==> normalized_query(query@).len() == 0,
{
    let now = crate::system::unix_time_now();
    filter_and_sort_at(items, query, key, ascending, now)
}

/// A blank search matches every row, so the table then lists every process
/// (the first 100 of them in sort order).
pub proof fn lemma_blank_search_shows_all(items: Seq<ProcessItem>, query: Seq<char>, key: SortKey, ascending: bool, now: u64, shown: Seq<usize>, i: int)
    requires
        is_table(items, query, key, ascending, now, shown),
        normalized_query(query).len() == 0,
        0 <= i < items.len(),
        shown.len() < MAX_DISPLAY,
    ensures
        shown.contains(i as usize),
{
    assert(row_matches(items[i], normalized_query(query)));
    if !shown.contains(i as usize) {
        assert(shown.len() == MAX_DISPLAY);
    }
}

proof fn lemma_row_order(items: Seq<ProcessItem>, key: SortKey, now: u64, i: int, j: int, k: int)
    ensures
        !(row_before(items, key, now, i, j) && row_before(items, key, now, j, i)),
        i != j ==> row_before(items, key, now, i, j) || row_before(items, key, now, j, i),
        row_before(items, key, now, i, j) && row_before(items, key, now, j, k) ==> row_before(items, key, now, i, k),
{
    lemma_value_order(items, key, now, i, j, k);
    lemma_value_order(items, key, now, j, i, k);
    lemma_value_order(items, key, now, j, k, i);
    lemma_value_order(items, key, now, i, k, j);
}

/// Two ascending sequences of the same distinct rows are equal.
proof fn lemma_ascending_unique(items: Seq<ProcessItem>, key: SortKey, now: u64, s1: Seq<usize>, s2: Seq<usize>)
    requires
        ascending_rows(items, key, now, s1),
        ascending_rows(items, key, now, s2),
        s1.no_duplicates(),
        s2.no_duplicates(),
        forall|e: usize| s1.contains(e) <==> s2.contains(e),
    ensures
        s1 == s2,
    decreases s1.len(),
{
    if s1.len() == 0 {
        if s2.len() > 0 {
            assert(s2.contains(s2[0]));
        }
        assert(s1 =~= s2);
    } else {
        if s2.len() == 0 {
            assert(s1.contains(s1[0]));
        }
        let h1 = s1[0];
        let h2 = s2[0];
        assert(s1.contains(h2)) by {
            assert(s2.contains(h2));
        }
        assert(s2.contains(h1)) by {
            assert(s1.contains(h1));
        }
        if h1 != h2 {
            let a = choose|a: int| 0 <= a < s1.len() && s1[a] == h2;
            let b = choose|b: int| 0 <= b < s2.len() && s2[b] == h1;
            assert(a > 0 && b > 0);
            assert(row_before(items, key, now, h1 as int, h2 as int));
            assert(row_before(items, key, now, h2 as int, h1 as int));
            lemma_row_order(items, key, now, h1 as int, h2 as int, h1 as int);
        }
        let t1 = s1.drop_first();
        let t2 = s2.drop_first();
        assert forall|e: usize| t1.contains(e) <==> t2.contains(e) by {
            if t1.contains(e) {
                let a = choose|a: int| 0 <= a < t1.len() && t1[a] == e;
                assert(s1[a + 1] == e);
                assert(e != h1);
                assert(s2.contains(e));
                let b = choose|b: int| 0 <= b < s2.len() && s2[b] == e;
                assert(b != 0);
                assert(t2[b - 1] == e);
            }
            if t2.contains(e) {
                let b = choose|b: int| 0 <= b < t2.len() && t2[b] == e;
                assert(s2[b + 1] == e);
                assert(e != h2);
                assert(s1.contains(e));
                let a = choose|a: int| 0 <= a < s1.len() && s1[a] == e;
                assert(a != 0);
                assert(t1[a - 1] == e);
            }
        }
        assert(ascending_rows(items, key, now, t1)) by {
            assert forall|a: int, b: int| 0 <= a < b < t1.len() implies row_before(items, key, now, #[trigger] t1[a] as int, #[trigger] t1[b] as int) by {
                assert(t1[a] == s1[a + 1] && t1[b] == s1[b + 1]);
            }
        }
        assert(ascending_rows(items, key, now, t2)) by {
            assert forall|a: int, b: int| 0 <= a < b < t2.len() implies row_before(items, key, now, #[trigger] t2[a] as int, #[trigger] t2[b] as int) by {
                assert(t2[a] == s2[a + 1] && t2[b] == s2[b + 1]);
            }
        }
        lemma_ascending_unique(items, key, now, t1, t2);
        assert(s1 =~= seq![h1] + t1);
        assert(s2 =~= seq![h2] + t2);
    }
}

/// When every matching row fits on the table, sorting the other way round
/// shows the same rows in exactly the reverse order.
pub proof fn lemma_descending_reverses_ascending(
    items: Seq<ProcessItem>,
    query: Seq<char>,
    key: SortKey,
    now: u64,
    up: Seq<usize>,
    down: Seq<usize>,
)
    requires
        is_table(items, query, key, true, now, up),
        is_table(items, query, key, false, now, down),
        up.len() < MAX_DISPLAY,
        down.len() < MAX_DISPLAY,
    ensures
        down == up.reverse(),
{
    let q = normalized_query(query);
    let r = down.reverse();
    assert forall|a: int, b: int| 0 <= a < b < r.len() implies row_before(items, key, now, #[trigger] r[a] as int, #[trigger] r[b] as int) by {
        let da = down.len() - 1 - a;
        let db = down.len() - 1 - b;
        assert(r[a] == down[da] && r[b] == down[db]);
        assert(shown_above(items, key, false, now, down[db] as int, down[da] as int));
    }
    assert forall|e: usize| r.contains(e) <==> down.contains(e) by {
        if r.contains(e) {
            let a = choose|a: int| 0 <= a < r.len() && r[a] == e;
            assert(down[down.len() - 1 - a] == e);
        }
        if down.contains(e) {
            let a = choose|a: int| 0 <= a < down.len() && down[a] == e;
            assert(r[down.len() - 1 - a] == e);
        }
    }
    assert forall|a: int, b: int| 0 <= a < r.len() && 0 <= b < r.len() && a != b implies r[a] != r[b] by {
        assert(r[a] == down[down.len() - 1 - a] && r[b] == down[down.len() - 1 - b]);
    }
    assert forall|e: usize| up.contains(e) <==> r.contains(e) by {
        if up.contains(e) {
            let a = choose|a: int| 0 <= a < up.len() && up[a] == e;
            assert(e < items.len() && row_matches(items[e as int], q));
            if !down.contains(e) {
                assert(down.len() == MAX_DISPLAY);
            }
        }
        if down.contains(e) {
            let a = choose|a: int| 0 <= a < down.len() && down[a] == e;
            assert(e < items.len() && row_matches(items[e as int], q));
            if !up.contains(e) {
                assert(up.len() == MAX_DISPLAY);
            }
        }
    }
    lemma_ascending_unique(items, key, now, up, r);
    assert(r.reverse() =~= down);
}

/// The disk traffic of a row: its read and write rates together.
pub open spec fn disk_traffic(p: ProcessItem) -> int {
    p.disk_read_bytes_sec + p.disk_write_bytes_sec
}

/// Each column orders the rows it shows by the row's own fields: under PID
/// by the pid, under name by the ASCII-lowered name (as texts compare), under
/// CPU by the CPU order key, under memory by the memory, under disk by the
/// read and write rates together, and under age by the age at `now`; a row
/// shown above another has no larger such value when ascending and no
/// smaller one when descending.
pub proof fn lemma_columns_order(
    items: Seq<ProcessItem>,
    query: Seq<char>,
    key: SortKey,
    ascending: bool,
    now: u64,
    shown: Seq<usize>,
    a: int,
    b: int,
)
    requires
        is_table(items, query, key, ascending, now, shown),
        0 <= a < b < shown.len(),
    ensures
        ({
            let p = items[shown[a] as int];
            let r = items[shown[b] as int];
            &&& key == SortKey::Pid ==> if ascending { p.pid <= r.pid } else { p.pid >= r.pid }
            &&& key == SortKey::Name ==> if ascending {
                !text_lt(ascii_lower(r.name@), ascii_lower(p.name@))
            } else {
                !text_lt(ascii_lower(p.name@), ascii_lower(r.name@))
            }
            &&& key == SortKey::Cpu ==> if ascending { p.cpu_order <= r.cpu_order } else { p.cpu_order >= r.cpu_order }
            &&& key == SortKey::Memory ==> if ascending { p.memory_bytes <= r.memory_bytes } else { p.memory_bytes >= r.memory_bytes }
            &&& key == SortKey::Disk ==> if ascending { disk_traffic(p) <= disk_traffic(r) } else { disk_traffic(p) >= disk_traffic(r) }
            &&& key == SortKey::Age ==> if ascending {
                age_at(p.start_time, now) <= age_at(r.start_time, now)
            } else {
                age_at(p.start_time, now) >= age_at(r.start_time, now)
            }
        }),
{
    assert(shown_above(items, key, ascending, now, shown[a] as int, shown[b] as int));
    lemma_text_trichotomy(ascii_lower(items[shown[a] as int].name@), ascii_lower(items[shown[b] as int].name@));
}

/// Every row the table shows matches the search: the search text is blank
/// once trimmed, or its lowered form occurs in the row's ASCII-lowered name or
/// in its pid written in decimal. And a matching row is left out only when
/// the table is full.
pub proof fn lemma_shown_rows_match(
    items: Seq<ProcessItem>,
    query: Seq<char>,
    key: SortKey,
    ascending: bool,
    now: u64,
    shown: Seq<usize>,
)
    requires
        is_table(items, query, key, ascending, now, shown),
    ensures
        forall|a: int| 0 <= a < shown.len() ==> {
            let p = items[#[trigger] shown[a] as int];
            let q = lowercase(trimmed(query));
            q.len() == 0 || has_infix(ascii_lower(p.name@), q) || has_infix(decimal(p.pid as nat), q)
        },
        forall|i: int| 0 <= i < items.len() && !shown.contains(i as usize) && {
            let q = lowercase(trimmed(query));
            q.len() == 0 || has_infix(ascii_lower((#[trigger] items[i]).name@), q) || has_infix(decimal(items[i].pid as nat), q)
        } ==> shown.len() == MAX_DISPLAY,
{
}

} // verus!
