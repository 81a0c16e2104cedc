//! The `.gitperms` format, the order of its entries, and the comparison of
//! stored and actual permissions.
use vstd::prelude::*;

use crate::path::{compare_keys, compare_paths, path_key, path_key_of, path_less, path_same, Order};
use crate::error::Error;
use crate::text::{chars_of, copy_range, has_utf8_len, lines_of, string_from_chars, string_views, text_lines, utf8_len, views};
use crate::path::{lemma_key_less_asymmetric, lemma_key_less_irreflexive, lemma_key_less_total, lemma_key_less_transitive};

verus! {

/// A single permissions entry.
#[derive(Debug, Clone)]
pub struct PermsEntry {
    pub path: String,
    pub mode: u32,
}

/// A difference between stored and actual permissions.
#[derive(Debug, Clone)]
pub enum DiffEntry {
    Modified { path: String, stored: u32, actual: u32 },
    Added { path: String, mode: u32 },
    Removed { path: String, mode: u32 },
}

/// A difference as a value.
pub enum DiffView {
    Modified(Seq<char>, u32, u32),
    Added(Seq<char>, u32),
    Removed(Seq<char>, u32),
}

impl View for DiffEntry {
    type V = DiffView;

    open spec fn view(&self) -> DiffView {
        match self {
            DiffEntry::Modified { path, stored, actual } => DiffView::Modified(path@, *stored, *actual),
            DiffEntry::Added { path, mode } => DiffView::Added(path@, *mode),
            DiffEntry::Removed { path, mode } => DiffView::Removed(path@, *mode),
        }
    }
}

/// The views of a sequence of differences.
pub open spec fn diff_views(s: Seq<DiffEntry>) -> Seq<DiffView> {
    s.map_values(|d: DiffEntry| d@)
}

/// Whether the paths `a` and `b` are the same path.
fn same_path(a: &String, b: &String) -> (r: bool)
    ensures
        r == path_same(a@, b@),
{
    match compare_paths(a.as_str(), b.as_str()) {
        Order::Equal => true,
        _ => false,
    }
}

/// Entries are equal when their paths are the same path (as `Path` compares
/// them) and their modes are equal.
impl PartialEq for PermsEntry {
    fn eq(&self, other: &PermsEntry) -> (r: bool) {
        same_path(&self.path, &other.path) && self.mode == other.mode
    }
}

impl vstd::std_specs::cmp::PartialEqSpecImpl for PermsEntry {
    open spec fn obeys_eq_spec() -> bool {
        true
    }

    open spec fn eq_spec(&self, other: &PermsEntry) -> bool {
        path_same(self.path@, other.path@) && self.mode == other.mode
    }
}

impl Eq for PermsEntry {}

/// The order of two entries: by path (as `Path` orders them), then by mode.
pub open spec fn entry_order(a: EntryView, b: EntryView) -> std::cmp::Ordering {
    if entry_less(a, b) {
        std::cmp::Ordering::Less
    } else if entry_less(b, a) {
        std::cmp::Ordering::Greater
    } else {
        std::cmp::Ordering::Equal
    }
}

/// Entries are ordered by path (as `Path` orders them), then by mode.
impl PartialOrd for PermsEntry {
    fn partial_cmp(&self, other: &PermsEntry) -> (r: Option<std::cmp::Ordering>) {
        let order = compare_paths(self.path.as_str(), other.path.as_str());
        proof {
            lemma_key_less_irreflexive(path_key(self.path@));
            lemma_key_less_asymmetric(path_key(self.path@), path_key(other.path@));
        }
        match order {
            Order::Less => Some(std::cmp::Ordering::Less),
            Order::Greater => Some(std::cmp::Ordering::Greater),
            Order::Equal => {
                if self.mode < other.mode {
                    Some(std::cmp::Ordering::Less)
                } else if other.mode < self.mode {
                    Some(std::cmp::Ordering::Greater)
                } else {
                    Some(std::cmp::Ordering::Equal)
                }
            },
        }
    }
}

impl vstd::std_specs::cmp::PartialOrdSpecImpl for PermsEntry {
    open spec fn obeys_partial_cmp_spec() -> bool {
        true
    }

    open spec fn partial_cmp_spec(&self, other: &PermsEntry) -> Option<std::cmp::Ordering> {
        Some(entry_order(self@, other@))
    }
}

/// Differences are equal when they are of the same kind, name the same path
/// (as `Path` compares them) and carry equal modes.
impl PartialEq for DiffEntry {
    fn eq(&self, other: &DiffEntry) -> (r: bool) {
        match (self, other) {
            (
                DiffEntry::Modified { path: p, stored: s, actual: a },
                DiffEntry::Modified { path: q, stored: t, actual: b },
            ) => same_path(p, q) && *s == *t && *a == *b,
            (DiffEntry::Added { path: p, mode: m }, DiffEntry::Added { path: q, mode: n }) => same_path(p, q)
                && *m == *n,
            (DiffEntry::Removed { path: p, mode: m }, DiffEntry::Removed { path: q, mode: n }) => same_path(
                p,
                q,
            ) && *m == *n,
            _ => false,
        }
    }
}

impl vstd::std_specs::cmp::PartialEqSpecImpl for DiffEntry {
    open spec fn obeys_eq_spec() -> bool {
        true
    }

    open spec fn eq_spec(&self, other: &DiffEntry) -> bool {
        match (self, other) {
            (
                DiffEntry::Modified { path: p, stored: s, actual: a },
                DiffEntry::Modified { path: q, stored: t, actual: b },
            ) => path_same(p@, q@) && s == t && a == b,
            (DiffEntry::Added { path: p, mode: m }, DiffEntry::Added { path: q, mode: n }) => path_same(p@, q@)
                && m == n,
            (DiffEntry::Removed { path: p, mode: m }, DiffEntry::Removed { path: q, mode: n }) => path_same(
                p@,
                q@,
            ) && m == n,
            _ => false,
        }
    }
}

impl Eq for DiffEntry {}

/// Result of applying permissions.
#[derive(Debug)]
pub struct ApplyResult {
    pub applied: usize,
    pub skipped: Vec<String>,
}

impl Default for ApplyResult {
    fn default() -> (r: ApplyResult)
        ensures
            r.applied == 0,
            r.skipped@.len() == 0,
    {
        ApplyResult { applied: 0, skipped: Vec::new() }
    }
}

/// An entry as a value: its path's characters and its mode.
pub type EntryView = (Seq<char>, u32);

impl View for PermsEntry {
    type V = EntryView;

    open spec fn view(&self) -> EntryView {
        (self.path@, self.mode)
    }
}

/// The views of a sequence of entries.
pub open spec fn entry_views(s: Seq<PermsEntry>) -> Seq<EntryView> {
    s.map_values(|e: PermsEntry| e@)
}

/// `a` comes strictly before `b`: by path, then by mode.
pub open spec fn entry_less(a: EntryView, b: EntryView) -> bool {
    path_less(a.0, b.0) || (path_same(a.0, b.0) && a.1 < b.1)
}

/// `s` is in order: no entry comes strictly before an earlier one.
pub open spec fn is_sorted(s: Seq<EntryView>) -> bool {
    forall|i: int, j: int| 0 <= i < j < s.len() ==> !entry_less(#[trigger] s[j], #[trigger] s[i])
}

/// `s` with `x` put after the last entry that does not come after it.
pub open spec fn insert_sorted(s: Seq<EntryView>, x: EntryView) -> Seq<EntryView>
    decreases s.len(),
{
    if s.len() == 0 || !entry_less(x, s.last()) {
        s.push(x)
    } else {
        insert_sorted(s.drop_last(), x).push(s.last())
    }
}

/// The stable sort of `s` by path, then mode: equal entries keep their
/// relative order.
pub open spec fn sort_entries(s: Seq<EntryView>) -> Seq<EntryView>
    decreases s.len(),
{
    if s.len() == 0 {
        s
    } else {
        insert_sorted(sort_entries(s.drop_last()), s.last())
    }
}

/// The order of entries (by path, then mode; the order of `partial_cmp`)
/// is strict: no entry comes before itself.
pub proof fn law_entry_less_irreflexive(a: EntryView)
    ensures
        !entry_less(a, a),
{
    lemma_key_less_irreflexive(path_key(a.0));
}

/// The order of entries is total: of two entries one comes before the
/// other, unless they have the same path and the same mode.
pub proof fn law_entry_less_total(a: EntryView, b: EntryView)
    ensures
        entry_less(a, b) || entry_less(b, a) || (path_same(a.0, b.0) && a.1 == b.1),
{
    lemma_key_less_total(path_key(a.0), path_key(b.0));
}

/// The order of entries is transitive.
pub proof fn law_entry_less_transitive(a: EntryView, b: EntryView, c: EntryView)
    requires
        entry_less(a, b),
        entry_less(b, c),
    ensures
        entry_less(a, c),
{
    let (ka, kb, kc) = (path_key(a.0), path_key(b.0), path_key(c.0));
    if path_less(a.0, b.0) && path_less(b.0, c.0) {
        lemma_key_less_transitive(ka, kb, kc);
    }
}

/// Not coming after is transitive.
pub proof fn lemma_entry_le_transitive(a: EntryView, b: EntryView, c: EntryView)
    requires
        !entry_less(b, a),
        !entry_less(c, b),
    ensures
        !entry_less(c, a),
{
    let (ka, kb, kc) = (path_key(a.0), path_key(b.0), path_key(c.0));
    lemma_key_less_total(ka, kb);
    lemma_key_less_total(kb, kc);
    lemma_key_less_total(ka, kc);
    lemma_key_less_asymmetric(ka, kc);
    lemma_key_less_irreflexive(ka);
    if path_less(c.0, a.0) {
        if path_less(a.0, b.0) {
            lemma_key_less_transitive(kc, ka, kb);
        } else if path_less(b.0, c.0) {
            lemma_key_less_transitive(kb, kc, ka);
        }
    }
}

pub proof fn lemma_insert_sorted_len(s: Seq<EntryView>, x: EntryView)
    ensures
        insert_sorted(s, x).len() == s.len() + 1,
    decreases s.len(),
{
    if s.len() > 0 && entry_less(x, s.last()) {
        lemma_insert_sorted_len(s.drop_last(), x);
    }
}

/// Every entry of `insert_sorted(s, x)` is one of `s` or `x`, so a bound on
/// all of those bounds all of it.
proof fn lemma_insert_sorted_bound(s: Seq<EntryView>, x: EntryView, b: EntryView)
    requires
        forall|i: int| 0 <= i < s.len() ==> !entry_less(b, #[trigger] s[i]),
        !entry_less(b, x),
    ensures
        forall|k: int|
            0 <= k < insert_sorted(s, x).len() ==> !entry_less(b, #[trigger] insert_sorted(s, x)[k]),
    decreases s.len(),
{
    lemma_insert_sorted_len(s, x);
    if s.len() > 0 && entry_less(x, s.last()) {
        let t = s.drop_last();
        assert forall|i: int| 0 <= i < t.len() implies !entry_less(b, #[trigger] t[i]) by {
            assert(t[i] == s[i]);
        }
        lemma_insert_sorted_bound(t, x, b);
        let r = insert_sorted(t, x);
        assert forall|k: int| 0 <= k < insert_sorted(s, x).len() implies !entry_less(
            b,
            #[trigger] insert_sorted(s, x)[k],
        ) by {
            if k < r.len() {
                assert(insert_sorted(s, x)[k] == r[k]);
            } else {
                assert(insert_sorted(s, x)[k] == s[s.len() - 1]);
            }
        }
    } else {
        assert forall|k: int| 0 <= k < insert_sorted(s, x).len() implies !entry_less(
            b,
            #[trigger] insert_sorted(s, x)[k],
        ) by {
            if k < s.len() {
                assert(insert_sorted(s, x)[k] == s[k]);
            }
        }
    }
}

/// Inserting into a sorted sequence keeps it sorted.
pub proof fn lemma_insert_sorted_sorted(s: Seq<EntryView>, x: EntryView)
    requires
        is_sorted(s),
    ensures
        is_sorted(insert_sorted(s, x)),
    decreases s.len(),
{
    lemma_insert_sorted_len(s, x);
    let r = insert_sorted(s, x);
    if s.len() == 0 || !entry_less(x, s.last()) {
        assert forall|i: int, j: int| 0 <= i < j < r.len() implies !entry_less(
            #[trigger] r[j],
            #[trigger] r[i],
        ) by {
            if j == s.len() {
                assert(r[j] == x);
                assert(r[i] == s[i]);
                if i < s.len() - 1 {
                    assert(!entry_less(s[s.len() - 1], s[i]));
                    lemma_entry_le_transitive(s[i], s[s.len() - 1], x);
                }
            } else {
                assert(r[j] == s[j]);
                assert(r[i] == s[i]);
            }
        }
    } else {
        let t = s.drop_last();
        let last = s.last();
        assert(is_sorted(t)) by {
            assert forall|i: int, j: int| 0 <= i < j < t.len() implies !entry_less(
                #[trigger] t[j],
                #[trigger] t[i],
            ) by {
                assert(t[i] == s[i] && t[j] == s[j]);
            }
        }
        lemma_insert_sorted_sorted(t, x);
        let q = insert_sorted(t, x);
        assert forall|i: int| 0 <= i < t.len() implies !entry_less(last, #[trigger] t[i]) by {
            assert(t[i] == s[i]);
            assert(s[s.len() - 1] == last);
        }
        law_entry_less_total(x, last);
        lemma_key_less_asymmetric(path_key(x.0), path_key(last.0));
        lemma_insert_sorted_bound(t, x, last);
        assert forall|i: int, j: int| 0 <= i < j < r.len() implies !entry_less(
            #[trigger] r[j],
            #[trigger] r[i],
        ) by {
            if j == q.len() {
                assert(r[j] == last);
                assert(r[i] == q[i]);
            } else {
                assert(r[j] == q[j]);
                assert(r[i] == q[i]);
            }
        }
    }
}

/// Inserting adds exactly the one entry.
pub proof fn lemma_insert_sorted_multiset(s: Seq<EntryView>, x: EntryView)
    ensures
        insert_sorted(s, x).to_multiset() == s.to_multiset().insert(x),
    decreases s.len(),
{
    broadcast use vstd::seq_lib::group_to_multiset_ensures;

    if s.len() > 0 && entry_less(x, s.last()) {
        let t = s.drop_last();
        lemma_insert_sorted_multiset(t, x);
        assert(s =~= t.push(s.last()));
        assert(insert_sorted(s, x).to_multiset() =~= s.to_multiset().insert(x));
    }
}

/// The entries that `parse` and `scan` return are in order: sorting puts
/// entries in order by path, then mode.
pub proof fn law_sort_puts_entries_in_order(s: Seq<EntryView>)
    ensures
        is_sorted(sort_entries(s)),
    decreases s.len(),
{
    if s.len() > 0 {
        law_sort_puts_entries_in_order(s.drop_last());
        lemma_insert_sorted_sorted(sort_entries(s.drop_last()), s.last());
    }
}

/// Sorting keeps every entry, as often as it occurs, and no other.
pub proof fn law_sort_keeps_every_entry(s: Seq<EntryView>)
    ensures
        sort_entries(s).to_multiset() == s.to_multiset(),
        sort_entries(s).len() == s.len(),
    decreases s.len(),
{
    broadcast use vstd::seq_lib::group_to_multiset_ensures;

    if s.len() > 0 {
        law_sort_keeps_every_entry(s.drop_last());
        lemma_insert_sorted_multiset(sort_entries(s.drop_last()), s.last());
        lemma_insert_sorted_len(sort_entries(s.drop_last()), s.last());
        assert(s =~= s.drop_last().push(s.last()));
    }
}

/// Entries already in order are left as they are by sorting.
pub proof fn law_sort_leaves_sorted_entries_alone(s: Seq<EntryView>)
    requires
        is_sorted(s),
    ensures
        sort_entries(s) == s,
    decreases s.len(),
{
    if s.len() > 0 {
        let t = s.drop_last();
        assert(is_sorted(t)) by {
            assert forall|i: int, j: int| 0 <= i < j < t.len() implies !entry_less(
                #[trigger] t[j],
                #[trigger] t[i],
            ) by {
                assert(t[i] == s[i] && t[j] == s[j]);
            }
        }
        law_sort_leaves_sorted_entries_alone(t);
        if t.len() > 0 {
            assert(!entry_less(s[s.len() - 1], s[s.len() - 2]));
        }
        assert(t.push(s.last()) =~= s);
    }
}

/// Whether the entry with path key `ka` and mode `ma` comes strictly before
/// the one with path key `kb` and mode `mb`.
fn keyed_less(ka: &Vec<u32>, ma: u32, kb: &Vec<u32>, mb: u32) -> (b: bool)
    ensures
        b == (crate::path::key_less(ka@, kb@) || (ka@ == kb@ && ma < mb)),
{
    match compare_keys(ka, kb) {
        Order::Less => true,
        Order::Equal => ma < mb,
        Order::Greater => {
            proof {
                lemma_key_less_asymmetric(ka@, kb@);
                lemma_key_less_irreflexive(ka@);
            }
            false
        },
    }
}

/// A copy of `e`.
pub fn copy_entry(e: &PermsEntry) -> (r: PermsEntry)
    ensures
        r@ == e@,
{
    PermsEntry { path: e.path.clone(), mode: e.mode }
}

proof fn lemma_insert_step(v: Seq<EntryView>, x: EntryView, j: int)
    requires
        0 < j <= v.len(),
        entry_less(x, v[j - 1]),
    ensures
        insert_sorted(v.take(j), x) + v.skip(j) == insert_sorted(v.take(j - 1), x) + v.skip(j - 1),
{
    assert(v.take(j).drop_last() =~= v.take(j - 1));
    assert(v.take(j).last() == v[j - 1]);
    assert(insert_sorted(v.take(j), x) == insert_sorted(v.take(j - 1), x).push(v[j - 1]));
    assert(v.skip(j - 1) =~= seq![v[j - 1]] + v.skip(j));
    assert(insert_sorted(v.take(j - 1), x).push(v[j - 1]) + v.skip(j) =~= insert_sorted(
        v.take(j - 1),
        x,
    ) + v.skip(j - 1));
}

/// Sorts `entries` by path, then mode; equal entries keep their order.
pub fn sort_by_path(entries: &Vec<PermsEntry>) -> (out: Vec<PermsEntry>)
    ensures
        entry_views(out@) == sort_entries(entry_views(entries@)),
{
    let ghost all = entry_views(entries@);
    let mut out: Vec<PermsEntry> = Vec::new();
    let mut keys: Vec<Vec<u32>> = Vec::new();
    let n = entries.len();
    let mut i: usize = 0;
    proof {
        assert(all.take(0) =~= Seq::<EntryView>::empty());
        assert(entry_views(out@) =~= Seq::<EntryView>::empty());
    }
    while i < n
        invariant
            n == entries.len(),
            all == entry_views(entries@),
            i <= n,
            out.len() == keys.len(),
            forall|k: int| 0 <= k < keys.len() ==> (#[trigger] keys@[k])@ == path_key(out@[k].path@),
            entry_views(out@) == sort_entries(all.take(i as int)),
        decreases n - i,
    {
        let x = copy_entry(&entries[i]);
        let kx = path_key_of(x.path.as_str());
        let ghost v = entry_views(out@);
        let ghost xv = x@;
        let mut j: usize = out.len();
        proof {
            assert(v.take(v.len() as int) =~= v);
            assert(v.skip(v.len() as int) =~= Seq::<EntryView>::empty());
            assert(insert_sorted(v, xv) =~= insert_sorted(v, xv) + Seq::<EntryView>::empty());
        }
        while j > 0 && keyed_less(&kx, x.mode, &keys[j - 1], out[j - 1].mode)
            invariant
                j <= out.len(),
                out.len() == keys.len(),
                v == entry_views(out@),
                xv == x@,
                kx@ == path_key(x.path@),
                forall|k: int| 0 <= k < keys.len() ==> (#[trigger] keys@[k])@ == path_key(out@[k].path@),
                insert_sorted(v, xv) == insert_sorted(v.take(j as int), xv) + v.skip(j as int),
            decreases j,
        {
            proof {
                assert(keys@[j - 1]@ == path_key(out@[j - 1].path@));
                assert(v[j - 1] == out@[j - 1]@);
                lemma_insert_step(v, xv, j as int);
            }
            j = j - 1;
        }
        proof {
            if j > 0 {
                assert(keys@[j - 1]@ == path_key(out@[j - 1].path@));
                assert(v[j - 1] == out@[j - 1]@);
                assert(v.take(j as int).last() == v[j - 1]);
            }
            assert(insert_sorted(v.take(j as int), xv) == v.take(j as int).push(xv));
        }
        let ghost old_out = out@;
        let ghost old_keys = keys@;
        out.insert(j, x);
        keys.insert(j, kx);
        proof {
            assert(entry_views(out@) =~= v.take(j as int).push(xv) + v.skip(j as int));
            assert forall|k: int| 0 <= k < keys.len() implies (#[trigger] keys@[k])@ == path_key(
                out@[k].path@,
            ) by {
                if k < j {
                    assert(keys@[k] == old_keys[k] && out@[k] == old_out[k]);
                } else if k > j {
                    assert(keys@[k] == old_keys[k - 1] && out@[k] == old_out[k - 1]);
                }
            }
            assert(all.take(i + 1).drop_last() =~= all.take(i as int));
            assert(all.take(i + 1).last() == xv);
        }
        i = i + 1;
    }
    proof {
        assert(all.take(n as int) =~= all);
    }
    out
}

/// Why a line of `.gitperms` is refused.
pub enum LineError {
    /// There is no space between mode and path.
    NoSeparator,
    /// The mode (given) is not 4 bytes long.
    BadLength(Seq<char>),
    /// The mode (given) is not an octal number.
    BadOctal(Seq<char>),
    /// The path is empty.
    EmptyPath,
}

/// The index of the first `c` in `s`, or -1 when there is none.
pub open spec fn first_index(s: Seq<char>, c: char) -> int
    decreases s.len(),
{
    if s.len() == 0 {
        -1
    } else if s[0] == c {
        0
    } else {
        let r = first_index(s.drop_first(), c);
        if r < 0 {
            -1
        } else {
            r + 1
        }
    }
}

/// Whether `c` is one of `0` to `7`.
pub open spec fn is_octal_digit(c: char) -> bool {
    '0' <= c && c <= '7'
}

/// The value of a run of octal digits.
pub open spec fn octal_digits_value(d: Seq<char>) -> nat
    decreases d.len(),
{
    if d.len() == 0 {
        0
    } else {
        8 * octal_digits_value(d.drop_last()) + ((d.last() as u32) - ('0' as u32)) as nat
    }
}

/// Whether every character of `d` is an octal digit.
pub open spec fn all_octal_digits(d: Seq<char>) -> bool {
    forall|i: int| 0 <= i < d.len() ==> is_octal_digit(#[trigger] d[i])
}

/// `u32::from_str_radix(s, 8)` on a short `s`: an optional `+`, then one or
/// more octal digits.
pub open spec fn octal_value(s: Seq<char>) -> Option<nat> {
    let d = if s.len() > 0 && s[0] == '+' {
        s.drop_first()
    } else {
        s
    };
    if d.len() > 0 && all_octal_digits(d) {
        Some(octal_digits_value(d))
    } else {
        None
    }
}

/// The entry that a non-empty line of `.gitperms` gives, or why it gives none.
pub open spec fn parse_line(line: Seq<char>) -> Result<EntryView, LineError> {
    let k = first_index(line, ' ');
    if k < 0 {
        Err(LineError::NoSeparator)
    } else {
        let mode = line.take(k);
        let path = line.skip(k + 1);
        if utf8_len(mode) != 4 {
            Err(LineError::BadLength(mode))
        } else if octal_value(mode) is None {
            Err(LineError::BadOctal(mode))
        } else if path.len() == 0 {
            Err(LineError::EmptyPath)
        } else {
            Ok((path, octal_value(mode)->0 as u32))
        }
    }
}

/// The entries of the lines `lines`, in file order, or the number (from 1)
/// of the first line that is refused and why; empty lines are skipped.
pub open spec fn parse_lines(lines: Seq<Seq<char>>) -> Result<Seq<EntryView>, (nat, LineError)>
    decreases lines.len(),
{
    if lines.len() == 0 {
        Ok(Seq::empty())
    } else {
        match parse_lines(lines.drop_last()) {
            Err(e) => Err(e),
            Ok(es) => {
                let l = lines.last();
                if l.len() == 0 {
                    Ok(es)
                } else {
                    match parse_line(l) {
                        Ok(e) => Ok(es.push(e)),
                        Err(le) => Err((lines.len(), le)),
                    }
                }
            },
        }
    }
}

/// The reason given for a refused line.
pub open spec fn reason_text(e: LineError) -> Seq<char> {
    match e {
        LineError::NoSeparator => "expected '<mode> <path>'"@,
        LineError::BadLength(m) => "mode must be exactly 4 octal digits, got '"@ + m + "'"@,
        LineError::BadOctal(m) => "invalid octal mode '"@ + m + "'"@,
        LineError::EmptyPath => "path is empty"@,
    }
}

/// What `parse` returns on `content`.
pub open spec fn is_parse_of(content: Seq<char>, r: Result<Vec<PermsEntry>, Error>) -> bool {
    match parse_lines(text_lines(content)) {
        Ok(es) => r matches Ok(v) && entry_views(v@) == sort_entries(es),
        Err((n, le)) => r matches Err(Error::ParseError { line, reason }) && line == n
            && reason@ == reason_text(le),
    }
}

/// The index of the first `c` in `s`, if any.
fn find_char(s: &[char], c: char) -> (r: Option<usize>)
    ensures
        match r {
            Some(k) => k < s.len() && first_index(s@, c) == k,
            None => first_index(s@, c) == -1,
        },
{
    let mut i: usize = 0;
    while i < s.len()
        invariant
            i <= s.len(),
            forall|j: int| 0 <= j < i ==> s@[j] != c,
        decreases s.len() - i,
    {
        if s[i] == c {
            proof {
                lemma_first_index(s@, c, i as int);
            }
            return Some(i);
        }
        i = i + 1;
    }
    proof {
        lemma_first_index(s@, c, s.len() as int);
    }
    None
}

pub proof fn lemma_first_index(s: Seq<char>, c: char, k: int)
    requires
        0 <= k <= s.len(),
        forall|j: int| 0 <= j < k ==> s[j] != c,
        k < s.len() ==> s[k] == c,
    ensures
        first_index(s, c) == if k < s.len() {
            k
        } else {
            -1
        },
    decreases s.len(),
{
    if s.len() > 0 && k > 0 {
        assert forall|j: int| 0 <= j < k - 1 implies s.drop_first()[j] != c by {
            assert(s.drop_first()[j] == s[j + 1]);
        }
        lemma_first_index(s.drop_first(), c, k - 1);
    }
}

proof fn lemma_pow8_small(n: nat)
    requires
        n <= 4,
    ensures
        pow8(n) <= 4096,
{
    reveal_with_fuel(pow8, 5);
}

pub open spec fn pow8(n: nat) -> nat
    decreases n,
{
    if n == 0 {
        1
    } else {
        8 * pow8((n - 1) as nat)
    }
}

/// `u32::from_str_radix(s, 8)` for an `s` of at most four characters.
fn octal_of(s: &[char]) -> (r: Option<u32>)
    requires
        s.len() <= 4,
    ensures
        match octal_value(s@) {
            Some(v) => r == Some(v as u32) && v < 4096,
            None => r is None,
        },
{
    let start: usize = if s.len() > 0 && s[0] == '+' {
        1
    } else {
        0
    };
    let ghost d = s@.skip(start as int);
    assert(d =~= if s@.len() > 0 && s@[0] == '+' {
        s@.drop_first()
    } else {
        s@
    });
    if start == s.len() {
        return None;
    }
    let mut value: u32 = 0;
    let mut i: usize = start;
    while i < s.len()
        invariant
            start <= i <= s.len() <= 4,
            d == s@.skip(start as int),
            d == if s@.len() > 0 && s@[0] == '+' {
                s@.drop_first()
            } else {
                s@
            },
            forall|j: int| 0 <= j < i - start ==> is_octal_digit(#[trigger] d[j]),
            value as nat == octal_digits_value(d.take(i - start)),
            value < pow8((i - start) as nat),
        decreases s.len() - i,
    {
        let c = s[i];
        if !('0' <= c && c <= '7') {
            proof {
                assert(d[i - start] == c);
                assert(!is_octal_digit(d[i - start]));
                assert(d.len() > 0);
                let j = (i - start) as int;
                assert(0 <= j < d.len() && !is_octal_digit(d[j]));
                assert(!all_octal_digits(d));
                assert(octal_value(s@) is None);
            }
            return None;
        }
        proof {
            assert(d.take(i + 1 - start).drop_last() =~= d.take(i - start));
            assert(d.take(i + 1 - start).last() == c);
            assert(pow8((i + 1 - start) as nat) == 8 * pow8((i - start) as nat));
            lemma_pow8_small((i + 1 - start) as nat);
        }
        value = value * 8 + (c as u32 - '0' as u32);
        i = i + 1;
        proof {
            assert forall|j: int| 0 <= j < i - start implies is_octal_digit(#[trigger] d[j]) by {
                if j == i - 1 - start {
                    assert(d[j] == c);
                }
            }
        }
    }
    proof {
        assert(d.take(i - start) =~= d);
        assert(all_octal_digits(d));
        lemma_pow8_small((i - start) as nat);
    }
    Some(value)
}

/// Reads one non-empty line of `.gitperms`, giving the entry or the reason
/// the line is refused.
fn parse_one_line(line: &[char]) -> (r: Result<PermsEntry, String>)
    ensures
        match parse_line(line@) {
            Ok(e) => r matches Ok(x) && x@ == e,
            Err(le) => r matches Err(reason) && reason@ == reason_text(le),
        },
{
    let k = match find_char(line, ' ') {
        Some(k) => k,
        None => {
            return Err("expected '<mode> <path>'".to_owned());
        },
    };
    let mode = copy_range(line, 0, k);
    let path = copy_range(line, k + 1, line.len());
    proof {
        assert(mode@ =~= line@.take(k as int));
        assert(path@ =~= line@.skip(k + 1));
    }
    if !has_utf8_len(mode.as_slice(), 4) {
        let mut reason = "mode must be exactly 4 octal digits, got '".to_owned();
        let m = string_from_chars(mode.as_slice());
        reason.append(m.as_str());
        reason.append("'");
        return Err(reason);
    }
    proof {
        lemma_utf8_len_at_least_chars(mode@);
    }
    let value = match octal_of(mode.as_slice()) {
        Some(v) => v,
        None => {
            let mut reason = "invalid octal mode '".to_owned();
            let m = string_from_chars(mode.as_slice());
            reason.append(m.as_str());
            reason.append("'");
            return Err(reason);
        },
    };
    if path.len() == 0 {
        return Err("path is empty".to_owned());
    }
    Ok(PermsEntry { path: string_from_chars(path.as_slice()), mode: value })
}

proof fn lemma_utf8_len_at_least_chars(s: Seq<char>)
    ensures
        utf8_len(s) >= s.len(),
    decreases s.len(),
{
    if s.len() > 0 {
        lemma_utf8_len_at_least_chars(s.drop_last());
    }
}

/// Parses `.gitperms` content into entries, sorted by path, then mode.
///
/// Each non-empty line is an octal mode of exactly four bytes, a space, and a
/// non-empty path. The first line that is not is reported with its number.
pub fn parse(content: &str) -> (r: Result<Vec<PermsEntry>, Error>)
    ensures
        is_parse_of(content@, r),
{
    let cs = chars_of(content);
    let lines = lines_of(cs.as_slice());
    let ghost ls = views(lines@);
    let mut entries: Vec<PermsEntry> = Vec::new();
    let mut i: usize = 0;
    proof {
        assert(ls.take(0) =~= Seq::<Seq<char>>::empty());
        assert(entry_views(entries@) =~= Seq::<EntryView>::empty());
    }
    while i < lines.len()
        invariant
            ls == views(lines@),
            ls == text_lines(content@),
            i <= lines.len(),
            parse_lines(ls.take(i as int)) == Ok::<Seq<EntryView>, (nat, LineError)>(entry_views(entries@)),
        decreases lines.len() - i,
    {
        proof {
            assert(ls.take(i + 1).drop_last() =~= ls.take(i as int));
            assert(ls.take(i + 1).last() == lines@[i as int]@);
        }
        if lines[i].len() > 0 {
            match parse_one_line(lines[i].as_slice()) {
                Ok(e) => {
                    let ghost prev = entry_views(entries@);
                    entries.push(e);
                    assert(entry_views(entries@) =~= prev.push(e@));
                },
                Err(reason) => {
                    proof {
                        assert(ls[i as int] == lines@[i as int]@);
                        assert(parse_line(ls[i as int]) is Err);
                        assert(parse_lines(ls.take(i as int)) is Ok);
                        assert(parse_lines(ls.take(i + 1)) == Err::<Seq<EntryView>, (nat, LineError)>(
                            ((i + 1) as nat, parse_line(ls[i as int])->Err_0),
                        ));
                        lemma_parse_lines_prefix_err(ls, (i + 1) as int);
                    }
                    let r = Err(Error::ParseError { line: i + 1, reason });
                    assert(text_lines(content@) == ls);
                    assert(parse_lines(ls) is Err);
                    assert(parse_lines(ls)->Err_0.0 == i + 1);
                    assert(reason@ == reason_text(parse_lines(ls)->Err_0.1));
                    assert(is_parse_of(content@, r));
                    return r;
                },
            }
        }
        i = i + 1;
    }
    proof {
        assert(ls.take(i as int) =~= ls);
    }
    Ok(sort_by_path(&entries))
}

/// Once a prefix of the lines is refused, the whole is refused the same way.
proof fn lemma_parse_lines_prefix_err(ls: Seq<Seq<char>>, k: int)
    requires
        0 <= k <= ls.len(),
        parse_lines(ls.take(k)) is Err,
    ensures
        parse_lines(ls) == parse_lines(ls.take(k)),
    decreases ls.len() - k,
{
    if k < ls.len() {
        assert(ls.take(k + 1).drop_last() =~= ls.take(k));
        lemma_parse_lines_prefix_err(ls, k + 1);
    } else {
        assert(ls.take(k) =~= ls);
    }
}

/// The character of the octal digit `d`.
pub open spec fn digit_char(d: nat) -> char {
    if d == 0 {
        '0'
    } else if d == 1 {
        '1'
    } else if d == 2 {
        '2'
    } else if d == 3 {
        '3'
    } else if d == 4 {
        '4'
    } else if d == 5 {
        '5'
    } else if d == 6 {
        '6'
    } else {
        '7'
    }
}

/// The octal digits of `n`, without leading zeros (`0` is one digit).
pub open spec fn octal_digits(n: nat) -> Seq<char>
    decreases n,
{
    if n < 8 {
        seq![digit_char(n)]
    } else {
        octal_digits(n / 8).push(digit_char(n % 8))
    }
}

/// `s` padded on the left with `0` to at least four characters.
pub open spec fn pad4(s: Seq<char>) -> Seq<char> {
    if s.len() >= 4 {
        s
    } else {
        Seq::new((4 - s.len()) as nat, |i: int| '0') + s
    }
}

/// A mode as `{:04o}` writes it.
pub open spec fn mode_text(m: u32) -> Seq<char> {
    pad4(octal_digits(m as nat))
}

/// The line of `.gitperms` that records `e`, with its line end.
pub open spec fn entry_line(e: EntryView) -> Seq<char> {
    mode_text(e.1) + seq![' '] + e.0 + seq!['\n']
}

/// The `.gitperms` text of the entries `es`, one line each, in order.
pub open spec fn serialized(es: Seq<EntryView>) -> Seq<char>
    decreases es.len(),
{
    if es.len() == 0 {
        Seq::empty()
    } else {
        serialized(es.drop_last()) + entry_line(es.last())
    }
}

fn digit_of(d: u32) -> (c: char)
    requires
        d < 8,
    ensures
        c == digit_char(d as nat),
{
    if d == 0 {
        '0'
    } else if d == 1 {
        '1'
    } else if d == 2 {
        '2'
    } else if d == 3 {
        '3'
    } else if d == 4 {
        '4'
    } else if d == 5 {
        '5'
    } else if d == 6 {
        '6'
    } else {
        '7'
    }
}

fn push_octal(out: &mut Vec<char>, n: u32)
    ensures
        final(out)@ == old(out)@ + octal_digits(n as nat),
    decreases n,
{
    if n >= 8 {
        push_octal(out, n / 8);
    }
    out.push(digit_of(n % 8));
    proof {
        if n >= 8 {
            assert(final(out)@ =~= old(out)@ + octal_digits(n as nat));
        } else {
            assert(final(out)@ =~= old(out)@ + octal_digits(n as nat));
        }
    }
}

proof fn lemma_octal_digits_len(n: nat)
    ensures
        n < 8 ==> octal_digits(n).len() == 1,
        8 <= n < 64 ==> octal_digits(n).len() == 2,
        64 <= n < 512 ==> octal_digits(n).len() == 3,
        512 <= n ==> octal_digits(n).len() >= 4,
    decreases n,
{
    if n >= 8 {
        lemma_octal_digits_len(n / 8);
    }
}

/// Appends the text of the mode `m` (`{:04o}`).
fn push_mode(out: &mut Vec<char>, m: u32)
    ensures
        final(out)@ == old(out)@ + mode_text(m),
{
    proof {
        lemma_octal_digits_len(m as nat);
    }
    let pad: usize = if m < 8 {
        3
    } else if m < 64 {
        2
    } else if m < 512 {
        1
    } else {
        0
    };
    let mut k: usize = 0;
    while k < pad
        invariant
            k <= pad <= 3,
            out@ == old(out)@ + Seq::new(k as nat, |i: int| '0'),
        decreases pad - k,
    {
        out.push('0');
        k = k + 1;
        assert(out@ =~= old(out)@ + Seq::new(k as nat, |i: int| '0'));
    }
    let ghost mid = out@;
    push_octal(out, m);
    proof {
        let ds = octal_digits(m as nat);
        if pad == 0 {
            assert(mode_text(m) == ds);
            assert(mid =~= old(out)@);
        } else {
            assert(Seq::new((4 - ds.len()) as nat, |i: int| '0') =~= Seq::new(pad as nat, |i: int| '0'));
        }
        assert(out@ =~= old(out)@ + mode_text(m));
    }
}

/// Writes entries in the `.gitperms` format: per entry, its mode in octal
/// (at least four digits), a space, its path and a line end.
///
/// Entries should be sorted by path (`parse` returns them so), so that the
/// text is the one `git perms save` writes.
pub fn serialize(entries: &[PermsEntry]) -> (out: String)
    ensures
        out@ == serialized(entry_views(entries@)),
{
    let ghost es = entry_views(entries@);
    let mut cs: Vec<char> = Vec::new();
    let mut i: usize = 0;
    while i < entries.len()
        invariant
            es == entry_views(entries@),
            i <= entries.len(),
            cs@ == serialized(es.take(i as int)),
        decreases entries.len() - i,
    {
        let ghost before = cs@;
        push_mode(&mut cs, entries[i].mode);
        cs.push(' ');
        let p = chars_of(entries[i].path.as_str());
        let mut k: usize = 0;
        let ghost mid = cs@;
        while k < p.len()
            invariant
                k <= p.len(),
                cs@ == mid + p@.take(k as int),
            decreases p.len() - k,
        {
            cs.push(p[k]);
            k = k + 1;
            assert(cs@ =~= mid + p@.take(k as int));
        }
        cs.push('\n');
        proof {
            assert(p@.take(k as int) =~= p@);
            assert(es.take(i + 1).drop_last() =~= es.take(i as int));
            assert(es.take(i + 1).last() == es[i as int]);
            assert(cs@ =~= before + entry_line(es[i as int]));
        }
        i = i + 1;
    }
    proof {
        assert(es.take(i as int) =~= es);
    }
    string_from_chars(cs.as_slice())
}

/// The differences between `s` (stored) and `a` (actual), found by walking
/// both in step: an entry of `s` whose path comes first is removed, one of
/// `a` whose path comes first is added, and entries with the same path are
/// modified when their modes differ.
pub open spec fn diff_spec(s: Seq<EntryView>, a: Seq<EntryView>) -> Seq<DiffView>
    decreases s.len() + a.len(),
{
    if s.len() == 0 && a.len() == 0 {
        Seq::empty()
    } else if a.len() == 0 || (s.len() > 0 && path_less(s[0].0, a[0].0)) {
        seq![DiffView::Removed(s[0].0, s[0].1)] + diff_spec(s.drop_first(), a)
    } else if s.len() == 0 || path_less(a[0].0, s[0].0) {
        seq![DiffView::Added(a[0].0, a[0].1)] + diff_spec(s, a.drop_first())
    } else if s[0].1 != a[0].1 {
        seq![DiffView::Modified(s[0].0, s[0].1, a[0].1)] + diff_spec(s.drop_first(), a.drop_first())
    } else {
        diff_spec(s.drop_first(), a.drop_first())
    }
}

/// Compares stored against actual permissions.
///
/// Both inputs should be sorted by path (`parse` and `scan` return them so);
/// the differences then come in path order.
pub fn diff(stored: &[PermsEntry], actual: &[PermsEntry]) -> (diffs: Vec<DiffEntry>)
    ensures
        diff_views(diffs@) == diff_spec(entry_views(stored@), entry_views(actual@)),
{
    let ghost sv = entry_views(stored@);
    let ghost av = entry_views(actual@);
    let mut diffs: Vec<DiffEntry> = Vec::new();
    let mut si: usize = 0;
    let mut ai: usize = 0;
    proof {
        assert(sv.skip(0) =~= sv);
        assert(av.skip(0) =~= av);
        assert(diff_views(diffs@) + diff_spec(sv, av) =~= diff_spec(sv, av));
    }
    while si < stored.len() || ai < actual.len()
        invariant
            sv == entry_views(stored@),
            av == entry_views(actual@),
            si <= stored.len(),
            ai <= actual.len(),
            diff_views(diffs@) + diff_spec(sv.skip(si as int), av.skip(ai as int)) == diff_spec(sv, av),
        decreases stored.len() + actual.len() - si - ai,
    {
        let ghost rs = sv.skip(si as int);
        let ghost ra = av.skip(ai as int);
        let ghost before = diff_views(diffs@);
        let order = if si == stored.len() {
            Order::Greater
        } else if ai == actual.len() {
            Order::Less
        } else {
            compare_paths(stored[si].path.as_str(), actual[ai].path.as_str())
        };
        proof {
            if si < stored.len() {
                assert(rs[0] == stored@[si as int]@);
                assert(rs.drop_first() =~= sv.skip(si + 1));
            }
            if ai < actual.len() {
                assert(ra[0] == actual@[ai as int]@);
                assert(ra.drop_first() =~= av.skip(ai + 1));
            }
        }
        match order {
            Order::Less => {
                let s = &stored[si];
                diffs.push(DiffEntry::Removed { path: s.path.clone(), mode: s.mode });
                si = si + 1;
                proof {
                    assert(diff_views(diffs@) =~= before.push(DiffView::Removed(rs[0].0, rs[0].1)));
                    assert(diff_spec(rs, ra) == seq![DiffView::Removed(rs[0].0, rs[0].1)] + diff_spec(
                        rs.drop_first(),
                        ra,
                    ));
                    assert(diff_views(diffs@) + diff_spec(sv.skip(si as int), av.skip(ai as int))
                        =~= before + diff_spec(rs, ra));
                }
            },
            Order::Greater => {
                let a = &actual[ai];
                diffs.push(DiffEntry::Added { path: a.path.clone(), mode: a.mode });
                ai = ai + 1;
                proof {
                    if si < stored.len() {
                        lemma_key_less_asymmetric(path_key(rs[0].0), path_key(ra[0].0));
                    }
                    assert(diffs@.last()@ == DiffView::Added(ra[0].0, ra[0].1));
                    assert(diff_views(diffs@) =~= before.push(DiffView::Added(ra[0].0, ra[0].1)));
                    assert(diff_spec(rs, ra) == seq![DiffView::Added(ra[0].0, ra[0].1)] + diff_spec(
                        rs,
                        ra.drop_first(),
                    ));
                    assert(diff_views(diffs@) + diff_spec(sv.skip(si as int), av.skip(ai as int))
                        =~= before + diff_spec(rs, ra));
                }
            },
            Order::Equal => {
                let s = &stored[si];
                let a = &actual[ai];
                proof {
                    lemma_key_less_irreflexive(path_key(rs[0].0));
                }
                if s.mode != a.mode {
                    diffs.push(DiffEntry::Modified { path: s.path.clone(), stored: s.mode, actual: a.mode });
                    proof {
                        assert(diff_views(diffs@) =~= before.push(
                            DiffView::Modified(rs[0].0, rs[0].1, ra[0].1),
                        ));
                    }
                }
                si = si + 1;
                ai = ai + 1;
                proof {
                    assert(diff_views(diffs@) + diff_spec(sv.skip(si as int), av.skip(ai as int))
                        =~= before + diff_spec(rs, ra));
                }
            },
        }
    }
    proof {
        assert(sv.skip(si as int) =~= Seq::<EntryView>::empty());
        assert(av.skip(ai as int) =~= Seq::<EntryView>::empty());
        assert(diff_views(diffs@) + Seq::<DiffView>::empty() =~= diff_views(diffs@));
    }
    diffs
}

/// The line that `git perms diff` prints for a difference: `M`, the stored
/// and the actual mode; `A` or `R` and the mode; then the path.
pub open spec fn diff_line_text(d: DiffView) -> Seq<char> {
    match d {
        DiffView::Modified(p, s, a) => seq!['M', ' '] + mode_text(s) + seq![' ', '-', '>', ' ']
            + mode_text(a) + seq![' '] + p,
        DiffView::Added(p, m) => seq!['A', ' '] + mode_text(m) + seq![' '] + p,
        DiffView::Removed(p, m) => seq!['R', ' '] + mode_text(m) + seq![' '] + p,
    }
}

fn push_chars_of(out: &mut Vec<char>, s: &str)
    ensures
        final(out)@ == old(out)@ + s@,
{
    let cs = chars_of(s);
    let mut k: usize = 0;
    while k < cs.len()
        invariant
            k <= cs.len(),
            out@ == old(out)@ + cs@.take(k as int),
        decreases cs.len() - k,
    {
        out.push(cs[k]);
        k = k + 1;
        assert(out@ =~= old(out)@ + cs@.take(k as int));
    }
    assert(cs@.take(k as int) =~= cs@);
}

/// The line that `git perms diff` prints for `d`.
pub fn diff_line(d: &DiffEntry) -> (line: String)
    ensures
        line@ == diff_line_text(d@),
{
    let mut cs: Vec<char> = Vec::new();
    match d {
        DiffEntry::Modified { path, stored, actual } => {
            cs.push('M');
            cs.push(' ');
            push_mode(&mut cs, *stored);
            cs.push(' ');
            cs.push('-');
            cs.push('>');
            cs.push(' ');
            push_mode(&mut cs, *actual);
            cs.push(' ');
            push_chars_of(&mut cs, path.as_str());
        },
        DiffEntry::Added { path, mode } => {
            cs.push('A');
            cs.push(' ');
            push_mode(&mut cs, *mode);
            cs.push(' ');
            push_chars_of(&mut cs, path.as_str());
        },
        DiffEntry::Removed { path, mode } => {
            cs.push('R');
            cs.push(' ');
            push_mode(&mut cs, *mode);
            cs.push(' ');
            push_chars_of(&mut cs, path.as_str());
        },
    }
    assert(cs@ =~= diff_line_text(d@));
    string_from_chars(cs.as_slice())
}

/// What `git perms diff` prints, and the status it exits with.
pub struct DiffReport {
    pub lines: Vec<String>,
    pub exit_code: i32,
}

/// The report of `git perms diff` on `diffs`: status 0 when there is no
/// difference, 1 otherwise; unless `quiet`, one line per difference, or a
/// line saying there is none.
pub fn diff_report(diffs: &[DiffEntry], quiet: bool) -> (r: DiffReport)
    ensures
        r.exit_code == if diffs.len() == 0 {
            0i32
        } else {
            1i32
        },
        string_views(r.lines@) == if quiet {
            Seq::<Seq<char>>::empty()
        } else if diffs.len() == 0 {
            seq!["no permission differences"@]
        } else {
            diff_views(diffs@).map_values(|d: DiffView| diff_line_text(d))
        },
{
    let mut lines: Vec<String> = Vec::new();
    let exit_code: i32 = if diffs.len() == 0 {
        0
    } else {
        1
    };
    if quiet {
        assert(string_views(lines@) =~= Seq::<Seq<char>>::empty());
        return DiffReport { lines, exit_code };
    }
    if diffs.len() == 0 {
        lines.push("no permission differences".to_owned());
        assert(string_views(lines@) =~= seq!["no permission differences"@]);
        return DiffReport { lines, exit_code };
    }
    let ghost dv = diff_views(diffs@);
    let mut i: usize = 0;
    while i < diffs.len()
        invariant
            dv == diff_views(diffs@),
            i <= diffs.len(),
            string_views(lines@) == dv.take(i as int).map_values(|d: DiffView| diff_line_text(d)),
        decreases diffs.len() - i,
    {
        let ghost prev = string_views(lines@);
        let line = diff_line(&diffs[i]);
        lines.push(line);
        proof {
            assert(string_views(lines@) =~= prev.push(diff_line_text(dv[i as int])));
            assert(dv.take(i + 1).map_values(|d: DiffView| diff_line_text(d)) =~= dv.take(
                i as int,
            ).map_values(|d: DiffView| diff_line_text(d)).push(diff_line_text(dv[i as int])));
        }
        i = i + 1;
    }
    assert(dv.take(i as int) =~= dv);
    DiffReport { lines, exit_code }
}

/// The entries that a scan records: for each tracked file that exists (its
/// raw mode is known), its path and the permission bits of its mode.
pub open spec fn scanned(files: Seq<(String, Option<u32>)>) -> Seq<EntryView>
    decreases files.len(),
{
    if files.len() == 0 {
        Seq::empty()
    } else {
        let rest = scanned(files.drop_last());
        match files.last().1 {
            Some(m) => rest.push((files.last().0@, m & 0o7777u32)),
            None => rest,
        }
    }
}

/// Records the permissions of the tracked files that exist on disk, sorted
/// by path, then mode.
///
/// Each file comes with the raw mode of its metadata (`symlink_metadata`),
/// or `None` where it could not be read: such a file is left out.
pub fn scan(files: &[(String, Option<u32>)]) -> (r: Result<Vec<PermsEntry>, Error>)
    ensures
        r matches Ok(v) && entry_views(v@) == sort_entries(scanned(files@)),
{
    let mut entries: Vec<PermsEntry> = Vec::new();
    let mut i: usize = 0;
    proof {
        assert(files@.take(0) =~= Seq::<(String, Option<u32>)>::empty());
        assert(entry_views(entries@) =~= Seq::<EntryView>::empty());
    }
    while i < files.len()
        invariant
            i <= files.len(),
            entry_views(entries@) == scanned(files@.take(i as int)),
        decreases files.len() - i,
    {
        proof {
            assert(files@.take(i + 1).drop_last() =~= files@.take(i as int));
            assert(files@.take(i + 1).last() == files@[i as int]);
        }
        match files[i].1 {
            Some(m) => {
                let ghost prev = entry_views(entries@);
                entries.push(PermsEntry { path: files[i].0.clone(), mode: m & 0o7777u32 });
                assert(entry_views(entries@) =~= prev.push((files@[i as int].0@, m & 0o7777u32)));
            },
            None => {},
        }
        i = i + 1;
    }
    assert(files@.take(i as int) =~= files@);
    Ok(sort_by_path(&entries))
}

/// The number of entries that exist on disk.
pub open spec fn count_present(exists: Seq<bool>) -> nat
    decreases exists.len(),
{
    if exists.len() == 0 {
        0
    } else {
        count_present(exists.drop_last()) + if exists.last() {
            1nat
        } else {
            0nat
        }
    }
}

/// The paths of the entries that do not exist on disk, in order.
pub open spec fn missing_paths(entries: Seq<EntryView>, exists: Seq<bool>) -> Seq<Seq<char>>
    decreases entries.len(),
{
    if entries.len() == 0 {
        Seq::empty()
    } else {
        let rest = missing_paths(entries.drop_last(), exists.drop_last());
        if exists.last() {
            rest
        } else {
            rest.push(entries.last().0)
        }
    }
}

/// The outcome of restoring `entries`, where `exists[i]` tells whether the
/// path of `entries[i]` exists on disk: an entry that exists gets its mode
/// set and is counted, one that does not is skipped and listed.
pub fn apply(entries: &[PermsEntry], exists: &[bool]) -> (r: ApplyResult)
    requires
        entries.len() == exists.len(),
    ensures
        r.applied == count_present(exists@),
        string_views(r.skipped@) == missing_paths(entry_views(entries@), exists@),
{
    let ghost es = entry_views(entries@);
    let mut result = ApplyResult::default();
    let mut i: usize = 0;
    proof {
        assert(exists@.take(0) =~= Seq::<bool>::empty());
        assert(es.take(0) =~= Seq::<EntryView>::empty());
        assert(string_views(result.skipped@) =~= Seq::<Seq<char>>::empty());
    }
    while i < entries.len()
        invariant
            entries.len() == exists.len(),
            es == entry_views(entries@),
            i <= entries.len(),
            result.applied == count_present(exists@.take(i as int)),
            result.applied <= i,
            string_views(result.skipped@) == missing_paths(es.take(i as int), exists@.take(i as int)),
        decreases entries.len() - i,
    {
        proof {
            assert(exists@.take(i + 1).drop_last() =~= exists@.take(i as int));
            assert(es.take(i + 1).drop_last() =~= es.take(i as int));
        }
        if exists[i] {
            result.applied = result.applied + 1;
        } else {
            let ghost prev = string_views(result.skipped@);
            result.skipped.push(entries[i].path.clone());
            assert(string_views(result.skipped@) =~= prev.push(es[i as int].0));
        }
        i = i + 1;
    }
    proof {
        assert(exists@.take(i as int) =~= exists@);
        assert(es.take(i as int) =~= es);
    }
    result
}

} // verus!
