//! What holds of the library as a whole: the format reads back what it
//! writes, the sort orders and keeps entries, and the comparison reports a
//! difference exactly where stored and actual permissions disagree.
use vstd::prelude::*;

use crate::perms::{
    all_octal_digits, diff_spec, digit_char, is_octal_digit, is_sorted, law_sort_leaves_sorted_entries_alone,
    mode_text, octal_digits, octal_digits_value, octal_value, parse_line, parse_lines, serialized,
    sort_entries, scanned, count_present, missing_paths, DiffView, EntryView,
};
use crate::git::{nonempty_lines, sort_paths};
use crate::perms::{diff_line_text, entry_less, insert_sorted, law_sort_puts_entries_in_order};
use crate::path::{lemma_key_less_irreflexive, path_key, path_less, path_same};
use crate::text::{split_on, strip_cr, text_lines, utf8_len};

verus! {

/// An entry that the `.gitperms` format can hold: a mode of at most four
/// octal digits, and a non-empty path with no line end in it and no carriage
/// return at its end.
pub open spec fn storable(e: EntryView) -> bool {
    &&& e.1 <= 0o7777
    &&& e.0.len() > 0
    &&& !e.0.contains('\n')
    &&& e.0.last() != '\r'
}

/// The line of `e` without its line end.
pub open spec fn line_body(e: EntryView) -> Seq<char> {
    mode_text(e.1) + seq![' '] + e.0
}

pub open spec fn line_bodies(es: Seq<EntryView>) -> Seq<Seq<char>> {
    es.map_values(|e: EntryView| line_body(e))
}

proof fn lemma_split_on_append_plain(s: Seq<char>, t: Seq<char>, sep: char)
    requires
        !t.contains(sep),
    ensures
        split_on(s + t, sep) == split_on(s, sep).update(
            split_on(s, sep).len() - 1,
            split_on(s, sep).last() + t,
        ),
    decreases t.len(),
{
    crate::text::lemma_split_nonempty(s, sep);
    if t.len() == 0 {
        assert(s + t =~= s);
        assert(split_on(s, sep).last() + t =~= split_on(s, sep).last());
        assert(split_on(s, sep).update(split_on(s, sep).len() - 1, split_on(s, sep).last())
            =~= split_on(s, sep));
    } else {
        let u = t.drop_last();
        assert(!u.contains(sep)) by {
            if u.contains(sep) {
                let k = choose|k: int| 0 <= k < u.len() && u[k] == sep;
                assert(t[k] == sep);
            }
        }
        lemma_split_on_append_plain(s, u, sep);
        assert((s + t).drop_last() =~= s + u);
        assert((s + t).last() == t.last());
        assert(t.last() != sep) by {
            assert(t[t.len() - 1] == t.last());
        }
        crate::text::lemma_split_nonempty(s + u, sep);
        let r = split_on(s, sep);
        let r2 = split_on(s + u, sep);
        assert(r2 == r.update(r.len() - 1, r.last() + u));
        assert(split_on(s + t, sep) == r2.update(r2.len() - 1, r2.last().push(t.last())));
        assert(r2.last() == r.last() + u);
        assert((r.last() + u).push(t.last()) =~= r.last() + t);
        assert(split_on(s + t, sep) =~= r.update(r.len() - 1, r.last() + t));
    }
}

/// The characters of the mode text of a mode of at most four octal digits.
proof fn lemma_mode_text_small(m: u32)
    requires
        m <= 0o7777,
    ensures
        mode_text(m) == seq![
            digit_char((m / 512) as nat),
            digit_char(((m / 64) % 8) as nat),
            digit_char(((m / 8) % 8) as nat),
            digit_char((m % 8) as nat),
        ],
{
    let n = m as nat;
    reveal_with_fuel(octal_digits, 4);
    if n < 8 {
        assert(mode_text(m) =~= seq!['0', '0', '0', digit_char(n)]);
    } else if n < 64 {
        assert(octal_digits(n) =~= seq![digit_char(n / 8), digit_char(n % 8)]);
        assert(mode_text(m) =~= seq!['0', '0', digit_char(n / 8), digit_char(n % 8)]);
    } else if n < 512 {
        assert(octal_digits(n / 8) =~= seq![digit_char(n / 64), digit_char((n / 8) % 8)]);
        assert(octal_digits(n) =~= seq![digit_char(n / 64), digit_char((n / 8) % 8), digit_char(n % 8)]);
        assert(mode_text(m) =~= seq!['0', digit_char(n / 64), digit_char((n / 8) % 8), digit_char(n % 8)]);
    } else {
        assert(octal_digits(n / 64) =~= seq![digit_char(n / 512), digit_char((n / 64) % 8)]);
        assert(octal_digits(n / 8) =~= seq![digit_char(n / 512), digit_char((n / 64) % 8), digit_char((n / 8) % 8)]);
        assert(octal_digits(n) =~= seq![digit_char(n / 512), digit_char((n / 64) % 8), digit_char((n / 8) % 8), digit_char(n % 8)]);
    }
}

proof fn lemma_digit_char(d: nat)
    requires
        d < 8,
    ensures
        is_octal_digit(digit_char(d)),
        (digit_char(d) as u32) - ('0' as u32) == d,
        (digit_char(d) as u32) < 0x80,
        digit_char(d) != ' ',
        digit_char(d) != '\n',
        digit_char(d) != '+',
{
}

proof fn lemma_mode_value(m: u32)
    requires
        m <= 0o7777,
    ensures
        octal_digits_value(mode_text(m)) == m,
        all_octal_digits(mode_text(m)),
        octal_value(mode_text(m)) == Some(m as nat),
        utf8_len(mode_text(m)) == 4,
        !mode_text(m).contains(' '),
        !mode_text(m).contains('\n'),
        mode_text(m).len() == 4,
{
    lemma_mode_text_small(m);
    let t = mode_text(m);
    let (a, b, c, d) = ((m / 512) as nat, ((m / 64) % 8) as nat, ((m / 8) % 8) as nat, (m % 8) as nat);
    lemma_digit_char(a);
    lemma_digit_char(b);
    lemma_digit_char(c);
    lemma_digit_char(d);
    reveal_with_fuel(octal_digits_value, 5);
    assert(t.drop_last() =~= seq![digit_char(a), digit_char(b), digit_char(c)]);
    assert(t.drop_last().drop_last() =~= seq![digit_char(a), digit_char(b)]);
    assert(t.drop_last().drop_last().drop_last() =~= seq![digit_char(a)]);
    assert(t.drop_last().drop_last().drop_last().drop_last() =~= Seq::<char>::empty());
    assert(octal_digits_value(t) == 8 * (8 * (8 * a + b) + c) + d);
    assert(8 * (8 * (8 * a + b) + c) + d == m);
    assert(all_octal_digits(t));
    reveal_with_fuel(utf8_len, 5);
    assert(utf8_len(t) == 4);
    assert(!t.contains(' ')) by {
        if t.contains(' ') {
            let k = choose|k: int| 0 <= k < t.len() && t[k] == ' ';
        }
    }
    assert(!t.contains('\n')) by {
        if t.contains('\n') {
            let k = choose|k: int| 0 <= k < t.len() && t[k] == '\n';
        }
    }
}

proof fn lemma_split_serialized(es: Seq<EntryView>)
    requires
        forall|i: int| 0 <= i < es.len() ==> storable(#[trigger] es[i]),
    ensures
        split_on(serialized(es), '\n') == line_bodies(es).push(Seq::<char>::empty()),
    decreases es.len(),
{
    if es.len() == 0 {
        assert(split_on(serialized(es), '\n') =~= line_bodies(es).push(Seq::<char>::empty()));
    } else {
        let init = es.drop_last();
        let e = es.last();
        assert(forall|i: int| 0 <= i < init.len() ==> storable(#[trigger] init[i])) by {
            assert forall|i: int| 0 <= i < init.len() implies storable(#[trigger] init[i]) by {
                assert(init[i] == es[i]);
            }
        }
        lemma_split_serialized(init);
        assert(storable(es[es.len() - 1]));
        lemma_mode_value(e.1);
        let body = line_body(e);
        assert(!body.contains('\n')) by {
            if body.contains('\n') {
                let k = choose|k: int| 0 <= k < body.len() && body[k] == '\n';
                if k < 4 {
                    assert(mode_text(e.1)[k] == '\n');
                } else if k > 4 {
                    assert(e.0[k - 5] == '\n');
                }
            }
        }
        let pre = serialized(init);
        assert(serialized(es) =~= (pre + body).push('\n'));
        lemma_split_on_append_plain(pre, body, '\n');
        let r = split_on(pre, '\n');
        assert(r.last() + body =~= body);
        assert(split_on(serialized(es), '\n') == split_on(pre + body, '\n').push(Seq::<char>::empty())) by {
            assert((pre + body).push('\n').drop_last() =~= pre + body);
        }
        assert(line_bodies(es) =~= line_bodies(init).push(body));
        assert(split_on(serialized(es), '\n') =~= line_bodies(es).push(Seq::<char>::empty()));
    }
}

proof fn lemma_text_lines_serialized(es: Seq<EntryView>)
    requires
        forall|i: int| 0 <= i < es.len() ==> storable(#[trigger] es[i]),
    ensures
        text_lines(serialized(es)) == line_bodies(es),
{
    lemma_split_serialized(es);
    let pieces = split_on(serialized(es), '\n');
    assert(pieces.drop_last() =~= line_bodies(es));
    assert forall|i: int| 0 <= i < es.len() implies strip_cr(#[trigger] line_bodies(es)[i]) == line_bodies(es)[i] by {
        assert(storable(es[i]));
        let b = line_body(es[i]);
        assert(b.last() == es[i].0.last());
    }
    assert(pieces.drop_last().map_values(|p: Seq<char>| strip_cr(p)) =~= line_bodies(es));
}

proof fn lemma_parse_line_body(e: EntryView)
    requires
        storable(e),
    ensures
        parse_line(line_body(e)) == Ok::<EntryView, crate::perms::LineError>(e),
{
    lemma_mode_value(e.1);
    let body = line_body(e);
    let t = mode_text(e.1);
    assert forall|j: int| 0 <= j < 4 implies body[j] != ' ' by {
        assert(body[j] == t[j]);
        if t[j] == ' ' {
            assert(t.contains(' '));
        }
    }
    crate::perms::lemma_first_index(body, ' ', 4);
    assert(body.take(4) =~= t);
    assert(body.skip(5) =~= e.0);
}

proof fn lemma_parse_lines_bodies(es: Seq<EntryView>)
    requires
        forall|i: int| 0 <= i < es.len() ==> storable(#[trigger] es[i]),
    ensures
        parse_lines(line_bodies(es)) == Ok::<Seq<EntryView>, (nat, crate::perms::LineError)>(es),
    decreases es.len(),
{
    if es.len() == 0 {
        assert(line_bodies(es) =~= Seq::<Seq<char>>::empty());
        assert(es =~= Seq::<EntryView>::empty());
    } else {
        let init = es.drop_last();
        assert forall|i: int| 0 <= i < init.len() implies storable(#[trigger] init[i]) by {
            assert(init[i] == es[i]);
        }
        lemma_parse_lines_bodies(init);
        assert(line_bodies(es).drop_last() =~= line_bodies(init));
        assert(storable(es[es.len() - 1]));
        lemma_parse_line_body(es.last());
        lemma_mode_value(es.last().1);
        let l = line_bodies(es);
        assert(l.len() == es.len());
        assert(l.last() == line_body(es.last()));
        assert(l.last().len() > 0);
        assert(init.push(es.last()) =~= es);
        assert(parse_lines(l) == Ok::<Seq<EntryView>, (nat, crate::perms::LineError)>(init.push(es.last())));
    }
}

/// Reading back what was written: the text that `serialize` writes for
/// entries in order, each with a mode of at most four octal digits and a
/// non-empty path without line ends, is read by `parse` into the same
/// entries (same paths, same modes, same order).
pub proof fn law_parse_reads_back_serialize(es: Seq<EntryView>)
    requires
        forall|i: int| 0 <= i < es.len() ==> storable(#[trigger] es[i]),
        is_sorted(es),
    ensures
        parse_lines(text_lines(serialized(es))) == Ok::<Seq<EntryView>, (nat, crate::perms::LineError)>(es),
        sort_entries(es) == es,
{
    lemma_text_lines_serialized(es);
    lemma_parse_lines_bodies(es);
    law_sort_leaves_sorted_entries_alone(es);
}

/// Stored and actual entries agree: the same number of them, and at each
/// position the same path (as paths compare) and the same mode.
pub open spec fn entries_agree(s: Seq<EntryView>, a: Seq<EntryView>) -> bool {
    &&& s.len() == a.len()
    &&& forall|i: int| 0 <= i < s.len() ==> path_same(#[trigger] s[i].0, a[i].0) && s[i].1 == a[i].1
}

/// No differences are reported exactly when stored and actual entries agree
/// (`git perms diff` finds nothing to show just when nothing changed).
pub proof fn law_diff_empty_iff_agree(s: Seq<EntryView>, a: Seq<EntryView>)
    ensures
        diff_spec(s, a).len() == 0 <==> entries_agree(s, a),
    decreases s.len() + a.len(),
{
    if s.len() == 0 && a.len() == 0 {
    } else if a.len() == 0 || s.len() == 0 {
    } else {
        let (s0, a0) = (s[0], a[0]);
        lemma_key_less_irreflexive(path_key(s0.0));
        if path_less(s0.0, a0.0) || path_less(a0.0, s0.0) {
            assert(!entries_agree(s, a)) by {
                if entries_agree(s, a) {
                    assert(path_same(s[0].0, a[0].0));
                }
            }
        } else {
            let (rs, ra) = (s.drop_first(), a.drop_first());
            crate::path::lemma_key_less_total(path_key(s0.0), path_key(a0.0));
            law_diff_empty_iff_agree(rs, ra);
            if s0.1 == a0.1 {
                assert(entries_agree(s, a) <==> entries_agree(rs, ra)) by {
                    if entries_agree(rs, ra) {
                        assert forall|i: int| 0 <= i < s.len() implies path_same(#[trigger] s[i].0, a[i].0)
                            && s[i].1 == a[i].1 by {
                            if i > 0 {
                                assert(s[i] == rs[i - 1] && a[i] == ra[i - 1]);
                            }
                        }
                        assert(entries_agree(s, a));
                    }
                    if entries_agree(s, a) {
                        assert forall|i: int| 0 <= i < rs.len() implies path_same(#[trigger] rs[i].0, ra[i].0)
                            && rs[i].1 == ra[i].1 by {
                            assert(s[i + 1] == rs[i] && a[i + 1] == ra[i]);
                        }
                        assert(entries_agree(rs, ra));
                    }
                }
            } else {
                assert(!entries_agree(s, a)) by {
                    if entries_agree(s, a) {
                        assert(s[0].1 == a[0].1);
                    }
                }
            }
        }
    }
}

/// Comparing entries with themselves reports no differences.
pub proof fn law_diff_with_itself_is_empty(x: Seq<EntryView>)
    ensures
        diff_spec(x, x) == Seq::<DiffView>::empty(),
{
    law_diff_empty_iff_agree(x, x);
    assert(diff_spec(x, x) =~= Seq::<DiffView>::empty());
}

/// A reported difference is one that the inputs show.
pub open spec fn diff_backed(d: DiffView, s: Seq<EntryView>, a: Seq<EntryView>) -> bool {
    match d {
        DiffView::Removed(p, m) => s.contains((p, m)),
        DiffView::Added(p, m) => a.contains((p, m)),
        DiffView::Modified(p, sm, am) => sm != am && s.contains((p, sm)) && exists|j: int|
            0 <= j < a.len() && #[trigger] a[j].1 == am && path_same(p, a[j].0),
    }
}

proof fn lemma_backed_drop(d: DiffView, s: Seq<EntryView>, a: Seq<EntryView>, ds: bool, da: bool)
    requires
        ds ==> s.len() > 0,
        da ==> a.len() > 0,
        diff_backed(d, if ds { s.drop_first() } else { s }, if da { a.drop_first() } else { a }),
    ensures
        diff_backed(d, s, a),
{
    let s2 = if ds { s.drop_first() } else { s };
    let a2 = if da { a.drop_first() } else { a };
    match d {
        DiffView::Removed(p, m) => {
            let k = choose|k: int| 0 <= k < s2.len() && s2[k] == (p, m);
            if ds {
                assert(s[k + 1] == s2[k]);
            }
        },
        DiffView::Added(p, m) => {
            let k = choose|k: int| 0 <= k < a2.len() && a2[k] == (p, m);
            if da {
                assert(a[k + 1] == a2[k]);
            }
        },
        DiffView::Modified(p, sm, am) => {
            let k = choose|k: int| 0 <= k < s2.len() && s2[k] == (p, sm);
            if ds {
                assert(s[k + 1] == s2[k]);
            }
            let j = choose|j: int| 0 <= j < a2.len() && #[trigger] a2[j].1 == am && path_same(p, a2[j].0);
            if da {
                assert(a[j + 1] == a2[j]);
                assert(a[j + 1].1 == am);
            }
        },
    }
}

/// Every reported difference is backed by the inputs: a removed entry is
/// one of the stored ones, an added entry one of the actual ones, and a
/// modified path has a stored entry with the old mode and an actual entry of
/// the same path with the new, different mode.
pub proof fn law_diff_reports_only_real_differences(s: Seq<EntryView>, a: Seq<EntryView>)
    ensures
        forall|k: int| 0 <= k < diff_spec(s, a).len() ==> diff_backed(#[trigger] diff_spec(s, a)[k], s, a),
    decreases s.len() + a.len(),
{
    if s.len() == 0 && a.len() == 0 {
    } else if a.len() == 0 || (s.len() > 0 && path_less(s[0].0, a[0].0)) {
        let rest = diff_spec(s.drop_first(), a);
        law_diff_reports_only_real_differences(s.drop_first(), a);
        assert forall|k: int| 0 <= k < diff_spec(s, a).len() implies diff_backed(#[trigger] diff_spec(s, a)[k], s, a) by {
            if k == 0 {
                assert(s[0] == (s[0].0, s[0].1));
            } else {
                assert(diff_spec(s, a)[k] == rest[k - 1]);
                lemma_backed_drop(rest[k - 1], s, a, true, false);
            }
        }
    } else if s.len() == 0 || path_less(a[0].0, s[0].0) {
        let rest = diff_spec(s, a.drop_first());
        law_diff_reports_only_real_differences(s, a.drop_first());
        assert forall|k: int| 0 <= k < diff_spec(s, a).len() implies diff_backed(#[trigger] diff_spec(s, a)[k], s, a) by {
            if k == 0 {
                assert(a[0] == (a[0].0, a[0].1));
            } else {
                assert(diff_spec(s, a)[k] == rest[k - 1]);
                lemma_backed_drop(rest[k - 1], s, a, false, true);
            }
        }
    } else {
        let rest = diff_spec(s.drop_first(), a.drop_first());
        law_diff_reports_only_real_differences(s.drop_first(), a.drop_first());
        crate::path::lemma_key_less_total(path_key(s[0].0), path_key(a[0].0));
        assert forall|k: int| 0 <= k < diff_spec(s, a).len() implies diff_backed(#[trigger] diff_spec(s, a)[k], s, a) by {
            if s[0].1 != a[0].1 {
                if k == 0 {
                    assert(s[0] == (s[0].0, s[0].1));
                    assert(a[0].1 == a[0].1 && path_same(s[0].0, a[0].0));
                } else {
                    assert(diff_spec(s, a)[k] == rest[k - 1]);
                    lemma_backed_drop(rest[k - 1], s, a, true, true);
                }
            } else {
                assert(diff_spec(s, a)[k] == rest[k]);
                lemma_backed_drop(rest[k], s, a, true, true);
            }
        }
    }
}

/// Each path occurs once and the paths come in strictly increasing order.
pub open spec fn strictly_sorted(s: Seq<EntryView>) -> bool {
    forall|i: int, j: int| 0 <= i < j < s.len() ==> path_less(#[trigger] s[i].0, #[trigger] s[j].0)
}

/// Every difference between stored and actual entries is reported.
pub open spec fn diff_complete(s: Seq<EntryView>, a: Seq<EntryView>, d: Seq<DiffView>) -> bool {
    &&& forall|i: int|
        0 <= i < s.len() && (forall|j: int| 0 <= j < a.len() ==> !path_same(s[i].0, #[trigger] a[j].0))
            ==> d.contains(DiffView::Removed(#[trigger] s[i].0, s[i].1))
    &&& forall|j: int|
        0 <= j < a.len() && (forall|i: int| 0 <= i < s.len() ==> !path_same(#[trigger] s[i].0, a[j].0))
            ==> d.contains(DiffView::Added(#[trigger] a[j].0, a[j].1))
    &&& forall|i: int, j: int|
        0 <= i < s.len() && 0 <= j < a.len() && path_same(#[trigger] s[i].0, #[trigger] a[j].0) && s[i].1
            != a[j].1 ==> d.contains(DiffView::Modified(s[i].0, s[i].1, a[j].1))
}

proof fn lemma_strictly_sorted_rest(s: Seq<EntryView>)
    requires
        strictly_sorted(s),
        s.len() > 0,
    ensures
        strictly_sorted(s.drop_first()),
        forall|j: int| 0 < j < s.len() ==> path_less(s[0].0, #[trigger] s[j].0),
{
    let r = s.drop_first();
    assert forall|i: int, j: int| 0 <= i < j < r.len() implies path_less(#[trigger] r[i].0, #[trigger] r[j].0) by {
        assert(r[i] == s[i + 1] && r[j] == s[j + 1]);
    }
    assert forall|j: int| 0 < j < s.len() implies path_less(s[0].0, #[trigger] s[j].0) by {
        assert(path_less(s[0].0, s[j].0));
    }
}

proof fn lemma_contains_prepend(x: DiffView, rest: Seq<DiffView>, y: DiffView)
    requires
        rest.contains(y),
    ensures
        (seq![x] + rest).contains(y),
{
    let k = choose|k: int| 0 <= k < rest.len() && rest[k] == y;
    assert((seq![x] + rest)[k + 1] == y);
}

proof fn lemma_contains_first(x: DiffView, rest: Seq<DiffView>)
    ensures
        (seq![x] + rest).contains(x),
{
    assert((seq![x] + rest)[0] == x);
}

/// Before the first of a sorted sequence no entry has its path.
proof fn lemma_not_same_below(x: Seq<char>, a: Seq<EntryView>)
    requires
        strictly_sorted(a),
        a.len() > 0,
        path_less(x, a[0].0),
    ensures
        forall|j: int| 0 <= j < a.len() ==> !path_same(x, #[trigger] a[j].0),
{
    lemma_strictly_sorted_rest(a);
    assert forall|j: int| 0 <= j < a.len() implies !path_same(x, #[trigger] a[j].0) by {
        lemma_key_less_irreflexive(path_key(x));
        if j > 0 {
            crate::path::lemma_key_less_transitive(path_key(x), path_key(a[0].0), path_key(a[j].0));
        }
    }
}

/// For stored and actual entries that each name every path at most once, in
/// order, every difference is reported: a stored entry whose path is not
/// actual any more is reported removed, an actual entry whose path was not
/// stored is reported added, and a path whose stored and actual modes differ
/// is reported modified, with both modes.
pub proof fn law_diff_reports_every_difference(s: Seq<EntryView>, a: Seq<EntryView>)
    requires
        strictly_sorted(s),
        strictly_sorted(a),
    ensures
        diff_complete(s, a, diff_spec(s, a)),
    decreases s.len() + a.len(),
{
    let d = diff_spec(s, a);
    if s.len() == 0 && a.len() == 0 {
    } else if a.len() == 0 || (s.len() > 0 && path_less(s[0].0, a[0].0)) {
        lemma_strictly_sorted_rest(s);
        let s2 = s.drop_first();
        law_diff_reports_every_difference(s2, a);
        let rest = diff_spec(s2, a);
        let x = DiffView::Removed(s[0].0, s[0].1);
        assert(d == seq![x] + rest);
        if a.len() > 0 {
            lemma_not_same_below(s[0].0, a);
        }
        assert forall|i: int|
            0 <= i < s.len() && (forall|j: int| 0 <= j < a.len() ==> !path_same(s[i].0, #[trigger] a[j].0))
            implies d.contains(DiffView::Removed(#[trigger] s[i].0, s[i].1)) by {
            if i == 0 {
                lemma_contains_first(x, rest);
            } else {
                assert(s2[i - 1] == s[i]);
                lemma_contains_prepend(x, rest, DiffView::Removed(s[i].0, s[i].1));
            }
        }
        assert forall|j: int|
            0 <= j < a.len() && (forall|i: int| 0 <= i < s.len() ==> !path_same(#[trigger] s[i].0, a[j].0))
            implies d.contains(DiffView::Added(#[trigger] a[j].0, a[j].1)) by {
            assert forall|i: int| 0 <= i < s2.len() implies !path_same(#[trigger] s2[i].0, a[j].0) by {
                assert(s2[i] == s[i + 1]);
            }
            lemma_contains_prepend(x, rest, DiffView::Added(a[j].0, a[j].1));
        }
        assert forall|i: int, j: int|
            0 <= i < s.len() && 0 <= j < a.len() && path_same(#[trigger] s[i].0, #[trigger] a[j].0) && s[i].1
                != a[j].1 implies d.contains(DiffView::Modified(s[i].0, s[i].1, a[j].1)) by {
            if i == 0 {
                assert(!path_same(s[0].0, a[j].0));
            } else {
                assert(s2[i - 1] == s[i]);
                lemma_contains_prepend(x, rest, DiffView::Modified(s[i].0, s[i].1, a[j].1));
            }
        }
    } else if s.len() == 0 || path_less(a[0].0, s[0].0) {
        lemma_strictly_sorted_rest(a);
        let a2 = a.drop_first();
        law_diff_reports_every_difference(s, a2);
        let rest = diff_spec(s, a2);
        let x = DiffView::Added(a[0].0, a[0].1);
        assert(d == seq![x] + rest);
        if s.len() > 0 {
            lemma_not_same_below(a[0].0, s);
        }
        assert forall|i: int|
            0 <= i < s.len() && (forall|j: int| 0 <= j < a.len() ==> !path_same(s[i].0, #[trigger] a[j].0))
            implies d.contains(DiffView::Removed(#[trigger] s[i].0, s[i].1)) by {
            assert forall|j: int| 0 <= j < a2.len() implies !path_same(s[i].0, #[trigger] a2[j].0) by {
                assert(a2[j] == a[j + 1]);
            }
            lemma_contains_prepend(x, rest, DiffView::Removed(s[i].0, s[i].1));
        }
        assert forall|j: int|
            0 <= j < a.len() && (forall|i: int| 0 <= i < s.len() ==> !path_same(#[trigger] s[i].0, a[j].0))
            implies d.contains(DiffView::Added(#[trigger] a[j].0, a[j].1)) by {
            if j == 0 {
                lemma_contains_first(x, rest);
            } else {
                assert(a2[j - 1] == a[j]);
                lemma_contains_prepend(x, rest, DiffView::Added(a[j].0, a[j].1));
            }
        }
        assert forall|i: int, j: int|
            0 <= i < s.len() && 0 <= j < a.len() && path_same(#[trigger] s[i].0, #[trigger] a[j].0) && s[i].1
                != a[j].1 implies d.contains(DiffView::Modified(s[i].0, s[i].1, a[j].1)) by {
            if j == 0 {
                assert(!path_same(a[0].0, s[i].0));
            } else {
                assert(a2[j - 1] == a[j]);
                lemma_contains_prepend(x, rest, DiffView::Modified(s[i].0, s[i].1, a[j].1));
            }
        }
    } else {
        crate::path::lemma_key_less_total(path_key(s[0].0), path_key(a[0].0));
        assert(path_same(s[0].0, a[0].0));
        lemma_strictly_sorted_rest(s);
        lemma_strictly_sorted_rest(a);
        let (s2, a2) = (s.drop_first(), a.drop_first());
        law_diff_reports_every_difference(s2, a2);
        let rest = diff_spec(s2, a2);
        let x = DiffView::Modified(s[0].0, s[0].1, a[0].1);
        let head = if s[0].1 != a[0].1 {
            seq![x]
        } else {
            Seq::<DiffView>::empty()
        };
        assert(d == head + rest);
        assert forall|y: DiffView| rest.contains(y) implies #[trigger] d.contains(y) by {
            let k = choose|k: int| 0 <= k < rest.len() && rest[k] == y;
            assert(d[head.len() + k] == y);
        }
        // Paths after the first are strictly above the first one, hence not the same as it.
        assert forall|j: int| 0 < j < a.len() implies !path_same(s[0].0, #[trigger] a[j].0) by {
            lemma_key_less_irreflexive(path_key(a[j].0));
        }
        assert forall|i: int| 0 < i < s.len() implies !path_same(#[trigger] s[i].0, a[0].0) by {
            lemma_key_less_irreflexive(path_key(s[i].0));
        }
        assert forall|i: int|
            0 <= i < s.len() && (forall|j: int| 0 <= j < a.len() ==> !path_same(s[i].0, #[trigger] a[j].0))
            implies d.contains(DiffView::Removed(#[trigger] s[i].0, s[i].1)) by {
            if i == 0 {
                assert(!path_same(s[0].0, a[0].0));
            } else {
                assert(s2[i - 1] == s[i]);
                assert forall|j: int| 0 <= j < a2.len() implies !path_same(s2[i - 1].0, #[trigger] a2[j].0) by {
                    assert(a2[j] == a[j + 1]);
                }
                assert(rest.contains(DiffView::Removed(s[i].0, s[i].1)));
            }
        }
        assert forall|j: int|
            0 <= j < a.len() && (forall|i: int| 0 <= i < s.len() ==> !path_same(#[trigger] s[i].0, a[j].0))
            implies d.contains(DiffView::Added(#[trigger] a[j].0, a[j].1)) by {
            if j == 0 {
                assert(!path_same(s[0].0, a[0].0));
            } else {
                assert(a2[j - 1] == a[j]);
                assert forall|i: int| 0 <= i < s2.len() implies !path_same(#[trigger] s2[i].0, a2[j - 1].0) by {
                    assert(s2[i] == s[i + 1]);
                }
                assert(rest.contains(DiffView::Added(a[j].0, a[j].1)));
            }
        }
        assert forall|i: int, j: int|
            0 <= i < s.len() && 0 <= j < a.len() && path_same(#[trigger] s[i].0, #[trigger] a[j].0) && s[i].1
                != a[j].1 implies d.contains(DiffView::Modified(s[i].0, s[i].1, a[j].1)) by {
            if i == 0 && j == 0 {
                assert(d[0] == x);
            } else if i == 0 {
                assert(!path_same(s[0].0, a[j].0));
            } else if j == 0 {
                assert(!path_same(s[i].0, a[0].0));
            } else {
                assert(s2[i - 1] == s[i] && a2[j - 1] == a[j]);
                assert(rest.contains(DiffView::Modified(s[i].0, s[i].1, a[j].1)));
            }
        }
    }
}

/// The path that a difference names.
pub open spec fn diff_path(d: DiffView) -> Seq<char> {
    match d {
        DiffView::Modified(p, _, _) => p,
        DiffView::Added(p, _) => p,
        DiffView::Removed(p, _) => p,
    }
}

/// No path of `s` comes before `b`.
pub open spec fn paths_from(s: Seq<EntryView>, b: Seq<char>) -> bool {
    forall|i: int| 0 <= i < s.len() ==> !path_less(#[trigger] s[i].0, b)
}

proof fn lemma_paths_from_rest(s: Seq<EntryView>, b: Seq<char>)
    requires
        paths_from(s, b),
        s.len() > 0,
    ensures
        paths_from(s.drop_first(), b),
{
    assert forall|i: int| 0 <= i < s.drop_first().len() implies !path_less(#[trigger] s.drop_first()[i].0, b) by {
        assert(s.drop_first()[i] == s[i + 1]);
    }
}

/// `x` does not come before `b`, and `y` does not come before `x`: so `y`
/// does not come before `b`.
proof fn lemma_not_before_chain(b: Seq<char>, x: Seq<char>, y: Seq<char>)
    requires
        !path_less(x, b),
        !path_less(y, x),
    ensures
        !path_less(y, b),
{
    crate::path::law_path_order_total(x, b);
    crate::path::law_path_order_total(y, x);
    crate::path::law_path_order_total(y, b);
    if path_less(y, b) {
        if path_less(b, x) {
            crate::path::law_path_less_transitive(y, b, x);
        }
    }
}

/// In a sorted sequence no path comes before the first one.
proof fn lemma_sorted_paths_from_first(s: Seq<EntryView>)
    requires
        is_sorted(s),
        s.len() > 0,
    ensures
        paths_from(s, s[0].0),
{
    assert forall|i: int| 0 <= i < s.len() implies !path_less(#[trigger] s[i].0, s[0].0) by {
        if i > 0 {
            assert(!crate::perms::entry_less(s[i], s[0]));
        } else {
            crate::path::law_path_less_irreflexive(s[0].0);
        }
    }
}

proof fn lemma_sorted_rest(s: Seq<EntryView>)
    requires
        is_sorted(s),
        s.len() > 0,
    ensures
        is_sorted(s.drop_first()),
{
    let r = s.drop_first();
    assert forall|i: int, j: int| 0 <= i < j < r.len() implies !crate::perms::entry_less(#[trigger] r[j], #[trigger] r[i]) by {
        assert(r[i] == s[i + 1] && r[j] == s[j + 1]);
    }
}

proof fn lemma_paths_from_weaken(s: Seq<EntryView>, x: Seq<char>, b: Seq<char>)
    requires
        paths_from(s, x),
        !path_less(x, b),
    ensures
        paths_from(s, b),
{
    assert forall|i: int| 0 <= i < s.len() implies !path_less(#[trigger] s[i].0, b) by {
        lemma_not_before_chain(b, x, s[i].0);
    }
}

/// When no input path comes before `b`, no reported path does.
proof fn lemma_diff_paths_from(s: Seq<EntryView>, a: Seq<EntryView>, b: Seq<char>)
    requires
        paths_from(s, b),
        paths_from(a, b),
    ensures
        forall|k: int| 0 <= k < diff_spec(s, a).len() ==> !path_less(diff_path(#[trigger] diff_spec(s, a)[k]), b),
    decreases s.len() + a.len(),
{
    let d = diff_spec(s, a);
    if s.len() == 0 && a.len() == 0 {
    } else if a.len() == 0 || (s.len() > 0 && path_less(s[0].0, a[0].0)) {
        lemma_paths_from_rest(s, b);
        lemma_diff_paths_from(s.drop_first(), a, b);
        assert forall|k: int| 0 <= k < d.len() implies !path_less(diff_path(#[trigger] d[k]), b) by {
            if k > 0 {
                assert(d[k] == diff_spec(s.drop_first(), a)[k - 1]);
            }
        }
    } else if s.len() == 0 || path_less(a[0].0, s[0].0) {
        lemma_paths_from_rest(a, b);
        lemma_diff_paths_from(s, a.drop_first(), b);
        assert forall|k: int| 0 <= k < d.len() implies !path_less(diff_path(#[trigger] d[k]), b) by {
            if k > 0 {
                assert(d[k] == diff_spec(s, a.drop_first())[k - 1]);
            }
        }
    } else {
        lemma_paths_from_rest(s, b);
        lemma_paths_from_rest(a, b);
        lemma_diff_paths_from(s.drop_first(), a.drop_first(), b);
        let rest = diff_spec(s.drop_first(), a.drop_first());
        assert forall|k: int| 0 <= k < d.len() implies !path_less(diff_path(#[trigger] d[k]), b) by {
            if s[0].1 != a[0].1 {
                if k > 0 {
                    assert(d[k] == rest[k - 1]);
                }
            } else {
                assert(d[k] == rest[k]);
            }
        }
    }
}

/// For inputs in order, the differences come in path order.
pub proof fn law_diff_in_path_order(s: Seq<EntryView>, a: Seq<EntryView>)
    requires
        is_sorted(s),
        is_sorted(a),
    ensures
        forall|i: int, j: int|
            0 <= i < j < diff_spec(s, a).len() ==> !path_less(
                diff_path(#[trigger] diff_spec(s, a)[j]),
                diff_path(#[trigger] diff_spec(s, a)[i]),
            ),
    decreases s.len() + a.len(),
{
    let d = diff_spec(s, a);
    if s.len() == 0 && a.len() == 0 {
    } else {
        // The first reported path is the smaller head; no later input path comes before it.
        let (rs, ra, p) = if a.len() == 0 || (s.len() > 0 && path_less(s[0].0, a[0].0)) {
            (s.drop_first(), a, s[0].0)
        } else if s.len() == 0 || path_less(a[0].0, s[0].0) {
            (s, a.drop_first(), a[0].0)
        } else {
            (s.drop_first(), a.drop_first(), s[0].0)
        };
        if s.len() > 0 {
            lemma_sorted_rest(s);
            lemma_sorted_paths_from_first(s);
            assert(!path_less(s[0].0, p)) by {
                crate::path::law_path_less_irreflexive(s[0].0);
                if a.len() > 0 {
                    crate::path::law_path_order_total(s[0].0, a[0].0);
                }
            }
            lemma_paths_from_weaken(s, s[0].0, p);
            lemma_paths_from_rest(s, p);
        }
        if a.len() > 0 {
            lemma_sorted_rest(a);
            lemma_sorted_paths_from_first(a);
            assert(!path_less(a[0].0, p)) by {
                crate::path::law_path_less_irreflexive(a[0].0);
                if s.len() > 0 {
                    crate::path::law_path_order_total(a[0].0, s[0].0);
                }
            }
            lemma_paths_from_weaken(a, a[0].0, p);
            lemma_paths_from_rest(a, p);
        }
        assert(is_sorted(rs) && is_sorted(ra));
        assert(paths_from(rs, p) && paths_from(ra, p));
        law_diff_in_path_order(rs, ra);
        lemma_diff_paths_from(rs, ra, p);
        let rest = diff_spec(rs, ra);
        let off = d.len() - rest.len();
        assert(off == 0 || off == 1);
        assert forall|k: int| 0 <= k < rest.len() implies d[k + off] == rest[k] by {}
        assert(off == 1 ==> diff_path(d[0]) == p);
        assert forall|i: int, j: int| 0 <= i < j < d.len() implies !path_less(
            diff_path(#[trigger] d[j]),
            diff_path(#[trigger] d[i]),
        ) by {
            if off == 1 && i == 0 {
                assert(d[j] == rest[j - 1]);
            } else {
                assert(d[i] == rest[i - off] && d[j] == rest[j - off]);
            }
        }
    }
}

/// The difference seen from the other side: removed becomes added, added
/// becomes removed, and a modification swaps its two modes.
pub open spec fn mirrored(d: DiffView) -> DiffView {
    match d {
        DiffView::Removed(p, m) => DiffView::Added(p, m),
        DiffView::Added(p, m) => DiffView::Removed(p, m),
        DiffView::Modified(p, s, a) => DiffView::Modified(p, a, s),
    }
}

/// Two differences are equal as `DiffEntry`'s `==` says: the same kind,
/// the same path (as paths compare) and the same modes.
pub open spec fn same_diff(d: DiffView, e: DiffView) -> bool {
    match (d, e) {
        (DiffView::Removed(p, m), DiffView::Removed(q, n)) => path_same(p, q) && m == n,
        (DiffView::Added(p, m), DiffView::Added(q, n)) => path_same(p, q) && m == n,
        (DiffView::Modified(p, s, a), DiffView::Modified(q, t, b)) => path_same(p, q) && s == t && a
            == b,
        _ => false,
    }
}

/// Swapping stored and actual mirrors the differences: the same number of
/// them, and each, in the same place, seen from the other side.
pub proof fn law_diff_swapped_is_mirrored(s: Seq<EntryView>, a: Seq<EntryView>)
    ensures
        diff_spec(a, s).len() == diff_spec(s, a).len(),
        forall|k: int|
            0 <= k < diff_spec(s, a).len() ==> same_diff(
                #[trigger] diff_spec(a, s)[k],
                mirrored(diff_spec(s, a)[k]),
            ),
    decreases s.len() + a.len(),
{
    let d = diff_spec(s, a);
    let e = diff_spec(a, s);
    if s.len() == 0 && a.len() == 0 {
    } else if a.len() == 0 || (s.len() > 0 && path_less(s[0].0, a[0].0)) {
        if a.len() > 0 {
            crate::path::law_path_order_total(s[0].0, a[0].0);
        }
        law_diff_swapped_is_mirrored(s.drop_first(), a);
        let (rd, re) = (diff_spec(s.drop_first(), a), diff_spec(a, s.drop_first()));
        assert(e == seq![DiffView::Added(s[0].0, s[0].1)] + re);
        assert forall|k: int| 0 <= k < d.len() implies same_diff(#[trigger] e[k], mirrored(d[k])) by {
            if k == 0 {
                crate::path::law_path_order_total(s[0].0, s[0].0);
                lemma_key_less_irreflexive(path_key(s[0].0));
            } else {
                assert(e[k] == re[k - 1] && d[k] == rd[k - 1]);
            }
        }
    } else if s.len() == 0 || path_less(a[0].0, s[0].0) {
        if s.len() > 0 {
            crate::path::law_path_order_total(s[0].0, a[0].0);
        }
        law_diff_swapped_is_mirrored(s, a.drop_first());
        let (rd, re) = (diff_spec(s, a.drop_first()), diff_spec(a.drop_first(), s));
        assert(e == seq![DiffView::Removed(a[0].0, a[0].1)] + re);
        assert forall|k: int| 0 <= k < d.len() implies same_diff(#[trigger] e[k], mirrored(d[k])) by {
            if k == 0 {
                lemma_key_less_irreflexive(path_key(a[0].0));
            } else {
                assert(e[k] == re[k - 1] && d[k] == rd[k - 1]);
            }
        }
    } else {
        crate::path::law_path_order_total(s[0].0, a[0].0);
        law_diff_swapped_is_mirrored(s.drop_first(), a.drop_first());
        let (rd, re) = (diff_spec(s.drop_first(), a.drop_first()), diff_spec(a.drop_first(), s.drop_first()));
        if s[0].1 != a[0].1 {
            assert(e == seq![DiffView::Modified(a[0].0, a[0].1, s[0].1)] + re);
            assert forall|k: int| 0 <= k < d.len() implies same_diff(#[trigger] e[k], mirrored(d[k])) by {
                if k > 0 {
                    assert(e[k] == re[k - 1] && d[k] == rd[k - 1]);
                }
            }
        } else {
            assert(e == re);
        }
    }
}

/// Scanning files whose modes are the ones recorded gives back the
/// records: for entries in order, when each file is scanned with a raw mode
/// whose permission bits are the entry's mode (as after restoring them with
/// nothing changed since), the scan is those entries.
pub proof fn law_scan_reads_back_recorded_modes(es: Seq<EntryView>, files: Seq<(String, Option<u32>)>)
    requires
        is_sorted(es),
        files.len() == es.len(),
        forall|i: int|
            0 <= i < es.len() ==> (#[trigger] files[i]).0@ == es[i].0 && files[i].1 is Some && (
            files[i].1->0 & 0o7777u32) == es[i].1,
    ensures
        sort_entries(scanned(files)) == es,
{
    lemma_scanned_all_present(es, files);
    law_sort_leaves_sorted_entries_alone(es);
}

proof fn lemma_scanned_all_present(es: Seq<EntryView>, files: Seq<(String, Option<u32>)>)
    requires
        files.len() == es.len(),
        forall|i: int|
            0 <= i < es.len() ==> (#[trigger] files[i]).0@ == es[i].0 && files[i].1 is Some && (
            files[i].1->0 & 0o7777u32) == es[i].1,
    ensures
        scanned(files) == es,
    decreases es.len(),
{
    if es.len() == 0 {
        assert(es =~= Seq::<EntryView>::empty());
    } else {
        let (fi, ei) = (files.drop_last(), es.drop_last());
        assert forall|i: int| 0 <= i < ei.len() implies (#[trigger] fi[i]).0@ == ei[i].0 && fi[i].1 is Some
            && (fi[i].1->0 & 0o7777u32) == ei[i].1 by {
            assert(fi[i] == files[i] && ei[i] == es[i]);
        }
        lemma_scanned_all_present(es.drop_last(), files.drop_last());
        let k = es.len() - 1;
        assert(files[k].0@ == es[k].0);
        assert(files.last() == files[k] && es.last() == es[k]);
        assert(ei.push(es.last()) =~= es);
    }
}

/// A fresh save compares clean: the text written for entries in order (each
/// storable) reads back, and comparing what it reads back with the same
/// entries reports no difference.
pub proof fn law_fresh_save_compares_clean(es: Seq<EntryView>)
    requires
        forall|i: int| 0 <= i < es.len() ==> storable(#[trigger] es[i]),
        is_sorted(es),
    ensures
        parse_lines(text_lines(serialized(es))) is Ok,
        diff_spec(sort_entries(parse_lines(text_lines(serialized(es)))->Ok_0), es).len() == 0,
{
    law_parse_reads_back_serialize(es);
    law_diff_with_itself_is_empty(es);
}

/// Whether the raw mode of a scanned file is known (the file exists).
pub open spec fn on_disk(f: (String, Option<u32>)) -> bool {
    f.1 is Some
}

/// The entry recorded for a file that exists: its path and its permission bits.
pub open spec fn recorded(f: (String, Option<u32>)) -> EntryView {
    (f.0@, f.1->0 & 0o7777u32)
}

/// A scan keeps exactly the files that exist, in their order, each with its
/// permission bits: the files whose raw mode is unknown leave no entry, and
/// every file whose raw mode is known leaves one.
pub proof fn law_scan_keeps_exactly_the_files_on_disk(files: Seq<(String, Option<u32>)>)
    ensures
        scanned(files) == files.filter(|f: (String, Option<u32>)| on_disk(f)).map_values(
            |f: (String, Option<u32>)| recorded(f),
        ),
    decreases files.len(),
{
    reveal(Seq::filter);
    let pred = |f: (String, Option<u32>)| on_disk(f);
    let rec = |f: (String, Option<u32>)| recorded(f);
    if files.len() == 0 {
        assert(files.filter(pred) =~= Seq::<(String, Option<u32>)>::empty());
        assert(files.filter(pred).map_values(rec) =~= Seq::<EntryView>::empty());
    } else {
        law_scan_keeps_exactly_the_files_on_disk(files.drop_last());
        let sub = files.drop_last().filter(pred);
        if on_disk(files.last()) {
            assert(files.filter(pred) == sub.push(files.last()));
            assert(sub.push(files.last()).map_values(rec) =~= sub.map_values(rec).push(recorded(files.last())));
        } else {
            assert(files.filter(pred) == sub);
        }
    }
}

/// The pairs of each entry's path with whether it exists.
pub open spec fn paths_with_presence(es: Seq<EntryView>, exists: Seq<bool>) -> Seq<(Seq<char>, bool)> {
    Seq::new(es.len(), |i: int| (es[i].0, exists[i]))
}

/// A restore counts every entry that exists and lists every one that does
/// not, in order: the count is the number of present entries, the list is
/// the paths of the missing ones, and together they account for every entry.
pub proof fn law_apply_accounts_for_every_entry(es: Seq<EntryView>, exists: Seq<bool>)
    requires
        es.len() == exists.len(),
    ensures
        count_present(exists) == exists.filter(|b: bool| b).len(),
        missing_paths(es, exists) == paths_with_presence(es, exists).filter(
            |q: (Seq<char>, bool)| !q.1,
        ).map_values(|q: (Seq<char>, bool)| q.0),
        count_present(exists) + missing_paths(es, exists).len() == es.len(),
    decreases es.len(),
{
    reveal(Seq::filter);
    let present = |b: bool| b;
    let missing = |q: (Seq<char>, bool)| !q.1;
    let first = |q: (Seq<char>, bool)| q.0;
    let pairs = paths_with_presence(es, exists);
    if es.len() == 0 {
        assert(exists.filter(present) =~= Seq::<bool>::empty());
        assert(pairs.filter(missing) =~= Seq::<(Seq<char>, bool)>::empty());
        assert(pairs.filter(missing).map_values(first) =~= Seq::<Seq<char>>::empty());
    } else {
        let (de, dx) = (es.drop_last(), exists.drop_last());
        law_apply_accounts_for_every_entry(de, dx);
        assert(pairs.drop_last() =~= paths_with_presence(de, dx));
        let sub = paths_with_presence(de, dx).filter(missing);
        let last = pairs.last();
        assert(last == (es.last().0, exists.last()));
        if exists.last() {
            assert(exists.filter(present) == dx.filter(present).push(exists.last()));
            assert(pairs.filter(missing) == sub);
        } else {
            assert(exists.filter(present) == dx.filter(present));
            assert(pairs.filter(missing) == sub.push(last));
            assert(sub.push(last).map_values(first) =~= sub.map_values(first).push(es.last().0));
        }
    }
}

proof fn lemma_insert_sorted_paths(s: Seq<EntryView>, x: EntryView)
    ensures
        insert_sorted(s, x).map_values(|e: EntryView| e.0).to_multiset() == s.map_values(
            |e: EntryView| e.0,
        ).to_multiset().insert(x.0),
    decreases s.len(),
{
    broadcast use vstd::seq_lib::group_to_multiset_ensures;

    let fst = |e: EntryView| e.0;
    if s.len() == 0 || !entry_less(x, s.last()) {
        assert(s.push(x).map_values(fst) =~= s.map_values(fst).push(x.0));
    } else {
        let t = s.drop_last();
        lemma_insert_sorted_paths(t, x);
        assert(insert_sorted(t, x).push(s.last()).map_values(fst) =~= insert_sorted(t, x).map_values(
            fst,
        ).push(s.last().0));
        assert(s.map_values(fst) =~= t.map_values(fst).push(s.last().0));
        assert(insert_sorted(s, x).map_values(fst).to_multiset() =~= s.map_values(fst).to_multiset().insert(
            x.0,
        ));
    }
}

proof fn lemma_sort_keeps_paths(q: Seq<EntryView>)
    ensures
        sort_entries(q).map_values(|e: EntryView| e.0).to_multiset() == q.map_values(
            |e: EntryView| e.0,
        ).to_multiset(),
    decreases q.len(),
{
    broadcast use vstd::seq_lib::group_to_multiset_ensures;

    let fst = |e: EntryView| e.0;
    if q.len() > 0 {
        lemma_sort_keeps_paths(q.drop_last());
        lemma_insert_sorted_paths(sort_entries(q.drop_last()), q.last());
        assert(q.map_values(fst) =~= q.drop_last().map_values(fst).push(q.last().0));
    }
}

proof fn lemma_nonempty_lines_filter(ls: Seq<Seq<char>>)
    ensures
        nonempty_lines(ls) == ls.filter(|l: Seq<char>| l.len() > 0),
    decreases ls.len(),
{
    reveal(Seq::filter);
    if ls.len() == 0 {
        assert(ls.filter(|l: Seq<char>| l.len() > 0) =~= Seq::<Seq<char>>::empty());
    } else {
        lemma_nonempty_lines_filter(ls.drop_last());
    }
}

/// The tracked files are exactly the non-empty lines that git lists, each as
/// often as it is listed, in path order: no listed file is dropped or added.
pub proof fn law_tracked_files_are_the_listed_lines(ls: Seq<Seq<char>>)
    ensures
        sort_paths(nonempty_lines(ls)).to_multiset() == ls.filter(|l: Seq<char>| l.len() > 0).to_multiset(),
        forall|i: int, j: int|
            0 <= i < j < sort_paths(nonempty_lines(ls)).len() ==> !path_less(
                #[trigger] sort_paths(nonempty_lines(ls))[j],
                #[trigger] sort_paths(nonempty_lines(ls))[i],
            ),
{
    let ps = nonempty_lines(ls);
    lemma_nonempty_lines_filter(ls);
    let q = ps.map_values(|p: Seq<char>| (p, 0u32));
    lemma_sort_keeps_paths(q);
    assert(q.map_values(|e: EntryView| e.0) =~= ps);
    let r = sort_entries(q);
    law_sort_puts_entries_in_order(q);
    let out = sort_paths(ps);
    assert forall|i: int, j: int| 0 <= i < j < out.len() implies !path_less(#[trigger] out[j], #[trigger] out[i]) by {
        assert(out[i] == r[i].0 && out[j] == r[j].0);
        assert(!entry_less(r[j], r[i]));
    }
}

/// The letter that a difference's line starts with.
pub open spec fn kind_letter(d: DiffView) -> char {
    match d {
        DiffView::Modified(..) => 'M',
        DiffView::Added(..) => 'A',
        DiffView::Removed(..) => 'R',
    }
}

/// The text between the kind letter and the path in a difference's line:
/// the mode, or for a modification the stored and the actual mode.
pub open spec fn mode_field(d: DiffView) -> Seq<char> {
    match d {
        DiffView::Modified(_, s, a) => mode_text(s) + seq![' ', '-', '>', ' '] + mode_text(a),
        DiffView::Added(_, m) => mode_text(m),
        DiffView::Removed(_, m) => mode_text(m),
    }
}

/// The first mode that a difference's line shows (the stored one for a
/// modification).
pub open spec fn first_mode(d: DiffView) -> u32 {
    match d {
        DiffView::Modified(_, s, _) => s,
        DiffView::Added(_, m) => m,
        DiffView::Removed(_, m) => m,
    }
}

/// The line printed for a difference is its kind letter, a space, its
/// mode(s), a space, and then the full path as the entry holds it. A mode of
/// at most four octal digits shows as exactly four digits that read back as
/// it, and so does the actual mode of a modification.
pub proof fn law_diff_line_names_the_full_path(d: DiffView)
    ensures
        diff_line_text(d).len() == 2 + mode_field(d).len() + 1 + diff_path(d).len(),
        diff_line_text(d)[0] == kind_letter(d),
        diff_line_text(d)[1] == ' ',
        diff_line_text(d).subrange(2, 2 + mode_field(d).len() as int) == mode_field(d),
        diff_line_text(d).subrange(
            diff_line_text(d).len() - diff_path(d).len() - 1,
            diff_line_text(d).len() as int,
        ) == seq![' '] + diff_path(d),
        first_mode(d) <= 0o7777 ==> octal_value(diff_line_text(d).subrange(2, 6)) == Some(
            first_mode(d) as nat,
        ),
        d matches DiffView::Modified(_, s, a) ==> (s <= 0o7777 && a <= 0o7777 ==> octal_value(
            diff_line_text(d).subrange(10, 14),
        ) == Some(a as nat)),
{
    let line = diff_line_text(d);
    let p = diff_path(d);
    let f = mode_field(d);
    assert(line =~= seq![kind_letter(d), ' '] + f + (seq![' '] + p));
    assert(line.subrange(2, 2 + f.len() as int) =~= f);
    assert(line.subrange(line.len() - p.len() - 1, line.len() as int) =~= seq![' '] + p);
    if first_mode(d) <= 0o7777 {
        lemma_mode_value(first_mode(d));
        assert(line.subrange(2, 6) =~= mode_text(first_mode(d)));
    }
    if let DiffView::Modified(_, s, a) = d {
        if s <= 0o7777 && a <= 0o7777 {
            lemma_mode_value(s);
            lemma_mode_value(a);
            assert(line.subrange(10, 14) =~= mode_text(a));
        }
    }
}

} // verus!
