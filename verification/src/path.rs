//! Paths and the order in which they are compared.
//!
//! A path is compared component by component, as `std::path::Path` does on
//! Unix: repeated separators and `.` components are ignored, except for a
//! `.` that starts a relative path; a leading `/` is the root component.
//! Components are ordered root < current dir < parent dir < normal, and
//! normal components by their characters.
//!
//! Each path is given a key, a sequence of integers, such that comparing two
//! paths is comparing their keys lexicographically.
use vstd::prelude::*;

use crate::text::{chars_of, lemma_split_nonempty, split_on, split_pieces, views};

verus! {

/// A component of a path.
pub enum Component {
    RootDir,
    CurDir,
    ParentDir,
    Normal(Seq<char>),
}

pub open spec fn dot() -> Seq<char> {
    seq!['.']
}

pub open spec fn dot_dot() -> Seq<char> {
    seq!['.', '.']
}

/// The components named by a run of pieces: empty pieces and `.` vanish,
/// `..` is the parent directory.
pub open spec fn piece_components(pieces: Seq<Seq<char>>) -> Seq<Component>
    decreases pieces.len(),
{
    if pieces.len() == 0 {
        Seq::empty()
    } else {
        let rest = piece_components(pieces.drop_last());
        let x = pieces.last();
        if x.len() == 0 || x == dot() {
            rest
        } else if x == dot_dot() {
            rest.push(Component::ParentDir)
        } else {
            rest.push(Component::Normal(x))
        }
    }
}

/// Whether `p` starts at the root.
pub open spec fn is_absolute(p: Seq<char>) -> bool {
    p.len() > 0 && p[0] == '/'
}

/// The components of the path `p`.
pub open spec fn path_components(p: Seq<char>) -> Seq<Component> {
    let pieces = split_on(p, '/');
    if is_absolute(p) {
        seq![Component::RootDir] + piece_components(pieces.drop_first())
    } else if pieces[0] == dot() {
        seq![Component::CurDir] + piece_components(pieces.drop_first())
    } else {
        piece_components(pieces)
    }
}

/// The key of one component: a tag, then (for a normal component) its
/// characters shifted up by one, then a terminating zero.
pub open spec fn component_key(c: Component) -> Seq<u32> {
    match c {
        Component::RootDir => seq![1u32, 0u32],
        Component::CurDir => seq![2u32, 0u32],
        Component::ParentDir => seq![3u32, 0u32],
        Component::Normal(name) => seq![4u32] + name.map_values(|ch: char| (ch as u32 + 1) as u32)
            + seq![0u32],
    }
}

pub open spec fn components_key(cs: Seq<Component>) -> Seq<u32>
    decreases cs.len(),
{
    if cs.len() == 0 {
        Seq::empty()
    } else {
        components_key(cs.drop_last()) + component_key(cs.last())
    }
}

/// The key of the path `p`.
pub open spec fn path_key(p: Seq<char>) -> Seq<u32> {
    components_key(path_components(p))
}

/// Strict lexicographic order on keys: a proper prefix comes first.
pub open spec fn key_less(a: Seq<u32>, b: Seq<u32>) -> bool
    decreases a.len(),
{
    if a.len() == 0 {
        b.len() > 0
    } else if b.len() == 0 {
        false
    } else if a[0] != b[0] {
        a[0] < b[0]
    } else {
        key_less(a.drop_first(), b.drop_first())
    }
}

/// `a` comes before `b` as a path.
pub open spec fn path_less(a: Seq<char>, b: Seq<char>) -> bool {
    key_less(path_key(a), path_key(b))
}

/// `a` and `b` name the same path.
pub open spec fn path_same(a: Seq<char>, b: Seq<char>) -> bool {
    path_key(a) == path_key(b)
}

/// The outcome of comparing two values.
#[derive(Clone, Copy, Debug, PartialEq, Eq, Structural)]
pub enum Order {
    Less,
    Equal,
    Greater,
}

pub proof fn lemma_key_less_irreflexive(a: Seq<u32>)
    ensures
        !key_less(a, a),
    decreases a.len(),
{
    if a.len() > 0 {
        lemma_key_less_irreflexive(a.drop_first());
    }
}

pub proof fn lemma_key_less_total(a: Seq<u32>, b: Seq<u32>)
    ensures
        a == b || key_less(a, b) || key_less(b, a),
    decreases a.len(),
{
    if a.len() > 0 && b.len() > 0 && a[0] == b[0] {
        lemma_key_less_total(a.drop_first(), b.drop_first());
        if a.drop_first() == b.drop_first() {
            assert(a =~= seq![a[0]] + a.drop_first());
            assert(b =~= seq![b[0]] + b.drop_first());
        }
    } else if a.len() == 0 && b.len() == 0 {
        assert(a =~= b);
    }
}

pub proof fn lemma_key_less_asymmetric(a: Seq<u32>, b: Seq<u32>)
    ensures
        !(key_less(a, b) && key_less(b, a)),
    decreases a.len(),
{
    if a.len() > 0 && b.len() > 0 && a[0] == b[0] {
        lemma_key_less_asymmetric(a.drop_first(), b.drop_first());
    }
}

pub proof fn lemma_key_less_transitive(a: Seq<u32>, b: Seq<u32>, c: Seq<u32>)
    requires
        key_less(a, b),
        key_less(b, c),
    ensures
        key_less(a, c),
    decreases a.len(),
{
    if a.len() > 0 && b.len() > 0 && c.len() > 0 && a[0] == b[0] && b[0] == c[0] {
        lemma_key_less_transitive(a.drop_first(), b.drop_first(), c.drop_first());
    }
}

/// No path comes before itself.
pub proof fn law_path_less_irreflexive(a: Seq<char>)
    ensures
        !path_less(a, a),
{
    lemma_key_less_irreflexive(path_key(a));
}

/// The path order is transitive.
pub proof fn law_path_less_transitive(a: Seq<char>, b: Seq<char>, c: Seq<char>)
    requires
        path_less(a, b),
        path_less(b, c),
    ensures
        path_less(a, c),
{
    lemma_key_less_transitive(path_key(a), path_key(b), path_key(c));
}

/// Of two paths, exactly one holds: the first comes before, the second comes
/// before, or they are the same path.
pub proof fn law_path_order_total(a: Seq<char>, b: Seq<char>)
    ensures
        path_less(a, b) || path_less(b, a) || path_same(a, b),
        !(path_less(a, b) && path_less(b, a)),
        path_same(a, b) ==> !path_less(a, b) && !path_less(b, a),
{
    lemma_key_less_total(path_key(a), path_key(b));
    lemma_key_less_asymmetric(path_key(a), path_key(b));
    lemma_key_less_irreflexive(path_key(a));
}

/// A character's code is below 0x110000.
pub proof fn lemma_char_code_range(c: char)
    ensures
        (c as u32) < 0x110000,
{
}

/// The key of a component without its terminating zero.
pub open spec fn component_body(c: Component) -> Seq<u32> {
    component_key(c).drop_last()
}

pub open spec fn zero_free(s: Seq<u32>) -> bool {
    forall|i: int| 0 <= i < s.len() ==> #[trigger] s[i] != 0
}

proof fn lemma_component_key_shape(c: Component)
    ensures
        component_key(c) == component_body(c).push(0u32),
        component_body(c).len() >= 1,
        zero_free(component_body(c)),
{
    match c {
        Component::Normal(name) => {
            let f = |ch: char| (ch as u32 + 1) as u32;
            let b = seq![4u32] + name.map_values(f);
            assert(component_key(c) =~= b.push(0u32));
            assert(component_body(c) =~= b);
            assert forall|i: int| 0 <= i < b.len() implies #[trigger] b[i] != 0 by {
                if i > 0 {
                    lemma_char_code_range(name[i - 1]);
                }
            }
        },
        _ => {
            assert(component_key(c) =~= component_body(c).push(0u32));
        },
    }
}

proof fn lemma_components_key_ends_in_zero(cs: Seq<Component>)
    ensures
        components_key(cs).len() == 0 <==> cs.len() == 0,
        cs.len() > 0 ==> components_key(cs).last() == 0,
{
    if cs.len() > 0 {
        lemma_component_key_shape(cs.last());
        lemma_components_key_push(cs.drop_last(), cs.last());
        assert(cs.drop_last().push(cs.last()) =~= cs);
    }
}

/// A key that is empty or ends in zero, followed by a zero-free body, can be
/// split back into the two.
proof fn lemma_split_key_body(x: Seq<u32>, b1: Seq<u32>, y: Seq<u32>, b2: Seq<u32>)
    requires
        x + b1 == y + b2,
        x.len() == 0 || x.last() == 0,
        y.len() == 0 || y.last() == 0,
        zero_free(b1),
        zero_free(b2),
    ensures
        b1 == b2,
        x == y,
{
    let l = (x + b1).len();
    if b1.len() < b2.len() {
        assert(x.len() > 0);
        let p = x.len() - 1;
        assert((x + b1)[p] == 0);
        assert((y + b2)[p] == b2[p - y.len()]);
    } else if b2.len() < b1.len() {
        assert(y.len() > 0);
        let p = y.len() - 1;
        assert((y + b2)[p] == 0);
        assert((x + b1)[p] == b1[p - x.len()]);
    } else {
        assert(b1 =~= (x + b1).skip(x.len() as int));
        assert(b2 =~= (y + b2).skip(y.len() as int));
        assert(x =~= (x + b1).take(x.len() as int));
        assert(y =~= (y + b2).take(y.len() as int));
    }
}

proof fn lemma_component_body_injective(c: Component, d: Component)
    requires
        component_body(c) == component_body(d),
    ensures
        c == d,
{
    lemma_component_key_shape(c);
    lemma_component_key_shape(d);
    assert(component_key(c) == component_key(d));
    match (c, d) {
        (Component::Normal(n), Component::Normal(m)) => {
            let f = |ch: char| (ch as u32 + 1) as u32;
            let kc = component_key(c);
            assert(n.len() == m.len()) by {
                assert(kc.len() == n.len() + 2);
                assert(component_key(d).len() == m.len() + 2);
            }
            assert forall|i: int| 0 <= i < n.len() implies n[i] == m[i] by {
                assert(kc[i + 1] == f(n[i]));
                assert(component_key(d)[i + 1] == f(m[i]));
                lemma_char_code_range(n[i]);
                lemma_char_code_range(m[i]);
                assert(n[i] as u32 == m[i] as u32);
                vstd::utf8::char_u32_cast(n[i], n[i] as u32);
                vstd::utf8::char_u32_cast(m[i], m[i] as u32);
            }
            assert(n =~= m);
        },
        _ => {
            assert(component_key(c)[0] == component_key(d)[0]);
        },
    }
}

/// Different component lists have different keys.
pub proof fn lemma_components_key_injective(cs: Seq<Component>, ds: Seq<Component>)
    requires
        components_key(cs) == components_key(ds),
    ensures
        cs == ds,
    decreases cs.len(),
{
    lemma_components_key_ends_in_zero(cs);
    lemma_components_key_ends_in_zero(ds);
    if cs.len() == 0 || ds.len() == 0 {
        assert(cs =~= ds);
    } else {
        let (pc, lc) = (cs.drop_last(), cs.last());
        let (pd, ld) = (ds.drop_last(), ds.last());
        lemma_components_key_push(pc, lc);
        lemma_components_key_push(pd, ld);
        assert(pc.push(lc) =~= cs);
        assert(pd.push(ld) =~= ds);
        lemma_component_key_shape(lc);
        lemma_component_key_shape(ld);
        lemma_components_key_ends_in_zero(pc);
        lemma_components_key_ends_in_zero(pd);
        let (kc, kd) = (components_key(pc), components_key(pd));
        assert(components_key(cs).drop_last() =~= kc + component_body(lc));
        assert(components_key(ds).drop_last() =~= kd + component_body(ld));
        lemma_split_key_body(kc, component_body(lc), kd, component_body(ld));
        lemma_component_body_injective(lc, ld);
        lemma_components_key_injective(pc, pd);
    }
}

/// Two paths are the same path exactly when they have the same components
/// (as `Path`'s equality says).
pub proof fn law_path_same_iff_same_components(a: Seq<char>, b: Seq<char>)
    ensures
        path_same(a, b) <==> path_components(a) == path_components(b),
{
    if path_same(a, b) {
        lemma_components_key_injective(path_components(a), path_components(b));
    }
}

/// The rank of a component's kind: root, current dir, parent dir, normal.
pub open spec fn component_rank(c: Component) -> int {
    match c {
        Component::RootDir => 1,
        Component::CurDir => 2,
        Component::ParentDir => 3,
        Component::Normal(_) => 4,
    }
}

/// Lexicographic order of names by character codes (the order of their
/// UTF-8 bytes); a proper prefix comes first.
pub open spec fn chars_less(a: Seq<char>, b: Seq<char>) -> bool
    decreases a.len(),
{
    if a.len() == 0 {
        b.len() > 0
    } else if b.len() == 0 {
        false
    } else if a[0] != b[0] {
        (a[0] as u32) < (b[0] as u32)
    } else {
        chars_less(a.drop_first(), b.drop_first())
    }
}

/// The order of two components: by kind, then normal ones by name.
pub open spec fn component_less(c: Component, d: Component) -> bool {
    if component_rank(c) != component_rank(d) {
        component_rank(c) < component_rank(d)
    } else {
        match (c, d) {
            (Component::Normal(n), Component::Normal(m)) => chars_less(n, m),
            _ => false,
        }
    }
}

/// Lexicographic order of component lists; a proper prefix comes first.
pub open spec fn components_less(cs: Seq<Component>, ds: Seq<Component>) -> bool
    decreases cs.len(),
{
    if cs.len() == 0 {
        ds.len() > 0
    } else if ds.len() == 0 {
        false
    } else if cs[0] != ds[0] {
        component_less(cs[0], ds[0])
    } else {
        components_less(cs.drop_first(), ds.drop_first())
    }
}

proof fn lemma_key_less_common_prefix(p: Seq<u32>, x: Seq<u32>, y: Seq<u32>)
    ensures
        key_less(p + x, p + y) == key_less(x, y),
    decreases p.len(),
{
    if p.len() > 0 {
        assert((p + x).drop_first() =~= p.drop_first() + x);
        assert((p + y).drop_first() =~= p.drop_first() + y);
        lemma_key_less_common_prefix(p.drop_first(), x, y);
    } else {
        assert(p + x =~= x);
        assert(p + y =~= y);
    }
}

/// A zero-free run closed by a zero.
pub open spec fn closed_run(u: Seq<u32>) -> bool {
    u.len() >= 1 && u.last() == 0 && zero_free(u.drop_last())
}

/// Two different closed runs are decided before either ends, whatever follows.
proof fn lemma_key_less_closed_runs(u: Seq<u32>, v: Seq<u32>, x: Seq<u32>, y: Seq<u32>)
    requires
        closed_run(u),
        closed_run(v),
        u != v,
    ensures
        key_less(u + x, v + y) == key_less(u, v),
    decreases u.len(),
{
    if u[0] != v[0] {
        assert((u + x)[0] == u[0] && (v + y)[0] == v[0]);
    } else {
        if u.len() == 1 || v.len() == 1 {
            if u.len() > 1 {
                assert(u.drop_last()[0] == u[0]);
            }
            if v.len() > 1 {
                assert(v.drop_last()[0] == v[0]);
            }
            assert(u =~= v);
        }
        let (u2, v2) = (u.drop_first(), v.drop_first());
        assert(u2.drop_last() =~= u.drop_last().drop_first());
        assert(v2.drop_last() =~= v.drop_last().drop_first());
        assert(u2 != v2) by {
            if u2 == v2 {
                assert(u =~= seq![u[0]] + u2);
                assert(v =~= seq![v[0]] + v2);
            }
        }
        assert(zero_free(u2.drop_last()));
        assert(zero_free(v2.drop_last()));
        assert((u + x).drop_first() =~= u2 + x);
        assert((v + y).drop_first() =~= v2 + y);
        lemma_key_less_closed_runs(u2, v2, x, y);
    }
}

proof fn lemma_chars_key_less(n: Seq<char>, m: Seq<char>)
    ensures
        key_less(
            n.map_values(|ch: char| (ch as u32 + 1) as u32) + seq![0u32],
            m.map_values(|ch: char| (ch as u32 + 1) as u32) + seq![0u32],
        ) == chars_less(n, m),
    decreases n.len(),
{
    let f = |ch: char| (ch as u32 + 1) as u32;
    let a = n.map_values(f) + seq![0u32];
    let b = m.map_values(f) + seq![0u32];
    if n.len() == 0 {
        if m.len() > 0 {
            lemma_char_code_range(m[0]);
            assert(b[0] == f(m[0]));
        } else {
            assert(a =~= b);
            lemma_key_less_irreflexive(a);
        }
    } else if m.len() == 0 {
        lemma_char_code_range(n[0]);
        assert(a[0] == f(n[0]));
    } else {
        lemma_char_code_range(n[0]);
        lemma_char_code_range(m[0]);
        assert(a[0] == f(n[0]) && b[0] == f(m[0]));
        if n[0] != m[0] {
            vstd::utf8::char_u32_cast(n[0], n[0] as u32);
            vstd::utf8::char_u32_cast(m[0], m[0] as u32);
        } else {
            assert(a.drop_first() =~= n.drop_first().map_values(f) + seq![0u32]);
            assert(b.drop_first() =~= m.drop_first().map_values(f) + seq![0u32]);
            lemma_chars_key_less(n.drop_first(), m.drop_first());
        }
    }
}

proof fn lemma_component_key_less(c: Component, d: Component)
    ensures
        key_less(component_key(c), component_key(d)) == component_less(c, d),
{
    lemma_component_key_shape(c);
    lemma_component_key_shape(d);
    let (u, v) = (component_key(c), component_key(d));
    if component_rank(c) != component_rank(d) {
        assert(u[0] == component_rank(c) && v[0] == component_rank(d));
    } else {
        match (c, d) {
            (Component::Normal(n), Component::Normal(m)) => {
                let f = |ch: char| (ch as u32 + 1) as u32;
                assert(u =~= seq![4u32] + (n.map_values(f) + seq![0u32]));
                assert(v =~= seq![4u32] + (m.map_values(f) + seq![0u32]));
                lemma_key_less_common_prefix(seq![4u32], n.map_values(f) + seq![0u32], m.map_values(f) + seq![0u32]);
                lemma_chars_key_less(n, m);
            },
            _ => {
                assert(c == d);
                lemma_key_less_irreflexive(u);
            },
        }
    }
}

proof fn lemma_components_key_cons(c: Component, rest: Seq<Component>)
    ensures
        components_key(seq![c] + rest) == component_key(c) + components_key(rest),
{
    lemma_components_key_concat(seq![c], rest);
    lemma_components_key_push(Seq::empty(), c);
    assert(Seq::<Component>::empty().push(c) =~= seq![c]);
    assert(components_key(Seq::<Component>::empty()) =~= Seq::<u32>::empty());
    assert(Seq::<u32>::empty() + component_key(c) =~= component_key(c));
}

proof fn lemma_components_key_less(cs: Seq<Component>, ds: Seq<Component>)
    ensures
        key_less(components_key(cs), components_key(ds)) == components_less(cs, ds),
    decreases cs.len(),
{
    lemma_components_key_ends_in_zero(cs);
    lemma_components_key_ends_in_zero(ds);
    if cs.len() > 0 && ds.len() > 0 {
        let (c, d) = (cs[0], ds[0]);
        let (rc, rd) = (cs.drop_first(), ds.drop_first());
        assert(cs =~= seq![c] + rc);
        assert(ds =~= seq![d] + rd);
        lemma_components_key_cons(c, rc);
        lemma_components_key_cons(d, rd);
        if c == d {
            lemma_key_less_common_prefix(component_key(c), components_key(rc), components_key(rd));
            lemma_components_key_less(rc, rd);
        } else {
            lemma_component_key_shape(c);
            lemma_component_key_shape(d);
            assert(component_key(c).drop_last() == component_body(c));
            assert(component_key(d).drop_last() == component_body(d));
            assert(component_key(c) != component_key(d)) by {
                if component_key(c) == component_key(d) {
                    lemma_component_body_injective(c, d);
                }
            }
            lemma_key_less_closed_runs(component_key(c), component_key(d), components_key(rc), components_key(rd));
            lemma_component_key_less(c, d);
        }
    }
}

/// The path order is `Path`'s: paths are compared component by component,
/// components by kind (root, current dir, parent dir, normal) and normal
/// ones by name, and a path that is a proper prefix of another comes first.
pub proof fn law_path_less_is_component_order(a: Seq<char>, b: Seq<char>)
    ensures
        path_less(a, b) == components_less(path_components(a), path_components(b)),
{
    lemma_components_key_less(path_components(a), path_components(b));
}

/// Compares two keys.
pub fn compare_keys(a: &Vec<u32>, b: &Vec<u32>) -> (r: Order)
    ensures
        r == Order::Less <==> key_less(a@, b@),
        r == Order::Equal <==> a@ == b@,
        r == Order::Greater <==> key_less(b@, a@),
{
    let mut i: usize = 0;
    proof {
        assert(a@.skip(0) =~= a@);
        assert(b@.skip(0) =~= b@);
        lemma_key_less_asymmetric(a@, b@);
        lemma_key_less_total(a@, b@);
        lemma_key_less_irreflexive(a@);
    }
    while i < a.len() && i < b.len()
        invariant
            i <= a.len(),
            i <= b.len(),
            a@.take(i as int) == b@.take(i as int),
            key_less(a@, b@) == key_less(a@.skip(i as int), b@.skip(i as int)),
            key_less(b@, a@) == key_less(b@.skip(i as int), a@.skip(i as int)),
        decreases a.len() - i,
    {
        if a[i] < b[i] {
            return Order::Less;
        }
        if b[i] < a[i] {
            return Order::Greater;
        }
        proof {
            assert(a@.skip(i as int).drop_first() =~= a@.skip(i + 1));
            assert(b@.skip(i as int).drop_first() =~= b@.skip(i + 1));
            assert(a@.take(i + 1) =~= a@.take(i as int).push(a@[i as int]));
            assert(b@.take(i + 1) =~= b@.take(i as int).push(b@[i as int]));
        }
        i = i + 1;
    }
    if i < b.len() {
        Order::Less
    } else if i < a.len() {
        Order::Greater
    } else {
        proof {
            assert(a@ =~= a@.take(i as int));
            assert(b@ =~= b@.take(i as int));
        }
        Order::Equal
    }
}

pub proof fn lemma_components_key_concat(a: Seq<Component>, b: Seq<Component>)
    ensures
        components_key(a + b) == components_key(a) + components_key(b),
    decreases b.len(),
{
    if b.len() == 0 {
        assert(a + b =~= a);
        assert(components_key(a) + components_key(b) =~= components_key(a));
    } else {
        lemma_components_key_concat(a, b.drop_last());
        assert((a + b).drop_last() =~= a + b.drop_last());
        assert(components_key(a + b) =~= components_key(a) + components_key(b));
    }
}

pub proof fn lemma_components_key_push(cs: Seq<Component>, c: Component)
    ensures
        components_key(cs.push(c)) == components_key(cs) + component_key(c),
{
    assert(cs.push(c).drop_last() =~= cs);
}

pub proof fn lemma_piece_components_single(x: Seq<char>)
    ensures
        piece_components(seq![x]) == (if x.len() == 0 || x == dot() {
            Seq::<Component>::empty()
        } else if x == dot_dot() {
            seq![Component::ParentDir]
        } else {
            seq![Component::Normal(x)]
        }),
{
    assert(seq![x].drop_last() =~= Seq::<Seq<char>>::empty());
    assert(piece_components(Seq::<Seq<char>>::empty()) =~= Seq::<Component>::empty());
    assert(Seq::<Component>::empty().push(Component::ParentDir) =~= seq![Component::ParentDir]);
    assert(Seq::<Component>::empty().push(Component::Normal(x)) =~= seq![Component::Normal(x)]);
}

pub proof fn lemma_piece_components_push(s: Seq<Seq<char>>, x: Seq<char>)
    ensures
        piece_components(s.push(x)) == piece_components(s) + piece_components(seq![x]),
{
    lemma_piece_components_single(x);
    assert(s.push(x).drop_last() =~= s);
    assert(piece_components(s) + Seq::<Component>::empty() =~= piece_components(s));
    assert(piece_components(s) + seq![Component::ParentDir] =~= piece_components(s).push(Component::ParentDir));
    assert(piece_components(s) + seq![Component::Normal(x)] =~= piece_components(s).push(Component::Normal(x)));
}

/// The code of `c`, plus one.
fn shifted_code(c: char) -> (r: u32)
    ensures
        r == (c as u32 + 1) as u32,
{
    c as u32 + 1
}

/// Appends the key of the component named by the piece `x` (if any) to `key`.
fn push_piece_key(key: &mut Vec<u32>, x: &Vec<char>)
    ensures
        final(key)@ == old(key)@ + components_key(piece_components(seq![x@])),
{
    proof {
        lemma_piece_components_single(x@);
        lemma_components_key_push(Seq::empty(), Component::ParentDir);
        lemma_components_key_push(Seq::empty(), Component::Normal(x@));
    }
    if x.len() == 0 || (x.len() == 1 && x[0] == '.') {
        assert(x@.len() == 0 || x@ =~= dot());
        assert(components_key(Seq::<Component>::empty()) =~= Seq::<u32>::empty());
        assert(old(key)@ + Seq::<u32>::empty() =~= old(key)@);
        assert(key@ == old(key)@ + components_key(piece_components(seq![x@])));
    } else if x.len() == 2 && x[0] == '.' && x[1] == '.' {
        assert(x@ =~= dot_dot());
        key.push(3);
        key.push(0);
        assert(key@ =~= old(key)@ + component_key(Component::ParentDir));
        assert(Seq::<Component>::empty().push(Component::ParentDir) =~= seq![Component::ParentDir]);
        assert(key@ == old(key)@ + components_key(piece_components(seq![x@])));
    } else {
        assert(x@ != dot()) by {
            if x@ == dot() {
                assert(x@.len() == 1 && x@[0] == '.');
            }
        }
        assert(x@ != dot_dot()) by {
            if x@ == dot_dot() {
                assert(x@.len() == 2 && x@[0] == '.' && x@[1] == '.');
            }
        }
        key.push(4);
        let ghost start = key@;
        let mut k: usize = 0;
        while k < x.len()
            invariant
                k <= x.len(),
                key@ == start + x@.take(k as int).map_values(|ch: char| (ch as u32 + 1) as u32),
            decreases x.len() - k,
        {
            let c = x[k];
            key.push(shifted_code(c));
            k = k + 1;
            assert(x@.take(k as int).map_values(|ch: char| (ch as u32 + 1) as u32) =~= x@.take(
                (k - 1) as int,
            ).map_values(|ch: char| (ch as u32 + 1) as u32).push((c as u32 + 1) as u32));
        }
        key.push(0);
        assert(x@.take(k as int) =~= x@);
        assert(key@ =~= old(key)@ + component_key(Component::Normal(x@)));
        assert(Seq::<Component>::empty().push(Component::Normal(x@)) =~= seq![Component::Normal(x@)]);
        assert(key@ == old(key)@ + components_key(piece_components(seq![x@])));
    }
}

/// The key of the path `p`.
pub fn path_key_of(p: &str) -> (key: Vec<u32>)
    ensures
        key@ == path_key(p@),
{
    let cs = chars_of(p);
    let pieces = split_pieces(cs.as_slice(), '/');
    let ghost all = views(pieces@);
    proof {
        lemma_split_nonempty(cs@, '/');
    }
    let mut key: Vec<u32> = Vec::new();
    let mut start: usize = 0;
    let ghost head: Seq<Component> = Seq::empty();
    if cs.len() > 0 && cs[0] == '/' {
        key.push(1);
        key.push(0);
        start = 1;
        proof {
            head = seq![Component::RootDir];
        }
    } else if pieces[0].len() == 1 && pieces[0][0] == '.' {
        key.push(2);
        key.push(0);
        start = 1;
        proof {
            head = seq![Component::CurDir];
            assert(all[0] =~= dot());
        }
    } else {
        proof {
            if all[0] == dot() {
                assert(all[0].len() == 1 && all[0][0] == '.');
            }
        }
    }
    proof {
        assert(key@ =~= components_key(head)) by {
            if head.len() == 1 {
                lemma_components_key_push(Seq::empty(), head[0]);
                assert(Seq::<Component>::empty().push(head[0]) =~= head);
            }
        }
        assert(head + piece_components(all.subrange(start as int, start as int)) =~= head) by {
            assert(all.subrange(start as int, start as int) =~= Seq::<Seq<char>>::empty());
        }
    }
    let mut j: usize = start;
    while j < pieces.len()
        invariant
            start <= j <= pieces.len(),
            all == views(pieces@),
            key@ == components_key(head + piece_components(all.subrange(start as int, j as int))),
        decreases pieces.len() - j,
    {
        let ghost prev = head + piece_components(all.subrange(start as int, j as int));
        push_piece_key(&mut key, &pieces[j]);
        proof {
            let x = all[j as int];
            assert(all.subrange(start as int, j + 1) =~= all.subrange(start as int, j as int).push(x));
            lemma_piece_components_push(all.subrange(start as int, j as int), x);
            let next = head + piece_components(all.subrange(start as int, j + 1));
            assert(next =~= prev + piece_components(seq![x]));
            lemma_components_key_concat(prev, piece_components(seq![x]));
        }
        j = j + 1;
    }
    proof {
        assert(all.subrange(start as int, j as int) =~= if start == 1 { all.drop_first() } else { all });
    }
    key
}

/// Compares the paths `a` and `b`.
pub fn compare_paths(a: &str, b: &str) -> (r: Order)
    ensures
        r == Order::Less <==> path_less(a@, b@),
        r == Order::Equal <==> path_same(a@, b@),
        r == Order::Greater <==> path_less(b@, a@),
{
    let ka = path_key_of(a);
    let kb = path_key_of(b);
    compare_keys(&ka, &kb)
}

} // verus!
