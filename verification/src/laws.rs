//! What the structural operations promise together: a read gives back what a
//! write wrote, a removed field is gone, and well-formed trees stay well-formed.
use vstd::prelude::*;
use crate::model::{
    Data, Step, key_lt, sorted_entries, wf, wf_list, wf_entries, lookup, upsert, replace_first, remove_key, child,
    at, read, put_child, set_at, add_at, access, remove_child, remove_at, child_removable, removable,
};
use crate::value::{lemma_add_reads_back, lemma_child_put};
use crate::script::with_parents;

verus! {

// ---------------------------------------------------------------------------
// Key order.

/// No key comes before itself.
pub proof fn lemma_key_lt_irreflexive(a: Seq<char>)
    ensures
        !key_lt(a, a),
    decreases a.len(),
{
    if a.len() > 0 {
        lemma_key_lt_irreflexive(a.drop_first());
    }
}

/// The key order is transitive.
pub proof fn lemma_key_lt_transitive(a: Seq<char>, b: Seq<char>, c: Seq<char>)
    requires
        key_lt(a, b),
        key_lt(b, c),
    ensures
        key_lt(a, c),
    decreases a.len(),
{
    if a.len() > 0 && b.len() > 0 && c.len() > 0 && a[0] == b[0] && b[0] == c[0] {
        lemma_key_lt_transitive(a.drop_first(), b.drop_first(), c.drop_first());
    }
}

/// Two distinct keys are ordered one way or the other.
pub proof fn lemma_key_lt_total(a: Seq<char>, b: Seq<char>)
    requires
        a != b,
    ensures
        key_lt(a, b) || key_lt(b, a),
    decreases a.len(),
{
    if a.len() == 0 {
        if b.len() == 0 {
            assert(a =~= b);
        }
    } else if b.len() == 0 {
    } else if a[0] == b[0] {
        if a.drop_first() == b.drop_first() {
            assert(a =~= seq![a[0]] + a.drop_first());
            assert(b =~= seq![b[0]] + b.drop_first());
        }
        lemma_key_lt_total(a.drop_first(), b.drop_first());
    } else {
        lemma_char_u32_injective(a[0], b[0]);
    }
}

proof fn lemma_char_u32_injective(x: char, y: char)
    requires
        x != y,
    ensures
        (x as u32) != (y as u32),
{
    assert((x as u32) as char == x);
}

/// Of two keys, at most one comes first.
pub proof fn lemma_key_lt_asymmetric(a: Seq<char>, b: Seq<char>)
    requires
        key_lt(a, b),
    ensures
        !key_lt(b, a),
{
    if key_lt(b, a) {
        lemma_key_lt_transitive(a, b, a);
        lemma_key_lt_irreflexive(a);
    }
}

// ---------------------------------------------------------------------------
// Entries.

proof fn lemma_sorted_tail(e: Seq<(Seq<char>, Data)>)
    requires
        sorted_entries(e),
        e.len() > 0,
    ensures
        sorted_entries(e.drop_first()),
{
    assert forall|i: int, j: int| 0 <= i < j < e.drop_first().len() implies key_lt(
        #[trigger] e.drop_first()[i].0,
        #[trigger] e.drop_first()[j].0,
    ) by {
        assert(e.drop_first()[i] == e[i + 1]);
        assert(e.drop_first()[j] == e[j + 1]);
    }
}

/// In ordered entries, a key before all keys is absent.
proof fn lemma_lookup_below(e: Seq<(Seq<char>, Data)>, k: Seq<char>)
    requires
        sorted_entries(e),
        forall|i: int| 0 <= i < e.len() ==> key_lt(k, #[trigger] e[i].0),
    ensures
        lookup(e, k) is None,
    decreases e.len(),
{
    if e.len() > 0 {
        lemma_key_lt_irreflexive(k);
        lemma_sorted_tail(e);
        assert forall|i: int| 0 <= i < e.drop_first().len() implies key_lt(
            k,
            #[trigger] e.drop_first()[i].0,
        ) by {
            assert(e.drop_first()[i] == e[i + 1]);
        }
        lemma_lookup_below(e.drop_first(), k);
    }
}

/// Every key of `upsert(e, k, x)` is `k` or a key of `e`.
proof fn lemma_upsert_keys(e: Seq<(Seq<char>, Data)>, k: Seq<char>, x: Data)
    ensures
        forall|i: int|
            0 <= i < upsert(e, k, x).len() ==> #[trigger] upsert(e, k, x)[i].0 == k || exists|j: int|
                0 <= j < e.len() && e[j].0 == upsert(e, k, x)[i].0,
        upsert(e, k, x).len() > 0,
        upsert(e, k, x)[0].0 == k || upsert(e, k, x)[0] == e[0],
    decreases e.len(),
{
    if e.len() > 0 && e[0].0 != k && !key_lt(k, e[0].0) {
        lemma_upsert_keys(e.drop_first(), k, x);
        let u = upsert(e, k, x);
        let r = upsert(e.drop_first(), k, x);
        assert(u == seq![e[0]] + r);
        assert forall|i: int| 0 <= i < u.len() implies #[trigger] u[i].0 == k || exists|j: int|
            0 <= j < e.len() && e[j].0 == u[i].0 by {
            if i == 0 {
                assert(e[0].0 == u[0].0);
            } else {
                assert(u[i] == r[i - 1]);
                if r[i - 1].0 != k {
                    let j = choose|j: int| 0 <= j < e.drop_first().len() && e.drop_first()[j].0 == r[i - 1].0;
                    assert(e[j + 1].0 == u[i].0);
                }
            }
        }
    } else if e.len() > 0 && e[0].0 == k {
        let u = upsert(e, k, x);
        assert forall|i: int| 0 <= i < u.len() implies #[trigger] u[i].0 == k || exists|j: int|
            0 <= j < e.len() && e[j].0 == u[i].0 by {
            if i != 0 {
                assert(e[i].0 == u[i].0);
            }
        }
    } else if e.len() > 0 {
        let u = upsert(e, k, x);
        assert forall|i: int| 0 <= i < u.len() implies #[trigger] u[i].0 == k || exists|j: int|
            0 <= j < e.len() && e[j].0 == u[i].0 by {
            if i != 0 {
                assert(u[i] == e[i - 1]);
            }
        }
    }
}

/// Writing an entry keeps the entries ordered.
pub proof fn lemma_upsert_sorted(e: Seq<(Seq<char>, Data)>, k: Seq<char>, x: Data)
    requires
        sorted_entries(e),
    ensures
        sorted_entries(upsert(e, k, x)),
    decreases e.len(),
{
    let u = upsert(e, k, x);
    if e.len() == 0 {
    } else if e[0].0 == k {
        assert forall|i: int, j: int| 0 <= i < j < u.len() implies key_lt(
            #[trigger] u[i].0,
            #[trigger] u[j].0,
        ) by {
            assert(u[i].0 == e[i].0);
            assert(u[j].0 == e[j].0);
        }
    } else if key_lt(k, e[0].0) {
        assert forall|i: int, j: int| 0 <= i < j < u.len() implies key_lt(
            #[trigger] u[i].0,
            #[trigger] u[j].0,
        ) by {
            assert(u[j] == e[j - 1]);
            if i == 0 {
                if j - 1 > 0 {
                    lemma_key_lt_transitive(k, e[0].0, e[j - 1].0);
                }
            } else {
                assert(u[i] == e[i - 1]);
            }
        }
    } else {
        lemma_key_lt_total(k, e[0].0);
        lemma_sorted_tail(e);
        lemma_upsert_sorted(e.drop_first(), k, x);
        lemma_upsert_keys(e.drop_first(), k, x);
        let r = upsert(e.drop_first(), k, x);
        assert(u == seq![e[0]] + r);
        assert forall|i: int, j: int| 0 <= i < j < u.len() implies key_lt(
            #[trigger] u[i].0,
            #[trigger] u[j].0,
        ) by {
            assert(u[j] == r[j - 1]);
            if i == 0 {
                if r[j - 1].0 != k {
                    let m = choose|m: int|
                        0 <= m < e.drop_first().len() && e.drop_first()[m].0 == r[j - 1].0;
                    assert(e[m + 1].0 == r[j - 1].0);
                }
            } else {
                assert(u[i] == r[i - 1]);
            }
        }
    }
}

proof fn lemma_replace_first_keys(e: Seq<(Seq<char>, Data)>, k: Seq<char>, x: Data)
    ensures
        replace_first(e, k, x).len() == e.len(),
        forall|i: int| 0 <= i < e.len() ==> #[trigger] replace_first(e, k, x)[i].0 == e[i].0,
        forall|i: int|
            0 <= i < e.len() ==> #[trigger] replace_first(e, k, x)[i].1 == e[i].1 || replace_first(
                e,
                k,
                x,
            )[i].1 == x,
    decreases e.len(),
{
    if e.len() > 0 && e[0].0 != k {
        lemma_replace_first_keys(e.drop_first(), k, x);
        let r = replace_first(e, k, x);
        assert forall|i: int| 0 < i < e.len() implies #[trigger] r[i] == replace_first(
            e.drop_first(),
            k,
            x,
        )[i - 1] by {}
    }
}

proof fn lemma_remove_key_shape(e: Seq<(Seq<char>, Data)>, k: Seq<char>)
    ensures
        remove_key(e, k) == e || exists|j: int| 0 <= j < e.len() && remove_key(e, k) == e.remove(j),
    decreases e.len(),
{
    if e.len() > 0 {
        if e[0].0 == k {
            assert(e.drop_first() =~= e.remove(0));
        } else {
            lemma_remove_key_shape(e.drop_first(), k);
            let t = remove_key(e.drop_first(), k);
            if t == e.drop_first() {
                assert(seq![e[0]] + e.drop_first() =~= e);
            } else {
                let j = choose|j: int| 0 <= j < e.drop_first().len() && t == e.drop_first().remove(j);
                assert(seq![e[0]] + e.drop_first().remove(j) =~= e.remove(j + 1));
            }
        }
    }
}

// ---------------------------------------------------------------------------
// Well-formedness is kept.

/// A list is well-formed exactly when each of its nodes is.
pub proof fn lemma_wf_list(l: Seq<Data>)
    ensures
        wf_list(l) <==> forall|i: int| 0 <= i < l.len() ==> #[trigger] wf(l[i]),
    decreases l.len(),
{
    if l.len() > 0 {
        lemma_wf_list(l.drop_last());
        if wf_list(l) {
            assert forall|i: int| 0 <= i < l.len() implies #[trigger] wf(l[i]) by {
                if i < l.len() - 1 {
                    assert(l.drop_last()[i] == l[i]);
                }
            }
        }
        if forall|i: int| 0 <= i < l.len() ==> #[trigger] wf(l[i]) {
            assert forall|i: int| 0 <= i < l.drop_last().len() implies #[trigger] wf(
                l.drop_last()[i],
            ) by {
                assert(l.drop_last()[i] == l[i]);
            }
            assert(wf(l[l.len() - 1]));
        }
    }
}

/// Entries are well-formed exactly when each of their values is.
pub proof fn lemma_wf_entries(e: Seq<(Seq<char>, Data)>)
    ensures
        wf_entries(e) <==> forall|i: int| 0 <= i < e.len() ==> #[trigger] wf(e[i].1),
    decreases e.len(),
{
    if e.len() > 0 {
        lemma_wf_entries(e.drop_last());
        if wf_entries(e) {
            assert forall|i: int| 0 <= i < e.len() implies #[trigger] wf(e[i].1) by {
                if i < e.len() - 1 {
                    assert(e.drop_last()[i] == e[i]);
                }
            }
        }
        if forall|i: int| 0 <= i < e.len() ==> #[trigger] wf(e[i].1) {
            assert forall|i: int| 0 <= i < e.drop_last().len() implies #[trigger] wf(
                e.drop_last()[i].1,
            ) by {
                assert(e.drop_last()[i] == e[i]);
            }
            assert(wf(e[e.len() - 1].1));
        }
    }
}

proof fn lemma_wf_put_child(d: Data, s: Step, x: Data)
    requires
        wf(d),
        wf(x),
        child(d, s) is Some,
    ensures
        wf(put_child(d, s, x)),
{
    match (d, s) {
        (Data::List(l), Step::Index(i)) => {
            let l2 = l.update(i, x);
            lemma_wf_list(l);
            lemma_wf_list(l2);
            assert forall|j: int| 0 <= j < l2.len() implies #[trigger] wf(l2[j]) by {
                if j != i {
                    assert(l2[j] == l[j]);
                }
            }
        },
        (Data::Object(e), Step::Field(k)) => {
            lemma_replace_first_keys(e, k, x);
            let e2 = replace_first(e, k, x);
            lemma_wf_entries(e);
            lemma_wf_entries(e2);
            assert forall|i: int, j: int| 0 <= i < j < e2.len() implies key_lt(
                #[trigger] e2[i].0,
                #[trigger] e2[j].0,
            ) by {
                assert(e2[i].0 == e[i].0);
                assert(e2[j].0 == e[j].0);
            }
            assert forall|i: int| 0 <= i < e2.len() implies #[trigger] wf(e2[i].1) by {
                assert(e2[i].1 == e[i].1 || e2[i].1 == x);
            }
        },
        _ => {},
    }
}

proof fn lemma_wf_child(d: Data, s: Step)
    requires
        wf(d),
        child(d, s) is Some,
    ensures
        wf(child(d, s).unwrap()),
{
    match (d, s) {
        (Data::Object(e), Step::Field(k)) => {
            lemma_wf_entries(e);
            lemma_wf_lookup(e, k);
        },
        (Data::List(l), Step::Index(i)) => {
            lemma_wf_list(l);
        },
        _ => {},
    }
}

proof fn lemma_wf_lookup(e: Seq<(Seq<char>, Data)>, k: Seq<char>)
    requires
        forall|i: int| 0 <= i < e.len() ==> #[trigger] wf(e[i].1),
        lookup(e, k) is Some,
    ensures
        wf(lookup(e, k).unwrap()),
    decreases e.len(),
{
    if e[0].0 != k {
        assert forall|i: int| 0 <= i < e.drop_first().len() implies #[trigger] wf(
            e.drop_first()[i].1,
        ) by {
            assert(e.drop_first()[i] == e[i + 1]);
        }
        lemma_wf_lookup(e.drop_first(), k);
    }
}

/// The node found along a path of a well-formed tree is well-formed.
pub proof fn lemma_wf_at(d: Data, p: Seq<Step>)
    requires
        wf(d),
        at(d, p) is Some,
    ensures
        wf(at(d, p).unwrap()),
    decreases p.len(),
{
    if p.len() > 0 {
        lemma_wf_child(d, p[0]);
        lemma_wf_at(child(d, p[0]).unwrap(), p.drop_first());
    }
}

/// Replacing a node of a well-formed tree with a well-formed node keeps the tree
/// well-formed.
pub proof fn law_set_keeps_wf(d: Data, p: Seq<Step>, x: Data)
    requires
        wf(d),
        wf(x),
    ensures
        wf(set_at(d, p, x)),
    decreases p.len(),
{
    if p.len() > 0 {
        if let Some(c) = child(d, p[0]) {
            lemma_wf_child(d, p[0]);
            law_set_keeps_wf(c, p.drop_first(), x);
            lemma_wf_put_child(d, p[0], set_at(c, p.drop_first(), x));
        }
    }
}

/// Adding a well-formed value to a well-formed tree keeps it well-formed.
pub proof fn law_add_keeps_wf(d: Data, p: Seq<Step>, x: Data)
    requires
        wf(d),
        wf(x),
    ensures
        add_at(d, p, x) matches Some((d2, _)) ==> wf(d2),
    decreases p.len(),
{
    if p.len() == 1 {
        match (d, p[0]) {
            (Data::Object(e), Step::Field(k)) => {
                lemma_upsert_sorted(e, k, x);
                lemma_upsert_keys(e, k, x);
                let u = upsert(e, k, x);
                lemma_wf_entries(e);
                lemma_wf_entries(u);
                assert forall|i: int| 0 <= i < u.len() implies #[trigger] wf(u[i].1) by {
                    lemma_upsert_values(e, k, x);
                }
            },
            (Data::List(l), Step::Append) => {
                let l2 = l.push(x);
                lemma_wf_list(l);
                lemma_wf_list(l2);
                assert forall|j: int| 0 <= j < l2.len() implies #[trigger] wf(l2[j]) by {
                    if j < l.len() {
                        assert(l2[j] == l[j]);
                    }
                }
            },
            _ => {},
        }
    } else if p.len() > 1 {
        if let Some(c) = child(d, p[0]) {
            lemma_wf_child(d, p[0]);
            law_add_keeps_wf(c, p.drop_first(), x);
            if let Some((c2, _)) = add_at(c, p.drop_first(), x) {
                lemma_wf_put_child(d, p[0], c2);
            }
        }
    }
}

proof fn lemma_upsert_values(e: Seq<(Seq<char>, Data)>, k: Seq<char>, x: Data)
    ensures
        forall|i: int|
            0 <= i < upsert(e, k, x).len() ==> #[trigger] upsert(e, k, x)[i].1 == x || exists|j: int|
                0 <= j < e.len() && e[j].1 == upsert(e, k, x)[i].1,
    decreases e.len(),
{
    let u = upsert(e, k, x);
    if e.len() > 0 && e[0].0 != k && !key_lt(k, e[0].0) {
        lemma_upsert_values(e.drop_first(), k, x);
        let r = upsert(e.drop_first(), k, x);
        assert forall|i: int| 0 <= i < u.len() implies #[trigger] u[i].1 == x || exists|j: int|
            0 <= j < e.len() && e[j].1 == u[i].1 by {
            if i == 0 {
                assert(e[0].1 == u[0].1);
            } else {
                assert(u[i] == r[i - 1]);
                if r[i - 1].1 != x {
                    let j = choose|j: int| 0 <= j < e.drop_first().len() && e.drop_first()[j].1 == r[i - 1].1;
                    assert(e[j + 1].1 == u[i].1);
                }
            }
        }
    } else if e.len() > 0 && e[0].0 == k {
        assert forall|i: int| 0 <= i < u.len() implies #[trigger] u[i].1 == x || exists|j: int|
            0 <= j < e.len() && e[j].1 == u[i].1 by {
            if i != 0 {
                assert(e[i].1 == u[i].1);
            }
        }
    } else if e.len() > 0 {
        assert forall|i: int| 0 <= i < u.len() implies #[trigger] u[i].1 == x || exists|j: int|
            0 <= j < e.len() && e[j].1 == u[i].1 by {
            if i != 0 {
                assert(u[i] == e[i - 1]);
            }
        }
    }
}

proof fn lemma_wf_remove_child(d: Data, s: Step)
    requires
        wf(d),
        child_removable(d, s),
    ensures
        wf(remove_child(d, s)),
{
    match (d, s) {
        (Data::List(l), Step::Index(i)) => {
            if 0 <= i < l.len() {
                let l2 = l.remove(i);
                lemma_wf_list(l);
                lemma_wf_list(l2);
                assert forall|j: int| 0 <= j < l2.len() implies #[trigger] wf(l2[j]) by {
                    if j < i {
                        assert(l2[j] == l[j]);
                    } else {
                        assert(l2[j] == l[j + 1]);
                    }
                }
            }
        },
        (Data::Object(e), Step::Field(k)) => {
            lemma_remove_key_shape(e, k);
            let e2 = remove_key(e, k);
            lemma_wf_entries(e);
            lemma_wf_entries(e2);
            if e2 != e {
                let j = choose|j: int| 0 <= j < e.len() && e2 == e.remove(j);
                assert forall|a: int, b: int| 0 <= a < b < e2.len() implies key_lt(
                    #[trigger] e2[a].0,
                    #[trigger] e2[b].0,
                ) by {
                    let a2 = if a < j { a } else { a + 1 };
                    let b2 = if b < j { b } else { b + 1 };
                    assert(e2[a] == e[a2]);
                    assert(e2[b] == e[b2]);
                }
                assert forall|i: int| 0 <= i < e2.len() implies #[trigger] wf(e2[i].1) by {
                    let i2 = if i < j { i } else { i + 1 };
                    assert(e2[i] == e[i2]);
                }
            }
        },
        _ => {},
    }
}

/// Reaching a node for writing keeps a well-formed tree well-formed, and so does
/// writing any well-formed node there afterwards.
pub proof fn lemma_access_keeps_wf(d: Data, p: Seq<Step>)
    requires
        wf(d),
    ensures
        access(d, p) matches Some((m, q)) ==> {
            &&& wf(m)
            &&& forall|x: Data| wf(x) ==> wf(#[trigger] set_at(m, q, x))
        },
{
    law_add_keeps_wf(d, p, Data::Null);
    if let Some((m, q)) = access(d, p) {
        assert forall|x: Data| wf(x) implies wf(#[trigger] set_at(m, q, x)) by {
            law_set_keeps_wf(m, q, x);
        }
    }
}

/// Removing a node from a well-formed tree keeps it well-formed.
pub proof fn law_remove_keeps_wf(d: Data, p: Seq<Step>)
    requires
        wf(d),
        removable(d, p),
    ensures
        wf(remove_at(d, p)),
{
    if p.len() == 1 {
        lemma_wf_remove_child(d, p[0]);
    } else if p.len() > 1 {
        law_add_keeps_wf(d, p.drop_last(), Data::Null);
        if let Some((m, q)) = access(d, p.drop_last()) {
            lemma_add_reads_back(d, p.drop_last(), Data::Null);
            if read(d, p.drop_last()) is Some {
                lemma_wf_at(m, q);
            } else {
                lemma_wf_at(m, q);
            }
            lemma_wf_remove_child(at(m, q).unwrap(), p.last());
            law_set_keeps_wf(m, q, remove_child(at(m, q).unwrap(), p.last()));
        }
    }
}

// ---------------------------------------------------------------------------
// Reads after writes.

/// After replacing the node at an existing path, the path leads to the new node.
pub proof fn lemma_at_set(d: Data, p: Seq<Step>, x: Data)
    requires
        at(d, p) is Some,
    ensures
        at(set_at(d, p, x), p) == Some(x),
    decreases p.len(),
{
    if p.len() > 0 {
        let c = child(d, p[0]).unwrap();
        lemma_at_set(c, p.drop_first(), x);
        lemma_child_put(d, p[0], set_at(c, p.drop_first(), x));
    }
}

/// A read gives back what `add` wrote, at the path that `add` gives back.
pub proof fn law_add_then_read(d: Data, p: Seq<Step>, x: Data)
    ensures
        add_at(d, p, x) matches Some((d2, q)) ==> read(d2, q) == Some(x),
{
    lemma_add_reads_back(d, p, x);
}

/// A read gives back what was written through the access that `change` gives.
pub proof fn law_change_then_read(d: Data, p: Seq<Step>, x: Data)
    ensures
        access(d, p) matches Some((m, q)) ==> read(set_at(m, q, x), q) == Some(x),
{
    lemma_add_reads_back(d, p, Data::Null);
    if let Some((m, q)) = access(d, p) {
        lemma_at_set(m, q, x);
    }
}

/// Reading a path whose node exists changes nothing through `change`.
pub proof fn law_change_existing(d: Data, p: Seq<Step>)
    requires
        read(d, p) is Some,
    ensures
        access(d, p) == Some((d, p)),
{
}

/// In a well-formed tree, after removing the field `k` of an object found at
/// `parent`, reading `parent.k` finds nothing.
pub proof fn law_remove_field_then_read(d: Data, parent: Seq<Step>, k: Seq<char>)
    requires
        wf(d),
        at(d, parent) matches Some(Data::Object(_)),
    ensures
        read(remove_at(d, parent.push(Step::Field(k))), parent.push(Step::Field(k))) is None,
{
    let p = parent.push(Step::Field(k));
    assert(p.drop_last() =~= parent);
    assert(p.last() == Step::Field(k));
    lemma_wf_at(d, parent);
    let e = at(d, parent).unwrap()->Object_0;
    lemma_remove_key_absent(e, k);
    let y = remove_child(at(d, parent).unwrap(), Step::Field(k));
    if parent.len() == 0 {
        assert(p =~= seq![Step::Field(k)]);
        assert(p.drop_first() =~= Seq::<Step>::empty());
    } else {
        assert(read(d, parent) is Some);
        assert(access(d, parent) == Some((d, parent)));
        lemma_at_set(d, parent, y);
        lemma_at_concat(set_at(d, parent, y), parent, seq![Step::Field(k)]);
        assert(parent + seq![Step::Field(k)] =~= p);
        assert(seq![Step::Field(k)].drop_first() =~= Seq::<Step>::empty());
    }
}

proof fn lemma_remove_key_absent(e: Seq<(Seq<char>, Data)>, k: Seq<char>)
    requires
        sorted_entries(e),
    ensures
        lookup(remove_key(e, k), k) is None,
    decreases e.len(),
{
    if e.len() > 0 {
        lemma_sorted_tail(e);
        if e[0].0 == k {
            assert forall|i: int| 0 <= i < e.drop_first().len() implies key_lt(
                k,
                #[trigger] e.drop_first()[i].0,
            ) by {
                assert(e.drop_first()[i] == e[i + 1]);
            }
            lemma_lookup_below(e.drop_first(), k);
        } else {
            lemma_remove_key_absent(e.drop_first(), k);
            let t = remove_key(e.drop_first(), k);
            assert((seq![e[0]] + t).drop_first() =~= t);
        }
    }
}

/// Following a path in two parts is following the whole path.
pub proof fn lemma_at_concat(d: Data, a: Seq<Step>, b: Seq<Step>)
    ensures
        at(d, a + b) == match at(d, a) {
            Some(c) => at(c, b),
            None => None,
        },
    decreases a.len(),
{
    if a.len() == 0 {
        assert(a + b =~= b);
    } else {
        assert((a + b)[0] == a[0]);
        assert((a + b).drop_first() =~= a.drop_first() + b);
        if let Some(c) = child(d, a[0]) {
            lemma_at_concat(c, a.drop_first(), b);
        }
    }
}

/// Creating missing parent objects keeps a well-formed tree well-formed.
pub proof fn lemma_with_parents_wf(d: Data, p: Seq<Step>)
    requires
        wf(d),
    ensures
        wf(with_parents(d, p)),
    decreases p.len(),
{
    if p.len() >= 2 {
        match (d, p[0]) {
            (Data::Object(e), Step::Field(k)) => match lookup(e, k) {
                Some(c) => {
                    lemma_wf_child(d, p[0]);
                    lemma_with_parents_wf(c, p.drop_first());
                    lemma_wf_put_child(d, p[0], with_parents(c, p.drop_first()));
                },
                None => if p[1] is Field {
                    let y = with_parents(Data::Object(Seq::empty()), p.drop_first());
                    lemma_with_parents_wf(Data::Object(Seq::empty()), p.drop_first());
                    law_add_keeps_wf(d, seq![p[0]], y);
                },
            },
            (Data::List(l), Step::Index(i)) => if 0 <= i < l.len() {
                lemma_wf_child(d, p[0]);
                lemma_with_parents_wf(l[i], p.drop_first());
                lemma_wf_put_child(d, p[0], with_parents(l[i], p.drop_first()));
            },
            _ => {},
        }
    }
}

} // verus!
