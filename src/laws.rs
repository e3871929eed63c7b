//! What holds of a dictionary built by a sequence of insertions.
use vstd::prelude::*;

use crate::dictionary::{
    dict_insert, dict_wf, entries_of, has_key, key_pos, total_entries, DictView, EntryView,
};

verus! {

/// An insertion as seen by contracts: `(word, tag, lemma)`.
pub type InsertView = (Seq<char>, Seq<char>, Seq<char>);

/// `d` after inserting each of `ops`, in order.
pub open spec fn after_inserts(d: DictView, ops: Seq<InsertView>) -> DictView
    decreases ops.len(),
{
    if ops.len() == 0 {
        d
    } else {
        let o = ops.last();
        dict_insert(after_inserts(d, ops.drop_last()), o.0, (o.1, o.2))
    }
}

/// The first occurrence of each element of `s`, in order.
pub open spec fn distinct_in_order<A>(s: Seq<A>) -> Seq<A>
    decreases s.len(),
{
    if s.len() == 0 {
        s
    } else {
        let r = distinct_in_order(s.drop_last());
        if r.contains(s.last()) {
            r
        } else {
            r.push(s.last())
        }
    }
}

/// The entries inserted for word `w`, in order, repeats included.
pub open spec fn entries_for(ops: Seq<InsertView>, w: Seq<char>) -> Seq<EntryView>
    decreases ops.len(),
{
    if ops.len() == 0 {
        Seq::empty()
    } else {
        let o = ops.last();
        let r = entries_for(ops.drop_last(), w);
        if o.0 == w {
            r.push((o.1, o.2))
        } else {
            r
        }
    }
}

/// The words of `d`, in order.
pub open spec fn words_of(d: DictView) -> Seq<Seq<char>> {
    d.map_values(|p: (Seq<char>, Seq<EntryView>)| p.0)
}

/// The words of `ops`, in order, repeats included.
pub open spec fn op_words(ops: Seq<InsertView>) -> Seq<Seq<char>> {
    ops.map_values(|o: InsertView| o.0)
}

/// `distinct_in_order` keeps exactly the elements of `s`, once each.
pub proof fn lemma_distinct_in_order<A>(s: Seq<A>)
    ensures
        distinct_in_order(s).no_duplicates(),
        forall|x: A| distinct_in_order(s).contains(x) <==> s.contains(x),
    decreases s.len(),
{
    if s.len() > 0 {
        lemma_distinct_in_order(s.drop_last());
        let r = distinct_in_order(s.drop_last());
        assert forall|x: A| distinct_in_order(s).contains(x) <==> s.contains(x) by {
            if s.drop_last().contains(x) {
                let i = choose|i: int| 0 <= i < s.drop_last().len() && s.drop_last()[i] == x;
                assert(s[i] == x);
            }
            if s.contains(x) {
                let i = choose|i: int| 0 <= i < s.len() && s[i] == x;
                if i < s.len() - 1 {
                    assert(s.drop_last()[i] == x);
                }
            }
            if !r.contains(s.last()) {
                if r.push(s.last()).contains(x) {
                    let i = choose|i: int| 0 <= i < r.push(s.last()).len() && r.push(s.last())[i] == x;
                    if i < r.len() {
                        assert(r[i] == x);
                    }
                }
                if r.contains(x) {
                    let i = choose|i: int| 0 <= i < r.len() && r[i] == x;
                    assert(r.push(s.last())[i] == x);
                }
                assert(r.push(s.last())[r.len() as int] == s.last());
            }
        }
    }
}

/// An insertion triple occurs among `ops` iff its entry occurs among those
/// inserted for its word.
proof fn lemma_entries_for_contains(ops: Seq<InsertView>, o: InsertView)
    ensures
        ops.contains(o) <==> entries_for(ops, o.0).contains((o.1, o.2)),
    decreases ops.len(),
{
    if ops.len() > 0 {
        let p = ops.drop_last();
        lemma_entries_for_contains(p, o);
        let r = entries_for(p, o.0);
        let e = (o.1, o.2);
        if p.contains(o) {
            let i = choose|i: int| 0 <= i < p.len() && p[i] == o;
            assert(ops[i] == o);
        }
        if ops.contains(o) && !p.contains(o) {
            let i = choose|i: int| 0 <= i < ops.len() && ops[i] == o;
            if i < p.len() {
                assert(p[i] == o);
            }
            assert(ops.last() == o);
            assert(r.push(e)[r.len() as int] == e);
        }
        if ops.last().0 == o.0 {
            if r.push((ops.last().1, ops.last().2)).contains(e) {
                let i = choose|i: int|
                    0 <= i < r.push((ops.last().1, ops.last().2)).len() && r.push(
                        (ops.last().1, ops.last().2),
                    )[i] == e;
                if i < r.len() {
                    assert(r[i] == e);
                } else {
                    assert(ops[ops.len() - 1] == o);
                }
            }
            if r.contains(e) {
                let i = choose|i: int| 0 <= i < r.len() && r[i] == e;
                assert(r.push((ops.last().1, ops.last().2))[i] == e);
            }
        }
    }
}

/// Inserting into a well-formed dictionary: well-formedness is kept, and what
/// changes for each word, for the word list and for the entry total.
pub proof fn lemma_insert(d: DictView, w: Seq<char>, e: EntryView)
    requires
        dict_wf(d),
    ensures
        dict_wf(dict_insert(d, w, e)),
        forall|x: Seq<char>|
            #[trigger] entries_of(dict_insert(d, w, e), x) == if x == w {
                if entries_of(d, w).contains(e) {
                    entries_of(d, w)
                } else {
                    entries_of(d, w).push(e)
                }
            } else {
                entries_of(d, x)
            },
        words_of(dict_insert(d, w, e)) == if has_key(d, w) {
            words_of(d)
        } else {
            words_of(d).push(w)
        },
        total_entries(dict_insert(d, w, e)) == total_entries(d) + if entries_of(d, w).contains(e) {
            0int
        } else {
            1int
        },
{
    let d2 = dict_insert(d, w, e);
    if has_key(d, w) {
        let k = key_pos(d, w);
        if !d[k].1.contains(e) {
            assert forall|a: int, b: int| 0 <= a < b < d2.len() implies d2[a].0 != d2[b].0 by {
                assert(d[a].0 != d[b].0);
            }
            assert forall|j: int| 0 <= j < d2.len() implies (#[trigger] d2[j]).1.no_duplicates()
                && d2[j].1.len() > 0 by {
                assert(d[j].1.no_duplicates());
            }
            assert forall|x: Seq<char>| #[trigger]
                entries_of(d2, x) == if x == w {
                    entries_of(d, w).push(e)
                } else {
                    entries_of(d, x)
                } by {
                if has_key(d, x) {
                    let kx = key_pos(d, x);
                    assert(d2[kx].0 == x);
                    let k2 = key_pos(d2, x);
                    if k2 != kx {
                        if k2 < kx {
                            assert(d[k2].0 != d[kx].0);
                        } else {
                            assert(d[kx].0 != d[k2].0);
                        }
                    }
                } else {
                    if has_key(d2, x) {
                        let k2 = key_pos(d2, x);
                        assert(d[k2].0 == x);
                    }
                }
            }
            assert(words_of(d2) =~= words_of(d));
            lemma_total_update(d, k, (w, d[k].1.push(e)));
        }
    } else {
        assert forall|a: int, b: int| 0 <= a < b < d2.len() implies d2[a].0 != d2[b].0 by {
            if b < d.len() {
                assert(d[a].0 != d[b].0);
            } else {
                assert(d2[a].0 == d[a].0);
            }
        }
        assert forall|j: int| 0 <= j < d2.len() implies (#[trigger] d2[j]).1.no_duplicates()
            && d2[j].1.len() > 0 by {
            if j < d.len() {
                assert(d2[j] == d[j]);
            }
        }
        assert forall|x: Seq<char>| #[trigger]
            entries_of(d2, x) == if x == w {
                if entries_of(d, w).contains(e) {
                    entries_of(d, w)
                } else {
                    entries_of(d, w).push(e)
                }
            } else {
                entries_of(d, x)
            } by {
            if x == w {
                assert(d2[d.len() as int].0 == w);
                let k2 = key_pos(d2, x);
                if k2 < d.len() {
                    assert(d[k2].0 == w);
                }
                assert(entries_of(d, w) =~= Seq::<EntryView>::empty());
                assert(seq![e] =~= Seq::<EntryView>::empty().push(e));
            } else if has_key(d, x) {
                let kx = key_pos(d, x);
                assert(d2[kx].0 == x);
                let k2 = key_pos(d2, x);
                if k2 != kx {
                    if k2 < kx {
                        assert(d[k2].0 != d[kx].0);
                    } else if k2 < d.len() {
                        assert(d[kx].0 != d[k2].0);
                    }
                }
            } else {
                if has_key(d2, x) {
                    let k2 = key_pos(d2, x);
                    assert(d[k2].0 == x);
                }
            }
        }
        assert(words_of(d2) =~= words_of(d).push(w));
        assert(d2.drop_last() =~= d);
    }
}

/// Replacing one word's list by a list one longer adds one to the total.
proof fn lemma_total_update(d: DictView, k: int, x: (Seq<char>, Seq<EntryView>))
    requires
        0 <= k < d.len(),
        x.1.len() == d[k].1.len() + 1,
    ensures
        total_entries(d.update(k, x)) == total_entries(d) + 1,
    decreases d.len(),
{
    let d2 = d.update(k, x);
    if k == d.len() - 1 {
        assert(d2.drop_last() =~= d.drop_last());
    } else {
        lemma_total_update(d.drop_last(), k, x);
        assert(d2.drop_last() =~= d.drop_last().update(k, x));
    }
}

/// Inserting `ops` into an empty dictionary: the entries of each word are
/// the distinct entries inserted for it, in order of first insertion; the
/// words are the distinct words inserted, in order of first insertion; and
/// the entry total is the number of distinct `(word, tag, lemma)` triples.
pub proof fn lemma_after_inserts(ops: Seq<InsertView>)
    ensures
        dict_wf(after_inserts(Seq::empty(), ops)),
        forall|w: Seq<char>|
            #[trigger] entries_of(after_inserts(Seq::empty(), ops), w) == distinct_in_order(
                entries_for(ops, w),
            ),
        words_of(after_inserts(Seq::empty(), ops)) == distinct_in_order(op_words(ops)),
        total_entries(after_inserts(Seq::empty(), ops)) == distinct_in_order(ops).len(),
    decreases ops.len(),
{
    let d0 = Seq::<(Seq<char>, Seq<EntryView>)>::empty();
    if ops.len() == 0 {
        assert forall|w: Seq<char>| #[trigger] entries_of(d0, w) == distinct_in_order(
            entries_for(ops, w),
        ) by {
            assert(entries_of(d0, w) =~= Seq::<EntryView>::empty());
        }
        assert(words_of(d0) =~= distinct_in_order(op_words(ops)));
    } else {
        let p = ops.drop_last();
        let o = ops.last();
        let e = (o.1, o.2);
        let d = after_inserts(d0, p);
        lemma_after_inserts(p);
        lemma_insert(d, o.0, e);
        lemma_distinct_in_order(entries_for(p, o.0));
        lemma_distinct_in_order(p);
        lemma_distinct_in_order(op_words(p));
        lemma_entries_for_contains(p, o);
        assert forall|w: Seq<char>| #[trigger] entries_of(after_inserts(d0, ops), w)
            == distinct_in_order(entries_for(ops, w)) by {
            if w == o.0 {
                assert(entries_for(ops, w).drop_last() == entries_for(p, w));
            }
        }
        assert(op_words(ops).drop_last() =~= op_words(p));
        assert(op_words(ops).last() == o.0);
        // a word is a key iff it was inserted before
        assert(has_key(d, o.0) <==> words_of(d).contains(o.0)) by {
            if has_key(d, o.0) {
                let k = key_pos(d, o.0);
                assert(words_of(d)[k] == o.0);
            }
            if words_of(d).contains(o.0) {
                let k = choose|k: int| 0 <= k < words_of(d).len() && words_of(d)[k] == o.0;
                assert(d[k].0 == o.0);
            }
        }
    }
}

} // verus!
