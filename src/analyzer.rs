//! The segmentation engine: a minimum-cost pass over the lattice of
//! dictionary matches and single-character unknown-word edges.
use vstd::prelude::*;

use crate::dictionary::{
    entries_of, hash_chars, hash_mix, DictView, EntryView, RustTrie, HASH_OFFSET,
};
use crate::tags::{code2, code3, is_valid_transition, starts_with, tag_is2, tag_is3, tag_starts_with, valid_transition};
use crate::text::{chars_of, string_of_range};

verus! {

/// Base cost of a dictionary match of three or more characters.
pub const COST_LONG_WORD: i64 = -40;

/// Base cost of a two-character dictionary match.
pub const COST_MEDIUM_WORD: i64 = -30;

/// Base cost of a one-character dictionary match.
pub const COST_SHORT_WORD: i64 = -5;

/// Penalty for a one-character verb or interjection.
pub const PENALTY_SINGLE_VERB_IC: i64 = 20;

/// Fixed part of the unknown-word cost.
pub const COST_OOV: i64 = 50;

/// Per-character part of the unknown-word cost.
pub const COST_OOV_PER_CHAR: i64 = 10;

/// Bonus for a noun of two or more characters.
pub const BONUS_NOUN_2PLUS: i64 = 5;

/// Bonus for an adverb of two or more characters.
pub const BONUS_ADVERB_2PLUS: i64 = 10;

/// Bonus for a particle after a noun.
pub const BONUS_NOUN_JOSA: i64 = 20;

/// Bonus for an ending after a verb.
pub const BONUS_VERB_EOMI: i64 = 15;

/// Bonus for an ending after an ending.
pub const BONUS_EOMI_EOMI: i64 = 10;

/// Bonus for a noun after an adverb.
pub const BONUS_ADVERB_NOUN: i64 = 15;

/// Bonus for a verb after an adverb.
pub const BONUS_ADVERB_VERB: i64 = 10;

/// Bonus for a noun after a determiner.
pub const BONUS_DETERMINER_NOUN: i64 = 10;

/// Longest dictionary match considered, in characters.
pub const MAX_MATCH_LEN: usize = 16;

/// The tag given to unknown text.
pub open spec fn unknown_tag() -> Seq<char> {
    code3('N', 'N', 'G')
}

/// The lemma given to unknown text.
pub open spec fn unknown_lemma() -> Seq<char> {
    seq!['U', 'N', 'K', 'N', 'O', 'W', 'N']
}

/// Cost of an unknown-word edge over `len` characters.
pub open spec fn unknown_cost(len: int) -> int {
    COST_OOV + COST_OOV_PER_CHAR * len
}

/// Base cost of a dictionary match by its length.
pub open spec fn base_cost(len: int) -> int {
    if len >= 3 {
        COST_LONG_WORD as int
    } else if len == 2 {
        COST_MEDIUM_WORD as int
    } else {
        COST_SHORT_WORD as int
    }
}

/// The contextual bonus (as a cost, never positive) for `tag` after `prev`:
/// the first rule that matches wins.
pub open spec fn context_cost(prev: Seq<char>, tag: Seq<char>) -> int {
    if starts_with(prev, 'N') && starts_with(tag, 'J') {
        -BONUS_NOUN_JOSA
    } else if starts_with(prev, 'V') && starts_with(tag, 'E') {
        -BONUS_VERB_EOMI
    } else if starts_with(prev, 'E') && starts_with(tag, 'E') {
        -BONUS_EOMI_EOMI
    } else if prev == code3('M', 'A', 'G') && starts_with(tag, 'N') {
        -BONUS_ADVERB_NOUN
    } else if prev == code3('M', 'A', 'G') && starts_with(tag, 'V') {
        -BONUS_ADVERB_VERB
    } else if prev == code2('M', 'M') && starts_with(tag, 'N') {
        -BONUS_DETERMINER_NOUN
    } else {
        0
    }
}

/// Cost of a dictionary edge of `len` characters tagged `tag`, after a
/// morpheme tagged `prev` (if any).
pub open spec fn edge_cost(len: int, tag: Seq<char>, prev: Option<Seq<char>>) -> int {
    base_cost(len) + (if len == 1 && (starts_with(tag, 'V') || tag == code2('I', 'C')) {
        PENALTY_SINGLE_VERB_IC as int
    } else {
        0
    }) - (if starts_with(tag, 'N') && len >= 2 {
        BONUS_NOUN_2PLUS as int
    } else {
        0
    }) - (if tag == code3('M', 'A', 'G') && len >= 2 {
        BONUS_ADVERB_2PLUS as int
    } else {
        0
    }) + match prev {
        Some(p) => context_cost(p, tag),
        None => 0,
    }
}

/// The best edge found so far into a position: `(total cost, source
/// position, tag, lemma)`.
pub type CellView = (int, int, Seq<char>, Seq<char>);

/// Best edges by position; position 0 is the start and holds none.
pub type Lattice = Seq<Option<CellView>>;

/// Offers an edge from `from` into `j`: it replaces the best one only if it
/// is strictly cheaper.
pub open spec fn relax(st: Lattice, j: int, cost: int, from: int, tag: Seq<char>, lemma: Seq<
    char,
>) -> Lattice {
    match st[j] {
        Some(c) => if cost < c.0 {
            st.update(j, Some((cost, from, tag, lemma)))
        } else {
            st
        },
        None => st.update(j, Some((cost, from, tag, lemma))),
    }
}

/// The best total cost into position `i`, if reached.
pub open spec fn cost_at(st: Lattice, i: int) -> Option<int> {
    if i == 0 {
        Some(0)
    } else {
        match st[i] {
            Some(c) => Some(c.0),
            None => None,
        }
    }
}

/// The tag of the best edge into position `i`, if any.
pub open spec fn tag_at(st: Lattice, i: int) -> Option<Seq<char>> {
    if i == 0 {
        None
    } else {
        match st[i] {
            Some(c) => Some(c.2),
            None => None,
        }
    }
}

/// Offers, in order, the edges `i -> j` for the entries `ents` of the word
/// `text[i..j]`, skipping those whose tag may not follow `prev`.
pub open spec fn relax_entries(
    st: Lattice,
    i: int,
    j: int,
    ents: Seq<EntryView>,
    prev: Option<Seq<char>>,
    base: int,
) -> Lattice
    decreases ents.len(),
{
    if ents.len() == 0 {
        st
    } else {
        let st1 = relax_entries(st, i, j, ents.drop_last(), prev, base);
        let e = ents.last();
        if prev is Some && !valid_transition(prev->0, e.0) {
            st1
        } else {
            relax(st1, j, base + edge_cost(j - i, e.0, prev), i, e.0, e.1)
        }
    }
}

/// Offers the dictionary edges out of `i` of lengths `1..=m`, shortest first.
pub open spec fn relax_lengths(
    st: Lattice,
    text: Seq<char>,
    d: DictView,
    i: int,
    m: nat,
    prev: Option<Seq<char>>,
    base: int,
) -> Lattice
    decreases m,
{
    if m == 0 {
        st
    } else {
        let st1 = relax_lengths(st, text, d, i, (m - 1) as nat, prev, base);
        relax_entries(st1, i, i + m, entries_of(d, text.subrange(i, i + m)), prev, base)
    }
}

/// The longest match length to try at position `i` of a text of `n`
/// characters.
pub open spec fn max_len(n: int, i: int) -> int {
    if n - i < MAX_MATCH_LEN {
        n - i
    } else {
        MAX_MATCH_LEN as int
    }
}

/// Relaxes all edges out of position `i`, if it is reached: dictionary edges
/// first, then the unknown-word edge.
pub open spec fn relax_at(st: Lattice, text: Seq<char>, d: DictView, i: int) -> Lattice {
    match cost_at(st, i) {
        None => st,
        Some(base) => {
            let st1 = relax_lengths(st, text, d, i, max_len(text.len() as int, i) as nat, tag_at(st, i), base);
            relax(st1, i + 1, base + unknown_cost(1), i, unknown_tag(), unknown_lemma())
        },
    }
}

/// The lattice once positions `0..k` have been relaxed.
pub open spec fn lattice_upto(text: Seq<char>, d: DictView, k: nat) -> Lattice
    decreases k,
{
    if k == 0 {
        Seq::new((text.len() + 1) as nat, |j: int| None)
    } else {
        relax_at(lattice_upto(text, d, (k - 1) as nat), text, d, k - 1)
    }
}

/// The morphemes `(surface, tag, lemma)` along the best edges that end at
/// position `j`, left to right.
pub open spec fn backtrace(st: Lattice, text: Seq<char>, j: int) -> Seq<(Seq<char>, Seq<char>, Seq<char>)>
    decreases j,
{
    if j <= 0 || j >= st.len() {
        Seq::empty()
    } else {
        match st[j] {
            Some(c) => if 0 <= c.1 < j {
                backtrace(st, text, c.1).push((text.subrange(c.1, j), c.2, c.3))
            } else {
                Seq::empty()
            },
            None => Seq::empty(),
        }
    }
}

/// The analysis of `text` against dictionary `d`.
pub open spec fn analysis(text: Seq<char>, d: DictView) -> Seq<(Seq<char>, Seq<char>, Seq<char>)> {
    backtrace(lattice_upto(text, d, text.len()), text, text.len() as int)
}

/// The surfaces of `ms`, joined.
pub open spec fn joined_surfaces(ms: Seq<(Seq<char>, Seq<char>, Seq<char>)>) -> Seq<char>
    decreases ms.len(),
{
    if ms.len() == 0 {
        Seq::empty()
    } else {
        joined_surfaces(ms.drop_last()) + ms.last().0
    }
}

/// Every best edge comes from an earlier position.
pub open spec fn edges_backward(st: Lattice) -> bool {
    forall|x: int| 0 <= x < st.len() && (#[trigger] st[x]) is Some ==> 0 <= (st[x]->0).1 < x
}

/// Every position reached in `old` is reached in `new`.
pub open spec fn reach_kept(old: Lattice, new: Lattice) -> bool {
    &&& new.len() == old.len()
    &&& forall|x: int| 0 <= x < old.len() && (#[trigger] old[x]) is Some ==> new[x] is Some
}

proof fn lemma_relax_keeps(st: Lattice, j: int, cost: int, from: int, tag: Seq<char>, lemma: Seq<char>)
    requires
        0 <= from < j < st.len(),
        edges_backward(st),
    ensures
        edges_backward(relax(st, j, cost, from, tag, lemma)),
        reach_kept(st, relax(st, j, cost, from, tag, lemma)),
        relax(st, j, cost, from, tag, lemma)[j] is Some,
{
}

proof fn lemma_relax_entries_keeps(
    st: Lattice,
    i: int,
    j: int,
    ents: Seq<EntryView>,
    prev: Option<Seq<char>>,
    base: int,
)
    requires
        0 <= i < j < st.len(),
        edges_backward(st),
    ensures
        edges_backward(relax_entries(st, i, j, ents, prev, base)),
        reach_kept(st, relax_entries(st, i, j, ents, prev, base)),
    decreases ents.len(),
{
    if ents.len() > 0 {
        let st1 = relax_entries(st, i, j, ents.drop_last(), prev, base);
        lemma_relax_entries_keeps(st, i, j, ents.drop_last(), prev, base);
        let e = ents.last();
        lemma_relax_keeps(st1, j, base + edge_cost(j - i, e.0, prev), i, e.0, e.1);
    }
}

proof fn lemma_relax_lengths_keeps(
    st: Lattice,
    text: Seq<char>,
    d: DictView,
    i: int,
    m: nat,
    prev: Option<Seq<char>>,
    base: int,
)
    requires
        0 <= i,
        i + m < st.len(),
        edges_backward(st),
    ensures
        edges_backward(relax_lengths(st, text, d, i, m, prev, base)),
        reach_kept(st, relax_lengths(st, text, d, i, m, prev, base)),
    decreases m,
{
    if m > 0 {
        let st1 = relax_lengths(st, text, d, i, (m - 1) as nat, prev, base);
        lemma_relax_lengths_keeps(st, text, d, i, (m - 1) as nat, prev, base);
        lemma_relax_entries_keeps(
            st1,
            i,
            i + m,
            entries_of(d, text.subrange(i, i + m)),
            prev,
            base,
        );
    }
}

/// Once positions `0..k` are relaxed, positions `1..=k` are reached, each by
/// an edge from an earlier position.
proof fn lemma_lattice_upto(text: Seq<char>, d: DictView, k: nat)
    requires
        k <= text.len(),
    ensures
        lattice_upto(text, d, k).len() == text.len() + 1,
        edges_backward(lattice_upto(text, d, k)),
        forall|x: int| 1 <= x <= k ==> (#[trigger] lattice_upto(text, d, k)[x]) is Some,
    decreases k,
{
    if k > 0 {
        let i = k - 1;
        let st = lattice_upto(text, d, (k - 1) as nat);
        lemma_lattice_upto(text, d, (k - 1) as nat);
        assert(cost_at(st, i) is Some);
        let base = cost_at(st, i)->0;
        let m = max_len(text.len() as int, i) as nat;
        let st1 = relax_lengths(st, text, d, i, m, tag_at(st, i), base);
        lemma_relax_lengths_keeps(st, text, d, i, m, tag_at(st, i), base);
        lemma_relax_keeps(st1, i + 1, base + unknown_cost(1), i, unknown_tag(), unknown_lemma());
        assert forall|x: int| 1 <= x <= k implies (#[trigger] lattice_upto(text, d, k)[x]) is Some by {
            if x < k {
                assert(st[x] is Some);
            }
        }
    } else {
        let st = lattice_upto(text, d, 0);
        assert(edges_backward(st));
    }
}

/// Where positions `1..=j` are reached by backward edges, the morphemes back
/// from `j` are non-empty for `j > 0` and their surfaces join to
/// `text[0..j]`.
proof fn lemma_backtrace_covers(st: Lattice, text: Seq<char>, j: int)
    requires
        0 <= j < st.len(),
        j <= text.len(),
        edges_backward(st),
        forall|x: int| 1 <= x <= j ==> (#[trigger] st[x]) is Some,
    ensures
        joined_surfaces(backtrace(st, text, j)) == text.subrange(0, j),
        j > 0 ==> backtrace(st, text, j).len() > 0,
    decreases j,
{
    if j == 0 {
        assert(text.subrange(0, 0) =~= Seq::<char>::empty());
    } else {
        let c = st[j]->0;
        lemma_backtrace_covers(st, text, c.1);
        let b = backtrace(st, text, c.1);
        let x = (text.subrange(c.1, j), c.2, c.3);
        assert(b.push(x).drop_last() =~= b);
        assert(text.subrange(0, c.1) + text.subrange(c.1, j) =~= text.subrange(0, j));
    }
}

/// The analysis of a non-empty text is non-empty and its surfaces join to the
/// whole text; that of an empty text is empty.
pub proof fn lemma_analysis_covers(text: Seq<char>, d: DictView)
    ensures
        joined_surfaces(analysis(text, d)) == text,
        text.len() == 0 ==> analysis(text, d).len() == 0,
        text.len() > 0 ==> analysis(text, d).len() > 0,
{
    let n = text.len();
    lemma_lattice_upto(text, d, n);
    lemma_backtrace_covers(lattice_upto(text, d, n), text, n as int);
    assert(text.subrange(0, n as int) =~= text);
}

/// The view of an optional tag reference.
pub open spec fn opt_view(p: Option<&String>) -> Option<Seq<char>> {
    match p {
        Some(s) => Some(s@),
        None => None,
    }
}

/// Executable `edge_cost`.
pub fn edge_cost_of(len: usize, tag: &String, prev: Option<&String>) -> (c: i64)
    requires
        len >= 1,
    ensures
        c == edge_cost(len as int, tag@, opt_view(prev)),
        -100 <= c <= 100,
{
    let mut cost: i64 = if len >= 3 {
        COST_LONG_WORD
    } else if len == 2 {
        COST_MEDIUM_WORD
    } else {
        COST_SHORT_WORD
    };
    let t = tag.as_str();
    if len == 1 && (tag_starts_with(t, 'V') || tag_is2(t, 'I', 'C')) {
        cost = cost + PENALTY_SINGLE_VERB_IC;
    }
    if tag_starts_with(t, 'N') && len >= 2 {
        cost = cost - BONUS_NOUN_2PLUS;
    }
    if tag_is3(t, 'M', 'A', 'G') && len >= 2 {
        cost = cost - BONUS_ADVERB_2PLUS;
    }
    match prev {
        Some(pp) => {
            let p = pp.as_str();
            if tag_starts_with(p, 'N') && tag_starts_with(t, 'J') {
                cost = cost - BONUS_NOUN_JOSA;
            } else if tag_starts_with(p, 'V') && tag_starts_with(t, 'E') {
                cost = cost - BONUS_VERB_EOMI;
            } else if tag_starts_with(p, 'E') && tag_starts_with(t, 'E') {
                cost = cost - BONUS_EOMI_EOMI;
            } else if tag_is3(p, 'M', 'A', 'G') && tag_starts_with(t, 'N') {
                cost = cost - BONUS_ADVERB_NOUN;
            } else if tag_is3(p, 'M', 'A', 'G') && tag_starts_with(t, 'V') {
                cost = cost - BONUS_ADVERB_VERB;
            } else if tag_is2(p, 'M', 'M') && tag_starts_with(t, 'N') {
                cost = cost - BONUS_DETERMINER_NOUN;
            }
        },
        None => {},
    }
    cost
}

/// A best edge as the engine keeps it: total cost, source position, and the
/// dictionary entry used (word position, entry position), or none for an
/// unknown-word edge.
pub type Cell = (i128, usize, Option<(usize, usize)>);

/// The tag of a kept edge.
pub open spec fn source_tag(d: DictView, src: Option<(usize, usize)>) -> Seq<char> {
    match src {
        Some(p) => d[p.0 as int].1[p.1 as int].0,
        None => unknown_tag(),
    }
}

/// The lemma of a kept edge.
pub open spec fn source_lemma(d: DictView, src: Option<(usize, usize)>) -> Seq<char> {
    match src {
        Some(p) => d[p.0 as int].1[p.1 as int].1,
        None => unknown_lemma(),
    }
}

/// The view of a kept edge.
pub open spec fn cell_view(c: Option<Cell>, d: DictView) -> Option<CellView> {
    match c {
        Some(x) => Some((x.0 as int, x.1 as int, source_tag(d, x.2), source_lemma(d, x.2))),
        None => None,
    }
}

/// The view of the engine's lattice.
pub open spec fn lattice_view(lat: Seq<Option<Cell>>, d: DictView) -> Lattice {
    lat.map_values(|c: Option<Cell>| cell_view(c, d))
}

/// Every kept edge comes from an earlier position, names an existing entry,
/// and has a total cost within 100 per character of its end position.
pub open spec fn cells_ok(lat: Seq<Option<Cell>>, d: DictView) -> bool {
    forall|j: int|
        #![trigger lat[j]]
        0 <= j < lat.len() ==> match lat[j] {
            Some(c) => {
                &&& (c.1 as int) < j
                &&& -100 * j <= c.0 <= 100 * j
                &&& match c.2 {
                    Some(p) => p.0 < d.len() && p.1 < d[p.0 as int].1.len(),
                    None => true,
                }
            },
            None => true,
        }
}

impl RustTrie {
    /// Segments `text` into morphemes `(surface, tag, lemma)` along a
    /// minimum-cost path; empty for empty text.
    pub fn analyze(&self, text: String) -> (r: Vec<(String, String, String)>)
        requires
            self.wf(),
        ensures
            r.deep_view() == analysis(text@, self@),
            joined_surfaces(r.deep_view()) == text@,
            text@.len() == 0 ==> r.len() == 0,
            text@.len() > 0 ==> r.len() > 0,
    {
        proof {
            lemma_analysis_covers(text@, self@);
        }
        let chars = chars_of(text.as_str());
        let n = chars.len();
        let ghost d = self@;
        let ghost tx = chars@;
        let unknown_tag_s = "NNG".to_owned();
        let unknown_lemma_s = "UNKNOWN".to_owned();
        proof {
            reveal_strlit("NNG");
            reveal_strlit("UNKNOWN");
            assert(unknown_tag_s@ =~= unknown_tag());
            assert(unknown_lemma_s@ =~= unknown_lemma());
        }
        let mut lat: Vec<Option<Cell>> = Vec::new();
        let mut j: usize = 0;
        while j < n
            invariant
                j <= n,
                lat.len() == j,
                forall|u: int| 0 <= u < j ==> lat[u] is None,
            decreases n - j,
        {
            lat.push(None);
            j = j + 1;
        }
        lat.push(None);
        proof {
            assert(lattice_view(lat@, d) =~= lattice_upto(tx, d, 0));
        }
        let mut i: usize = 0;
        while i < n
            invariant
                self.wf(),
                d == self@,
                tx == chars@,
                tx == text@,
                n == chars.len(),
                lat.len() == n + 1,
                i <= n,
                lattice_view(lat@, d) == lattice_upto(tx, d, i as nat),
                cells_ok(lat@, d),
                unknown_tag_s@ == unknown_tag(),
                unknown_lemma_s@ == unknown_lemma(),
            decreases n - i,
        {
            let ghost st0 = lattice_view(lat@, d);
            let cell_i = lat[i];
            let base_opt: Option<i128> = if i == 0 {
                Some(0)
            } else {
                match cell_i {
                    Some(c) => Some(c.0),
                    None => None,
                }
            };
            match base_opt {
                None => {},
                Some(base) => {
                    let prev: Option<&String> = if i == 0 {
                        None
                    } else {
                        match cell_i {
                            Some(c) => match c.2 {
                                Some(p) => Some(&self.entries_at(p.0)[p.1].0),
                                None => Some(&unknown_tag_s),
                            },
                            None => None,
                        }
                    };
                    let ghost pv = tag_at(st0, i as int);
                    assert(opt_view(prev) == pv);
                    assert(-100 * i <= base <= 100 * i);
                    let m: usize = if n - i < MAX_MATCH_LEN {
                        n - i
                    } else {
                        MAX_MATCH_LEN
                    };
                    let mut len: usize = 1;
                    let mut h: u64 = HASH_OFFSET;
                    proof {
                        assert(tx.subrange(i as int, i as int) =~= Seq::<char>::empty());
                    }
                    while len <= m
                        invariant
                            self.wf(),
                            d == self@,
                            tx == chars@,
                            n == chars.len(),
                            lat.len() == n + 1,
                            i < n,
                            1 <= len <= m + 1,
                            m <= MAX_MATCH_LEN,
                            i + m <= n,
                            m == max_len(n as int, i as int),
                            -100 * i <= base <= 100 * i,
                            opt_view(prev) == pv,
                            h == hash_chars(tx.subrange(i as int, i + len - 1)),
                            lattice_view(lat@, d) == relax_lengths(
                                st0,
                                tx,
                                d,
                                i as int,
                                (len - 1) as nat,
                                pv,
                                base as int,
                            ),
                            cells_ok(lat@, d),
                        decreases m + 1 - len,
                    {
                        let j = i + len;
                        proof {
                            assert(tx.subrange(i as int, j as int).drop_last() =~= tx.subrange(
                                i as int,
                                j - 1,
                            ));
                        }
                        h = hash_mix(h, chars[j - 1]);
                        let ghost st_l = lattice_view(lat@, d);
                        let ghost w = tx.subrange(i as int, j as int);
                        match self.find_hashed(h, &chars, i, j) {
                            None => {
                                proof {
                                    assert(entries_of(d, w) =~= Seq::<EntryView>::empty());
                                }
                            },
                            Some(k) => {
                                let ents = self.entries_at(k);
                                let mut t: usize = 0;
                                proof {
                                    assert(ents.deep_view() == entries_of(d, w));
                                    assert(ents.deep_view().take(0) =~= Seq::<EntryView>::empty());
                                }
                                while t < ents.len()
                                    invariant
                                        self.wf(),
                                        d == self@,
                                        k < d.len(),
                                        ents.deep_view() == d[k as int].1,
                                        ents.deep_view() == entries_of(d, w),
                                        lat.len() == n + 1,
                                        i < j <= n,
                                        j == i + len,
                                        1 <= len <= MAX_MATCH_LEN,
                                        -100 * i <= base <= 100 * i,
                                        opt_view(prev) == pv,
                                        0 <= t <= ents.len(),
                                        lattice_view(lat@, d) == relax_entries(
                                            st_l,
                                            i as int,
                                            j as int,
                                            ents.deep_view().take(t as int),
                                            pv,
                                            base as int,
                                        ),
                                        cells_ok(lat@, d),
                                    decreases ents.len() - t,
                                {
                                    let ghost st_t = lattice_view(lat@, d);
                                    let ghost e = ents.deep_view()[t as int];
                                    proof {
                                        assert(ents.deep_view().take(t as int + 1).drop_last()
                                            =~= ents.deep_view().take(t as int));
                                        assert(ents.deep_view().take(t as int + 1).last() == e);
                                    }
                                    let tag = &ents[t].0;
                                    let ok = match prev {
                                        Some(p) => is_valid_transition(p.as_str(), tag.as_str()),
                                        None => true,
                                    };
                                    if ok {
                                        let c = edge_cost_of(len, tag, prev);
                                        let total: i128 = base + c as i128;
                                        let better = match lat[j] {
                                            None => true,
                                            Some(o) => total < o.0,
                                        };
                                        if better {
                                            lat.set(j, Some((total, i, Some((k, t)))));
                                            proof {
                                                assert(lattice_view(lat@, d) =~= relax(
                                                    st_t,
                                                    j as int,
                                                    base + edge_cost(len as int, e.0, pv),
                                                    i as int,
                                                    e.0,
                                                    e.1,
                                                ));
                                            }
                                        }
                                    }
                                    t = t + 1;
                                }
                                proof {
                                    assert(ents.deep_view().take(t as int) =~= ents.deep_view());
                                }
                            },
                        }
                        len = len + 1;
                    }
                    let total: i128 = base + (COST_OOV + COST_OOV_PER_CHAR) as i128;
                    let better = match lat[i + 1] {
                        None => true,
                        Some(o) => total < o.0,
                    };
                    let ghost st_m = lattice_view(lat@, d);
                    if better {
                        lat.set(i + 1, Some((total, i, None)));
                        proof {
                            assert(lattice_view(lat@, d) =~= relax(
                                st_m,
                                i + 1,
                                base + unknown_cost(1),
                                i as int,
                                unknown_tag(),
                                unknown_lemma(),
                            ));
                        }
                    }
                },
            }
            i = i + 1;
        }
        self.collect_path(&chars, &lat, &unknown_tag_s, &unknown_lemma_s)
    }

    /// Walks the best edges back from the end of the text and returns the
    /// morphemes left to right.
    fn collect_path(
        &self,
        chars: &Vec<char>,
        lat: &Vec<Option<Cell>>,
        unknown_tag_s: &String,
        unknown_lemma_s: &String,
    ) -> (r: Vec<(String, String, String)>)
        requires
            self.wf(),
            lat.len() == chars.len() + 1,
            cells_ok(lat@, self@),
            unknown_tag_s@ == unknown_tag(),
            unknown_lemma_s@ == unknown_lemma(),
        ensures
            r.deep_view() == backtrace(lattice_view(lat@, self@), chars@, chars.len() as int),
    {
        let ghost d = self@;
        let ghost st = lattice_view(lat@, d);
        let ghost tx = chars@;
        let n = chars.len();
        let mut rev: Vec<(String, String, String)> = Vec::new();
        let mut cur: usize = n;
        while cur > 0 && lat[cur].is_some()
            invariant
                self.wf(),
                d == self@,
                st == lattice_view(lat@, d),
                tx == chars@,
                lat.len() == n + 1,
                n == chars.len(),
                cells_ok(lat@, d),
                cur <= n,
                unknown_tag_s@ == unknown_tag(),
                unknown_lemma_s@ == unknown_lemma(),
                backtrace(st, tx, n as int) == backtrace(st, tx, cur as int) + rev.deep_view().reverse(),
            decreases cur,
        {
            let c = lat[cur].unwrap();
            let from = c.1;
            let surface = string_of_range(chars, from, cur);
            let tag: String;
            let lemma: String;
            match c.2 {
                Some(p) => {
                    let e = &self.entries_at(p.0)[p.1];
                    tag = e.0.clone();
                    lemma = e.1.clone();
                },
                None => {
                    tag = unknown_tag_s.clone();
                    lemma = unknown_lemma_s.clone();
                },
            }
            let ghost r0 = rev.deep_view();
            let ghost x = (surface@, tag@, lemma@);
            rev.push((surface, tag, lemma));
            proof {
                assert(rev.deep_view() =~= r0.push(x));
                assert(rev.deep_view().reverse() =~= seq![x] + r0.reverse());
                assert(backtrace(st, tx, cur as int) == backtrace(st, tx, from as int).push(x));
                assert(backtrace(st, tx, from as int).push(x) + r0.reverse() =~= backtrace(
                    st,
                    tx,
                    from as int,
                ) + (seq![x] + r0.reverse()));
            }
            cur = from;
        }
        proof {
            assert(backtrace(st, tx, cur as int) =~= Seq::empty());
            assert(backtrace(st, tx, n as int) =~= rev.deep_view().reverse());
        }
        let mut out: Vec<(String, String, String)> = Vec::new();
        let ghost all = rev.deep_view().reverse();
        proof {
            assert(out.deep_view() + rev.deep_view().reverse() =~= all);
        }
        while rev.len() > 0
            invariant
                out.deep_view() + rev.deep_view().reverse() == all,
            decreases rev.len(),
        {
            let ghost r0 = rev.deep_view();
            let ghost o0 = out.deep_view();
            match rev.pop() {
                Some(x) => {
                    out.push(x);
                    proof {
                        assert(rev.deep_view() =~= r0.drop_last());
                        assert(out.deep_view() =~= o0.push(r0.last()));
                        assert(r0.reverse() =~= seq![r0.last()] + r0.drop_last().reverse());
                        assert(out.deep_view() + rev.deep_view().reverse() =~= o0 + r0.reverse());
                    }
                },
                None => {},
            }
        }
        proof {
            assert(rev.deep_view().reverse() =~= Seq::empty());
            assert(out.deep_view() =~= all);
        }
        out
    }
}

} // verus!
