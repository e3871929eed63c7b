//! Enumeration of every dictionary word that occurs in a text.
use vstd::prelude::*;

use crate::analyzer::max_len;
use crate::dictionary::{entries_of, has_key, hash_chars, hash_mix, DictView, EntryView, RustTrie, HASH_OFFSET};
use crate::text::chars_of;

verus! {

/// A match as seen by contracts: `(start, length, entries)`.
pub type MatchView = (usize, usize, Seq<EntryView>);

/// The matches that start at `i` with lengths `1..=m`, shortest first.
pub open spec fn matches_at(text: Seq<char>, d: DictView, i: int, m: nat) -> Seq<MatchView>
    decreases m,
{
    if m == 0 {
        Seq::empty()
    } else {
        let w = text.subrange(i, i + m);
        let before = matches_at(text, d, i, (m - 1) as nat);
        if has_key(d, w) {
            before.push((i as usize, m as usize, entries_of(d, w)))
        } else {
            before
        }
    }
}

/// The matches that start before position `k`, by start, then by length.
pub open spec fn matches_before(text: Seq<char>, d: DictView, k: nat) -> Seq<MatchView>
    decreases k,
{
    if k == 0 {
        Seq::empty()
    } else {
        matches_before(text, d, (k - 1) as nat) + matches_at(
            text,
            d,
            k - 1,
            max_len(text.len() as int, k - 1) as nat,
        )
    }
}

/// Every match of a word of `d` in `text` of at most 16 characters.
pub open spec fn all_matches(text: Seq<char>, d: DictView) -> Seq<MatchView> {
    matches_before(text, d, text.len())
}

/// The matches at `i` have lengths in `1..=m` and start at `i`.
pub proof fn lemma_matches_at_bounds(text: Seq<char>, d: DictView, i: int, m: nat)
    requires
        0 <= i,
        i + m <= text.len() <= usize::MAX,
    ensures
        forall|t: int|
            0 <= t < matches_at(text, d, i, m).len() ==> {
                let x = #[trigger] matches_at(text, d, i, m)[t];
                &&& x.0 == i
                &&& 1 <= x.1 <= m
            },
    decreases m,
{
    if m > 0 {
        lemma_matches_at_bounds(text, d, i, (m - 1) as nat);
        let w = text.subrange(i, i + m);
        let before = matches_at(text, d, i, (m - 1) as nat);
        if has_key(d, w) {
            let x = (i as usize, m as usize, entries_of(d, w));
            assert forall|t: int| 0 <= t < before.push(x).len() implies {
                let y = #[trigger] before.push(x)[t];
                &&& y.0 == i
                &&& 1 <= y.1 <= m
            } by {
                if t < before.len() {
                    assert(before.push(x)[t] == before[t]);
                }
            }
        }
    }
}

/// The matches before `k` have lengths in `1..=16` and end inside the text.
pub proof fn lemma_matches_before_bounds(text: Seq<char>, d: DictView, k: nat)
    requires
        k <= text.len() <= usize::MAX,
    ensures
        forall|t: int|
            0 <= t < matches_before(text, d, k).len() ==> {
                let x = #[trigger] matches_before(text, d, k)[t];
                &&& 1 <= x.1 <= 16
                &&& x.0 + x.1 <= text.len()
            },
    decreases k,
{
    if k > 0 {
        let i = k - 1;
        let m = max_len(text.len() as int, i) as nat;
        lemma_matches_before_bounds(text, d, (k - 1) as nat);
        lemma_matches_at_bounds(text, d, i, m);
        let a = matches_before(text, d, (k - 1) as nat);
        let b = matches_at(text, d, i, m);
        assert forall|t: int| 0 <= t < (a + b).len() implies {
            let x = #[trigger] (a + b)[t];
            &&& 1 <= x.1 <= 16
            &&& x.0 + x.1 <= text.len()
        } by {
            if t >= a.len() {
                assert((a + b)[t] == b[t - a.len()]);
            }
        }
    }
}

impl RustTrie {
    /// Every `(start, length, entries)` such that the text's characters
    /// `start..start + length` form a word of the dictionary and
    /// `1 <= length <= 16`, ordered by start, then by length.
    pub fn search_all_patterns(&self, text: String) -> (r: Vec<(usize, usize, Vec<(String, String)>)>)
        requires
            self.wf(),
        ensures
            r.deep_view() == all_matches(text@, self@),
            forall|t: int|
                0 <= t < r.len() ==> 1 <= (#[trigger] r[t]).1 <= 16 && r[t].0 + r[t].1
                    <= text@.len(),
    {
        let chars = chars_of(text.as_str());
        let n = chars.len();
        let ghost d = self@;
        let ghost tx = chars@;
        let mut r: Vec<(usize, usize, Vec<(String, String)>)> = Vec::new();
        let mut i: usize = 0;
        proof {
            assert(r.deep_view() =~= matches_before(tx, d, 0));
        }
        while i < n
            invariant
                self.wf(),
                d == self@,
                tx == chars@,
                n == chars.len(),
                i <= n,
                r.deep_view() == matches_before(tx, d, i as nat),
            decreases n - i,
        {
            let m: usize = if n - i < 16 {
                n - i
            } else {
                16
            };
            let mut len: usize = 1;
            let mut h: u64 = HASH_OFFSET;
            let ghost r_i = r.deep_view();
            proof {
                assert(tx.subrange(i as int, i as int) =~= Seq::<char>::empty());
                assert(r.deep_view() =~= r_i + matches_at(tx, d, i as int, 0));
            }
            while len <= m
                invariant
                    self.wf(),
                    d == self@,
                    tx == chars@,
                    n == chars.len(),
                    i < n,
                    1 <= len <= m + 1,
                    m <= 16,
                    i + m <= n,
                    h == hash_chars(tx.subrange(i as int, i + len - 1)),
                    r.deep_view() == r_i + matches_at(tx, d, i as int, (len - 1) as nat),
                decreases m + 1 - len,
            {
                let j = i + len;
                proof {
                    assert(tx.subrange(i as int, j as int).drop_last() =~= tx.subrange(
                        i as int,
                        j - 1,
                    ));
                }
                h = hash_mix(h, chars[j - 1]);
                let ghost r0 = r.deep_view();
                match self.find_hashed(h, &chars, i, j) {
                    Some(k) => {
                        let ents = self.copy_entries(k);
                        r.push((i, len, ents));
                        proof {
                            assert(r.deep_view() =~= r0.push(
                                (i, len, entries_of(d, tx.subrange(i as int, j as int))),
                            ));
                        }
                    },
                    None => {},
                }
                len = len + 1;
            }
            proof {
                assert(r.deep_view() =~= matches_before(tx, d, i as nat + 1));
            }
            i = i + 1;
        }
        proof {
            lemma_matches_before_bounds(tx, d, n as nat);
            assert forall|t: int| 0 <= t < r.len() implies 1 <= (#[trigger] r[t]).1 <= 16 && r[t].0
                + r[t].1 <= text@.len() by {
                assert(r.deep_view()[t] == matches_before(tx, d, n as nat)[t]);
            }
        }
        r
    }
}

} // verus!
