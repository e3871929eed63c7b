//! The surface-form dictionary: each word maps to an ordered list of distinct
//! `(tag, lemma)` entries.
use std::collections::HashMap;
use vstd::prelude::*;

use crate::text::chars_of;

verus! {

broadcast use vstd::std_specs::hash::group_hash_axioms;

/// An entry as seen by contracts: `(tag, lemma)`.
pub type EntryView = (Seq<char>, Seq<char>);

/// A dictionary as seen by contracts: its words, in the order in which each
/// was first inserted, each with its entry list.
pub type DictView = Seq<(Seq<char>, Seq<EntryView>)>;

/// FNV-1a offset basis.
pub const HASH_OFFSET: u64 = 14695981039346656037;

/// FNV-1a prime.
pub const HASH_PRIME: u64 = 1099511628211;

/// One step of the word hash: mix in one character.
pub open spec fn hash_step(h: u64, c: char) -> u64 {
    (h ^ (c as u32 as u64)).wrapping_mul(HASH_PRIME)
}

/// The hash of a character sequence under which the index files its word.
pub open spec fn hash_chars(s: Seq<char>) -> u64
    decreases s.len(),
{
    if s.len() == 0 {
        HASH_OFFSET
    } else {
        hash_step(hash_chars(s.drop_last()), s.last())
    }
}

/// Executable `hash_step`.
pub fn hash_mix(h: u64, c: char) -> (r: u64)
    ensures
        r == hash_step(h, c),
{
    (h ^ (c as u32 as u64)).wrapping_mul(HASH_PRIME)
}

/// `w` is a word of `d`.
pub open spec fn has_key(d: DictView, w: Seq<char>) -> bool {
    exists|k: int| 0 <= k < d.len() && d[k].0 == w
}

/// The position of word `w` in `d`, where it is a word of `d`.
pub open spec fn key_pos(d: DictView, w: Seq<char>) -> int {
    choose|k: int| 0 <= k < d.len() && d[k].0 == w
}

/// The entries stored for `w`, empty where `w` is not a word of `d`.
pub open spec fn entries_of(d: DictView, w: Seq<char>) -> Seq<EntryView> {
    if has_key(d, w) {
        d[key_pos(d, w)].1
    } else {
        Seq::empty()
    }
}

/// No word occurs twice, and each entry list is non-empty and holds no entry
/// twice.
pub open spec fn dict_wf(d: DictView) -> bool {
    &&& forall|a: int, b: int| 0 <= a < b < d.len() ==> d[a].0 != d[b].0
    &&& forall|k: int| 0 <= k < d.len() ==> (#[trigger] d[k]).1.no_duplicates() && d[k].1.len() > 0
}

/// `d` after inserting entry `e` for word `w`: appended to the word's list
/// unless already there; a new word goes last.
pub open spec fn dict_insert(d: DictView, w: Seq<char>, e: EntryView) -> DictView {
    if has_key(d, w) {
        let k = key_pos(d, w);
        if d[k].1.contains(e) {
            d
        } else {
            d.update(k, (w, d[k].1.push(e)))
        }
    } else {
        d.push((w, seq![e]))
    }
}

/// The number of entries over all words.
pub open spec fn total_entries(d: DictView) -> nat
    decreases d.len(),
{
    if d.len() == 0 {
        0
    } else {
        total_entries(d.drop_last()) + d.last().1.len()
    }
}

/// Entry totals grow with the prefix taken.
pub proof fn lemma_total_entries_prefix(d: DictView, k: int)
    requires
        0 <= k <= d.len(),
    ensures
        total_entries(d.take(k)) <= total_entries(d),
    decreases d.len() - k,
{
    if k < d.len() {
        lemma_total_entries_prefix(d, k + 1);
        assert(d.take(k + 1).drop_last() =~= d.take(k));
    } else {
        assert(d.take(k) =~= d);
    }
}

/// The dictionary. Words are kept in first-insertion order; an index from
/// word hash to word positions makes lookups independent of the word count.
pub struct RustTrie {
    keys: Vec<Vec<char>>,
    lists: Vec<Vec<(String, String)>>,
    index: HashMap<u64, Vec<usize>>,
}

impl View for RustTrie {
    type V = DictView;

    closed spec fn view(&self) -> DictView {
        Seq::new(self.keys.len() as nat, |k: int| (self.keys[k]@, self.lists[k].deep_view()))
    }
}

impl RustTrie {
    /// The internal invariant: the model is well formed and every word can be
    /// found through the index.
    pub closed spec fn wf(&self) -> bool {
        &&& self.keys.len() == self.lists.len()
        &&& dict_wf(self@)
        &&& forall|k: int|
            #![trigger self.keys[k]]
            0 <= k < self.keys.len() ==> {
                let h = hash_chars(self.keys[k]@);
                &&& self.index@.contains_key(h)
                &&& self.index@[h]@.contains(k as usize)
            }
        &&& forall|h: u64, t: int|
            #![trigger self.index@[h]@[t]]
            self.index@.contains_key(h) && 0 <= t < self.index@[h]@.len()
                ==> self.index@[h]@[t] < self.keys.len()
    }

    /// An empty dictionary.
    pub fn new() -> (r: RustTrie)
        ensures
            r.wf(),
            r@ == Seq::<(Seq<char>, Seq<EntryView>)>::empty(),
    {
        let r = RustTrie { keys: Vec::new(), lists: Vec::new(), index: HashMap::new() };
        proof {
            assert(r@ =~= Seq::<(Seq<char>, Seq<EntryView>)>::empty());
        }
        r
    }

    /// The hash of `text[start..end]`.
    pub fn hash_range(text: &Vec<char>, start: usize, end: usize) -> (h: u64)
        requires
            start <= end <= text.len(),
        ensures
            h == hash_chars(text@.subrange(start as int, end as int)),
    {
        let mut h: u64 = HASH_OFFSET;
        let mut i: usize = start;
        proof {
            assert(text@.subrange(start as int, start as int) =~= Seq::<char>::empty());
        }
        while i < end
            invariant
                start <= i <= end <= text.len(),
                h == hash_chars(text@.subrange(start as int, i as int)),
            decreases end - i,
        {
            proof {
                let s = text@.subrange(start as int, i as int + 1);
                assert(s.drop_last() =~= text@.subrange(start as int, i as int));
            }
            h = hash_mix(h, text[i]);
            i = i + 1;
        }
        h
    }

    /// Whether `a` equals `text[start..end]`.
    fn same_chars(a: &Vec<char>, text: &Vec<char>, start: usize, end: usize) -> (r: bool)
        requires
            start <= end <= text.len(),
        ensures
            r == (a@ == text@.subrange(start as int, end as int)),
    {
        if a.len() != end - start {
            return false;
        }
        let mut i: usize = 0;
        while i < a.len()
            invariant
                start <= end <= text.len(),
                a.len() == end - start,
                0 <= i <= a.len(),
                forall|t: int| 0 <= t < i ==> a@[t] == text@[start + t],
            decreases a.len() - i,
        {
            if a[i] != text[start + i] {
                proof {
                    assert(text@.subrange(start as int, end as int)[i as int] == text@[start + i]);
                }
                return false;
            }
            i = i + 1;
        }
        proof {
            assert(a@ =~= text@.subrange(start as int, end as int));
        }
        true
    }

    /// The position of the word `text[start..end]`, whose hash is `h`.
    pub fn find_hashed(&self, h: u64, text: &Vec<char>, start: usize, end: usize) -> (r: Option<
        usize,
    >)
        requires
            self.wf(),
            start <= end <= text.len(),
            h == hash_chars(text@.subrange(start as int, end as int)),
        ensures
            match r {
                Some(k) => k < self@.len() && self@[k as int].0 == text@.subrange(
                    start as int,
                    end as int,
                ) && key_pos(self@, text@.subrange(start as int, end as int)) == k,
                None => !has_key(self@, text@.subrange(start as int, end as int)),
            },
    {
        let ghost w = text@.subrange(start as int, end as int);
        match self.index.get(&h) {
            None => {
                proof {
                    if has_key(self@, w) {
                        let k = key_pos(self@, w);
                        assert(self.keys[k]@ == w);
                    }
                }
                None
            },
            Some(bucket) => {
                let mut t: usize = 0;
                while t < bucket.len()
                    invariant
                        self.wf(),
                        self.index@.contains_key(h),
                        start <= end <= text.len(),
                        w == text@.subrange(start as int, end as int),
                        bucket@ == self.index@[h]@,
                        0 <= t <= bucket.len(),
                        forall|u: int| 0 <= u < t ==> self.keys[bucket@[u] as int]@ != w,
                    decreases bucket.len() - t,
                {
                    let k = bucket[t];
                    assert(self.index@[h]@[t as int] < self.keys.len());
                    if Self::same_chars(&self.keys[k], text, start, end) {
                        proof {
                            assert(self@[k as int].0 == w);
                            let j = key_pos(self@, w);
                            if j != k as int {
                                assert(self@[j].0 == w);
                                if j < k {
                                    assert(self@[j].0 != self@[k as int].0);
                                } else {
                                    assert(self@[k as int].0 != self@[j].0);
                                }
                            }
                        }
                        return Some(k);
                    }
                    t = t + 1;
                }
                proof {
                    if has_key(self@, w) {
                        let k = key_pos(self@, w);
                        assert(self.keys[k]@ == w);
                        let u = choose|u: int| 0 <= u < bucket@.len() && bucket@[u] == k as usize;
                        assert(self.keys[bucket@[u] as int]@ != w);
                    }
                }
                None
            },
        }
    }

    /// The position of the word `text[start..end]`.
    pub fn find_range(&self, text: &Vec<char>, start: usize, end: usize) -> (r: Option<usize>)
        requires
            self.wf(),
            start <= end <= text.len(),
        ensures
            match r {
                Some(k) => k < self@.len() && self@[k as int].0 == text@.subrange(
                    start as int,
                    end as int,
                ) && key_pos(self@, text@.subrange(start as int, end as int)) == k,
                None => !has_key(self@, text@.subrange(start as int, end as int)),
            },
    {
        let h = Self::hash_range(text, start, end);
        self.find_hashed(h, text, start, end)
    }

    /// Whether `l` holds the entry `(pos, lemma)`.
    fn list_contains(l: &Vec<(String, String)>, pos: &String, lemma: &String) -> (r: bool)
        ensures
            r == l.deep_view().contains((pos@, lemma@)),
    {
        let mut t: usize = 0;
        while t < l.len()
            invariant
                0 <= t <= l.len(),
                forall|u: int| 0 <= u < t ==> l.deep_view()[u] != (pos@, lemma@),
            decreases l.len() - t,
        {
            if l[t].0 == *pos && l[t].1 == *lemma {
                proof {
                    assert(l.deep_view()[t as int] == (pos@, lemma@));
                }
                return true;
            }
            t = t + 1;
        }
        false
    }

    /// Adds `(pos, lemma)` to the entries of `word`, unless it is already
    /// there.
    pub fn insert(&mut self, word: String, pos: String, lemma: String)
        requires
            old(self).wf(),
        ensures
            final(self).wf(),
            final(self)@ == dict_insert(old(self)@, word@, (pos@, lemma@)),
    {
        let w = chars_of(word.as_str());
        let n = w.len();
        proof {
            assert(w@.subrange(0, n as int) =~= w@);
        }
        let h = Self::hash_range(&w, 0, n);
        let ghost e = (pos@, lemma@);
        let ghost d0 = self@;
        match self.find_hashed(h, &w, 0, n) {
            Some(k) => {
                if !Self::list_contains(&self.lists[k], &pos, &lemma) {
                    let ghost l0 = self.lists[k as int].deep_view();
                    self.lists[k].push((pos, lemma));
                    proof {
                        assert(self.lists[k as int].deep_view() =~= l0.push(e));
                        assert(self@ =~= d0.update(k as int, (word@, d0[k as int].1.push(e))));
                        assert forall|j: int| 0 <= j < self@.len() implies (
                        #[trigger] self@[j]).1.no_duplicates() && self@[j].1.len() > 0 by {
                            if j == k {
                                assert(d0[j].1.no_duplicates());
                                assert(!d0[j].1.contains(e));
                            } else {
                                assert(d0[j] == self@[j]);
                            }
                        }
                        assert forall|a: int, b: int| 0 <= a < b < self@.len() implies self@[a].0
                            != self@[b].0 by {
                            assert(d0[a].0 != d0[b].0);
                        }
                        assert forall|j: int| 0 <= j < self.keys.len() implies {
                            let hj = hash_chars(#[trigger] self.keys[j]@);
                            &&& self.index@.contains_key(hj)
                            &&& self.index@[hj]@.contains(j as usize)
                        } by {
                            assert(self.keys[j]@ == d0[j].0);
                        }
                    }
                } else {
                    proof {
                        assert(d0[k as int].1 == self.lists[k as int].deep_view());
                    }
                }
            },
            None => {
                let k = self.keys.len();
                let mut bucket = match self.index.remove(&h) {
                    Some(b) => b,
                    None => Vec::new(),
                };
                let ghost index0 = self.index@;
                bucket.push(k);
                self.index.insert(h, bucket);
                self.keys.push(w);
                let mut l: Vec<(String, String)> = Vec::new();
                l.push((pos, lemma));
                self.lists.push(l);
                proof {
                    assert(l.deep_view() =~= seq![e]);
                    assert(self@ =~= d0.push((word@, seq![e])));
                    assert forall|j: int| 0 <= j < self@.len() implies (
                    #[trigger] self@[j]).1.no_duplicates() && self@[j].1.len() > 0 by {
                        if j < k {
                            assert(d0[j] == self@[j]);
                        }
                    }
                    assert forall|a: int, b: int| 0 <= a < b < self@.len() implies self@[a].0
                        != self@[b].0 by {
                        if b < k {
                            assert(d0[a].0 != d0[b].0);
                        } else {
                            assert(d0[a].0 == self@[a].0);
                        }
                    }
                    assert forall|j: int| 0 <= j < self.keys.len() implies {
                        let hj = hash_chars(#[trigger] self.keys[j]@);
                        &&& self.index@.contains_key(hj)
                        &&& self.index@[hj]@.contains(j as usize)
                    } by {
                        let hj = hash_chars(self.keys[j]@);
                        if j < k {
                            assert(old(self).keys[j] == self.keys[j]);
                            if hj == h {
                                assert(old(self).index@[h]@.contains(j as usize));
                                let u = choose|u: int|
                                    0 <= u < old(self).index@[h]@.len() && old(self).index@[h]@[u]
                                        == j as usize;
                                assert(self.index@[h]@[u] == j as usize);
                            } else {
                                assert(self.index@[hj] == old(self).index@[hj]);
                            }
                        } else {
                            assert(self.index@[h]@.last() == k);
                        }
                    }
                    assert forall|hh: u64, t: int|
                        self.index@.contains_key(hh) && 0 <= t < self.index@[hh]@.len()
                            implies #[trigger] self.index@[hh]@[t] < self.keys.len() by {
                        if hh != h {
                            assert(old(self).index@[hh]@[t] < old(self).keys.len());
                        } else if t < self.index@[hh]@.len() - 1 {
                            assert(old(self).index@[hh]@[t] < old(self).keys.len());
                        }
                    }
                }
            },
        }
    }

    /// Whether `word` is a word of the dictionary.
    pub fn contains_word(&self, word: String) -> (r: bool)
        requires
            self.wf(),
        ensures
            r == has_key(self@, word@),
    {
        let w = chars_of(word.as_str());
        proof {
            assert(w@.subrange(0, w.len() as int) =~= w@);
        }
        self.find_range(&w, 0, w.len()).is_some()
    }

    /// The entries at word position `k`.
    pub fn entries_at(&self, k: usize) -> (r: &Vec<(String, String)>)
        requires
            self.wf(),
            k < self@.len(),
        ensures
            r.deep_view() == self@[k as int].1,
    {
        &self.lists[k]
    }

    /// A copy of the entries at word position `k`.
    pub fn copy_entries(&self, k: usize) -> (r: Vec<(String, String)>)
        requires
            self.wf(),
            k < self@.len(),
        ensures
            r.deep_view() == self@[k as int].1,
    {
        let l = &self.lists[k];
        let mut r: Vec<(String, String)> = Vec::new();
        let mut t: usize = 0;
        while t < l.len()
            invariant
                0 <= t <= l.len(),
                r.deep_view() =~= l.deep_view().take(t as int),
            decreases l.len() - t,
        {
            let tag = l[t].0.clone();
            let lemma = l[t].1.clone();
            let ghost r0 = r.deep_view();
            r.push((tag, lemma));
            proof {
                assert(r.deep_view() =~= r0.push(l.deep_view()[t as int]));
                assert(r.deep_view() =~= l.deep_view().take(t as int + 1));
            }
            t = t + 1;
        }
        proof {
            assert(l.deep_view().take(t as int) =~= l.deep_view());
        }
        r
    }

    /// The entries of `word`, in insertion order; empty if it is no word of
    /// the dictionary.
    pub fn search(&self, word: String) -> (r: Vec<(String, String)>)
        requires
            self.wf(),
        ensures
            r.deep_view() == entries_of(self@, word@),
    {
        let w = chars_of(word.as_str());
        proof {
            assert(w@.subrange(0, w.len() as int) =~= w@);
        }
        match self.find_range(&w, 0, w.len()) {
            Some(k) => self.copy_entries(k),
            None => {
                let r: Vec<(String, String)> = Vec::new();
                proof {
                    assert(r.deep_view() =~= Seq::<EntryView>::empty());
                }
                r
            },
        }
    }

    /// `search` on each word, in order.
    pub fn search_batch(&self, words: Vec<String>) -> (r: Vec<Vec<(String, String)>>)
        requires
            self.wf(),
        ensures
            r.len() == words.len(),
            forall|t: int| 0 <= t < words.len() ==> r[t].deep_view() == entries_of(self@, words[t]@),
    {
        let mut r: Vec<Vec<(String, String)>> = Vec::new();
        let mut t: usize = 0;
        while t < words.len()
            invariant
                self.wf(),
                0 <= t <= words.len(),
                r.len() == t,
                forall|u: int| 0 <= u < t ==> r[u].deep_view() == entries_of(self@, words[u]@),
            decreases words.len() - t,
        {
            let found = self.search(words[t].clone());
            r.push(found);
            t = t + 1;
        }
        r
    }

    /// `(number of words, number of entries over all words)`.
    pub fn get_stats(&self) -> (r: (usize, usize))
        requires
            self.wf(),
            total_entries(self@) <= usize::MAX,
        ensures
            r.0 == self@.len(),
            r.1 == total_entries(self@),
    {
        let mut total: usize = 0;
        let mut k: usize = 0;
        while k < self.lists.len()
            invariant
                self.wf(),
                0 <= k <= self.lists.len(),
                total == total_entries(self@.take(k as int)),
                total_entries(self@) <= usize::MAX,
            decreases self.lists.len() - k,
        {
            proof {
                assert(self@.take(k as int + 1).drop_last() =~= self@.take(k as int));
                lemma_total_entries_prefix(self@, k as int + 1);
            }
            total = total + self.lists[k].len();
            k = k + 1;
        }
        proof {
            assert(self@.take(k as int) =~= self@);
        }
        (self.keys.len(), total)
    }

    /// The model of a well-formed dictionary is well formed. With the
    /// contracts of `encode` and `decode` this gives the round trip: decoding
    /// what `encode` wrote for `self` returns `Ok` with the same model.
    pub proof fn lemma_view_wf(&self)
        requires
            self.wf(),
        ensures
            dict_wf(self@),
    {
    }

    /// Whether `word` already has the entry `(pos, lemma)`.
    pub fn has_entry(&self, word: &String, pos: &String, lemma: &String) -> (r: bool)
        requires
            self.wf(),
        ensures
            r == entries_of(self@, word@).contains((pos@, lemma@)),
    {
        let w = chars_of(word.as_str());
        proof {
            assert(w@.subrange(0, w.len() as int) =~= w@);
        }
        match self.find_range(&w, 0, w.len()) {
            Some(k) => Self::list_contains(&self.lists[k], pos, lemma),
            None => false,
        }
    }

    /// The words with their entry lists, in the dictionary's order.
    pub fn to_stored(&self) -> (r: Vec<(String, Vec<(String, String)>)>)
        requires
            self.wf(),
        ensures
            r.deep_view() == self@,
    {
        let mut r: Vec<(String, Vec<(String, String)>)> = Vec::new();
        let mut k: usize = 0;
        while k < self.keys.len()
            invariant
                self.wf(),
                0 <= k <= self.keys.len(),
                r.deep_view() =~= self@.take(k as int),
            decreases self.keys.len() - k,
        {
            let word = crate::text::string_of_range(&self.keys[k], 0, self.keys[k].len());
            let ents = self.copy_entries(k);
            let ghost r0 = r.deep_view();
            proof {
                assert(self.keys[k as int]@.subrange(0, self.keys[k as int]@.len() as int)
                    =~= self.keys[k as int]@);
            }
            r.push((word, ents));
            proof {
                assert(r.deep_view() =~= r0.push(self@[k as int]));
                assert(r.deep_view() =~= self@.take(k as int + 1));
            }
            k = k + 1;
        }
        proof {
            assert(self@.take(k as int) =~= self@);
        }
        r
    }
}

} // verus!
