//! Whole-dictionary binary encoding, in bincode's format for a list of
//! `(word, [(tag, lemma)])` pairs.
use vstd::prelude::*;

use crate::dictionary::{dict_wf, has_key, DictView, RustTrie};

verus! {

/// A dictionary's stored form: each word with its entry list.
pub type Stored = Vec<(String, Vec<(String, String)>)>;

/// Why saving or loading a dictionary failed, with the underlying message.
#[derive(Debug)]
pub enum StoreError {
    /// The file could not be created, opened, read or written.
    Io(String),
    /// The bytes are not an encoded dictionary.
    Decode(String),
}

impl StoreError {
    /// The underlying message.
    pub fn message(&self) -> (r: &String)
        ensures
            match self {
                StoreError::Io(m) => r == m,
                StoreError::Decode(m) => r == m,
            },
    {
        match self {
            StoreError::Io(m) => m,
            StoreError::Decode(m) => m,
        }
    }
}

/// bincode's error, carried from the calls below to its message.
#[verifier::external_type_specification]
#[verifier::external_body]
pub struct ExBincodeErrorKind(bincode::ErrorKind);

/// The bytes that bincode writes for the stored form `v`.
pub uninterp spec fn bincode_encoding(v: DictView) -> Seq<u8>;

/// Relies on `bincode::serialize`: the bytes are bincode's encoding of the
/// value. It cannot fail here: the size limit is unbounded, a `Vec` always
/// gives its length, and writing into a `Vec` cannot fail.
#[verifier::external_body]
fn bincode_serialize(v: &Stored) -> (r: Result<Vec<u8>, Box<bincode::ErrorKind>>)
    ensures
        r is Ok,
        r matches Ok(b) ==> b@ == bincode_encoding(v.deep_view()),
{
    bincode::serialize(v)
}

/// Relies on `bincode::deserialize`: bytes that `bincode::serialize` wrote for
/// a value read back as that value (every string and list is length-prefixed,
/// so no two values share an encoding); a value read is one whose encoding
/// begins the bytes (the decoder reads exactly what the encoder wrote, and
/// trailing bytes are allowed).
#[verifier::external_body]
fn bincode_deserialize(b: &Vec<u8>) -> (r: Result<Stored, Box<bincode::ErrorKind>>)
    ensures
        forall|v: DictView| b@ == #[trigger] bincode_encoding(v) ==> r is Ok && r->Ok_0.deep_view() == v,
        r is Ok ==> exists|k: int| 0 <= k <= b@.len() && b@.take(k) == bincode_encoding(r->Ok_0.deep_view()),
{
    bincode::deserialize(b.as_slice())
}

/// Relies on `Display for bincode::ErrorKind`: the error's message.
#[verifier::external_body]
fn bincode_error_message(e: &bincode::ErrorKind) -> String {
    e.to_string()
}

/// Builds a dictionary from its stored form; fails unless the words are
/// distinct and each entry list is non-empty and free of repeats.
pub fn from_stored(v: Stored) -> (r: Result<RustTrie, StoreError>)
    ensures
        r is Ok <==> dict_wf(v.deep_view()),
        r matches Ok(t) ==> t.wf() && t@ == v.deep_view(),
        r matches Err(e) ==> e is Decode,
{
    let ghost dv = v.deep_view();
    let mut t = RustTrie::new();
    let mut p: usize = 0;
    proof {
        assert(dv.take(0) =~= Seq::empty());
    }
    while p < v.len()
        invariant
            dv == v.deep_view(),
            0 <= p <= v.len(),
            t.wf(),
            t@ == dv.take(p as int),
            dict_wf(dv.take(p as int)),
        decreases v.len() - p,
    {
        let word = &v[p].0;
        let list = &v[p].1;
        let ghost w = word@;
        let ghost l = list.deep_view();
        assert(dv[p as int] == (w, l));
        if list.len() == 0 {
            return Err(StoreError::Decode("a word has no entries".to_owned()));
        }
        if t.contains_word(word.clone()) {
            proof {
                let k = choose|k: int| 0 <= k < t@.len() && t@[k].0 == w;
                assert(dv[k].0 == dv[p as int].0);
            }
            return Err(StoreError::Decode("a word occurs twice".to_owned()));
        }
        let mut q: usize = 0;
        proof {
            assert(l.take(0) =~= Seq::empty());
        }
        while q < list.len()
            invariant
                dv == v.deep_view(),
                p < v.len(),
                dv[p as int] == (w, l),
                word@ == w,
                list.deep_view() == l,
                l.len() > 0,
                0 <= q <= list.len(),
                t.wf(),
                !has_key(dv.take(p as int), w),
                dict_wf(dv.take(p as int)),
                q == 0 ==> t@ == dv.take(p as int),
                q > 0 ==> t@ == dv.take(p as int).push((w, l.take(q as int))),
                l.take(q as int).no_duplicates(),
            decreases list.len() - q,
        {
            let pos = &list[q].0;
            let lemma = &list[q].1;
            let ghost e = (pos@, lemma@);
            assert(l[q as int] == e);
            let d0 = t.has_entry(word, pos, lemma);
            if d0 {
                proof {
                    assert(q > 0);
                    let d = t@;
                    assert(d[p as int].0 == w);
                    assert(has_key(d, w));
                    let kp = choose|k: int| 0 <= k < d.len() && d[k].0 == w;
                    if kp != p {
                        assert(dv.take(p as int)[kp].0 == w);
                    }
                    let u = choose|u: int| 0 <= u < l.take(q as int).len() && l.take(q as int)[u] == e;
                    assert(l[u] == l[q as int]);
                }
                return Err(StoreError::Decode("an entry occurs twice".to_owned()));
            }
            let ghost t0 = t@;
            t.insert(word.clone(), pos.clone(), lemma.clone());
            proof {
                let d = dv.take(p as int);
                if q == 0 {
                    assert(!has_key(t0, w));
                    assert(l.take(1) =~= seq![e]);
                } else {
                    assert(t0[p as int].0 == w);
                    assert(has_key(t0, w));
                    let kp = choose|k: int| 0 <= k < t0.len() && t0[k].0 == w;
                    if kp != p {
                        assert(d[kp].0 == w);
                    }
                    assert(l.take(q as int + 1) =~= l.take(q as int).push(e));
                    assert(t@ =~= d.push((w, l.take(q as int + 1))));
                }
                assert(l.take(q as int + 1) =~= l.take(q as int).push(e));
            }
            q = q + 1;
        }
        proof {
            assert(l.take(q as int) =~= l);
            assert(dv.take(p as int + 1) =~= dv.take(p as int).push((w, l)));
            assert(l.no_duplicates());
        }
        p = p + 1;
    }
    proof {
        assert(dv.take(p as int) =~= dv);
    }
    Ok(t)
}

impl RustTrie {
    /// The dictionary's bytes: bincode's encoding of its words with their
    /// entry lists, in order.
    pub fn encode(&self) -> (r: Vec<u8>)
        requires
            self.wf(),
        ensures
            r@ == bincode_encoding(self@),
    {
        let stored = self.to_stored();
        match bincode_serialize(&stored) {
            Ok(b) => b,
            Err(_) => Vec::new(),
        }
    }

    /// Reads a dictionary back from bytes that `encode` wrote; fails with a
    /// decode error unless some prefix of the bytes is the encoding of a
    /// well-formed dictionary.
    pub fn decode(bytes: &Vec<u8>) -> (r: Result<RustTrie, StoreError>)
        ensures
            forall|v: DictView|
                bytes@ == #[trigger] bincode_encoding(v) ==> ((r is Ok <==> dict_wf(v)) && (r matches Ok(
                    t,
                ) ==> t@ == v)),
            r matches Ok(t) ==> t.wf(),
            r is Ok ==> exists|k: int|
                0 <= k <= bytes@.len() && bytes@.take(k) == bincode_encoding(r->Ok_0@),
            r matches Err(e) ==> e is Decode,
    {
        match bincode_deserialize(bytes) {
            Ok(v) => from_stored(v),
            Err(e) => Err(StoreError::Decode(bincode_error_message(&e))),
        }
    }
}

} // verus!
