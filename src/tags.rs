//! Part-of-speech tag codes and the adjacency constraint between them.
use vstd::prelude::*;

verus! {

/// The two-character tag code `a b`.
pub open spec fn code2(a: char, b: char) -> Seq<char> {
    seq![a, b]
}

/// The three-character tag code `a b c`.
pub open spec fn code3(a: char, b: char, c: char) -> Seq<char> {
    seq![a, b, c]
}

/// `t` begins with the character `c`.
pub open spec fn starts_with(t: Seq<char>, c: char) -> bool {
    t.len() > 0 && t[0] == c
}

/// The forbidden ordered pairs of adjacent tags: (JKS,JKS), (JKO,JKO),
/// (EF,JKS), (EF,JKO), (EF,EF) and (SF,JKS). Every other pair is allowed.
pub open spec fn valid_transition(prev: Seq<char>, curr: Seq<char>) -> bool {
    let jks = code3('J', 'K', 'S');
    let jko = code3('J', 'K', 'O');
    let ef = code2('E', 'F');
    let sf = code2('S', 'F');
    !((prev == jks && curr == jks) || (prev == jko && curr == jko) || (prev == ef && curr == jks)
        || (prev == ef && curr == jko) || (prev == ef && curr == ef) || (prev == sf && curr
        == jks))
}

/// Whether `t` is the two-character code `a b`.
pub fn tag_is2(t: &str, a: char, b: char) -> (r: bool)
    ensures
        r == (t@ == code2(a, b)),
{
    if t.unicode_len() != 2 {
        return false;
    }
    let r = t.get_char(0) == a && t.get_char(1) == b;
    proof {
        if r {
            assert(t@ =~= code2(a, b));
        }
    }
    r
}

/// Whether `t` is the three-character code `a b c`.
pub fn tag_is3(t: &str, a: char, b: char, c: char) -> (r: bool)
    ensures
        r == (t@ == code3(a, b, c)),
{
    if t.unicode_len() != 3 {
        return false;
    }
    let r = t.get_char(0) == a && t.get_char(1) == b && t.get_char(2) == c;
    proof {
        if r {
            assert(t@ =~= code3(a, b, c));
        }
    }
    r
}

/// Whether `t` begins with `c`.
pub fn tag_starts_with(t: &str, c: char) -> (r: bool)
    ensures
        r == starts_with(t@, c),
{
    t.unicode_len() > 0 && t.get_char(0) == c
}

/// Whether a morpheme tagged `curr_pos` may directly follow one tagged
/// `prev_pos`.
pub fn is_valid_transition(prev_pos: &str, curr_pos: &str) -> (r: bool)
    ensures
        r == valid_transition(prev_pos@, curr_pos@),
{
    let prev_jks = tag_is3(prev_pos, 'J', 'K', 'S');
    let prev_jko = tag_is3(prev_pos, 'J', 'K', 'O');
    let prev_ef = tag_is2(prev_pos, 'E', 'F');
    let prev_sf = tag_is2(prev_pos, 'S', 'F');
    let curr_jks = tag_is3(curr_pos, 'J', 'K', 'S');
    let curr_jko = tag_is3(curr_pos, 'J', 'K', 'O');
    let curr_ef = tag_is2(curr_pos, 'E', 'F');
    !((prev_jks && curr_jks) || (prev_jko && curr_jko) || (prev_ef && curr_jks) || (prev_ef
        && curr_jko) || (prev_ef && curr_ef) || (prev_sf && curr_jks))
}

} // verus!
