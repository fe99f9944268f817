//! File-name logic for discovery and output naming.
//!
//! Discovery selects files whose name carries the extension `csv`, exactly
//! and case-sensitively; the output file name replaces that extension with
//! `json`. The extension of a name is the part after its last dot, provided
//! that dot is neither the first character (a leading-dot name has no
//! extension) nor absent.

use crate::ascii::DOT;
use crate::ascii::LOWER_C;
use crate::ascii::LOWER_J;
use crate::ascii::LOWER_N;
use crate::ascii::LOWER_O;
use crate::ascii::LOWER_S;
use crate::ascii::LOWER_V;
use vstd::prelude::*;

verus! {

/// A file name has the extension `csv` exactly when it ends in `.csv` with
/// at least one character before the dot.
pub open spec fn is_csv_name(name: Seq<u8>) -> bool {
    name.len() >= 5 && name.subrange(name.len() - 4, name.len() as int) == seq![
        DOT,
        LOWER_C,
        LOWER_S,
        LOWER_V,
    ]
}

/// Decides whether a file name carries the `csv` extension.
pub fn has_csv_extension(name: &Vec<u8>) -> (r: bool)
    ensures
        r == is_csv_name(name@),
{
    if name.len() < 5 {
        assert(!is_csv_name(name@));
        return false;
    }
    let n = name.len();
    let r = name[n - 4] == DOT && name[n - 3] == LOWER_C && name[n - 2] == LOWER_S && name[n - 1]
        == LOWER_V;
    proof {
        let tail = name@.subrange(name@.len() - 4, name@.len() as int);
        assert(tail.len() == 4);
        assert(tail[0] == name@[name@.len() - 4]);
        assert(tail[1] == name@[name@.len() - 3]);
        assert(tail[2] == name@[name@.len() - 2]);
        assert(tail[3] == name@[name@.len() - 1]);
        if r {
            assert(tail =~= seq![DOT, LOWER_C, LOWER_S, LOWER_V]);
        } else {
            assert(tail != seq![DOT, LOWER_C, LOWER_S, LOWER_V]);
        }
    }
    r
}

/// The position of the last dot of a file name, `-1` when it has none.
pub open spec fn last_dot(name: Seq<u8>) -> int
    decreases name.len(),
{
    if name.len() == 0 {
        -1
    } else if name.last() == DOT {
        name.len() - 1
    } else {
        last_dot(name.drop_last())
    }
}

/// The stem of a file name: what stands before its last dot — the whole
/// name when there is no dot, or when the only dot leads the name.
pub open spec fn stem_of(name: Seq<u8>) -> Seq<u8> {
    if last_dot(name) <= 0 {
        name
    } else {
        name.take(last_dot(name))
    }
}

/// The output file name: the stem with the extension `json`.
pub open spec fn json_name_of(name: Seq<u8>) -> Seq<u8> {
    stem_of(name) + seq![DOT, LOWER_J, LOWER_S, LOWER_O, LOWER_N]
}

proof fn lemma_last_dot_at(name: Seq<u8>, i: int)
    requires
        0 <= i < name.len(),
        name[i] == DOT,
        forall|j: int| i < j < name.len() ==> name[j] != DOT,
    ensures
        last_dot(name) == i,
    decreases name.len(),
{
    if i < name.len() - 1 {
        assert(name.last() != DOT);
        assert(name.drop_last()[i] == DOT);
        assert(forall|j: int|
            i < j < name.drop_last().len() ==> name.drop_last()[j] == name[j]);
        lemma_last_dot_at(name.drop_last(), i);
    }
}

proof fn lemma_last_dot_none(name: Seq<u8>)
    requires
        forall|j: int| 0 <= j < name.len() ==> name[j] != DOT,
    ensures
        last_dot(name) == -1,
    decreases name.len(),
{
    if name.len() > 0 {
        assert(forall|j: int|
            0 <= j < name.drop_last().len() ==> name.drop_last()[j] == name[j]);
        lemma_last_dot_none(name.drop_last());
    }
}

/// Derives the output file name from an input file name: the part before
/// the last dot — the whole name when no dot cuts it — followed by
/// `.json`.
pub fn json_output_name(name: &Vec<u8>) -> (r: Vec<u8>)
    ensures
        r@ == json_name_of(name@),
{
    let mut dot: usize = 0;
    let mut found = false;
    let mut i: usize = 0;
    while i < name.len()
        invariant
            i <= name.len(),
            found ==> dot < i && name@[dot as int] == DOT && forall|j: int|
                dot < j < i ==> name@[j] != DOT,
            !found ==> forall|j: int| 0 <= j < i ==> name@[j] != DOT,
        decreases name.len() - i,
    {
        if name[i] == DOT {
            dot = i;
            found = true;
        }
        i = i + 1;
    }
    proof {
        if found {
            lemma_last_dot_at(name@, dot as int);
        } else {
            lemma_last_dot_none(name@);
        }
    }
    let cut: usize = if !found || dot == 0 {
        name.len()
    } else {
        dot
    };
    proof {
        assert(name@.take(name@.len() as int) =~= name@);
        assert(name@.take(cut as int) == stem_of(name@));
    }
    let mut r: Vec<u8> = Vec::new();
    let mut k: usize = 0;
    while k < cut
        invariant
            k <= cut,
            cut <= name@.len(),
            r@ == name@.take(cut as int).take(k as int),
        decreases cut - k,
    {
        r.push(name[k]);
        proof {
            assert(name@.take(cut as int).take(k as int + 1) =~= name@.take(cut as int).take(
                k as int,
            ).push(name@[k as int]));
        }
        k = k + 1;
    }
    proof {
        assert(name@.take(cut as int).take(cut as int) =~= name@.take(cut as int));
    }
    r.push(DOT);
    r.push(LOWER_J);
    r.push(LOWER_S);
    r.push(LOWER_O);
    r.push(LOWER_N);
    proof {
        assert(r@ =~= json_name_of(name@));
    }
    r
}

} // verus!
