//! Lexicographic orders on the sort keys the reports use.
use crate::text::{lemma_seq_lt_irreflexive, lemma_seq_lt_total, lemma_seq_lt_transitive, seq_lt};
use vstd::prelude::*;

verus! {

/// `(file, position)` ordered by file, then position.
pub type Key2 = (Seq<char>, int);

/// `(rank, file, position, file, position)`, lexicographic.
pub type Key5 = (int, Seq<char>, int, Seq<char>, int);

pub open spec fn key2_lt(x: Key2, y: Key2) -> bool {
    seq_lt(x.0, y.0) || (x.0 == y.0 && x.1 < y.1)
}

pub open spec fn key5_lt(x: Key5, y: Key5) -> bool {
    ||| x.0 < y.0
    ||| x.0 == y.0 && seq_lt(x.1, y.1)
    ||| x.0 == y.0 && x.1 == y.1 && x.2 < y.2
    ||| x.0 == y.0 && x.1 == y.1 && x.2 == y.2 && seq_lt(x.3, y.3)
    ||| x.0 == y.0 && x.1 == y.1 && x.2 == y.2 && x.3 == y.3 && x.4 < y.4
}

pub proof fn lemma_key2_order(x: Key2, y: Key2, z: Key2)
    ensures
        !key2_lt(x, x),
        x == y || key2_lt(x, y) || key2_lt(y, x),
        !(key2_lt(x, y) && key2_lt(y, x)),
        key2_lt(x, y) && key2_lt(y, z) ==> key2_lt(x, z),
{
    lemma_seq_lt_irreflexive(x.0);
    lemma_seq_lt_total(x.0, y.0);
    lemma_seq_lt_total(y.0, z.0);
    lemma_seq_lt_total(x.0, z.0);
    if seq_lt(x.0, y.0) && seq_lt(y.0, z.0) {
        lemma_seq_lt_transitive(x.0, y.0, z.0);
    }
}

pub proof fn lemma_key5_order(x: Key5, y: Key5, z: Key5)
    ensures
        !key5_lt(x, x),
        x == y || key5_lt(x, y) || key5_lt(y, x),
        !(key5_lt(x, y) && key5_lt(y, x)),
        key5_lt(x, y) && key5_lt(y, z) ==> key5_lt(x, z),
{
    lemma_seq_lt_irreflexive(x.1);
    lemma_seq_lt_irreflexive(x.3);
    lemma_seq_lt_total(x.1, y.1);
    lemma_seq_lt_total(y.1, z.1);
    lemma_seq_lt_total(x.1, z.1);
    lemma_seq_lt_total(x.3, y.3);
    lemma_seq_lt_total(y.3, z.3);
    lemma_seq_lt_total(x.3, z.3);
    if seq_lt(x.1, y.1) && seq_lt(y.1, z.1) {
        lemma_seq_lt_transitive(x.1, y.1, z.1);
    }
    if seq_lt(x.3, y.3) && seq_lt(y.3, z.3) {
        lemma_seq_lt_transitive(x.3, y.3, z.3);
    }
}

} // verus!
