//! Facts about filtered sequences.

use vstd::prelude::*;

verus! {

/// Where the first `n` elements meet a condition and no later one does, the
/// elements that meet it are the first `n`.
pub proof fn lemma_filter_take<A>(s: Seq<A>, pred: spec_fn(A) -> bool, n: int)
    requires
        0 <= n <= s.len(),
        forall|i: int| 0 <= i < n ==> pred(#[trigger] s[i]),
        forall|i: int| n <= i < s.len() ==> !pred(#[trigger] s[i]),
    ensures
        s.filter(pred) == s.take(n),
    decreases s.len(),
{
    if s.len() == 0 {
        assert(s.filter(pred) =~= s.take(n)) by {
            reveal(Seq::filter);
        }
    } else {
        let init = s.drop_last();
        assert(s =~= init.push(s.last()));
        init.lemma_filter_push(s.last(), pred);
        if n == s.len() {
            lemma_filter_take(init, pred, n - 1);
            assert(init.take(n - 1) =~= init);
            assert(s.take(n) =~= s);
        } else {
            lemma_filter_take(init, pred, n);
            assert(init.take(n) =~= s.take(n));
        }
    }
}

/// Where none of the first `n` elements meets a condition and every later
/// one does, the elements that meet it are those behind the first `n`.
pub proof fn lemma_filter_skip<A>(s: Seq<A>, pred: spec_fn(A) -> bool, n: int)
    requires
        0 <= n <= s.len(),
        forall|i: int| 0 <= i < n ==> !pred(#[trigger] s[i]),
        forall|i: int| n <= i < s.len() ==> pred(#[trigger] s[i]),
    ensures
        s.filter(pred) == s.skip(n),
    decreases s.len(),
{
    if s.len() == 0 {
        assert(s.filter(pred) =~= s.skip(n)) by {
            reveal(Seq::filter);
        }
    } else {
        let init = s.drop_last();
        assert(s =~= init.push(s.last()));
        init.lemma_filter_push(s.last(), pred);
        if n == s.len() {
            lemma_filter_skip(init, pred, n - 1);
            assert(init.skip(n - 1) =~= Seq::empty());
            assert(s.skip(n) =~= Seq::empty());
        } else {
            lemma_filter_skip(init, pred, n);
            assert(s.skip(n) =~= init.skip(n).push(s.last()));
        }
    }
}

} // verus!
