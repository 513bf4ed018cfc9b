//! Laws of the header extraction.
//!
//! The exec parser's contracts pin its result to the spec-level fold
//! [`headers_fold`].  The lemmas here state what that fold guarantees: a
//! later header line overwrites an earlier one of the same name, and — when
//! no name repeats — the mapping does not depend on the order in which the
//! header lines stand in the buffer.

use vstd::prelude::*;

use crate::parser::header_step;
use crate::parser::headers_fold;
use crate::parser::spec_header_line;
use crate::parser::spec_headers;
use crate::parser::spec_lines;

verus! {

/// The line carries a header named `n`.
pub open spec fn line_named(line: Seq<u8>, n: Seq<u8>) -> bool {
    match spec_header_line(line) {
        Some((nn, vv)) => nn == n,
        None => false,
    }
}

/// Some line of `ls` carries a header named `n`.
pub open spec fn has_name(ls: Seq<Seq<u8>>, n: Seq<u8>) -> bool {
    exists|i: int| 0 <= i < ls.len() && line_named(ls[i], n)
}

/// No two lines of `ls` carry headers of the same name.
pub open spec fn matched_names_unique(ls: Seq<Seq<u8>>) -> bool {
    forall|i: int, j: int, n: Seq<u8>|
        0 <= i < j < ls.len() && #[trigger] line_named(ls[i], n) ==> !(#[trigger] line_named(
            ls[j],
            n,
        ))
}

/// A name that no line carries keeps its mapping entry through the fold.
pub proof fn lemma_fold_preserves_unnamed(ls: Seq<Seq<u8>>, m: Map<Seq<u8>, Seq<u8>>, n: Seq<u8>)
    requires
        !has_name(ls, n),
    ensures
        headers_fold(ls, m).contains_key(n) == m.contains_key(n),
        m.contains_key(n) ==> headers_fold(ls, m)[n] == m[n],
    decreases ls.len(),
{
    if ls.len() > 0 {
        let l0 = ls.first();
        let rest = ls.drop_first();
        assert(!line_named(l0, n)) by {
            if line_named(l0, n) {
                assert(line_named(ls[0], n));
                assert(has_name(ls, n));
            }
        }
        assert(!has_name(rest, n)) by {
            if has_name(rest, n) {
                let i = choose|i: int| 0 <= i < rest.len() && line_named(rest[i], n);
                assert(rest[i] == ls[i + 1]);
                assert(line_named(ls[i + 1], n));
                assert(has_name(ls, n));
            }
        }
        lemma_fold_preserves_unnamed(rest, header_step(m, l0), n);
    }
}

/// A later header line overwrites an earlier one of the same name: the
/// folded mapping carries, under each name, the value of the last line that
/// names it.
pub proof fn lemma_last_header_wins(
    ls: Seq<Seq<u8>>,
    m: Map<Seq<u8>, Seq<u8>>,
    t: int,
    n: Seq<u8>,
    v: Seq<u8>,
)
    requires
        0 <= t < ls.len(),
        spec_header_line(ls[t]) == Some((n, v)),
        forall|i: int| t < i < ls.len() ==> !line_named(ls[i], n),
    ensures
        headers_fold(ls, m).contains_key(n),
        headers_fold(ls, m)[n] == v,
    decreases ls.len(),
{
    let l0 = ls.first();
    let rest = ls.drop_first();
    if t == 0 {
        assert(header_step(m, l0) == m.insert(n, v));
        assert(!has_name(rest, n)) by {
            if has_name(rest, n) {
                let i = choose|i: int| 0 <= i < rest.len() && line_named(rest[i], n);
                assert(rest[i] == ls[i + 1]);
                assert(line_named(ls[i + 1], n));
            }
        }
        lemma_fold_preserves_unnamed(rest, m.insert(n, v), n);
    } else {
        assert(rest[t - 1] == ls[t]);
        assert forall|i: int| t - 1 < i < rest.len() implies !line_named(rest[i], n) by {
            assert(rest[i] == ls[i + 1]);
        }
        lemma_last_header_wins(rest, header_step(m, l0), t - 1, n, v);
    }
}

/// A name is a key of the folded mapping exactly when it was one before or
/// some line carries it.
pub proof fn lemma_fold_dom(ls: Seq<Seq<u8>>, m: Map<Seq<u8>, Seq<u8>>, n: Seq<u8>)
    ensures
        headers_fold(ls, m).contains_key(n) <==> (m.contains_key(n) || has_name(ls, n)),
    decreases ls.len(),
{
    if ls.len() > 0 {
        let l0 = ls.first();
        let rest = ls.drop_first();
        lemma_fold_dom(rest, header_step(m, l0), n);
        assert(line_named(l0, n) ==> has_name(ls, n)) by {
            if line_named(l0, n) {
                assert(line_named(ls[0], n));
            }
        }
        assert(has_name(rest, n) ==> has_name(ls, n)) by {
            if has_name(rest, n) {
                let i = choose|i: int| 0 <= i < rest.len() && line_named(rest[i], n);
                assert(rest[i] == ls[i + 1]);
                assert(line_named(ls[i + 1], n));
            }
        }
        assert(has_name(ls, n) ==> line_named(l0, n) || has_name(rest, n)) by {
            if has_name(ls, n) {
                let i = choose|i: int| 0 <= i < ls.len() && line_named(ls[i], n);
                if i > 0 {
                    assert(rest[i - 1] == ls[i]);
                    assert(line_named(rest[i - 1], n));
                }
            }
        }
    }
}

/// Header extraction is order-independent: two buffers whose lines are the
/// same up to order, no name repeating in either, fold to the same mapping.
pub proof fn lemma_headers_order_independent(ls1: Seq<Seq<u8>>, ls2: Seq<Seq<u8>>)
    requires
        ls1.to_multiset() == ls2.to_multiset(),
        matched_names_unique(ls1),
        matched_names_unique(ls2),
    ensures
        headers_fold(ls1, Map::empty()) == headers_fold(ls2, Map::empty()),
{
    let m1 = headers_fold(ls1, Map::<Seq<u8>, Seq<u8>>::empty());
    let m2 = headers_fold(ls2, Map::<Seq<u8>, Seq<u8>>::empty());
    ls1.to_multiset_ensures();
    ls2.to_multiset_ensures();
    assert forall|n: Seq<u8>| #[trigger] m1.contains_key(n) implies m2.contains_key(n) && m1[n]
        == m2[n] by {
        lemma_fold_dom(ls1, Map::<Seq<u8>, Seq<u8>>::empty(), n);
        let i1 = choose|i: int| 0 <= i < ls1.len() && line_named(ls1[i], n);
        let l = ls1[i1];
        match spec_header_line(l) {
            Some((nn, vv)) => {
                assert forall|i: int| i1 < i < ls1.len() implies !line_named(ls1[i], n) by {}
                lemma_last_header_wins(ls1, Map::<Seq<u8>, Seq<u8>>::empty(), i1, n, vv);
                assert(ls1.contains(l));
                assert(ls1.to_multiset().count(l) > 0);
                assert(ls2.contains(l));
                let i2 = choose|i: int| 0 <= i < ls2.len() && ls2[i] == l;
                assert(line_named(ls2[i2], n));
                assert forall|i: int| i2 < i < ls2.len() implies !line_named(ls2[i], n) by {}
                lemma_last_header_wins(ls2, Map::<Seq<u8>, Seq<u8>>::empty(), i2, n, vv);
            },
            None => {
                assert(false);
            },
        }
    }
    assert forall|n: Seq<u8>| #[trigger] m2.contains_key(n) implies m1.contains_key(n) by {
        lemma_fold_dom(ls2, Map::<Seq<u8>, Seq<u8>>::empty(), n);
        lemma_fold_dom(ls1, Map::<Seq<u8>, Seq<u8>>::empty(), n);
        let i2 = choose|i: int| 0 <= i < ls2.len() && line_named(ls2[i], n);
        let l = ls2[i2];
        assert(ls2.contains(l));
        assert(ls2.to_multiset().count(l) > 0);
        assert(ls1.contains(l));
        let i1 = choose|i: int| 0 <= i < ls1.len() && ls1[i] == l;
        assert(line_named(ls1[i1], n));
        assert(has_name(ls1, n));
    }
    assert(m1 =~= m2);
}

/// The same at buffer level: two buffers whose lines are the same up to
/// order, no header name repeating in either, yield identical header
/// mappings.
pub proof fn lemma_buffer_headers_order_independent(b1: Seq<u8>, b2: Seq<u8>)
    requires
        spec_lines(b1).to_multiset() == spec_lines(b2).to_multiset(),
        matched_names_unique(spec_lines(b1)),
        matched_names_unique(spec_lines(b2)),
    ensures
        spec_headers(b1) == spec_headers(b2),
{
    lemma_headers_order_independent(spec_lines(b1), spec_lines(b2));
}

/// A buffer with a valid request line and no further lines — none of its
/// lines carries a header — yields the empty mapping, and no failure: header
/// extraction is total.
pub proof fn lemma_no_header_lines(buf: Seq<u8>)
    requires
        forall|i: int|
            0 <= i < spec_lines(buf).len() ==> spec_header_line(
                #[trigger] spec_lines(buf)[i],
            ) is None,
    ensures
        spec_headers(buf) == Map::<Seq<u8>, Seq<u8>>::empty(),
{
    assert forall|n: Seq<u8>| !(#[trigger] spec_headers(buf).contains_key(n)) by {
        lemma_fold_dom(spec_lines(buf), Map::<Seq<u8>, Seq<u8>>::empty(), n);
        if has_name(spec_lines(buf), n) {
            let i = choose|i: int| 0 <= i < spec_lines(buf).len() && line_named(
                spec_lines(buf)[i],
                n,
            );
            assert(spec_header_line(spec_lines(buf)[i]) is None);
        }
    }
    assert(spec_headers(buf) =~= Map::<Seq<u8>, Seq<u8>>::empty());
}

} // verus!
