//! A sorted index of the vocabulary texts: lookup of a text by binary search
//! and, for each piece, whether it is the last piece with its text.

use crate::load_tokenizer::sentencepiece::{
    Piece, PieceModel, in_vocab, is_last_occurrence, piece_bytes, pieces_view,
};
use crate::sort::{IndexOrder, all_in_domain, indices, merge_sort, sorted_by_order};
use vstd::prelude::*;

verus! {

broadcast use vstd::seq_lib::group_to_multiset_ensures;

/// `a` comes strictly before `b` in byte-wise lexicographic order (a proper
/// prefix comes first).
pub open spec fn bytes_lt(a: Seq<u8>, b: Seq<u8>) -> bool
    decreases a.len(),
{
    if a.len() == 0 {
        b.len() > 0
    } else if b.len() == 0 {
        false
    } else if a[0] != b[0] {
        a[0] < b[0]
    } else {
        bytes_lt(a.drop_first(), b.drop_first())
    }
}

pub proof fn lemma_bytes_lt_irreflexive(a: Seq<u8>)
    ensures
        !bytes_lt(a, a),
    decreases a.len(),
{
    if a.len() > 0 {
        lemma_bytes_lt_irreflexive(a.drop_first());
    }
}

pub proof fn lemma_bytes_lt_transitive(a: Seq<u8>, b: Seq<u8>, c: Seq<u8>)
    requires
        bytes_lt(a, b),
        bytes_lt(b, c),
    ensures
        bytes_lt(a, c),
    decreases a.len(),
{
    if a.len() > 0 && a[0] == b[0] && b[0] == c[0] {
        lemma_bytes_lt_transitive(a.drop_first(), b.drop_first(), c.drop_first());
    }
}

pub proof fn lemma_bytes_lt_total(a: Seq<u8>, b: Seq<u8>)
    ensures
        a == b || bytes_lt(a, b) || bytes_lt(b, a),
    decreases a.len(),
{
    if a.len() == 0 && b.len() == 0 {
        assert(a =~= b);
    } else if a.len() > 0 && b.len() > 0 && a[0] == b[0] {
        lemma_bytes_lt_total(a.drop_first(), b.drop_first());
        if a.drop_first() == b.drop_first() {
            assert(a =~= seq![a[0]] + a.drop_first());
            assert(b =~= seq![b[0]] + b.drop_first());
        }
    }
}

pub proof fn lemma_bytes_lt_asymmetric(a: Seq<u8>, b: Seq<u8>)
    ensures
        !(bytes_lt(a, b) && bytes_lt(b, a)),
{
    if bytes_lt(a, b) && bytes_lt(b, a) {
        lemma_bytes_lt_transitive(a, b, a);
        lemma_bytes_lt_irreflexive(a);
    }
}

/// Compare two byte strings: negative, zero or positive as `a` comes
/// before, equals, or comes after `b`.
#[verifier::rlimit(40)]
pub fn compare_bytes(a: &[u8], b: &[u8]) -> (res: i8)
    ensures
        (res < 0) == bytes_lt(a@, b@),
        (res == 0) == (a@ == b@),
        (res > 0) == bytes_lt(b@, a@),
{
    let mut i: usize = 0;
    proof {
        assert(a@.skip(0) =~= a@);
        assert(b@.skip(0) =~= b@);
    }
    while i < a.len() && i < b.len()
        invariant
            i <= a@.len(),
            i <= b@.len(),
            a@.subrange(0, i as int) == b@.subrange(0, i as int),
            bytes_lt(a@, b@) == bytes_lt(a@.skip(i as int), b@.skip(i as int)),
            bytes_lt(b@, a@) == bytes_lt(b@.skip(i as int), a@.skip(i as int)),
        decreases a@.len() - i,
    {
        let x = a[i];
        let y = b[i];
        proof {
            assert(a@.skip(i as int)[0] == x);
            assert(b@.skip(i as int)[0] == y);
        }
        if x < y {
            proof {
                assert(a@[i as int] != b@[i as int]);
            }
            return -1;
        }
        if x > y {
            proof {
                assert(a@[i as int] != b@[i as int]);
            }
            return 1;
        }
        proof {
            assert(a@.skip(i as int).drop_first() =~= a@.skip(i + 1));
            assert(b@.skip(i as int).drop_first() =~= b@.skip(i + 1));
            assert(a@.subrange(0, i + 1) =~= a@.subrange(0, i as int).push(x));
            assert(b@.subrange(0, i + 1) =~= b@.subrange(0, i as int).push(y));
        }
        i += 1;
    }
    if a.len() < b.len() {
        proof {
            assert(a@.skip(i as int).len() == 0);
        }
        -1
    } else if a.len() > b.len() {
        proof {
            assert(b@.skip(i as int).len() == 0);
        }
        1
    } else {
        proof {
            assert(a@ =~= a@.subrange(0, i as int));
            assert(b@ =~= b@.subrange(0, i as int));
            lemma_bytes_lt_irreflexive(a@);
        }
        0
    }
}

/// Piece `i` may go before piece `j`: its text comes first, or the texts are
/// equal and `i` is not after `j`.
pub open spec fn piece_before_eq(pieces: Seq<PieceModel>, i: usize, j: usize) -> bool {
    let ci = pieces[i as int].content;
    let cj = pieces[j as int].content;
    bytes_lt(ci, cj) || (ci == cj && i <= j)
}

/// The order of pieces by text, then by id.
pub struct PieceOrder<'a> {
    pub pieces: &'a Vec<Piece>,
}

impl<'a> IndexOrder for PieceOrder<'a> {
    open spec fn in_domain(&self, i: usize) -> bool {
        i < self.pieces@.len()
    }

    open spec fn before_eq(&self, i: usize, j: usize) -> bool {
        piece_before_eq(pieces_view(self.pieces@), i, j)
    }

    proof fn lemma_total(&self, i: usize, j: usize) {
        let pv = pieces_view(self.pieces@);
        lemma_bytes_lt_total(pv[i as int].content, pv[j as int].content);
    }

    proof fn lemma_transitive(&self, i: usize, j: usize, k: usize) {
        let pv = pieces_view(self.pieces@);
        let ci = pv[i as int].content;
        let cj = pv[j as int].content;
        let ck = pv[k as int].content;
        if bytes_lt(ci, cj) && bytes_lt(cj, ck) {
            lemma_bytes_lt_transitive(ci, cj, ck);
        }
    }

    fn goes_before_eq(&self, i: usize, j: usize) -> (res: bool) {
        let c = compare_bytes(piece_bytes(self.pieces, i), piece_bytes(self.pieces, j));
        c < 0 || (c == 0 && i <= j)
    }
}

/// `order` lists every piece id once, sorted by text and then by id.
pub open spec fn is_vocab_index(pieces: Seq<PieceModel>, order: Seq<usize>) -> bool {
    &&& pieces.len() <= usize::MAX
    &&& order.len() == pieces.len()
    &&& forall|p: int| 0 <= p < order.len() ==> #[trigger] order[p] < pieces.len()
    &&& forall|p: int, q: int|
        0 <= p < q < order.len() ==> piece_before_eq(pieces, #[trigger] order[p], #[trigger] order[q])
    &&& forall|i: int| 0 <= i < pieces.len() ==> #[trigger] order.contains(i as usize)
    &&& order.no_duplicates()
}

/// Build the sorted index of the piece texts.
#[verifier::rlimit(40)]
pub fn build_vocab_index(pieces: &Vec<Piece>) -> (res: Vec<usize>)
    ensures
        is_vocab_index(pieces_view(pieces@), res@),
{
    let n = pieces.len();
    let ids = indices(n);
    let order_by = PieceOrder { pieces };
    proof {
        assert(all_in_domain(&order_by, ids@));
        assert(ids@.subrange(0, n as int) =~= ids@);
    }
    let order = merge_sort(&order_by, &ids, 0, n);
    proof {
        let pv = pieces_view(pieces@);
        assert(order@.to_multiset() == ids@.to_multiset());
        assert(order@.to_multiset().len() == order@.len());
        assert(ids@.to_multiset().len() == ids@.len());
        assert(order@.len() == n);
        assert forall|p: int| 0 <= p < order@.len() implies #[trigger] order@[p] < pv.len() by {
            assert(order_by.in_domain(order@[p]));
        }
        assert forall|p: int, q: int| 0 <= p < q < order@.len() implies piece_before_eq(
            pv,
            #[trigger] order@[p],
            #[trigger] order@[q],
        ) by {
            assert(order_by.before_eq(order@[p], order@[q]));
        }
        assert forall|i: int| 0 <= i < pv.len() implies #[trigger] order@.contains(i as usize) by {
            assert(ids@[i] == i as usize);
            assert(ids@.contains(i as usize));
            assert(ids@.to_multiset().count(i as usize) > 0);
        }
        assert(ids@.no_duplicates());
        ids@.lemma_multiset_has_no_duplicates();
        order@.lemma_multiset_has_no_duplicates_conv();
    }
    order
}

/// Whether some piece has the text `text`, found by binary search.
#[verifier::rlimit(40)]
pub fn index_contains(pieces: &Vec<Piece>, order: &Vec<usize>, text: &[u8]) -> (res: bool)
    requires
        is_vocab_index(pieces_view(pieces@), order@),
    ensures
        res == in_vocab(pieces_view(pieces@), text@),
{
    let ghost pv = pieces_view(pieces@);
    let mut lo: usize = 0;
    let mut hi: usize = order.len();
    while lo < hi
        invariant
            pv == pieces_view(pieces@),
            is_vocab_index(pv, order@),
            lo <= hi <= order@.len(),
            forall|p: int| 0 <= p < lo ==> bytes_lt(#[trigger] pv[order@[p] as int].content, text@),
            forall|p: int|
                hi <= p < order@.len() ==> bytes_lt(text@, #[trigger] pv[order@[p] as int].content),
        decreases hi - lo,
    {
        let mid = lo + (hi - lo) / 2;
        let id = order[mid];
        let c = compare_bytes(piece_bytes(pieces, id), text);
        let ghost cm = pv[id as int].content;
        if c == 0 {
            return true;
        } else if c < 0 {
            proof {
                assert forall|p: int| 0 <= p < mid + 1 implies bytes_lt(
                    #[trigger] pv[order@[p] as int].content,
                    text@,
                ) by {
                    if p < mid {
                        assert(piece_before_eq(pv, order@[p], order@[mid as int]));
                        let cp = pv[order@[p] as int].content;
                        if bytes_lt(cp, cm) {
                            lemma_bytes_lt_transitive(cp, cm, text@);
                        }
                    }
                }
            }
            lo = mid + 1;
        } else {
            proof {
                assert forall|p: int| mid <= p < order@.len() implies bytes_lt(
                    text@,
                    #[trigger] pv[order@[p] as int].content,
                ) by {
                    if p > mid && p < hi {
                        assert(piece_before_eq(pv, order@[mid as int], order@[p]));
                        let cp = pv[order@[p] as int].content;
                        if bytes_lt(cm, cp) {
                            lemma_bytes_lt_transitive(text@, cm, cp);
                        }
                    }
                }
            }
            hi = mid;
        }
    }
    proof {
        assert forall|i: int| 0 <= i < pv.len() implies #[trigger] pv[i].content != text@ by {
            assert(order@.contains(i as usize));
            let p = choose|p: int| 0 <= p < order@.len() && order@[p] == i as usize;
            lemma_bytes_lt_irreflexive(text@);
            if p < lo {
                assert(bytes_lt(pv[order@[p] as int].content, text@));
            } else {
                assert(bytes_lt(text@, pv[order@[p] as int].content));
            }
        }
    }
    false
}

/// Piece `order[p]` is the last with its text exactly when the next entry
/// of the index has another text.
proof fn lemma_last_iff_next_differs(pieces: Seq<PieceModel>, order: Seq<usize>, p: int)
    requires
        is_vocab_index(pieces, order),
        0 <= p < order.len(),
    ensures
        is_last_occurrence(pieces, order[p] as int) <==> (p + 1 == order.len()
            || pieces[order[p + 1] as int].content != pieces[order[p] as int].content),
{
    let idx = order[p];
    let c = pieces[idx as int].content;
    lemma_bytes_lt_irreflexive(c);
    if p + 1 < order.len() && pieces[order[p + 1] as int].content == c {
        let m = order[p + 1];
        assert(piece_before_eq(pieces, idx, m));
        assert(m != idx) by {
            assert(order.no_duplicates());
        }
        assert(idx < m);
        assert(pieces[m as int].content == pieces[idx as int].content);
    } else {
        assert forall|j: int| idx < j < pieces.len() implies #[trigger] pieces[j].content
            != pieces[idx as int].content by {
            if pieces[j].content == c {
                assert(order.contains(j as usize));
                let q = choose|q: int| 0 <= q < order.len() && order[q] == j as usize;
                if q < p {
                    assert(piece_before_eq(pieces, order[q], order[p]));
                } else if q == p {
                } else {
                    let m = order[p + 1];
                    let cm = pieces[m as int].content;
                    assert(piece_before_eq(pieces, idx, m));
                    assert(cm != c);
                    assert(bytes_lt(c, cm));
                    if q > p + 1 {
                        assert(piece_before_eq(pieces, m, order[q]));
                        if bytes_lt(cm, c) {
                            lemma_bytes_lt_asymmetric(c, cm);
                        }
                    }
                }
            }
        }
    }
}

/// For each piece id, whether it is the last piece with its text.
#[verifier::rlimit(40)]
pub fn last_occurrence_flags(pieces: &Vec<Piece>, order: &Vec<usize>) -> (res: Vec<bool>)
    requires
        is_vocab_index(pieces_view(pieces@), order@),
    ensures
        res@.len() == pieces@.len(),
        forall|i: int|
            0 <= i < pieces@.len() ==> #[trigger] res@[i] == is_last_occurrence(
                pieces_view(pieces@),
                i,
            ),
{
    let ghost pv = pieces_view(pieces@);
    let n = order.len();
    let mut flags: Vec<bool> = Vec::with_capacity(n);
    let mut k: usize = 0;
    while k < n
        invariant
            k <= n == order@.len() == pv.len(),
            flags@.len() == k,
        decreases n - k,
    {
        flags.push(false);
        k += 1;
    }
    let mut p: usize = 0;
    while p < n
        invariant
            pv == pieces_view(pieces@),
            is_vocab_index(pv, order@),
            p <= n == order@.len() == pv.len(),
            flags@.len() == n,
            forall|q: int|
                0 <= q < p ==> #[trigger] flags@[order@[q] as int] == is_last_occurrence(
                    pv,
                    order@[q] as int,
                ),
        decreases n - p,
    {
        let id = order[p];
        let last = if p + 1 == n {
            true
        } else {
            compare_bytes(piece_bytes(pieces, order[p + 1]), piece_bytes(pieces, id)) != 0
        };
        proof {
            lemma_last_iff_next_differs(pv, order@, p as int);
        }
        let ghost before = flags@;
        flags.set(id, last);
        proof {
            assert forall|q: int| 0 <= q < p + 1 implies #[trigger] flags@[order@[q] as int]
                == is_last_occurrence(pv, order@[q] as int) by {
                if q < p {
                    assert(order@[q] != order@[p as int]) by {
                        assert(order@.no_duplicates());
                    }
                    assert(flags@[order@[q] as int] == before[order@[q] as int]);
                }
            }
        }
        p += 1;
    }
    proof {
        assert forall|i: int| 0 <= i < pv.len() implies #[trigger] flags@[i] == is_last_occurrence(
            pv,
            i,
        ) by {
            assert(order@.contains(i as usize));
            let q = choose|q: int| 0 <= q < order@.len() && order@[q] == i as usize;
            assert(flags@[order@[q] as int] == is_last_occurrence(pv, order@[q] as int));
        }
    }
    flags
}

} // verus!
