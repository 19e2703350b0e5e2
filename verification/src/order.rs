//! The order of the rows of a corpus: the points of the embedding by score
//! identifier, in the lexical order of the identifiers' bytes.

use vstd::prelude::*;
use vstd::seq_lib::{lemma_multiset_commutative, to_multiset_build};
use vstd::string::StringSliceAdditionalSpecFns;
use vstd::utf8::{decode_utf8, encode_utf8};
use crate::catalog::EmbeddingPoint;

verus! {

/// `a` is `b` or comes before it in lexical order: at the first byte in
/// which the two differ `a` has the smaller one, or `a` ends first.
pub open spec fn lex_le(a: Seq<u8>, b: Seq<u8>) -> bool
    decreases a.len(),
{
    if a.len() == 0 {
        true
    } else if b.len() == 0 {
        false
    } else if a[0] != b[0] {
        a[0] < b[0]
    } else {
        lex_le(a.drop_first(), b.drop_first())
    }
}

/// Of two byte strings one comes before the other, or they are the same.
pub proof fn lemma_lex_total(a: Seq<u8>, b: Seq<u8>)
    ensures
        lex_le(a, b) || lex_le(b, a),
    decreases a.len(),
{
    if a.len() > 0 && b.len() > 0 && a[0] == b[0] {
        lemma_lex_total(a.drop_first(), b.drop_first());
    }
}

/// What comes before a byte string comes before all that follows it.
pub proof fn lemma_lex_transitive(a: Seq<u8>, b: Seq<u8>, c: Seq<u8>)
    requires
        lex_le(a, b),
        lex_le(b, c),
    ensures
        lex_le(a, c),
    decreases a.len(),
{
    if a.len() > 0 && b.len() > 0 && c.len() > 0 && a[0] == b[0] && b[0] == c[0] {
        lemma_lex_transitive(a.drop_first(), b.drop_first(), c.drop_first());
    }
}

/// Two byte strings that come before each other are the same.
pub proof fn lemma_lex_antisymmetric(a: Seq<u8>, b: Seq<u8>)
    requires
        lex_le(a, b),
        lex_le(b, a),
    ensures
        a == b,
    decreases a.len(),
{
    if a.len() > 0 && b.len() > 0 {
        lemma_lex_antisymmetric(a.drop_first(), b.drop_first());
        assert(a =~= seq![a[0]] + a.drop_first());
        assert(b =~= seq![b[0]] + b.drop_first());
    } else {
        assert(a =~= b);
    }
}

/// The point `p` has the identifier of `q` or one that comes before it.
pub open spec fn comes_before(p: EmbeddingPoint, q: EmbeddingPoint) -> bool {
    lex_le(encode_utf8(p.score_id@), encode_utf8(q.score_id@))
}

/// Every point of `points` comes before `p`.
pub open spec fn all_before(points: Seq<EmbeddingPoint>, p: EmbeddingPoint) -> bool {
    forall|k: int| 0 <= k < points.len() ==> comes_before(#[trigger] points[k], p)
}

/// The points stand in the order of their identifiers.
pub open spec fn is_ordered(points: Seq<EmbeddingPoint>) -> bool {
    forall|i: int, j: int|
        0 <= i <= j < points.len() ==> comes_before(#[trigger] points[i], #[trigger] points[j])
}

/// No two points of `points` have one identifier.
pub open spec fn distinct_ids(points: Seq<EmbeddingPoint>) -> bool {
    forall|i: int, j: int|
        0 <= i < j < points.len() ==> (#[trigger] points[i]).score_id@ != (
        #[trigger] points[j]).score_id@
}

/// The points of an embedding in which no identifier occurs twice have one
/// order only: two ordered lists of the same points are the same list.
pub proof fn lemma_order_unique(a: Seq<EmbeddingPoint>, b: Seq<EmbeddingPoint>)
    requires
        is_ordered(a),
        is_ordered(b),
        a.to_multiset() == b.to_multiset(),
        distinct_ids(a),
    ensures
        a == b,
    decreases a.len(),
{
    broadcast use vstd::utf8::encode_utf8_decode_utf8;

    vstd::seq_lib::to_multiset_len(a);
    vstd::seq_lib::to_multiset_len(b);
    assert(a.len() == b.len());
    if a.len() == 0 {
        assert(a =~= b);
    } else {
        let last = a.len() - 1;
        let x = a[last];
        let y = b[last];
        assert(b.contains(y));
        vstd::seq_lib::to_multiset_contains(b, y);
        vstd::seq_lib::to_multiset_contains(a, y);
        assert(a.contains(y));
        let m = choose|m: int| 0 <= m < a.len() && a[m] == y;
        assert(a.contains(x));
        vstd::seq_lib::to_multiset_contains(a, x);
        vstd::seq_lib::to_multiset_contains(b, x);
        assert(b.contains(x));
        let k = choose|k: int| 0 <= k < b.len() && b[k] == x;
        assert(comes_before(b[k], b[last]));
        assert(comes_before(a[m], a[last]));
        lemma_lex_antisymmetric(encode_utf8(x.score_id@), encode_utf8(y.score_id@));
        assert(decode_utf8(encode_utf8(x.score_id@)) == x.score_id@);
        assert(decode_utf8(encode_utf8(y.score_id@)) == y.score_id@);
        assert(a[m].score_id@ == a[last].score_id@);
        assert(m == last);
        assert(x == y);
        assert(a.remove(last) =~= a.drop_last());
        assert(b.remove(last) =~= b.drop_last());
        vstd::seq_lib::to_multiset_remove(a, last);
        vstd::seq_lib::to_multiset_remove(b, last);
        assert(a.drop_last().to_multiset() == b.drop_last().to_multiset());
        assert forall|i: int, j: int| 0 <= i <= j < a.drop_last().len() implies comes_before(
            #[trigger] a.drop_last()[i],
            #[trigger] a.drop_last()[j],
        ) by {
            assert(comes_before(a[i], a[j]));
        }
        assert forall|i: int, j: int| 0 <= i <= j < b.drop_last().len() implies comes_before(
            #[trigger] b.drop_last()[i],
            #[trigger] b.drop_last()[j],
        ) by {
            assert(comes_before(b[i], b[j]));
        }
        assert forall|i: int, j: int| 0 <= i < j < a.drop_last().len() implies (
        #[trigger] a.drop_last()[i]).score_id@ != (#[trigger] a.drop_last()[j]).score_id@ by {
            assert(a[i].score_id@ != a[j].score_id@);
        }
        lemma_order_unique(a.drop_last(), b.drop_last());
        assert(a =~= a.drop_last().push(x));
        assert(b =~= b.drop_last().push(y));
    }
}

/// A point that all of an ordered list come before can follow the list.
proof fn lemma_push_ordered(points: Seq<EmbeddingPoint>, p: EmbeddingPoint)
    requires
        is_ordered(points),
        all_before(points, p),
    ensures
        is_ordered(points.push(p)),
{
    let longer = points.push(p);
    assert forall|i: int, j: int| 0 <= i <= j < longer.len() implies comes_before(
        #[trigger] longer[i],
        #[trigger] longer[j],
    ) by {
        if j < points.len() {
            assert(comes_before(points[i], points[j]));
        } else if i < points.len() {
            assert(comes_before(points[i], p));
        } else {
            lemma_lex_total(encode_utf8(p.score_id@), encode_utf8(p.score_id@));
        }
    }
}

/// What comes before `p` comes before every point that `p` comes before.
proof fn lemma_all_before_later(
    points: Seq<EmbeddingPoint>,
    p: EmbeddingPoint,
    q: EmbeddingPoint,
)
    requires
        all_before(points, p),
        comes_before(p, q),
    ensures
        all_before(points.push(p), q),
{
    let longer = points.push(p);
    assert forall|k: int| 0 <= k < longer.len() implies comes_before(#[trigger] longer[k], q) by {
        if k < points.len() {
            assert(comes_before(points[k], p));
            lemma_lex_transitive(
                encode_utf8(points[k].score_id@),
                encode_utf8(p.score_id@),
                encode_utf8(q.score_id@),
            );
        }
    }
}

/// A point that comes before `q` can join a list that comes before `q`.
proof fn lemma_all_before_push(points: Seq<EmbeddingPoint>, p: EmbeddingPoint, q: EmbeddingPoint)
    requires
        all_before(points, q),
        comes_before(p, q),
    ensures
        all_before(points.push(p), q),
{
    let longer = points.push(p);
    assert forall|k: int| 0 <= k < longer.len() implies comes_before(#[trigger] longer[k], q) by {
        if k < points.len() {
            assert(comes_before(points[k], q));
        }
    }
}

/// Does `a` come before `b` in lexical order, or is it `b`?
fn bytes_le(a: &[u8], b: &[u8]) -> (le: bool)
    ensures
        le == lex_le(a@, b@),
{
    let mut i: usize = 0;
    assert(a@.skip(0) =~= a@);
    assert(b@.skip(0) =~= b@);
    while i < a.len() && i < b.len()
        invariant
            i <= a@.len(),
            i <= b@.len(),
            lex_le(a@, b@) == lex_le(a@.skip(i as int), b@.skip(i as int)),
        decreases a@.len() - i,
    {
        assert(a@.skip(i as int).drop_first() =~= a@.skip(i + 1));
        assert(b@.skip(i as int).drop_first() =~= b@.skip(i + 1));
        if a[i] != b[i] {
            return a[i] < b[i];
        }
        i = i + 1;
    }
    i == a.len()
}

/// Does the point `p` come before the point `q`, or has it the same identifier?
fn point_le(p: &EmbeddingPoint, q: &EmbeddingPoint) -> (le: bool)
    ensures
        le == comes_before(*p, *q),
{
    bytes_le(p.score_id.as_str().as_bytes(), q.score_id.as_str().as_bytes())
}

/// A copy of the point `p`.
fn copy_of(p: &EmbeddingPoint) -> (copy: EmbeddingPoint)
    ensures
        copy == *p,
{
    EmbeddingPoint { score_id: p.score_id.clone(), x: p.x, y: p.y }
}

/// Merges two ordered lists into one. Of two points with one identifier the
/// one of `left` comes first.
fn merge(left: &Vec<EmbeddingPoint>, right: &Vec<EmbeddingPoint>) -> (merged: Vec<EmbeddingPoint>)
    requires
        is_ordered(left@),
        is_ordered(right@),
        left@.len() + right@.len() <= usize::MAX,
    ensures
        is_ordered(merged@),
        merged@.to_multiset() == left@.to_multiset().add(right@.to_multiset()),
        merged@.len() == left@.len() + right@.len(),
{
    broadcast use {
        to_multiset_build,
        vstd::seq_lib::to_multiset_contains,
        vstd::multiset::group_multiset_axioms,
    };

    let mut merged: Vec<EmbeddingPoint> = Vec::new();
    let mut i: usize = 0;
    let mut j: usize = 0;
    assert(left@.take(0) =~= merged@);
    assert(right@.take(0) =~= merged@);
    assert(merged@.to_multiset() =~= vstd::multiset::Multiset::<EmbeddingPoint>::empty());
    assert(merged@.to_multiset().add(merged@.to_multiset()) =~= merged@.to_multiset());
    while i < left.len() || j < right.len()
        invariant
            i <= left@.len(),
            j <= right@.len(),
            merged@.len() == i + j,
            left@.len() + right@.len() <= usize::MAX,
            is_ordered(left@),
            is_ordered(right@),
            is_ordered(merged@),
            merged@.to_multiset() == left@.take(i as int).to_multiset().add(
                right@.take(j as int).to_multiset(),
            ),
            i < left@.len() ==> all_before(merged@, left@[i as int]),
            j < right@.len() ==> all_before(merged@, right@[j as int]),
        decreases left@.len() - i + right@.len() - j,
    {
        let from_left: bool = if j >= right.len() {
            true
        } else if i >= left.len() {
            false
        } else {
            point_le(&left[i], &right[j])
        };
        let ghost before = merged@;
        if from_left {
            let ghost p = left@[i as int];
            merged.push(copy_of(&left[i]));
            proof {
                lemma_push_ordered(before, p);
                assert(left@.take(i + 1) =~= left@.take(i as int).push(p));
                assert(merged@ == before.push(p));
                to_multiset_build(before, p);
                to_multiset_build(left@.take(i as int), p);
                assert(merged@.to_multiset() =~= left@.take(i + 1).to_multiset().add(
                    right@.take(j as int).to_multiset(),
                ));
                if i + 1 < left@.len() {
                    assert(comes_before(left@[i as int], left@[i + 1]));
                    lemma_all_before_later(before, p, left@[i + 1]);
                }
                if j < right@.len() {
                    lemma_all_before_push(before, p, right@[j as int]);
                }
            }
            i = i + 1;
        } else {
            let ghost p = right@[j as int];
            merged.push(copy_of(&right[j]));
            proof {
                lemma_push_ordered(before, p);
                assert(right@.take(j + 1) =~= right@.take(j as int).push(p));
                assert(merged@ == before.push(p));
                to_multiset_build(before, p);
                to_multiset_build(right@.take(j as int), p);
                assert(merged@.to_multiset() =~= left@.take(i as int).to_multiset().add(
                    right@.take(j + 1).to_multiset(),
                ));
                if j + 1 < right@.len() {
                    assert(comes_before(right@[j as int], right@[j + 1]));
                    lemma_all_before_later(before, p, right@[j + 1]);
                }
                if i < left@.len() {
                    lemma_lex_total(
                        encode_utf8(left@[i as int].score_id@),
                        encode_utf8(p.score_id@),
                    );
                    lemma_all_before_push(before, p, left@[i as int]);
                }
            }
            j = j + 1;
        }
    }
    assert(left@.take(i as int) =~= left@);
    assert(right@.take(j as int) =~= right@);
    merged
}

/// The points `points[lo..hi]` in the order of their identifiers.
fn order_range(points: &Vec<EmbeddingPoint>, lo: usize, hi: usize) -> (ordered: Vec<
    EmbeddingPoint,
>)
    requires
        lo <= hi <= points@.len(),
    ensures
        is_ordered(ordered@),
        ordered@.to_multiset() == points@.subrange(lo as int, hi as int).to_multiset(),
        ordered@.len() == hi - lo,
    decreases hi - lo,
{
    broadcast use {to_multiset_build, vstd::seq_lib::to_multiset_len};

    let mut ordered: Vec<EmbeddingPoint> = Vec::new();
    if hi - lo == 0 {
        assert(points@.subrange(lo as int, hi as int) =~= ordered@);
        ordered
    } else if hi - lo == 1 {
        ordered.push(copy_of(&points[lo]));
        proof {
            assert(points@.subrange(lo as int, hi as int) =~= ordered@);
            lemma_lex_total(
                encode_utf8(points@[lo as int].score_id@),
                encode_utf8(points@[lo as int].score_id@),
            );
        }
        ordered
    } else {
        let mid: usize = lo + (hi - lo) / 2;
        let left = order_range(points, lo, mid);
        let right = order_range(points, mid, hi);
        proof {
            let first = points@.subrange(lo as int, mid as int);
            let second = points@.subrange(mid as int, hi as int);
            assert(points@.subrange(lo as int, hi as int) =~= first + second);
            lemma_multiset_commutative(first, second);
        }
        merge(&left, &right)
    }
}

/// The points of an embedding in the order in which the corpus emits them:
/// by score identifier, in the lexical order of the identifiers' bytes. The
/// result holds the same points, each as often as `points` holds it. Where
/// no identifier occurs twice this fixes the result (`lemma_order_unique`).
pub fn order_points(points: &Vec<EmbeddingPoint>) -> (ordered: Vec<EmbeddingPoint>)
    ensures
        is_ordered(ordered@),
        ordered@.to_multiset() == points@.to_multiset(),
        ordered@.len() == points@.len(),
{
    assert(points@.subrange(0, points@.len() as int) =~= points@);
    order_range(points, 0, points.len())
}

} // verus!
