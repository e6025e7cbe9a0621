use crate::diffing::diff::{diff_views, DiffItem, DiffItemView, DiffType};
use vstd::prelude::*;
use vstd::seq_lib::lemma_multiset_commutative;
use vstd::utf8::encode_utf8;

verus! {

/// The place of a kind of change in the order of kinds: additions come first, then
/// modifications, then changes of type, then deletions.
pub open spec fn rank(status: DiffType) -> int {
    match status {
        DiffType::Added(_) => 0,
        DiffType::Modified(_) => 1,
        DiffType::TypeChanged(_) => 2,
        DiffType::Deleted(_) => 3,
    }
}

/// Lexicographic order on byte strings: `a` is a prefix of `b`, or is the smaller one
/// at the first position where the two differ.
pub open spec fn lex_le(a: Seq<u8>, b: Seq<u8>) -> bool
    decreases a.len(),
{
    if a.len() == 0 {
        true
    } else if b.len() == 0 {
        false
    } else if a[0] != b[0] {
        a[0] < b[0]
    } else {
        lex_le(a.drop_first(), b.drop_first())
    }
}

/// The order of paths: that of their UTF-8 encodings, byte by byte, which is the order
/// that strings have.
pub open spec fn path_le(a: Seq<char>, b: Seq<char>) -> bool {
    lex_le(encode_utf8(a), encode_utf8(b))
}

/// `a` may stand before `b` in a sorted diff: its kind comes earlier, or the kinds are the
/// same and its path is not the greater one.
pub open spec fn item_le(a: DiffItemView, b: DiffItemView) -> bool {
    rank(a.status) < rank(b.status) || (rank(a.status) == rank(b.status) && path_le(
        a.path,
        b.path,
    ))
}

/// Two records are of the same kind and about the same path, so that neither has to
/// stand before the other.
pub open spec fn same_place(a: DiffItemView, b: DiffItemView) -> bool {
    rank(a.status) == rank(b.status) && a.path == b.path
}

/// Every record may stand before all that follow it.
pub open spec fn sorted(items: Seq<DiffItemView>) -> bool {
    forall|i: int, j: int| 0 <= i < j < items.len() ==> item_le(items[i], items[j])
}

/// The records of `items` that are of the same kind and about the same path as `like`,
/// in the order in which `items` holds them.
pub open spec fn records_like(items: Seq<DiffItemView>, like: DiffItemView) -> Seq<DiffItemView> {
    items.filter(|other: DiffItemView| same_place(like, other))
}

/// A byte string is not greater than itself.
pub proof fn lemma_lex_le_reflexive(a: Seq<u8>)
    ensures
        lex_le(a, a),
    decreases a.len(),
{
    if a.len() > 0 {
        lemma_lex_le_reflexive(a.drop_first());
    }
}

/// Of any two byte strings, one is not greater than the other.
pub proof fn lemma_lex_le_total(a: Seq<u8>, b: Seq<u8>)
    ensures
        lex_le(a, b) || lex_le(b, a),
    decreases a.len(),
{
    if a.len() > 0 && b.len() > 0 && a[0] == b[0] {
        lemma_lex_le_total(a.drop_first(), b.drop_first());
    }
}

/// The order of byte strings is transitive.
pub proof fn lemma_lex_le_transitive(a: Seq<u8>, b: Seq<u8>, c: Seq<u8>)
    requires
        lex_le(a, b),
        lex_le(b, c),
    ensures
        lex_le(a, c),
    decreases a.len(),
{
    if a.len() > 0 && b.len() > 0 && c.len() > 0 && a[0] == b[0] && b[0] == c[0] {
        lemma_lex_le_transitive(a.drop_first(), b.drop_first(), c.drop_first());
    }
}

/// Two byte strings of which neither is greater than the other are equal.
pub proof fn lemma_lex_le_antisymmetric(a: Seq<u8>, b: Seq<u8>)
    requires
        lex_le(a, b),
        lex_le(b, a),
    ensures
        a == b,
    decreases a.len(),
{
    if a.len() > 0 && b.len() > 0 {
        lemma_lex_le_antisymmetric(a.drop_first(), b.drop_first());
        assert(a =~= seq![a[0]] + a.drop_first());
        assert(b =~= seq![b[0]] + b.drop_first());
    } else {
        assert(a =~= b);
    }
}

/// Of any two records, one may stand before the other.
pub proof fn lemma_item_le_total(a: DiffItemView, b: DiffItemView)
    ensures
        item_le(a, b) || item_le(b, a),
{
    lemma_lex_le_total(encode_utf8(a.path), encode_utf8(b.path));
}

/// The order of records is transitive.
pub proof fn lemma_item_le_transitive(a: DiffItemView, b: DiffItemView, c: DiffItemView)
    requires
        item_le(a, b),
        item_le(b, c),
    ensures
        item_le(a, c),
{
    if rank(a.status) == rank(b.status) && rank(b.status) == rank(c.status) {
        lemma_lex_le_transitive(encode_utf8(a.path), encode_utf8(b.path), encode_utf8(c.path));
    }
}

/// Records of the same kind and path may stand in either order.
pub proof fn lemma_same_place_le(a: DiffItemView, b: DiffItemView)
    requires
        same_place(a, b),
    ensures
        item_le(a, b),
        item_le(b, a),
{
    lemma_lex_le_reflexive(encode_utf8(a.path));
}

/// Only records of the same kind and path may stand in either order, so that the order
/// and the places of such records fix a sorted sequence.
pub proof fn lemma_le_both_ways_same_place(a: DiffItemView, b: DiffItemView)
    requires
        item_le(a, b),
        item_le(b, a),
    ensures
        same_place(a, b),
{
    broadcast use vstd::utf8::encode_utf8_decode_utf8;

    lemma_lex_le_antisymmetric(encode_utf8(a.path), encode_utf8(b.path));
    assert(vstd::utf8::decode_utf8(encode_utf8(a.path)) == a.path);
    assert(vstd::utf8::decode_utf8(encode_utf8(b.path)) == b.path);
}

/// Compares two byte strings.
fn bytes_le(a: &[u8], b: &[u8]) -> (r: bool)
    ensures
        r == lex_le(a@, b@),
{
    let mut k: usize = 0;
    assert(a@.skip(0) =~= a@ && b@.skip(0) =~= b@);
    while k < a.len() && k < b.len()
        invariant
            0 <= k <= a.len(),
            k <= b.len(),
            lex_le(a@, b@) == lex_le(a@.skip(k as int), b@.skip(k as int)),
        decreases a.len() - k,
    {
        assert(a@.skip(k as int)[0] == a@[k as int]);
        assert(b@.skip(k as int)[0] == b@[k as int]);
        if a[k] < b[k] {
            return true;
        }
        if a[k] > b[k] {
            return false;
        }
        assert(a@.skip(k as int).drop_first() =~= a@.skip(k + 1));
        assert(b@.skip(k as int).drop_first() =~= b@.skip(k + 1));
        k += 1;
    }
    k == a.len()
}

/// The place of a kind of change in the order of kinds.
fn rank_of(status: &DiffType) -> (r: u8)
    ensures
        r == rank(*status),
{
    match status {
        DiffType::Added(_) => 0,
        DiffType::Modified(_) => 1,
        DiffType::TypeChanged(_) => 2,
        DiffType::Deleted(_) => 3,
    }
}

impl DiffItem {
    /// Whether this record may stand before `next` in a sorted diff.
    pub fn in_order(&self, next: &DiffItem) -> (r: bool)
        ensures
            r == item_le(self@, next@),
    {
        let a = rank_of(&self.status);
        let b = rank_of(&next.status);
        if a != b {
            a < b
        } else {
            bytes_le(self.path.as_str().as_bytes(), next.path.as_str().as_bytes())
        }
    }
}

/// Two sorted sequences merged into one: the smaller of the two heads comes first, and
/// that of `left` where either may.
pub closed spec fn merged(left: Seq<DiffItemView>, right: Seq<DiffItemView>) -> Seq<DiffItemView>
    decreases left.len() + right.len(),
{
    if left.len() == 0 {
        right
    } else if right.len() == 0 {
        left
    } else if item_le(left[0], right[0]) {
        seq![left[0]] + merged(left.drop_first(), right)
    } else {
        seq![right[0]] + merged(left, right.drop_first())
    }
}

/// A sequence sorted by halving and merging.
pub closed spec fn merge_sorted(items: Seq<DiffItemView>) -> Seq<DiffItemView>
    decreases items.len(),
{
    if items.len() <= 1 {
        items
    } else {
        let mid = items.len() / 2;
        merged(merge_sorted(items.take(mid as int)), merge_sorted(items.skip(mid as int)))
    }
}

/// Every record of a merge comes from one of the two sides.
proof fn lemma_merged_from(left: Seq<DiffItemView>, right: Seq<DiffItemView>, k: int)
    requires
        0 <= k < merged(left, right).len(),
    ensures
        left.contains(merged(left, right)[k]) || right.contains(merged(left, right)[k]),
    decreases left.len() + right.len(),
{
    if left.len() == 0 || right.len() == 0 {
    } else if item_le(left[0], right[0]) {
        if k == 0 {
            assert(left[0] == merged(left, right)[0]);
        } else {
            lemma_merged_from(left.drop_first(), right, k - 1);
            let x = merged(left.drop_first(), right)[k - 1];
            if left.drop_first().contains(x) {
                let i = choose|i: int| 0 <= i < left.drop_first().len() && left.drop_first()[i] == x;
                assert(left[i + 1] == x);
            }
        }
    } else {
        if k == 0 {
            assert(right[0] == merged(left, right)[0]);
        } else {
            lemma_merged_from(left, right.drop_first(), k - 1);
            let x = merged(left, right.drop_first())[k - 1];
            if right.drop_first().contains(x) {
                let i = choose|i: int|
                    0 <= i < right.drop_first().len() && right.drop_first()[i] == x;
                assert(right[i + 1] == x);
            }
        }
    }
}

/// Merging two sorted sequences gives a sorted sequence.
proof fn lemma_merged_sorted(left: Seq<DiffItemView>, right: Seq<DiffItemView>)
    requires
        sorted(left),
        sorted(right),
    ensures
        sorted(merged(left, right)),
    decreases left.len() + right.len(),
{
    if left.len() == 0 || right.len() == 0 {
    } else if item_le(left[0], right[0]) {
        let rest = merged(left.drop_first(), right);
        assert(sorted(left.drop_first())) by {
            assert forall|i: int, j: int| 0 <= i < j < left.drop_first().len() implies item_le(
                left.drop_first()[i],
                left.drop_first()[j],
            ) by {
                assert(item_le(left[i + 1], left[j + 1]));
            }
        }
        lemma_merged_sorted(left.drop_first(), right);
        let all = merged(left, right);
        assert(all =~= seq![left[0]] + rest);
        assert forall|i: int, j: int| 0 <= i < j < all.len() implies item_le(all[i], all[j]) by {
            if i == 0 {
                lemma_merged_from(left.drop_first(), right, j - 1);
                let x = rest[j - 1];
                if left.drop_first().contains(x) {
                    let t = choose|t: int|
                        0 <= t < left.drop_first().len() && left.drop_first()[t] == x;
                    assert(item_le(left[0], left[t + 1]));
                } else {
                    let t = choose|t: int| 0 <= t < right.len() && right[t] == x;
                    if t > 0 {
                        assert(item_le(right[0], right[t]));
                        lemma_item_le_transitive(left[0], right[0], right[t]);
                    }
                }
            } else {
                assert(item_le(rest[i - 1], rest[j - 1]));
            }
        }
    } else {
        let rest = merged(left, right.drop_first());
        lemma_item_le_total(left[0], right[0]);
        assert(sorted(right.drop_first())) by {
            assert forall|i: int, j: int| 0 <= i < j < right.drop_first().len() implies item_le(
                right.drop_first()[i],
                right.drop_first()[j],
            ) by {
                assert(item_le(right[i + 1], right[j + 1]));
            }
        }
        lemma_merged_sorted(left, right.drop_first());
        let all = merged(left, right);
        assert(all =~= seq![right[0]] + rest);
        assert forall|i: int, j: int| 0 <= i < j < all.len() implies item_le(all[i], all[j]) by {
            if i == 0 {
                lemma_merged_from(left, right.drop_first(), j - 1);
                let x = rest[j - 1];
                if right.drop_first().contains(x) {
                    let t = choose|t: int|
                        0 <= t < right.drop_first().len() && right.drop_first()[t] == x;
                    assert(item_le(right[0], right[t + 1]));
                } else {
                    let t = choose|t: int| 0 <= t < left.len() && left[t] == x;
                    if t > 0 {
                        assert(item_le(left[0], left[t]));
                        lemma_item_le_transitive(right[0], left[0], left[t]);
                    }
                }
            } else {
                assert(item_le(rest[i - 1], rest[j - 1]));
            }
        }
    }
}

/// A merge holds the records of both sides, each as often as the two sides hold it.
proof fn lemma_merged_multiset(left: Seq<DiffItemView>, right: Seq<DiffItemView>)
    ensures
        merged(left, right).to_multiset() == left.to_multiset().add(right.to_multiset()),
    decreases left.len() + right.len(),
{
    broadcast use vstd::multiset::group_multiset_axioms;

    if left.len() == 0 {
        assert(left =~= Seq::<DiffItemView>::empty());
        lemma_multiset_commutative(left, right);
        assert(left + right =~= right);
    } else if right.len() == 0 {
        assert(right =~= Seq::<DiffItemView>::empty());
        lemma_multiset_commutative(left, right);
        assert(left + right =~= left);
    } else if item_le(left[0], right[0]) {
        let rest = merged(left.drop_first(), right);
        lemma_merged_multiset(left.drop_first(), right);
        lemma_multiset_commutative(seq![left[0]], rest);
        lemma_multiset_commutative(seq![left[0]], left.drop_first());
        assert(left =~= seq![left[0]] + left.drop_first());
        assert(merged(left, right).to_multiset() =~= left.to_multiset().add(right.to_multiset()));
    } else {
        let rest = merged(left, right.drop_first());
        lemma_merged_multiset(left, right.drop_first());
        lemma_multiset_commutative(seq![right[0]], rest);
        lemma_multiset_commutative(seq![right[0]], right.drop_first());
        assert(right =~= seq![right[0]] + right.drop_first());
        assert(merged(left, right).to_multiset() =~= left.to_multiset().add(right.to_multiset()));
    }
}

/// Where no record of a sequence is like `like`, none is picked.
proof fn lemma_none_like(items: Seq<DiffItemView>, like: DiffItemView)
    requires
        forall|i: int| 0 <= i < items.len() ==> !same_place(like, #[trigger] items[i]),
    ensures
        records_like(items, like) == Seq::<DiffItemView>::empty(),
    decreases items.len(),
{
    reveal(Seq::filter);
    if items.len() > 0 {
        assert forall|i: int| 0 <= i < items.drop_last().len() implies !same_place(
            like,
            #[trigger] items.drop_last()[i],
        ) by {
            assert(items.drop_last()[i] == items[i]);
        }
        lemma_none_like(items.drop_last(), like);
    }
}

/// In a merge of two sorted sequences, the records of one kind and path stand as they
/// stood in the two sides, those of the left side first.
proof fn lemma_merged_stable(left: Seq<DiffItemView>, right: Seq<DiffItemView>, like: DiffItemView)
    requires
        sorted(left),
    ensures
        records_like(merged(left, right), like) == records_like(left, like) + records_like(
            right,
            like,
        ),
    decreases left.len() + right.len(),
{
    let p = |other: DiffItemView| same_place(like, other);
    if left.len() == 0 {
        lemma_none_like(left, like);
        assert(records_like(left, like) + records_like(right, like) =~= records_like(right, like));
    } else if right.len() == 0 {
        lemma_none_like(right, like);
        assert(records_like(left, like) + records_like(right, like) =~= records_like(left, like));
    } else if item_le(left[0], right[0]) {
        let rest = merged(left.drop_first(), right);
        assert(sorted(left.drop_first())) by {
            assert forall|i: int, j: int| 0 <= i < j < left.drop_first().len() implies item_le(
                left.drop_first()[i],
                left.drop_first()[j],
            ) by {
                assert(item_le(left[i + 1], left[j + 1]));
            }
        }
        lemma_merged_stable(left.drop_first(), right, like);
        Seq::filter_distributes_over_add(seq![left[0]], rest, p);
        Seq::filter_distributes_over_add(seq![left[0]], left.drop_first(), p);
        assert(left =~= seq![left[0]] + left.drop_first());
        assert(records_like(merged(left, right), like) =~= records_like(left, like) + records_like(
            right,
            like,
        ));
    } else {
        let rest = merged(left, right.drop_first());
        lemma_merged_stable(left, right.drop_first(), like);
        Seq::filter_distributes_over_add(seq![right[0]], rest, p);
        Seq::filter_distributes_over_add(seq![right[0]], right.drop_first(), p);
        assert(right =~= seq![right[0]] + right.drop_first());
        if same_place(like, right[0]) {
            assert forall|i: int| 0 <= i < left.len() implies !same_place(
                like,
                #[trigger] left[i],
            ) by {
                if same_place(like, left[i]) {
                    lemma_same_place_le(left[i], right[0]);
                    if i > 0 {
                        assert(item_le(left[0], left[i]));
                    }
                    if i == 0 {
                        lemma_same_place_le(left[0], left[0]);
                    }
                    lemma_item_le_transitive(left[0], left[i], right[0]);
                }
            }
            lemma_none_like(left, like);
            assert(records_like(merged(left, right), like) =~= records_like(left, like)
                + records_like(right, like));
        } else {
            assert(seq![right[0]].filter(p) =~= Seq::<DiffItemView>::empty()) by {
                lemma_none_like(seq![right[0]], like);
            }
            assert(records_like(merged(left, right), like) =~= records_like(left, like)
                + records_like(right, like));
        }
    }
}

/// What sorting by halving and merging achieves: the result is sorted, it holds the same
/// records as often, and records of one kind and path keep their order.
pub proof fn lemma_merge_sorted(items: Seq<DiffItemView>)
    ensures
        sorted(merge_sorted(items)),
        merge_sorted(items).to_multiset() == items.to_multiset(),
        forall|like: DiffItemView| #[trigger]
            records_like(merge_sorted(items), like) == records_like(items, like),
    decreases items.len(),
{
    if items.len() > 1 {
        let mid = (items.len() / 2) as int;
        let left = items.take(mid);
        let right = items.skip(mid);
        assert(items =~= left + right);
        lemma_merge_sorted(left);
        lemma_merge_sorted(right);
        lemma_merged_sorted(merge_sorted(left), merge_sorted(right));
        lemma_merged_multiset(merge_sorted(left), merge_sorted(right));
        lemma_multiset_commutative(left, right);
        assert forall|like: DiffItemView| #[trigger]
            records_like(merge_sorted(items), like) == records_like(items, like) by {
            lemma_merged_stable(merge_sorted(left), merge_sorted(right), like);
            Seq::filter_distributes_over_add(
                left,
                right,
                |other: DiffItemView| same_place(like, other),
            );
        }
    }
}

/// Taking the first record off a sequence takes the last one off its reverse.
proof fn lemma_reverse_step(items: Seq<DiffItemView>)
    requires
        items.len() > 0,
    ensures
        items.reverse().len() == items.len(),
        items.reverse().last() == items[0],
        items.reverse().drop_last() =~= items.drop_first().reverse(),
{
}

/// The same records in the opposite order.
fn reversed(items: Vec<DiffItem>) -> (r: Vec<DiffItem>)
    ensures
        diff_views(r@) == diff_views(items@).reverse(),
{
    let ghost all = diff_views(items@);
    let mut items = items;
    let mut r: Vec<DiffItem> = Vec::with_capacity(items.len());
    while items.len() > 0
        invariant
            items.len() + r.len() == all.len(),
            diff_views(items@) == all.take(items.len() as int),
            forall|k: int| 0 <= k < r.len() ==> #[trigger] r@[k]@ == all[all.len() - 1 - k],
        decreases items.len(),
    {
        let ghost before = items@;
        let item = items.pop().unwrap();
        assert(item@ == diff_views(before)[before.len() - 1]);
        r.push(item);
        assert(diff_views(items@) =~= all.take(items.len() as int)) by {
            assert forall|k: int| 0 <= k < items.len() implies diff_views(items@)[k] == all[k] by {
                assert(items@[k] == before[k]);
                assert(diff_views(before)[k] == all.take(before.len() as int)[k]);
            }
        }
    }
    assert(diff_views(r@) =~= all.reverse());
    r
}

/// Merges two sorted runs into one.
fn merge(left: Vec<DiffItem>, right: Vec<DiffItem>) -> (out: Vec<DiffItem>)
    requires
        left.len() + right.len() <= usize::MAX,
    ensures
        diff_views(out@) == merged(diff_views(left@), diff_views(right@)),
{
    let ghost all_left = diff_views(left@);
    let ghost all_right = diff_views(right@);
    let mut out: Vec<DiffItem> = Vec::with_capacity(left.len() + right.len());
    let mut l = reversed(left);
    let mut r = reversed(right);
    let ghost rest_left = all_left;
    let ghost rest_right = all_right;
    assert(l.len() == all_left.len() && r.len() == all_right.len()) by {
        assert(diff_views(l@).len() == all_left.reverse().len());
        assert(diff_views(r@).len() == all_right.reverse().len());
    }
    assert(diff_views(out@) + merged(rest_left, rest_right) =~= merged(all_left, all_right));
    while l.len() > 0 && r.len() > 0
        invariant
            l.len() == rest_left.len(),
            r.len() == rest_right.len(),
            diff_views(l@) == rest_left.reverse(),
            diff_views(r@) == rest_right.reverse(),
            diff_views(out@) + merged(rest_left, rest_right) == merged(all_left, all_right),
        decreases l.len() + r.len(),
    {
        let ghost before = diff_views(out@);
        let ghost lv = diff_views(l@);
        let ghost rv = diff_views(r@);
        proof {
            lemma_reverse_step(rest_left);
            lemma_reverse_step(rest_right);
        }
        assert(lv[lv.len() - 1] == rest_left[0]);
        assert(rv[rv.len() - 1] == rest_right[0]);
        let take_left = l[l.len() - 1].in_order(&r[r.len() - 1]);
        if take_left {
            let item = l.pop().unwrap();
            out.push(item);
            proof {
                assert(diff_views(out@) =~= before + seq![rest_left[0]]);
                assert(diff_views(l@) =~= lv.drop_last());
                assert(before + seq![rest_left[0]] + merged(rest_left.drop_first(), rest_right)
                    =~= before + merged(rest_left, rest_right));
                rest_left = rest_left.drop_first();
            }
        } else {
            let item = r.pop().unwrap();
            out.push(item);
            proof {
                assert(diff_views(out@) =~= before + seq![rest_right[0]]);
                assert(diff_views(r@) =~= rv.drop_last());
                assert(before + seq![rest_right[0]] + merged(rest_left, rest_right.drop_first())
                    =~= before + merged(rest_left, rest_right));
                rest_right = rest_right.drop_first();
            }
        }
    }
    while l.len() > 0
        invariant
            l.len() == rest_left.len(),
            r.len() == rest_right.len(),
            diff_views(l@) == rest_left.reverse(),
            diff_views(r@) == rest_right.reverse(),
            l.len() == 0 || r.len() == 0,
            diff_views(out@) + merged(rest_left, rest_right) == merged(all_left, all_right),
        decreases l.len(),
    {
        let ghost before = diff_views(out@);
        let ghost lv = diff_views(l@);
        proof {
            lemma_reverse_step(rest_left);
        }
        assert(lv[lv.len() - 1] == rest_left[0]);
        assert(rest_right.len() == 0);
        let item = l.pop().unwrap();
        out.push(item);
        proof {
            assert(diff_views(out@) =~= before + seq![rest_left[0]]);
            assert(diff_views(l@) =~= lv.drop_last());
            assert(merged(rest_left, rest_right) == rest_left);
            assert(merged(rest_left.drop_first(), rest_right) == rest_left.drop_first());
            assert(before + seq![rest_left[0]] + rest_left.drop_first() =~= before + rest_left);
            rest_left = rest_left.drop_first();
        }
    }
    while r.len() > 0
        invariant
            l.len() == 0,
            l.len() == rest_left.len(),
            r.len() == rest_right.len(),
            diff_views(l@) == rest_left.reverse(),
            diff_views(r@) == rest_right.reverse(),
            diff_views(out@) + merged(rest_left, rest_right) == merged(all_left, all_right),
        decreases r.len(),
    {
        let ghost before = diff_views(out@);
        let ghost rv = diff_views(r@);
        proof {
            lemma_reverse_step(rest_right);
        }
        assert(rv[rv.len() - 1] == rest_right[0]);
        assert(rest_left.len() == 0);
        let item = r.pop().unwrap();
        out.push(item);
        proof {
            assert(diff_views(out@) =~= before + seq![rest_right[0]]);
            assert(diff_views(r@) =~= rv.drop_last());
            assert(merged(rest_left, rest_right) == rest_right);
            assert(merged(rest_left, rest_right.drop_first()) == rest_right.drop_first());
            assert(before + seq![rest_right[0]] + rest_right.drop_first() =~= before + rest_right);
            rest_right = rest_right.drop_first();
        }
    }
    proof {
        assert(rest_left.len() == 0 && rest_right.len() == 0);
        assert(diff_views(out@) + merged(rest_left, rest_right) =~= diff_views(out@));
    }
    out
}

/// Sorts records by halving and merging.
pub(crate) fn merge_sort(items: Vec<DiffItem>) -> (out: Vec<DiffItem>)
    ensures
        diff_views(out@) == merge_sorted(diff_views(items@)),
    decreases items.len(),
{
    if items.len() <= 1 {
        return items;
    }
    let ghost all = diff_views(items@);
    let mut left = items;
    let mid = left.len() / 2;
    let right = left.split_off(mid);
    assert(diff_views(left@) =~= all.take(mid as int));
    assert(diff_views(right@) =~= all.skip(mid as int));
    let left = merge_sort(left);
    let right = merge_sort(right);
    proof {
        assert(diff_views(left@).len() == mid) by {
            lemma_merge_sorted(all.take(mid as int));
            all.take(mid as int).to_multiset_ensures();
            diff_views(left@).to_multiset_ensures();
        }
        assert(diff_views(right@).len() == all.len() - mid) by {
            lemma_merge_sorted(all.skip(mid as int));
            all.skip(mid as int).to_multiset_ensures();
            diff_views(right@).to_multiset_ensures();
        }
    }
    merge(left, right)
}

} // verus!
