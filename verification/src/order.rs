//! The order of archive paths: that of `str`, which compares the UTF-8 bytes
//! and so the characters, lexicographically.
use vstd::prelude::*;

use crate::text::chars_of;
use vstd::multiset::Multiset;

verus! {

/// `a` sorts strictly before `b`.
pub open spec fn path_lt(a: Seq<char>, b: Seq<char>) -> bool
    decreases a.len(),
{
    if a.len() == 0 {
        b.len() > 0
    } else if b.len() == 0 {
        false
    } else if a[0] != b[0] {
        a[0] < b[0]
    } else {
        path_lt(a.skip(1), b.skip(1))
    }
}

pub proof fn lemma_path_lt_irreflexive(a: Seq<char>)
    ensures
        !path_lt(a, a),
    decreases a.len(),
{
    if a.len() > 0 {
        lemma_path_lt_irreflexive(a.skip(1));
    }
}

pub proof fn lemma_path_lt_transitive(a: Seq<char>, b: Seq<char>, c: Seq<char>)
    requires
        path_lt(a, b),
        path_lt(b, c),
    ensures
        path_lt(a, c),
    decreases a.len(),
{
    if a.len() > 0 && b.len() > 0 && c.len() > 0 {
        if a[0] == b[0] && b[0] == c[0] {
            lemma_path_lt_transitive(a.skip(1), b.skip(1), c.skip(1));
        }
    }
}

pub proof fn lemma_path_lt_total(a: Seq<char>, b: Seq<char>)
    ensures
        a == b || path_lt(a, b) || path_lt(b, a),
    decreases a.len(),
{
    if a.len() > 0 && b.len() > 0 && a[0] == b[0] {
        lemma_path_lt_total(a.skip(1), b.skip(1));
        if a.skip(1) == b.skip(1) {
            assert(a =~= seq![a[0]] + a.skip(1));
            assert(b =~= seq![b[0]] + b.skip(1));
        }
    } else if a.len() == 0 && b.len() == 0 {
        assert(a =~= b);
    }
}

pub proof fn lemma_path_lt_asymmetric(a: Seq<char>, b: Seq<char>)
    requires
        path_lt(a, b),
    ensures
        !path_lt(b, a),
{
    if path_lt(b, a) {
        lemma_path_lt_transitive(a, b, a);
        lemma_path_lt_irreflexive(a);
    }
}

/// The order between `a[i..]` and `b[i..]` settles that of `a` and `b` when
/// their first `i` characters agree.
proof fn lemma_path_lt_common_prefix(a: Seq<char>, b: Seq<char>, i: int)
    requires
        0 <= i <= a.len(),
        i <= b.len(),
        a.take(i) == b.take(i),
    ensures
        path_lt(a, b) == path_lt(a.skip(i), b.skip(i)),
    decreases i,
{
    if i > 0 {
        assert(a[0] == a.take(i)[0]);
        assert(b[0] == b.take(i)[0]);
        assert(a.skip(1).take(i - 1) =~= a.take(i).skip(1));
        assert(b.skip(1).take(i - 1) =~= b.take(i).skip(1));
        lemma_path_lt_common_prefix(a.skip(1), b.skip(1), i - 1);
        assert(a.skip(1).skip(i - 1) =~= a.skip(i));
        assert(b.skip(1).skip(i - 1) =~= b.skip(i));
    } else {
        assert(a.skip(0) =~= a);
        assert(b.skip(0) =~= b);
    }
}

/// Whether `a` sorts strictly before `b`, as `a < b` on `str`.
pub fn str_lt(a: &str, b: &str) -> (r: bool)
    ensures
        r == path_lt(a@, b@),
{
    let x = chars_of(a);
    let y = chars_of(b);
    let mut i: usize = 0;
    while i < x.len() && i < y.len()
        invariant
            x@ == a@,
            y@ == b@,
            i <= x@.len(),
            i <= y@.len(),
            x@.take(i as int) == y@.take(i as int),
        decreases x@.len() - i,
    {
        if x[i] != y[i] {
            proof {
                lemma_path_lt_common_prefix(x@, y@, i as int);
            }
            return x[i] < y[i];
        }
        assert(x@.take(i + 1) =~= x@.take(i as int).push(x@[i as int]));
        assert(y@.take(i + 1) =~= y@.take(i as int).push(y@[i as int]));
        i = i + 1;
    }
    proof {
        lemma_path_lt_common_prefix(x@, y@, i as int);
    }
    i == x.len() && i < y.len()
}

/// Whether `a` and `b` are the same text.
pub fn str_eq(a: &str, b: &str) -> (r: bool)
    ensures
        r == (a@ == b@),
{
    let x = chars_of(a);
    let y = chars_of(b);
    if x.len() != y.len() {
        return false;
    }
    let mut i: usize = 0;
    while i < x.len()
        invariant
            x@ == a@,
            y@ == b@,
            x@.len() == y@.len(),
            i <= x@.len(),
            forall|j: int| 0 <= j < i ==> x@[j] == y@[j],
        decreases x@.len() - i,
    {
        if x[i] != y[i] {
            return false;
        }
        i = i + 1;
    }
    assert(x@ =~= y@);
    true
}

/// `a` sorts no later than `b`.
pub open spec fn path_le(a: Seq<char>, b: Seq<char>) -> bool {
    !path_lt(b, a)
}

/// No path in `s` sorts before an earlier one.
pub open spec fn sorted_by_path<T>(s: Seq<(String, T)>) -> bool {
    forall|i: int, j: int| 0 <= i < j < s.len() ==> path_le(#[trigger] s[i].0@, #[trigger] s[j].0@)
}

/// No path in `s` sorts after an earlier one.
spec fn sorted_descending<T>(s: Seq<(String, T)>) -> bool {
    forall|i: int, j: int| 0 <= i < j < s.len() ==> path_le(#[trigger] s[j].0@, #[trigger] s[i].0@)
}

proof fn lemma_path_le_transitive(a: Seq<char>, b: Seq<char>, c: Seq<char>)
    requires
        path_le(a, b),
        path_le(b, c),
    ensures
        path_le(a, c),
{
    lemma_path_lt_total(a, b);
    lemma_path_lt_total(b, c);
    if path_lt(c, a) && a != b && b != c {
        lemma_path_lt_transitive(a, b, c);
        lemma_path_lt_transitive(a, c, a);
        lemma_path_lt_irreflexive(a);
    }
}

proof fn lemma_path_le_total(a: Seq<char>, b: Seq<char>)
    ensures
        path_le(a, b) || path_le(b, a),
{
    lemma_path_lt_total(a, b);
    lemma_path_lt_irreflexive(a);
    if path_lt(a, b) {
        lemma_path_lt_asymmetric(a, b);
    }
}

/// Sorts the items by path (a merge sort); items with equal paths may come
/// out in any order.
pub fn sort_by_path<T>(items: &mut Vec<(String, T)>)
    ensures
        final(items)@.to_multiset() == old(items)@.to_multiset(),
        sorted_by_path(final(items)@),
    decreases old(items)@.len(),
{
    broadcast use vstd::seq_lib::group_to_multiset_ensures, vstd::multiset::group_multiset_axioms;

    let ghost whole = items@;
    let n = items.len();
    if n <= 1 {
        return;
    }
    let mut right = items.split_off(n / 2);
    let mut left = items.split_off(0);
    proof {
        assert(whole =~= left@ + right@);
        vstd::seq_lib::lemma_multiset_commutative(left@, right@);
    }
    sort_by_path(&mut left);
    sort_by_path(&mut right);
    let ghost total = whole.to_multiset();
    let mut merged: Vec<(String, T)> = Vec::new();
    while left.len() > 0 || right.len() > 0
        invariant
            sorted_by_path(left@),
            sorted_by_path(right@),
            sorted_descending(merged@),
            merged@.len() > 0 && left@.len() > 0 ==> path_le(left@.last().0@, merged@.last().0@),
            merged@.len() > 0 && right@.len() > 0 ==> path_le(right@.last().0@, merged@.last().0@),
            left@.to_multiset().add(right@.to_multiset()).add(merged@.to_multiset()) == total,
        decreases left@.len() + right@.len(),
    {
        let take_left = if left.len() == 0 {
            false
        } else if right.len() == 0 {
            true
        } else {
            !str_lt(left[left.len() - 1].0.as_str(), right[right.len() - 1].0.as_str())
        };
        let ghost old_left = left@;
        let ghost old_right = right@;
        let ghost old_merged = merged@;
        let x = if take_left {
            left.pop().unwrap()
        } else {
            right.pop().unwrap()
        };
        proof {
            if take_left {
                assert(old_left =~= left@.push(x));
                vstd::seq_lib::to_multiset_build(left@, x);
                assert(old_left.to_multiset() =~= left@.to_multiset().insert(x));
                assert(old_right =~= right@);
                if right@.len() > 0 {
                    lemma_path_le_total(right@.last().0@, x.0@);
                }
            } else {
                assert(old_right =~= right@.push(x));
                vstd::seq_lib::to_multiset_build(right@, x);
                assert(old_right.to_multiset() =~= right@.to_multiset().insert(x));
                assert(old_left =~= left@);
                if left@.len() > 0 {
                    lemma_path_le_total(old_left.last().0@, x.0@);
                }
            }
            if left@.len() > 0 {
                assert(path_le(left@.last().0@, x.0@)) by {
                    if take_left {
                        assert(old_left[left@.len() - 1] == left@.last());
                    }
                }
            }
            if right@.len() > 0 {
                assert(path_le(right@.last().0@, x.0@)) by {
                    if !take_left {
                        assert(old_right[right@.len() - 1] == right@.last());
                    }
                }
            }
        }
        merged.push(x);
        proof {
            assert forall|i: int, j: int| 0 <= i < j < merged@.len() implies path_le(
                #[trigger] merged@[j].0@,
                #[trigger] merged@[i].0@,
            ) by {
                if j == merged@.len() - 1 {
                    let last = old_merged.len() - 1;
                    if i < last {
                        assert(path_le(old_merged[last].0@, old_merged[i].0@));
                    } else {
                        lemma_path_lt_irreflexive(old_merged[i].0@);
                    }
                    lemma_path_le_transitive(x.0@, old_merged.last().0@, old_merged[i].0@);
                } else {
                    assert(merged@[i] == old_merged[i] && merged@[j] == old_merged[j]);
                }
            }
            assert(merged@ =~= old_merged.push(x));
            vstd::seq_lib::to_multiset_build(old_merged, x);
            assert(merged@.to_multiset() =~= old_merged.to_multiset().insert(x));
            assert(left@.to_multiset().add(right@.to_multiset()).add(merged@.to_multiset()) =~= total);
        }
    }
    proof {
        assert(left@.to_multiset() =~= Multiset::empty());
        assert(right@.to_multiset() =~= Multiset::empty());
        assert(merged@.to_multiset() =~= total);
    }
    while merged.len() > 0
        invariant
            sorted_by_path(items@),
            sorted_descending(merged@),
            items@.len() > 0 && merged@.len() > 0 ==> path_le(items@.last().0@, merged@.last().0@),
            items@.to_multiset().add(merged@.to_multiset()) == total,
        decreases merged@.len(),
    {
        let ghost old_merged = merged@;
        let ghost old_items = items@;
        let x = merged.pop().unwrap();
        proof {
            assert(old_merged =~= merged@.push(x));
            vstd::seq_lib::to_multiset_build(merged@, x);
            assert(old_merged.to_multiset() =~= merged@.to_multiset().insert(x));
            if merged@.len() > 0 {
                assert(old_merged[merged@.len() - 1] == merged@.last());
            }
        }
        items.push(x);
        proof {
            assert forall|i: int, j: int| 0 <= i < j < items@.len() implies path_le(
                #[trigger] items@[i].0@,
                #[trigger] items@[j].0@,
            ) by {
                if j == items@.len() - 1 {
                    let last = old_items.len() - 1;
                    if i < last {
                        assert(path_le(old_items[i].0@, old_items[last].0@));
                    } else {
                        lemma_path_lt_irreflexive(old_items[i].0@);
                    }
                    lemma_path_le_transitive(old_items[i].0@, old_items.last().0@, x.0@);
                } else {
                    assert(items@[i] == old_items[i] && items@[j] == old_items[j]);
                }
            }
            assert(items@ =~= old_items.push(x));
            vstd::seq_lib::to_multiset_build(old_items, x);
            assert(items@.to_multiset() =~= old_items.to_multiset().insert(x));
            assert(items@.to_multiset().add(merged@.to_multiset()) =~= total);
        }
    }
    proof {
        assert(merged@.to_multiset() =~= Multiset::empty());
        assert(items@.to_multiset() =~= total);
    }
}

} // verus!
