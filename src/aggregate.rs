use vstd::prelude::*;
use crate::text::{lex_lt, lemma_lex_irreflexive, lemma_lex_total, lemma_lex_transitive, text_less, text_equal, views};

verus! {

broadcast use vstd::seq_lib::group_to_multiset_ensures;

/// Every entry comes strictly before the next, so no entry repeats.
pub open spec fn strictly_sorted(s: Seq<Seq<char>>) -> bool {
    forall|i: int, j: int| 0 <= i < j < s.len() ==> lex_lt(s[i], s[j])
}

/// `r` is the unique-mode result for `names`: the distinct names, ascending.
pub open spec fn is_unique_listing(names: Seq<Seq<char>>, r: Seq<Seq<char>>) -> bool {
    &&& strictly_sorted(r)
    &&& forall|x: Seq<char>| r.contains(x) <==> names.contains(x)
}

/// The names of a count listing.
pub open spec fn keys(r: Seq<(Seq<char>, nat)>) -> Seq<Seq<char>> {
    r.map_values(|p: (Seq<char>, nat)| p.0)
}

/// `r` is the count-mode result for `names`: each distinct name once,
/// ascending, beside the number of times it occurs.
pub open spec fn is_count_listing(names: Seq<Seq<char>>, r: Seq<(Seq<char>, nat)>) -> bool {
    &&& is_unique_listing(names, keys(r))
    &&& forall|i: int| 0 <= i < r.len() ==> #[trigger] r[i].1 == names.to_multiset().count(r[i].0)
}

/// The sum of the counts of a count listing.
pub open spec fn total(r: Seq<(Seq<char>, nat)>) -> nat
    decreases r.len(),
{
    if r.len() == 0 {
        0
    } else {
        total(r.drop_last()) + r.last().1
    }
}

/// A count listing as names and counts.
pub open spec fn count_view(r: Seq<(String, usize)>) -> Seq<(Seq<char>, nat)> {
    r.map_values(|p: (String, usize)| (p.0@, p.1 as nat))
}

proof fn lemma_total_update(r: Seq<(Seq<char>, nat)>, p: int, k: Seq<char>, c: nat)
    requires
        0 <= p < r.len(),
    ensures
        total(r.update(p, (k, c))) + r[p].1 == total(r) + c,
    decreases r.len(),
{
    if p < r.len() - 1 {
        assert(r.update(p, (k, c)).drop_last() =~= r.drop_last().update(p, (k, c)));
        lemma_total_update(r.drop_last(), p, k, c);
    } else {
        assert(r.update(p, (k, c)).drop_last() =~= r.drop_last());
    }
}

proof fn lemma_total_insert(r: Seq<(Seq<char>, nat)>, p: int, k: Seq<char>, c: nat)
    requires
        0 <= p <= r.len(),
    ensures
        total(r.insert(p, (k, c))) == total(r) + c,
    decreases r.len(),
{
    if p < r.len() {
        assert(r.insert(p, (k, c)).drop_last() =~= r.drop_last().insert(p, (k, c)));
        lemma_total_insert(r.drop_last(), p, k, c);
    } else {
        assert(r.insert(p, (k, c)).drop_last() =~= r);
    }
}

proof fn lemma_entry_le_total(r: Seq<(Seq<char>, nat)>, p: int)
    requires
        0 <= p < r.len(),
    ensures
        r[p].1 <= total(r),
    decreases r.len(),
{
    if p < r.len() - 1 {
        lemma_entry_le_total(r.drop_last(), p);
    }
}

/// In a strictly sorted sequence, a name is found at most at one index.
proof fn lemma_sorted_distinct(s: Seq<Seq<char>>, i: int, j: int)
    requires
        strictly_sorted(s),
        0 <= i < s.len(),
        0 <= j < s.len(),
        i != j,
    ensures
        s[i] != s[j],
{
    lemma_lex_irreflexive(s[i]);
}

/// Putting `x` at `p` keeps the order when everything before `p` is smaller
/// and `x` is smaller than what stands at `p`.
proof fn lemma_insert_sorted(s: Seq<Seq<char>>, p: int, x: Seq<char>)
    requires
        strictly_sorted(s),
        0 <= p <= s.len(),
        forall|k: int| 0 <= k < p ==> lex_lt(s[k], x),
        p < s.len() ==> lex_lt(x, s[p]),
    ensures
        strictly_sorted(s.insert(p, x)),
{
    let t = s.insert(p, x);
    assert forall|i: int, j: int| 0 <= i < j < t.len() implies lex_lt(t[i], t[j]) by {
        if i <= p && j > p {
            if j - 1 > p {
                lemma_lex_transitive(x, s[p], s[j - 1]);
            }
            if i < p {
                lemma_lex_transitive(s[i], x, s[j - 1]);
            }
        }
    }
}

proof fn lemma_same_names_push_present(listed: Seq<Seq<char>>, names: Seq<Seq<char>>, p: int, x: Seq<char>)
    requires
        forall|y: Seq<char>| listed.contains(y) <==> names.contains(y),
        0 <= p < listed.len(),
        listed[p] == x,
    ensures
        forall|y: Seq<char>| listed.contains(y) <==> names.push(x).contains(y),
{
    assert forall|y: Seq<char>| listed.contains(y) <==> names.push(x).contains(y) by {
        if y == x {
            assert(names.push(x)[names.len() as int] == y);
        }
        if names.contains(y) {
            let k = choose|k: int| 0 <= k < names.len() && names[k] == y;
            assert(names.push(x)[k] == y);
        }
        if names.push(x).contains(y) && y != x {
            let k = choose|k: int| 0 <= k < names.len() + 1 && names.push(x)[k] == y;
            assert(names[k] == y);
        }
    }
}

proof fn lemma_same_names_insert(listed: Seq<Seq<char>>, names: Seq<Seq<char>>, p: int, x: Seq<char>)
    requires
        forall|y: Seq<char>| listed.contains(y) <==> names.contains(y),
        0 <= p <= listed.len(),
    ensures
        forall|y: Seq<char>| listed.insert(p, x).contains(y) <==> names.push(x).contains(y),
{
    let after = listed.insert(p, x);
    assert forall|y: Seq<char>| after.contains(y) <==> names.push(x).contains(y) by {
        if y == x {
            assert(after[p] == y);
            assert(names.push(x)[names.len() as int] == y);
        }
        if listed.contains(y) {
            let k = choose|k: int| 0 <= k < listed.len() && listed[k] == y;
            if k < p {
                assert(after[k] == y);
            } else {
                assert(after[k + 1] == y);
            }
        }
        if names.contains(y) {
            let k = choose|k: int| 0 <= k < names.len() && names[k] == y;
            assert(names.push(x)[k] == y);
        }
        if after.contains(y) && y != x {
            let k = choose|k: int| 0 <= k < after.len() && after[k] == y;
            if k < p {
                assert(listed[k] == y);
            } else {
                assert(listed[k - 1] == y);
            }
        }
        if names.push(x).contains(y) && y != x {
            let k = choose|k: int| 0 <= k < names.len() + 1 && names.push(x)[k] == y;
            assert(names[k] == y);
        }
    }
}

/// Where `x` belongs in the strictly sorted `s`: the first index whose entry
/// does not come before `x`.
fn slot(s: &Vec<String>, x: &String) -> (p: usize)
    ensures
        p <= s.len(),
        forall|k: int| 0 <= k < p ==> lex_lt(#[trigger] s@[k]@, x@),
        p < s.len() ==> !lex_lt(s@[p as int]@, x@),
{
    let mut p: usize = 0;
    while p < s.len() && text_less(&s[p], x)
        invariant
            p <= s.len(),
            forall|k: int| 0 <= k < p ==> lex_lt(#[trigger] s@[k]@, x@),
        decreases s.len() - p,
    {
        p = p + 1;
    }
    p
}

/// Unique mode: the distinct operator names, sorted ascending.
pub fn unique_ops(ops: &[String]) -> (r: Vec<String>)
    ensures
        is_unique_listing(views(ops@), views(r@)),
{
    let mut r: Vec<String> = Vec::new();
    let mut i: usize = 0;
    while i < ops.len()
        invariant
            i <= ops.len(),
            is_unique_listing(views(ops@).take(i as int), views(r@)),
        decreases ops.len() - i,
    {
        let ghost names = views(ops@).take(i as int);
        let ghost before = views(r@);
        assert(views(ops@).take(i + 1) =~= names.push(ops@[i as int]@));
        let p = slot(&r, &ops[i]);
        let ghost op = ops@[i as int]@;
        if p < r.len() && text_equal(&r[p], &ops[i]) {
            proof {
                lemma_same_names_push_present(before, names, p as int, op);
            }
        } else {
            proof {
                if p < r.len() {
                    lemma_lex_total(r@[p as int]@, op);
                }
                lemma_insert_sorted(before, p as int, op);
                lemma_same_names_insert(before, names, p as int, op);
            }
            r.insert(p, ops[i].clone());
            assert(views(r@) =~= before.insert(p as int, op));
        }
        i = i + 1;
    }
    assert(views(ops@).take(ops.len() as int) =~= views(ops@));
    r
}

/// Where `x` belongs in the strictly sorted names of `s`.
fn count_slot(s: &Vec<(String, usize)>, x: &String) -> (p: usize)
    ensures
        p <= s.len(),
        forall|k: int| 0 <= k < p ==> lex_lt(#[trigger] s@[k].0@, x@),
        p < s.len() ==> !lex_lt(s@[p as int].0@, x@),
{
    let mut p: usize = 0;
    while p < s.len() && text_less(&s[p].0, x)
        invariant
            p <= s.len(),
            forall|k: int| 0 <= k < p ==> lex_lt(#[trigger] s@[k].0@, x@),
        decreases s.len() - p,
    {
        p = p + 1;
    }
    p
}

/// Count mode: each distinct operator name with the number of times it
/// occurs, sorted by name. The counts add up to the number of operators.
pub fn count_ops(ops: &[String]) -> (r: Vec<(String, usize)>)
    ensures
        is_count_listing(views(ops@), count_view(r@)),
        total(count_view(r@)) == ops.len(),
{
    let mut r: Vec<(String, usize)> = Vec::new();
    let mut i: usize = 0;
    assert(count_view(r@) =~= Seq::empty());
    while i < ops.len()
        invariant
            i <= ops.len(),
            is_count_listing(views(ops@).take(i as int), count_view(r@)),
            total(count_view(r@)) == i,
        decreases ops.len() - i,
    {
        let ghost names = views(ops@).take(i as int);
        let ghost before = count_view(r@);
        let ghost op = ops@[i as int]@;
        assert(views(ops@).take(i + 1) =~= names.push(op));
        let p = count_slot(&r, &ops[i]);
        if p < r.len() && text_equal(&r[p].0, &ops[i]) {
            let c = r[p].1;
            proof {
                lemma_entry_le_total(before, p as int);
                lemma_same_names_push_present(keys(before), names, p as int, op);
                lemma_total_update(before, p as int, op, (c + 1) as nat);
            }
            let name = r[p].0.clone();
            r.set(p, (name, c + 1));
            assert(count_view(r@) =~= before.update(p as int, (op, (c + 1) as nat)));
            assert(keys(count_view(r@)) =~= keys(before));
            assert forall|q: int| 0 <= q < r.len() implies #[trigger] count_view(r@)[q].1
                == names.push(op).to_multiset().count(count_view(r@)[q].0) by {
                if q != p {
                    lemma_sorted_distinct(keys(before), q, p as int);
                }
            }
        } else {
            proof {
                if p < r.len() {
                    lemma_lex_total(r@[p as int].0@, op);
                }
                lemma_insert_sorted(keys(before), p as int, op);
                lemma_same_names_insert(keys(before), names, p as int, op);
                lemma_total_insert(before, p as int, op, 1);
            }
            r.insert(p, (ops[i].clone(), 1));
            assert(count_view(r@) =~= before.insert(p as int, (op, 1nat)));
            assert(keys(count_view(r@)) =~= keys(before).insert(p as int, op));
            assert(!names.contains(op)) by {
                if names.contains(op) {
                    assert(keys(before).contains(op));
                    let k = choose|k: int| 0 <= k < keys(before).len() && keys(before)[k] == op;
                    let after = keys(before).insert(p as int, op);
                    if k < p {
                        lemma_sorted_distinct(after, k, p as int);
                    } else {
                        lemma_sorted_distinct(after, k + 1, p as int);
                    }
                }
            }
            assert forall|q: int| 0 <= q < r.len() implies #[trigger] count_view(r@)[q].1
                == names.push(op).to_multiset().count(count_view(r@)[q].0) by {
                if q < p {
                    lemma_sorted_distinct(keys(count_view(r@)), q, p as int);
                } else if q > p {
                    lemma_sorted_distinct(keys(count_view(r@)), q, p as int);
                }
            }
        }
        i = i + 1;
    }
    assert(views(ops@).take(ops.len() as int) =~= views(ops@));
    r
}

/// Two strictly sorted sequences that hold the same names are equal.
pub proof fn lemma_sorted_listing_unique(a: Seq<Seq<char>>, b: Seq<Seq<char>>)
    requires
        strictly_sorted(a),
        strictly_sorted(b),
        forall|x: Seq<char>| a.contains(x) <==> b.contains(x),
    ensures
        a == b,
    decreases a.len(),
{
    if a.len() == 0 {
        if b.len() > 0 {
            assert(b.contains(b[0]));
        }
        assert(a =~= b);
    } else {
        assert(a.contains(a[0]));
        assert(b.len() > 0);
        assert(b.contains(b[0]));
        let j = choose|j: int| 0 <= j < b.len() && b[j] == a[0];
        let k = choose|k: int| 0 <= k < a.len() && a[k] == b[0];
        if a[0] != b[0] {
            lemma_lex_total(a[0], b[0]);
            assert(j > 0 && k > 0);
            assert(lex_lt(b[0], b[j]));
            assert(lex_lt(a[0], a[k]));
        }
        let ta = a.drop_first();
        let tb = b.drop_first();
        assert forall|x: Seq<char>| ta.contains(x) <==> tb.contains(x) by {
            if ta.contains(x) {
                let i = choose|i: int| 0 <= i < ta.len() && ta[i] == x;
                lemma_sorted_distinct(a, 0, i + 1);
                assert(a.contains(x));
                let m = choose|m: int| 0 <= m < b.len() && b[m] == x;
                assert(m != 0);
                assert(tb[m - 1] == x);
            }
            if tb.contains(x) {
                let i = choose|i: int| 0 <= i < tb.len() && tb[i] == x;
                lemma_sorted_distinct(b, 0, i + 1);
                assert(b.contains(x));
                let m = choose|m: int| 0 <= m < a.len() && a[m] == x;
                assert(m != 0);
                assert(ta[m - 1] == x);
            }
        }
        lemma_sorted_listing_unique(ta, tb);
        assert forall|i: int| 0 <= i < a.len() implies a[i] == b[i] by {
            if i > 0 {
                assert(a[i] == ta[i - 1]);
                assert(b[i] == tb[i - 1]);
            }
        }
        assert(a =~= b);
    }
}

/// The unique-mode result does not depend on the order of the operators:
/// two sequences that are permutations of each other give the same listing.
pub proof fn unique_listing_ignores_order(
    a: Seq<Seq<char>>,
    b: Seq<Seq<char>>,
    ra: Seq<Seq<char>>,
    rb: Seq<Seq<char>>,
)
    requires
        a.to_multiset() == b.to_multiset(),
        is_unique_listing(a, ra),
        is_unique_listing(b, rb),
    ensures
        ra == rb,
{
    broadcast use vstd::seq_lib::to_multiset_contains;
    assert forall|x: Seq<char>| ra.contains(x) <==> rb.contains(x) by {
        assert(a.contains(x) <==> a.to_multiset().count(x) > 0);
        assert(b.contains(x) <==> b.to_multiset().count(x) > 0);
    }
    lemma_sorted_listing_unique(ra, rb);
}

/// On the same operators, the unique-mode names are exactly the names of
/// the count-mode listing, in the same order, and each name stands in the
/// count listing once.
pub proof fn unique_and_count_agree(
    names: Seq<Seq<char>>,
    ru: Seq<Seq<char>>,
    rc: Seq<(Seq<char>, nat)>,
)
    requires
        is_unique_listing(names, ru),
        is_count_listing(names, rc),
    ensures
        ru == keys(rc),
        forall|i: int, j: int|
            0 <= i < rc.len() && 0 <= j < rc.len() && rc[i].0 == rc[j].0 ==> i == j,
{
    lemma_sorted_listing_unique(ru, keys(rc));
    assert forall|i: int, j: int|
        0 <= i < rc.len() && 0 <= j < rc.len() && rc[i].0 == rc[j].0 implies i == j by {
        if i != j {
            lemma_sorted_distinct(keys(rc), i, j);
        }
    }
}

} // verus!
