use vstd::prelude::*;
use vstd::multiset::Multiset;
use crate::text::{views_of, lex_le, lemma_lex_le_total, lemma_lex_le_trans, lemma_lex_le_refl,
    lemma_lex_le_antisym, eq_chars, le_chars, clone_key, contains_key};

verus! {

/// The members of `canon`, in `canon`'s order, that occur in `cur`.
pub open spec fn keep_present(canon: Seq<Seq<char>>, cur: Seq<Seq<char>>) -> Seq<Seq<char>>
    decreases canon.len(),
{
    if canon.len() == 0 {
        Seq::empty()
    } else {
        keep_present(canon.drop_last(), cur) + (if cur.contains(canon.last()) {
            seq![canon.last()]
        } else {
            Seq::empty()
        })
    }
}

/// The members of `cur`, in `cur`'s order, that do not occur in `canon`.
pub open spec fn keep_absent(cur: Seq<Seq<char>>, canon: Seq<Seq<char>>) -> Seq<Seq<char>>
    decreases cur.len(),
{
    if cur.len() == 0 {
        Seq::empty()
    } else {
        keep_absent(cur.drop_last(), canon) + (if !canon.contains(cur.last()) {
            seq![cur.last()]
        } else {
            Seq::empty()
        })
    }
}

/// The canonical arrangement of the keys `cur`: the canonical keys that are
/// present, in canonical order, then the remaining keys in their original
/// relative order.
pub open spec fn expected_order(canon: Seq<Seq<char>>, cur: Seq<Seq<char>>) -> Seq<Seq<char>> {
    keep_present(canon, cur) + keep_absent(cur, canon)
}

/// Computes `expected_order` on key vectors.
pub fn compute_expected(canon: &Vec<Vec<char>>, cur: &Vec<Vec<char>>) -> (r: Vec<Vec<char>>)
    ensures
        views_of(r@) == expected_order(views_of(canon@), views_of(cur@)),
{
    let ghost canon_v: Seq<Seq<char>> = views_of(canon@);
    let ghost cur_v: Seq<Seq<char>> = views_of(cur@);
    let mut out: Vec<Vec<char>> = Vec::new();
    let mut i: usize = 0;
    proof {
        assert(canon_v.take(0) =~= Seq::<Seq<char>>::empty());
        assert(views_of(out@) =~= keep_present(canon_v.take(0), cur_v));
    }
    while i < canon.len()
        invariant
            0 <= i <= canon.len(),
            canon_v == views_of(canon@),
            cur_v == views_of(cur@),
            views_of(out@) == keep_present(canon_v.take(i as int), cur_v),
        decreases canon.len() - i,
    {
        let ghost old_out: Seq<Seq<char>> = views_of(out@);
        if contains_key(cur, &canon[i]) {
            let k = clone_key(&canon[i]);
            out.push(k);
            proof {
                assert(views_of(out@) =~= old_out.push(canon_v[i as int]));
            }
        }
        proof {
            assert(canon_v.take(i + 1).drop_last() =~= canon_v.take(i as int));
            assert(canon_v.take(i + 1).last() == canon_v[i as int]);
            assert(views_of(out@) =~= keep_present(canon_v.take(i + 1), cur_v));
        }
        i += 1;
    }
    proof {
        assert(canon_v.take(canon@.len() as int) =~= canon_v);
    }
    let mut j: usize = 0;
    proof {
        assert(cur_v.take(0) =~= Seq::<Seq<char>>::empty());
        assert(views_of(out@) =~= keep_present(canon_v, cur_v) + keep_absent(cur_v.take(0), canon_v));
    }
    while j < cur.len()
        invariant
            0 <= j <= cur.len(),
            canon_v == views_of(canon@),
            cur_v == views_of(cur@),
            views_of(out@) == keep_present(canon_v, cur_v) + keep_absent(cur_v.take(j as int), canon_v),
        decreases cur.len() - j,
    {
        let ghost old_out: Seq<Seq<char>> = views_of(out@);
        if !contains_key(canon, &cur[j]) {
            let k = clone_key(&cur[j]);
            out.push(k);
            proof {
                assert(views_of(out@) =~= old_out.push(cur_v[j as int]));
            }
        }
        proof {
            assert(cur_v.take(j + 1).drop_last() =~= cur_v.take(j as int));
            assert(cur_v.take(j + 1).last() == cur_v[j as int]);
            assert(views_of(out@) =~= keep_present(canon_v, cur_v) + keep_absent(
                cur_v.take(j + 1),
                canon_v,
            ));
        }
        j += 1;
    }
    proof {
        assert(cur_v.take(cur@.len() as int) =~= cur_v);
    }
    out
}

/// True when the key sequence is lexicographically non-decreasing.
pub open spec fn sorted(s: Seq<Seq<char>>) -> bool {
    forall|i: int, j: int| 0 <= i < j < s.len() ==> lex_le(s[i], s[j])
}

/// Sorts keys into lexicographic (byte) order; the result is a permutation
/// of the input.
pub fn sort_keys(input: Vec<Vec<char>>) -> (r: Vec<Vec<char>>)
    ensures
        sorted(views_of(r@)),
        views_of(r@).to_multiset() == views_of(input@).to_multiset(),
        r@.len() == input@.len(),
{
    broadcast use
        vstd::seq_lib::to_multiset_build,
        vstd::seq_lib::to_multiset_remove,
        vstd::seq_lib::to_multiset_contains,
        vstd::seq_lib::to_multiset_len,
        vstd::multiset::group_multiset_axioms;

    let ghost orig: Seq<Seq<char>> = views_of(input@);
    let mut rest = input;
    let mut out: Vec<Vec<char>> = Vec::new();
    proof {
        assert(views_of(out@) =~= Seq::<Seq<char>>::empty());
        assert(views_of(out@).to_multiset().add(views_of(rest@).to_multiset()) =~= orig.to_multiset());
    }
    while rest.len() > 0
        invariant
            views_of(out@).to_multiset().add(views_of(rest@).to_multiset()) == orig.to_multiset(),
            sorted(views_of(out@)),
            forall|i: int, j: int|
                0 <= i < views_of(out@).len() && 0 <= j < views_of(rest@).len() ==> lex_le(
                    views_of(out@)[i],
                    views_of(rest@)[j],
                ),
            out@.len() + rest@.len() == orig.len(),
        decreases rest.len(),
    {
        let mut min: usize = 0;
        let mut c: usize = 1;
        proof {
            lemma_lex_le_refl(views_of(rest@)[0]);
        }
        while c < rest.len()
            invariant
                0 <= min < rest@.len(),
                min < c || min == 0,
                c <= rest@.len(),
                forall|j: int| 0 <= j < c ==> lex_le(views_of(rest@)[min as int], views_of(rest@)[j]),
            decreases rest.len() - c,
        {
            if le_chars(&rest[c], &rest[min]) {
                proof {
                    assert forall|j: int| 0 <= j < c + 1 implies lex_le(
                        views_of(rest@)[c as int],
                        views_of(rest@)[j],
                    ) by {
                        if j == c {
                            lemma_lex_le_refl(views_of(rest@)[c as int]);
                        } else {
                            lemma_lex_le_trans(
                                views_of(rest@)[c as int],
                                views_of(rest@)[min as int],
                                views_of(rest@)[j],
                            );
                        }
                    }
                }
                min = c;
            } else {
                proof {
                    lemma_lex_le_total(views_of(rest@)[min as int], views_of(rest@)[c as int]);
                }
            }
            c += 1;
        }
        let ghost pre_rest: Seq<Seq<char>> = views_of(rest@);
        let ghost pre_out: Seq<Seq<char>> = views_of(out@);
        let x = rest.remove(min);
        out.push(x);
        proof {
            let xv = pre_rest[min as int];
            assert(views_of(rest@) =~= pre_rest.remove(min as int));
            assert(views_of(out@) =~= pre_out.push(xv));
            vstd::seq_lib::to_multiset_build(pre_out, xv);
            vstd::seq_lib::to_multiset_remove(pre_rest, min as int);
            vstd::seq_lib::to_multiset_contains(pre_rest, xv);
            assert(pre_rest.contains(xv));
            assert(pre_rest.to_multiset().count(xv) > 0);
            assert(views_of(out@).to_multiset().add(views_of(rest@).to_multiset()) =~= orig.to_multiset());
            assert forall|i: int, j: int|
                0 <= i < views_of(out@).len() && 0 <= j < views_of(rest@).len() implies lex_le(
                views_of(out@)[i],
                views_of(rest@)[j],
            ) by {
                let rj = views_of(rest@)[j];
                assert(pre_rest.remove(min as int)[j] == if j < min {
                    pre_rest[j]
                } else {
                    pre_rest[j + 1]
                });
                if i < pre_out.len() {
                    assert(lex_le(views_of(out@)[i], rj));
                } else {
                    assert(views_of(out@)[i] == pre_rest[min as int]);
                    assert(lex_le(pre_rest[min as int], rj));
                }
            }
        }
    }
    proof {
        assert(views_of(rest@) =~= Seq::<Seq<char>>::empty());
        assert(views_of(rest@).to_multiset() =~= Multiset::<Seq<char>>::empty());
        assert(views_of(out@).to_multiset() =~= orig.to_multiset());
    }
    out
}

/// Decides whether two key lists are equal, element by element.
pub fn keys_equal(a: &Vec<Vec<char>>, b: &Vec<Vec<char>>) -> (r: bool)
    ensures
        r == (views_of(a@) == views_of(b@)),
{
    if a.len() != b.len() {
        proof {
            assert(views_of(a@).len() != views_of(b@).len());
        }
        return false;
    }
    let mut i: usize = 0;
    while i < a.len()
        invariant
            0 <= i <= a.len(),
            a@.len() == b@.len(),
            forall|j: int| 0 <= j < i ==> views_of(a@)[j] == views_of(b@)[j],
        decreases a.len() - i,
    {
        if !eq_chars(&a[i], &b[i]) {
            proof {
                assert(views_of(a@)[i as int] != views_of(b@)[i as int]);
            }
            return false;
        }
        i += 1;
    }
    proof {
        assert(views_of(a@) =~= views_of(b@));
    }
    true
}

} // verus!

verus! {

/// Membership in a concatenation.
pub proof fn lemma_concat_contains(a: Seq<Seq<char>>, b: Seq<Seq<char>>, x: Seq<char>)
    ensures
        (a + b).contains(x) <==> (a.contains(x) || b.contains(x)),
{
    if (a + b).contains(x) {
        let i = choose|i: int| 0 <= i < (a + b).len() && (a + b)[i] == x;
        if i < a.len() {
            assert(a[i] == x);
        } else {
            assert(b[i - a.len()] == x);
        }
    }
    if a.contains(x) {
        let i = choose|i: int| 0 <= i < a.len() && a[i] == x;
        assert((a + b)[i] == x);
    }
    if b.contains(x) {
        let i = choose|i: int| 0 <= i < b.len() && b[i] == x;
        assert((a + b)[a.len() + i] == x);
    }
}

/// Membership across dropping the last element.
pub proof fn lemma_drop_last_contains(s: Seq<Seq<char>>, x: Seq<char>)
    requires
        s.len() > 0,
    ensures
        s.contains(x) <==> (s.drop_last().contains(x) || x == s.last()),
{
    if s.contains(x) {
        let i = choose|i: int| 0 <= i < s.len() && s[i] == x;
        if i < s.len() - 1 {
            assert(s.drop_last()[i] == x);
        }
    }
    if s.drop_last().contains(x) {
        let i = choose|i: int| 0 <= i < s.drop_last().len() && s.drop_last()[i] == x;
        assert(s[i] == x);
    }
    if x == s.last() {
        assert(s[s.len() - 1] == x);
    }
}

/// A key stands in `keep_present(canon, cur)` exactly when it stands in both.
pub proof fn lemma_keep_present_membership(
    canon: Seq<Seq<char>>,
    cur: Seq<Seq<char>>,
    k: Seq<char>,
)
    ensures
        keep_present(canon, cur).contains(k) <==> (canon.contains(k) && cur.contains(k)),
    decreases canon.len(),
{
    if canon.len() == 0 {
    } else {
        lemma_keep_present_membership(canon.drop_last(), cur, k);
        lemma_drop_last_contains(canon, k);
        let kpd = keep_present(canon.drop_last(), cur);
        if cur.contains(canon.last()) {
            lemma_concat_contains(kpd, seq![canon.last()], k);
            assert(seq![canon.last()].contains(k) <==> k == canon.last()) by {
                if seq![canon.last()].contains(k) {
                    let i = choose|i: int|
                        0 <= i < seq![canon.last()].len() && seq![canon.last()][i] == k;
                    assert(i == 0);
                }
                if k == canon.last() {
                    assert(seq![canon.last()][0] == k);
                }
            }
        } else {
            lemma_concat_contains(kpd, Seq::empty(), k);
        }
    }
}

/// A key stands in `keep_absent(cur, canon)` exactly when it stands in `cur`
/// and not in `canon`.
pub proof fn lemma_keep_absent_membership(
    cur: Seq<Seq<char>>,
    canon: Seq<Seq<char>>,
    k: Seq<char>,
)
    ensures
        keep_absent(cur, canon).contains(k) <==> (cur.contains(k) && !canon.contains(k)),
    decreases cur.len(),
{
    if cur.len() == 0 {
    } else {
        lemma_keep_absent_membership(cur.drop_last(), canon, k);
        lemma_drop_last_contains(cur, k);
        let kad = keep_absent(cur.drop_last(), canon);
        if !canon.contains(cur.last()) {
            lemma_concat_contains(kad, seq![cur.last()], k);
            assert(seq![cur.last()].contains(k) <==> k == cur.last()) by {
                if seq![cur.last()].contains(k) {
                    let i = choose|i: int|
                        0 <= i < seq![cur.last()].len() && seq![cur.last()][i] == k;
                    assert(i == 0);
                }
                if k == cur.last() {
                    assert(seq![cur.last()][0] == k);
                }
            }
        } else {
            lemma_concat_contains(kad, Seq::empty(), k);
        }
    }
}

/// `keep_present` of keys without duplicates has none either.
pub proof fn lemma_keep_present_distinct(canon: Seq<Seq<char>>, cur: Seq<Seq<char>>)
    requires
        canon.no_duplicates(),
    ensures
        keep_present(canon, cur).no_duplicates(),
    decreases canon.len(),
{
    if canon.len() == 0 {
    } else {
        assert(canon.drop_last().no_duplicates());
        lemma_keep_present_distinct(canon.drop_last(), cur);
        let kpd = keep_present(canon.drop_last(), cur);
        if cur.contains(canon.last()) {
            assert(!kpd.contains(canon.last())) by {
                lemma_keep_present_membership(canon.drop_last(), cur, canon.last());
                if canon.drop_last().contains(canon.last()) {
                    let i = choose|i: int|
                        0 <= i < canon.drop_last().len() && canon.drop_last()[i] == canon.last();
                    assert(canon[i] == canon[canon.len() - 1]);
                }
            }
            let kp = keep_present(canon, cur);
            assert forall|i: int, j: int| 0 <= i < j < kp.len() implies kp[i] != kp[j] by {
                if j < kpd.len() {
                } else {
                    assert(kp[j] == canon.last());
                    assert(kp[i] == kpd[i]);
                    assert(kpd.contains(kpd[i]));
                }
            }
        }
    }
}

/// `keep_absent` of keys without duplicates has none either.
pub proof fn lemma_keep_absent_distinct(cur: Seq<Seq<char>>, canon: Seq<Seq<char>>)
    requires
        cur.no_duplicates(),
    ensures
        keep_absent(cur, canon).no_duplicates(),
    decreases cur.len(),
{
    if cur.len() == 0 {
    } else {
        assert(cur.drop_last().no_duplicates());
        lemma_keep_absent_distinct(cur.drop_last(), canon);
        let kad = keep_absent(cur.drop_last(), canon);
        if !canon.contains(cur.last()) {
            assert(!kad.contains(cur.last())) by {
                lemma_keep_absent_membership(cur.drop_last(), canon, cur.last());
                if cur.drop_last().contains(cur.last()) {
                    let i = choose|i: int|
                        0 <= i < cur.drop_last().len() && cur.drop_last()[i] == cur.last();
                    assert(cur[i] == cur[cur.len() - 1]);
                }
            }
            let ka = keep_absent(cur, canon);
            assert forall|i: int, j: int| 0 <= i < j < ka.len() implies ka[i] != ka[j] by {
                if j < kad.len() {
                } else {
                    assert(ka[j] == cur.last());
                    assert(ka[i] == kad[i]);
                    assert(kad.contains(kad[i]));
                }
            }
        }
    }
}

/// The canonical arrangement of distinct keys is a permutation of them.
pub proof fn lemma_expected_order_permutation(canon: Seq<Seq<char>>, cur: Seq<Seq<char>>)
    requires
        canon.no_duplicates(),
        cur.no_duplicates(),
    ensures
        expected_order(canon, cur).no_duplicates(),
        expected_order(canon, cur).to_multiset() == cur.to_multiset(),
        expected_order(canon, cur).len() == cur.len(),
        forall|k: Seq<char>| expected_order(canon, cur).contains(k) <==> cur.contains(k),
{
    let kp = keep_present(canon, cur);
    let ka = keep_absent(cur, canon);
    let ex = expected_order(canon, cur);
    lemma_keep_present_distinct(canon, cur);
    lemma_keep_absent_distinct(cur, canon);
    assert forall|k: Seq<char>| ex.contains(k) <==> cur.contains(k) by {
        lemma_concat_contains(kp, ka, k);
        lemma_keep_present_membership(canon, cur, k);
        lemma_keep_absent_membership(cur, canon, k);
    }
    assert forall|i: int, j: int| 0 <= i < j < ex.len() implies ex[i] != ex[j] by {
        if i < kp.len() && j >= kp.len() {
            assert(ex[i] == kp[i]);
            assert(ex[j] == ka[j - kp.len()]);
            assert(kp.contains(kp[i]));
            assert(ka.contains(ka[j - kp.len()]));
            lemma_keep_present_membership(canon, cur, ex[i]);
            lemma_keep_absent_membership(cur, canon, ex[j]);
        } else if i < kp.len() {
            assert(ex[i] == kp[i]);
            assert(ex[j] == kp[j]);
        } else {
            assert(ex[i] == ka[i - kp.len()]);
            assert(ex[j] == ka[j - kp.len()]);
        }
    }
    vstd::seq_lib::lemma_multiset_commutative(kp, ka);
    ex.lemma_multiset_has_no_duplicates();
    cur.lemma_multiset_has_no_duplicates();
    assert forall|x: Seq<char>| ex.to_multiset().count(x) == cur.to_multiset().count(x) by {
        vstd::seq_lib::to_multiset_contains(ex, x);
        vstd::seq_lib::to_multiset_contains(cur, x);
        if ex.contains(x) {
            assert(cur.contains(x));
        } else {
            assert(!cur.contains(x));
        }
    }
    assert(ex.to_multiset() =~= cur.to_multiset());
    vstd::seq_lib::to_multiset_len(ex);
    vstd::seq_lib::to_multiset_len(cur);
}

} // verus!

verus! {

/// Two sorted arrangements of the same keys are the same sequence.
pub proof fn lemma_sorted_unique(a: Seq<Seq<char>>, b: Seq<Seq<char>>)
    requires
        sorted(a),
        sorted(b),
        a.to_multiset() == b.to_multiset(),
    ensures
        a == b,
    decreases a.len(),
{
    vstd::seq_lib::to_multiset_len(a);
    vstd::seq_lib::to_multiset_len(b);
    if a.len() == 0 {
        assert(a =~= b);
    } else {
        assert(a.contains(a[0])) by {
            assert(a[0] == a[0]);
        }
        assert(b.contains(b[0])) by {
            assert(b[0] == b[0]);
        }
        vstd::seq_lib::to_multiset_contains(a, a[0]);
        vstd::seq_lib::to_multiset_contains(b, a[0]);
        vstd::seq_lib::to_multiset_contains(a, b[0]);
        vstd::seq_lib::to_multiset_contains(b, b[0]);
        assert(b.contains(a[0]));
        assert(a.contains(b[0]));
        assert(lex_le(b[0], a[0])) by {
            let i = choose|i: int| 0 <= i < b.len() && b[i] == a[0];
            if i == 0 {
                lemma_lex_le_refl(b[0]);
            }
        }
        assert(lex_le(a[0], b[0])) by {
            let i = choose|i: int| 0 <= i < a.len() && a[i] == b[0];
            if i == 0 {
                lemma_lex_le_refl(a[0]);
            }
        }
        lemma_lex_le_antisym(a[0], b[0]);
        vstd::seq_lib::to_multiset_remove(a, 0);
        vstd::seq_lib::to_multiset_remove(b, 0);
        let at = a.remove(0);
        let bt = b.remove(0);
        assert(at.to_multiset() == bt.to_multiset());
        assert(sorted(at)) by {
            assert forall|i: int, j: int| 0 <= i < j < at.len() implies lex_le(at[i], at[j]) by {
                assert(at[i] == a[i + 1]);
                assert(at[j] == a[j + 1]);
            }
        }
        assert(sorted(bt)) by {
            assert forall|i: int, j: int| 0 <= i < j < bt.len() implies lex_le(bt[i], bt[j]) by {
                assert(bt[i] == b[i + 1]);
                assert(bt[j] == b[j + 1]);
            }
        }
        lemma_sorted_unique(at, bt);
        assert forall|i: int| 0 <= i < a.len() implies a[i] == b[i] by {
            if i > 0 {
                assert(at[i - 1] == a[i]);
                assert(bt[i - 1] == b[i]);
            }
        }
        assert(a =~= b);
    }
}

} // verus!

verus! {

/// `keep_present` looks at the current keys only through membership.
proof fn lemma_keep_present_same_members(
    canon: Seq<Seq<char>>,
    b1: Seq<Seq<char>>,
    b2: Seq<Seq<char>>,
)
    requires
        forall|k: Seq<char>| #[trigger] b1.contains(k) <==> b2.contains(k),
    ensures
        keep_present(canon, b1) == keep_present(canon, b2),
    decreases canon.len(),
{
    if canon.len() == 0 {
        assert(keep_present(canon, b1) =~= keep_present(canon, b2));
    } else {
        lemma_keep_present_same_members(canon.drop_last(), b1, b2);
        assert(b1.contains(canon.last()) <==> b2.contains(canon.last()));
    }
}

/// `keep_absent` distributes over concatenation.
proof fn lemma_keep_absent_concat(a: Seq<Seq<char>>, b: Seq<Seq<char>>, canon: Seq<Seq<char>>)
    ensures
        keep_absent(a + b, canon) == keep_absent(a, canon) + keep_absent(b, canon),
    decreases b.len(),
{
    if b.len() == 0 {
        assert(a + b =~= a);
        assert(keep_absent(a + b, canon) =~= keep_absent(a, canon) + keep_absent(b, canon));
    } else {
        lemma_keep_absent_concat(a, b.drop_last(), canon);
        assert((a + b).drop_last() =~= a + b.drop_last());
        assert((a + b).last() == b.last());
        assert(keep_absent(a + b, canon) =~= keep_absent(a, canon) + keep_absent(b, canon));
    }
}

/// Keys that all stand in `canon` leave nothing behind.
proof fn lemma_keep_absent_all_in(s: Seq<Seq<char>>, canon: Seq<Seq<char>>)
    requires
        forall|i: int| 0 <= i < s.len() ==> canon.contains(#[trigger] s[i]),
    ensures
        keep_absent(s, canon) == Seq::<Seq<char>>::empty(),
    decreases s.len(),
{
    if s.len() == 0 {
        assert(keep_absent(s, canon) =~= Seq::<Seq<char>>::empty());
    } else {
        assert(forall|i: int|
            0 <= i < s.drop_last().len() ==> canon.contains(#[trigger] s.drop_last()[i]));
        lemma_keep_absent_all_in(s.drop_last(), canon);
        assert(canon.contains(s[s.len() - 1]));
        assert(keep_absent(s, canon) =~= Seq::<Seq<char>>::empty());
    }
}

/// Keys that never stand in `canon` all stay, in order.
proof fn lemma_keep_absent_none_in(s: Seq<Seq<char>>, canon: Seq<Seq<char>>)
    requires
        forall|i: int| 0 <= i < s.len() ==> !canon.contains(#[trigger] s[i]),
    ensures
        keep_absent(s, canon) == s,
    decreases s.len(),
{
    if s.len() == 0 {
        assert(keep_absent(s, canon) =~= s);
    } else {
        assert(forall|i: int|
            0 <= i < s.drop_last().len() ==> !canon.contains(#[trigger] s.drop_last()[i]));
        lemma_keep_absent_none_in(s.drop_last(), canon);
        assert(!canon.contains(s[s.len() - 1]));
        assert(keep_absent(s, canon) =~= s.drop_last() + seq![s.last()]);
        assert(s.drop_last() + seq![s.last()] =~= s);
    }
}

/// Arranging keys canonically is idempotent: a list already in canonical
/// arrangement is left exactly as it is. This is what makes the section
/// orderer and the package-key orderer report no change on their own
/// output.
pub proof fn lemma_expected_order_idempotent(canon: Seq<Seq<char>>, cur: Seq<Seq<char>>)
    ensures
        expected_order(canon, expected_order(canon, cur)) == expected_order(canon, cur),
{
    let kp = keep_present(canon, cur);
    let ka = keep_absent(cur, canon);
    let ex = expected_order(canon, cur);
    assert forall|k: Seq<char>| #[trigger] ex.contains(k) <==> cur.contains(k) by {
        lemma_concat_contains(kp, ka, k);
        lemma_keep_present_membership(canon, cur, k);
        lemma_keep_absent_membership(cur, canon, k);
    }
    lemma_keep_present_same_members(canon, ex, cur);
    lemma_keep_absent_concat(kp, ka, canon);
    assert forall|i: int| 0 <= i < kp.len() implies canon.contains(#[trigger] kp[i]) by {
        assert(kp.contains(kp[i]));
        lemma_keep_present_membership(canon, cur, kp[i]);
    }
    lemma_keep_absent_all_in(kp, canon);
    assert forall|i: int| 0 <= i < ka.len() implies !canon.contains(#[trigger] ka[i]) by {
        assert(ka.contains(ka[i]));
        lemma_keep_absent_membership(cur, canon, ka[i]);
    }
    lemma_keep_absent_none_in(ka, canon);
    assert(keep_absent(ex, canon) =~= ka);
    assert(expected_order(canon, ex) =~= ex);
}

} // verus!
