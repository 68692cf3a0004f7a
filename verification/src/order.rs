//! Orders used to arrange lists: the code-point order of text (the order of `str::cmp`), and
//! the stable arrangement that `slice::sort_by` makes under a total preorder.
use vstd::prelude::*;

verus! {

/// `a <= b` in the lexicographic order of code points, which is the order `str::cmp` gives
/// (UTF-8 preserves the order of code points).
pub open spec fn lex_le(a: Seq<char>, b: Seq<char>) -> bool
    decreases a.len(),
{
    if a.len() == 0 {
        true
    } else if b.len() == 0 {
        false
    } else if a[0] < b[0] {
        true
    } else if a[0] > b[0] {
        false
    } else {
        lex_le(a.skip(1), b.skip(1))
    }
}

/// Any two texts are comparable.
pub proof fn lemma_lex_total(a: Seq<char>, b: Seq<char>)
    ensures
        lex_le(a, b) || lex_le(b, a),
    decreases a.len(),
{
    if a.len() > 0 && b.len() > 0 && a[0] == b[0] {
        lemma_lex_total(a.skip(1), b.skip(1));
    }
}

/// The order is transitive.
pub proof fn lemma_lex_trans(a: Seq<char>, b: Seq<char>, c: Seq<char>)
    requires
        lex_le(a, b),
        lex_le(b, c),
    ensures
        lex_le(a, c),
    decreases a.len(),
{
    if a.len() > 0 && b.len() > 0 && c.len() > 0 && a[0] == b[0] && b[0] == c[0] {
        lemma_lex_trans(a.skip(1), b.skip(1), c.skip(1));
    }
}

/// `le` is total and transitive.
pub open spec fn total_preorder<T>(le: spec_fn(T, T) -> bool) -> bool {
    &&& forall|a: T, b: T| #[trigger] le(a, b) || le(b, a)
    &&& forall|a: T, b: T, c: T| #[trigger] le(a, b) && #[trigger] le(b, c) ==> le(a, c)
}

/// Every element is `le` every later one.
pub open spec fn sorted_by<T>(s: Seq<T>, le: spec_fn(T, T) -> bool) -> bool {
    forall|i: int, j: int| 0 <= i < j < s.len() ==> #[trigger] le(s[i], s[j])
}

/// `x` put into `s` right after the last element that is `le` it (or first, if none is).
pub open spec fn insert_by<T>(s: Seq<T>, x: T, le: spec_fn(T, T) -> bool) -> Seq<T>
    decreases s.len(),
{
    if s.len() == 0 {
        seq![x]
    } else if le(s.last(), x) {
        s.push(x)
    } else {
        insert_by(s.drop_last(), x, le).push(s.last())
    }
}

/// The stable arrangement of `s` by `le`: each element, in turn, inserted after every earlier
/// one that is `le` it. Under a total preorder this is the one sorted permutation of `s` that
/// keeps elements equal under `le` in their first order, which is what `sort_by` returns.
pub open spec fn sort_by<T>(s: Seq<T>, le: spec_fn(T, T) -> bool) -> Seq<T>
    decreases s.len(),
{
    if s.len() == 0 {
        s
    } else {
        insert_by(sort_by(s.drop_last(), le), s.last(), le)
    }
}

/// Inserting into a sorted list at the last place that keeps it sorted.
pub proof fn lemma_insert_by_split<T>(s: Seq<T>, x: T, le: spec_fn(T, T) -> bool, j: int)
    requires
        0 <= j <= s.len(),
        j == 0 || le(s[j - 1], x),
        forall|k: int| j <= k < s.len() ==> !le(#[trigger] s[k], x),
    ensures
        insert_by(s, x, le) == s.take(j).push(x) + s.skip(j),
    decreases s.len(),
{
    if s.len() == 0 {
        assert(s.take(j).push(x) + s.skip(j) =~= seq![x]);
    } else if j == s.len() {
        assert(s.take(j).push(x) + s.skip(j) =~= s.push(x));
    } else {
        let l = s.last();
        assert(!le(s[s.len() - 1], x));
        lemma_insert_by_split(s.drop_last(), x, le, j);
        assert(s.drop_last().take(j).push(x) + s.drop_last().skip(j) + seq![l] =~= s.take(j).push(x)
            + s.skip(j));
    }
}

/// What insertion does to the multiset of elements.
pub proof fn lemma_insert_by_multiset<T>(s: Seq<T>, x: T, le: spec_fn(T, T) -> bool)
    ensures
        insert_by(s, x, le).to_multiset() == s.to_multiset().insert(x),
        insert_by(s, x, le).len() == s.len() + 1,
    decreases s.len(),
{
    broadcast use vstd::seq_lib::group_to_multiset_ensures;

    if s.len() == 0 {
        assert(seq![x] =~= Seq::<T>::empty().push(x));
    } else if le(s.last(), x) {
    } else {
        lemma_insert_by_multiset(s.drop_last(), x, le);
        assert(s.drop_last().push(s.last()) =~= s);
        assert(s.to_multiset() =~= s.drop_last().to_multiset().insert(s.last()));
    }
}

/// Insertion keeps a sorted list sorted.
pub proof fn lemma_insert_by_sorted<T>(s: Seq<T>, x: T, le: spec_fn(T, T) -> bool)
    requires
        total_preorder(le),
        sorted_by(s, le),
    ensures
        sorted_by(insert_by(s, x, le), le),
    decreases s.len(),
{
    lemma_insert_by_multiset(s, x, le);
    if s.len() == 0 {
    } else if le(s.last(), x) {
        let r = s.push(x);
        assert forall|i: int, j: int| 0 <= i < j < r.len() implies #[trigger] le(r[i], r[j]) by {
            if j == s.len() {
                if i < s.len() - 1 {
                    assert(le(s[i], s[s.len() - 1]));
                    assert(le(s[i], s[s.len() - 1]) && le(s[s.len() - 1], x));
                }
            }
        }
    } else {
        let t = s.drop_last();
        let l = s.last();
        lemma_insert_by_sorted(t, x, le);
        let u = insert_by(t, x, le);
        lemma_insert_by_multiset(t, x, le);
        assert(le(x, l));
        // every element of u is x or an element of t, each `le` l
        assert forall|k: int| 0 <= k < u.len() implies #[trigger] le(u[k], l) by {
            lemma_insert_by_member(t, x, le, k);
            if u[k] != x {
                let m = choose|m: int| 0 <= m < t.len() && t[m] == u[k];
                assert(le(s[m], s[s.len() - 1]));
            }
        }
        let r = u.push(l);
        assert forall|i: int, j: int| 0 <= i < j < r.len() implies #[trigger] le(r[i], r[j]) by {
            if j == u.len() {
                assert(le(u[i], l));
            } else {
                assert(le(u[i], u[j]));
            }
        }
    }
}

/// Every element of an insertion is the inserted one or one of the list.
pub proof fn lemma_insert_by_member<T>(s: Seq<T>, x: T, le: spec_fn(T, T) -> bool, k: int)
    requires
        0 <= k < s.len() + 1,
    ensures
        insert_by(s, x, le).len() == s.len() + 1,
        insert_by(s, x, le)[k] == x || exists|m: int| 0 <= m < s.len() && s[m] == insert_by(s, x, le)[k],
    decreases s.len(),
{
    lemma_insert_by_multiset(s, x, le);
    if s.len() == 0 {
    } else if le(s.last(), x) {
        if k < s.len() {
            assert(s[k] == insert_by(s, x, le)[k]);
        }
    } else {
        let t = s.drop_last();
        if k < s.len() {
            lemma_insert_by_member(t, x, le, k);
            if insert_by(t, x, le)[k] != x {
                let m = choose|m: int| 0 <= m < t.len() && t[m] == insert_by(t, x, le)[k];
                assert(s[m] == insert_by(s, x, le)[k]);
            }
        } else {
            assert(s[s.len() - 1] == insert_by(s, x, le)[k]);
        }
    }
}

/// The stable arrangement is sorted and holds the same elements, as often.
pub proof fn lemma_sort_by<T>(s: Seq<T>, le: spec_fn(T, T) -> bool)
    requires
        total_preorder(le),
    ensures
        sorted_by(sort_by(s, le), le),
        sort_by(s, le).to_multiset() == s.to_multiset(),
        sort_by(s, le).len() == s.len(),
    decreases s.len(),
{
    broadcast use vstd::seq_lib::group_to_multiset_ensures;

    if s.len() > 0 {
        lemma_sort_by(s.drop_last(), le);
        lemma_insert_by_sorted(sort_by(s.drop_last(), le), s.last(), le);
        lemma_insert_by_multiset(sort_by(s.drop_last(), le), s.last(), le);
        assert(s.drop_last().push(s.last()) =~= s);
    }
}

/// Arranging what is already in order changes nothing.
pub proof fn lemma_sort_sorted<T>(s: Seq<T>, le: spec_fn(T, T) -> bool)
    requires
        sorted_by(s, le),
    ensures
        sort_by(s, le) == s,
    decreases s.len(),
{
    if s.len() > 0 {
        let d = s.drop_last();
        assert forall|i: int, j: int| 0 <= i < j < d.len() implies #[trigger] le(d[i], d[j]) by {
            assert(d[i] == s[i] && d[j] == s[j]);
        }
        lemma_sort_sorted(d, le);
        if d.len() > 0 {
            assert(le(s[d.len() - 1], s[s.len() - 1]));
            assert(d.last() == s[d.len() - 1]);
        }
        assert(d.push(s.last()) =~= s);
    }
}

/// What holds of every element holds of every element of the arrangement.
pub proof fn lemma_sort_by_all<T>(s: Seq<T>, le: spec_fn(T, T) -> bool, p: spec_fn(T) -> bool)
    requires
        forall|i: int| 0 <= i < s.len() ==> p(#[trigger] s[i]),
    ensures
        sort_by(s, le).len() == s.len(),
        forall|i: int| 0 <= i < sort_by(s, le).len() ==> p(#[trigger] sort_by(s, le)[i]),
    decreases s.len(),
{
    if s.len() > 0 {
        let d = s.drop_last();
        assert forall|i: int| 0 <= i < d.len() implies p(#[trigger] d[i]) by {
            assert(d[i] == s[i]);
        }
        lemma_sort_by_all(d, le, p);
        let u = sort_by(d, le);
        assert(p(s[s.len() - 1]));
        lemma_insert_by_member(u, s.last(), le, 0);
        assert forall|k: int| 0 <= k < insert_by(u, s.last(), le).len() implies p(#[trigger] insert_by(u, s.last(), le)[k]) by {
            lemma_insert_by_member(u, s.last(), le, k);
            if insert_by(u, s.last(), le)[k] != s.last() {
                let m = choose|m: int| 0 <= m < u.len() && u[m] == insert_by(u, s.last(), le)[k];
                assert(p(u[m]));
            }
        }
    }
}

/// The code-point order of `key` values, as an order on the values.
pub open spec fn by_text_key<T>(key: spec_fn(T) -> Seq<char>) -> spec_fn(T, T) -> bool {
    |a: T, b: T| lex_le(key(a), key(b))
}

/// Ordering by a text key is a total preorder.
pub proof fn lemma_by_text_key<T>(key: spec_fn(T) -> Seq<char>)
    ensures
        total_preorder(by_text_key(key)),
{
    let le = by_text_key(key);
    assert forall|a: T, b: T| #[trigger] le(a, b) || le(b, a) by {
        lemma_lex_total(key(a), key(b));
    }
    assert forall|a: T, b: T, c: T| #[trigger] le(a, b) && #[trigger] le(b, c) implies le(a, c) by {
        lemma_lex_trans(key(a), key(b), key(c));
    }
}

/// The elements of `v` in reverse order.
pub fn into_reversed<T>(v: Vec<T>) -> (r: Vec<T>)
    ensures
        r@.len() == v@.len(),
        forall|i: int| 0 <= i < v@.len() ==> r@[i] == v@[v@.len() - 1 - i],
{
    let ghost orig = v@;
    let mut v = v;
    let mut r: Vec<T> = Vec::new();
    while v.len() > 0
        invariant
            v@.len() + r@.len() == orig.len(),
            forall|i: int| 0 <= i < v@.len() ==> v@[i] == orig[i],
            forall|i: int| 0 <= i < r@.len() ==> r@[i] == orig[orig.len() - 1 - i],
        decreases v@.len(),
    {
        let x = v.pop().unwrap();
        r.push(x);
    }
    r
}

/// `a <= b` in the code-point order.
pub fn lex_le_chars(a: &[char], b: &[char]) -> (r: bool)
    ensures
        r == lex_le(a@, b@),
{
    let mut i: usize = 0;
    let na = a.len();
    let nb = b.len();
    proof {
        assert(a@.skip(0) =~= a@);
        assert(b@.skip(0) =~= b@);
    }
    while i < na && i < nb && a[i] == b[i]
        invariant
            i <= na,
            i <= nb,
            na == a@.len(),
            nb == b@.len(),
            lex_le(a@, b@) == lex_le(a@.skip(i as int), b@.skip(i as int)),
        decreases na - i,
    {
        proof {
            let sa = a@.skip(i as int);
            let sb = b@.skip(i as int);
            assert(sa.skip(1) =~= a@.skip(i + 1));
            assert(sb.skip(1) =~= b@.skip(i + 1));
        }
        i = i + 1;
    }
    if i == na {
        true
    } else if i == nb {
        false
    } else {
        a[i] < b[i]
    }
}

/// Stable insertion sort of `items` by the code-point order of the keys of their views;
/// `keys` holds those keys in the same order.
pub(crate) fn sort_by_text_keys<T, V>(
    items: Vec<T>,
    keys: Vec<Vec<char>>,
    Ghost(view): Ghost<spec_fn(T) -> V>,
    Ghost(key): Ghost<spec_fn(V) -> Seq<char>>,
) -> (r: Vec<T>)
    requires
        items@.len() == keys@.len(),
        forall|i: int| 0 <= i < items@.len() ==> #[trigger] keys@[i]@ == key(view(items@[i])),
    ensures
        r@.map_values(view) == sort_by(items@.map_values(view), by_text_key(key)),
        r@.len() == items@.len(),
{
    let ghost le = by_text_key(key);
    let ghost orig = items@;
    let ghost vorig = orig.map_values(view);
    let rev_items = into_reversed(items);
    let rev_keys = into_reversed(keys);
    let mut rev_items = rev_items;
    let mut rev_keys = rev_keys;
    let mut out: Vec<T> = Vec::new();
    let mut out_keys: Vec<Vec<char>> = Vec::new();
    let ghost mut done: int = 0;
    proof {
        assert(vorig.take(0) =~= Seq::<V>::empty());
        assert(out@.map_values(view) =~= Seq::<V>::empty());
    }
    while rev_items.len() > 0
        invariant
            rev_items@.len() == rev_keys@.len(),
            out@.len() == out_keys@.len(),
            done + rev_items@.len() == orig.len(),
            0 <= done <= orig.len(),
            vorig == orig.map_values(view),
            forall|i: int|
                0 <= i < rev_items@.len() ==> rev_items@[i] == orig[orig.len() - 1 - i],
            forall|i: int|
                0 <= i < rev_keys@.len() ==> #[trigger] rev_keys@[i]@ == key(view(rev_items@[i])),
            forall|i: int| 0 <= i < out_keys@.len() ==> #[trigger] out_keys@[i]@ == key(view(out@[i])),
            out@.map_values(view) == sort_by(vorig.take(done), le),
            out@.len() == done,
            le == by_text_key(key),
        decreases rev_items@.len(),
    {
        let x = rev_items.pop().unwrap();
        let kx = rev_keys.pop().unwrap();
        let ghost vx = view(x);
        let ghost vout = out@.map_values(view);
        proof {
            assert(x == orig[done]);
            assert(vorig.take(done + 1).drop_last() =~= vorig.take(done));
            assert(vorig.take(done + 1).last() == vx);
            lemma_sort_by_len(vorig.take(done), le);
        }
        let mut j: usize = out.len();
        while j > 0 && !lex_le_chars(out_keys[j - 1].as_slice(), kx.as_slice())
            invariant
                j <= out@.len(),
                out@.len() == out_keys@.len(),
                kx@ == key(vx),
                vx == view(x),
                vout == out@.map_values(view),
                forall|i: int| 0 <= i < out_keys@.len() ==> #[trigger] out_keys@[i]@ == key(view(out@[i])),
                forall|k: int| j <= k < vout.len() ==> !le(#[trigger] vout[k], vx),
                le == by_text_key(key),
            decreases j,
        {
            j = j - 1;
        }
        let ghost old_out = out@;
        let ghost old_keys = out_keys@;
        proof {
            lemma_insert_by_split(vout, vx, le, j as int);
        }
        out.insert(j, x);
        out_keys.insert(j, kx);
        proof {
            assert(out@.map_values(view) =~= vout.take(j as int).push(vx) + vout.skip(j as int));
            done = done + 1;
            assert forall|i: int| 0 <= i < out_keys@.len() implies #[trigger] out_keys@[i]@ == key(
                view(out@[i]),
            ) by {
                if i > j {
                    assert(out_keys@[i] == old_keys[i - 1]);
                    assert(out@[i] == old_out[i - 1]);
                }
            }
        }
    }
    proof {
        assert(vorig.take(done) =~= vorig);
    }
    out
}

/// Sorting keeps the length.
pub proof fn lemma_sort_by_len<T>(s: Seq<T>, le: spec_fn(T, T) -> bool)
    ensures
        sort_by(s, le).len() == s.len(),
    decreases s.len(),
{
    if s.len() > 0 {
        lemma_sort_by_len(s.drop_last(), le);
        lemma_insert_by_multiset(sort_by(s.drop_last(), le), s.last(), le);
    }
}

} // verus!
