//! Orderings the reports share: distinct keys in ascending order, and a
//! ranking of rows by weight.

use vstd::prelude::*;

use crate::text::chars_of;

verus! {

/// Strictly increasing.
pub open spec fn increasing(s: Seq<usize>) -> bool {
    forall|i: int, j: int| 0 <= i < j < s.len() ==> s[i] < s[j]
}

/// The distinct values of `values`, in ascending order.
pub fn sorted_distinct(values: &[usize]) -> (out: Vec<usize>)
    ensures
        increasing(out@),
        forall|i: int| 0 <= i < out@.len() ==> values@.contains(#[trigger] out@[i]),
        forall|k: int| 0 <= k < values@.len() ==> out@.contains(#[trigger] values@[k]),
{
    let mut out: Vec<usize> = Vec::new();
    let mut i: usize = 0;
    while i < values.len()
        invariant
            i <= values@.len(),
            increasing(out@),
            forall|a: int| 0 <= a < out@.len() ==> values@.subrange(0, i as int).contains(#[trigger] out@[a]),
            forall|k: int| 0 <= k < i ==> out@.contains(#[trigger] values@[k]),
        decreases values@.len() - i,
    {
        let v = values[i];
        let ghost before = values@.subrange(0, i as int);
        let ghost after = values@.subrange(0, i + 1);
        assert(after[i as int] == v);
        assert forall|x: usize| before.contains(x) implies after.contains(x) by {
            let k = choose|k: int| 0 <= k < before.len() && before[k] == x;
            assert(after[k] == x);
        }
        let mut j: usize = 0;
        while j < out.len() && out[j] < v
            invariant
                j <= out@.len(),
                forall|a: int| 0 <= a < j ==> out@[a] < v,
            decreases out@.len() - j,
        {
            j = j + 1;
        }
        if j < out.len() && out[j] == v {
            assert(out@.contains(v));
        } else {
            let ghost old_out = out@;
            out.insert(j, v);
            proof {
                old_out.insert_ensures(j as int, v);
                assert(out@[j as int] == v);
                assert forall|a: int, b: int| 0 <= a < b < out@.len() implies out@[a] < out@[b] by {
                    if b < j {
                    } else if b == j {
                    } else if a < j {
                        assert(old_out[a] < v);
                        assert(j < old_out.len() ==> v < old_out[j as int]);
                        assert(old_out[j as int] <= old_out[b - 1]);
                    } else if a == j {
                        assert(v < old_out[j as int]);
                        assert(old_out[j as int] <= old_out[b - 1]);
                    } else {
                        assert(old_out[a - 1] < old_out[b - 1]);
                    }
                }
                assert forall|a: int| 0 <= a < out@.len() implies after.contains(#[trigger] out@[a]) by {
                    if a < j {
                        assert(before.contains(old_out[a]));
                    } else if a == j {
                    } else {
                        assert(out@[a] == old_out[a - 1]);
                        assert(before.contains(old_out[a - 1]));
                    }
                }
                assert forall|k: int| 0 <= k <= i implies out@.contains(#[trigger] values@[k]) by {
                    if k < i {
                        let a = choose|a: int| 0 <= a < old_out.len() && old_out[a] == values@[k];
                        if a < j {
                            assert(out@[a] == values@[k]);
                        } else {
                            assert(out@[a + 1] == values@[k]);
                        }
                    } else {
                        assert(out@[j as int] == values@[k]);
                    }
                }
            }
        }
        i = i + 1;
    }
    assert(values@.subrange(0, values@.len() as int) =~= values@);
    out
}

/// Row `a` ranks before row `b`: a heavier weight first, then the earlier
/// row.
pub open spec fn ranks_before(w: Seq<i128>, a: usize, b: usize) -> bool {
    w[a as int] > w[b as int] || (w[a as int] == w[b as int] && a < b)
}

#[verifier::spinoff_prover]
#[verifier::rlimit(40)]
proof fn lemma_rank_insert(w: Seq<i128>, old_out: Seq<usize>, j: int, i: usize)
    requires
        i < w.len(),
        old_out.len() == i,
        0 <= j <= old_out.len(),
        forall|a: int| 0 <= a < old_out.len() ==> #[trigger] old_out[a] < i,
        forall|k: usize| k < i ==> #[trigger] old_out.contains(k),
        forall|a: int, b: int| 0 <= a < b < old_out.len() ==> ranks_before(w, old_out[a], old_out[b]),
        forall|a: int| 0 <= a < j ==> w[old_out[a] as int] >= w[i as int],
        j < old_out.len() ==> w[old_out[j] as int] < w[i as int],
    ensures
        ({
            let out = old_out.insert(j, i);
            &&& out.len() == i + 1
            &&& forall|a: int| 0 <= a < out.len() ==> #[trigger] out[a] < i + 1
            &&& forall|k: usize| k < i + 1 ==> #[trigger] out.contains(k)
            &&& forall|a: int, b: int| 0 <= a < b < out.len() ==> ranks_before(w, out[a], out[b])
        }),
{
    let out = old_out.insert(j, i);
    old_out.insert_ensures(j, i);
    assert forall|a: int, b: int| 0 <= a < b < out.len() implies ranks_before(w, out[a], out[b]) by {
        if b < j {
        } else if b == j {
            assert(w[old_out[a] as int] >= w[i as int]);
        } else if a < j {
            assert(out[b] == old_out[b - 1]);
            assert(ranks_before(w, old_out[a], old_out[b - 1]));
            if j < b - 1 {
                assert(ranks_before(w, old_out[j], old_out[b - 1]));
            }
        } else if a == j {
            assert(out[b] == old_out[b - 1]);
            if j < b - 1 {
                assert(ranks_before(w, old_out[j], old_out[b - 1]));
            }
        } else {
            assert(out[a] == old_out[a - 1]);
            assert(out[b] == old_out[b - 1]);
        }
    }
    assert forall|a: int| 0 <= a < out.len() implies #[trigger] out[a] < i + 1 by {
        if a < j {
        } else if a > j {
            assert(out[a] == old_out[a - 1]);
        }
    }
    assert forall|k: usize| k < i + 1 implies #[trigger] out.contains(k) by {
        if k < i {
            assert(old_out.contains(k));
            let a = choose|a: int| 0 <= a < old_out.len() && old_out[a] == k;
            if a < j {
                assert(out[a] == k);
            } else {
                assert(out[a + 1] == k);
            }
        } else {
            assert(out[j] == k);
        }
    }
}

/// The rows `0..weights.len()`, heaviest first; rows of equal weight keep
/// their order (a stable sort by descending weight).
pub fn rank(weights: &[i128]) -> (out: Vec<usize>)
    ensures
        out@.len() == weights@.len(),
        forall|i: int| 0 <= i < out@.len() ==> #[trigger] out@[i] < weights@.len(),
        forall|k: usize| k < weights@.len() ==> #[trigger] out@.contains(k),
        forall|i: int, j: int| 0 <= i < j < out@.len() ==> ranks_before(weights@, out@[i], out@[j]),
{
    let ghost w = weights@;
    let mut out: Vec<usize> = Vec::new();
    let mut i: usize = 0;
    while i < weights.len()
        invariant
            w == weights@,
            i <= w.len(),
            out@.len() == i,
            forall|a: int| 0 <= a < out@.len() ==> #[trigger] out@[a] < i,
            forall|k: usize| k < i ==> #[trigger] out@.contains(k),
            forall|a: int, b: int| 0 <= a < b < out@.len() ==> ranks_before(w, out@[a], out@[b]),
        decreases w.len() - i,
    {
        let wi = weights[i];
        let mut j: usize = 0;
        while j < out.len() && weights[out[j]] >= wi
            invariant
                w == weights@,
                i < w.len(),
                wi == w[i as int],
                j <= out@.len(),
                forall|a: int| 0 <= a < out@.len() ==> #[trigger] out@[a] < i,
                forall|a: int| 0 <= a < j ==> w[out@[a] as int] >= w[i as int],
            decreases out@.len() - j,
        {
            j = j + 1;
        }
        let ghost old_out = out@;
        out.insert(j, i);
        proof {
            lemma_rank_insert(w, old_out, j as int, i);
        }
        i = i + 1;
    }
    out
}

/// Lexicographic order on characters, by code point: the order of `str`
/// (UTF-8 bytes order as their code points do).
pub open spec fn text_lt(a: Seq<char>, b: Seq<char>) -> bool
    decreases a.len(),
{
    if b.len() == 0 {
        false
    } else if a.len() == 0 {
        true
    } else if a[0] == b[0] {
        text_lt(a.drop_first(), b.drop_first())
    } else {
        (a[0] as int) < (b[0] as int)
    }
}

/// No text is below itself.
pub proof fn lemma_text_lt_irreflexive(a: Seq<char>)
    ensures
        !text_lt(a, a),
    decreases a.len(),
{
    if a.len() > 0 {
        lemma_text_lt_irreflexive(a.drop_first());
    }
}

/// The text order is transitive.
pub proof fn lemma_text_lt_transitive(a: Seq<char>, b: Seq<char>, c: Seq<char>)
    requires
        text_lt(a, b),
        text_lt(b, c),
    ensures
        text_lt(a, c),
    decreases a.len(),
{
    if a.len() > 0 && a[0] == b[0] && b[0] == c[0] {
        lemma_text_lt_transitive(a.drop_first(), b.drop_first(), c.drop_first());
    }
}

/// Two different texts are ordered one way or the other.
pub proof fn lemma_text_lt_total(a: Seq<char>, b: Seq<char>)
    ensures
        a == b || text_lt(a, b) || text_lt(b, a),
    decreases a.len(),
{
    if a.len() > 0 && b.len() > 0 {
        if a[0] == b[0] {
            lemma_text_lt_total(a.drop_first(), b.drop_first());
            if a.drop_first() == b.drop_first() {
                assert(a =~= seq![a[0]] + a.drop_first());
                assert(b =~= seq![b[0]] + b.drop_first());
            }
        } else {
            assert((a[0] as int) != (b[0] as int));
        }
    } else if a.len() == 0 && b.len() == 0 {
        assert(a =~= b);
    }
}

/// Texts that agree on their first `i` characters compare as their rests.
proof fn lemma_text_lt_skip(a: Seq<char>, b: Seq<char>, i: int)
    requires
        0 <= i <= a.len(),
        i <= b.len(),
        a.subrange(0, i) == b.subrange(0, i),
    ensures
        text_lt(a, b) == text_lt(a.subrange(i, a.len() as int), b.subrange(i, b.len() as int)),
    decreases i,
{
    if i > 0 {
        assert(a[0] == a.subrange(0, i)[0]);
        assert(b[0] == b.subrange(0, i)[0]);
        assert(a.drop_first().subrange(0, i - 1) =~= a.subrange(0, i).drop_first());
        assert(b.drop_first().subrange(0, i - 1) =~= b.subrange(0, i).drop_first());
        lemma_text_lt_skip(a.drop_first(), b.drop_first(), i - 1);
        assert(a.drop_first().subrange(i - 1, a.len() - 1) =~= a.subrange(i, a.len() as int));
        assert(b.drop_first().subrange(i - 1, b.len() - 1) =~= b.subrange(i, b.len() as int));
    } else {
        assert(a.subrange(0, a.len() as int) =~= a);
        assert(b.subrange(0, b.len() as int) =~= b);
    }
}

/// Whether `a` sorts before `b`.
pub fn text_less(a: &[char], b: &[char]) -> (r: bool)
    ensures
        r == text_lt(a@, b@),
{
    let mut i: usize = 0;
    while i < a.len() && i < b.len() && a[i] == b[i]
        invariant
            i <= a@.len(),
            i <= b@.len(),
            a@.subrange(0, i as int) == b@.subrange(0, i as int),
        decreases a@.len() - i,
    {
        assert(a@.subrange(0, i + 1) =~= a@.subrange(0, i as int).push(a@[i as int]));
        assert(b@.subrange(0, i + 1) =~= b@.subrange(0, i as int).push(b@[i as int]));
        i = i + 1;
    }
    proof {
        lemma_text_lt_skip(a@, b@, i as int);
    }
    let ghost ra = a@.subrange(i as int, a@.len() as int);
    let ghost rb = b@.subrange(i as int, b@.len() as int);
    if i == b.len() {
        false
    } else if i == a.len() {
        true
    } else {
        assert(ra[0] == a@[i as int]);
        assert(rb[0] == b@[i as int]);
        a[i] < b[i]
    }
}

/// Some string of `ss` reads `t`.
pub open spec fn has_text(ss: Seq<String>, t: Seq<char>) -> bool {
    exists|i: int| 0 <= i < ss.len() && (#[trigger] ss[i])@ == t
}

/// Strictly increasing in the text order.
pub open spec fn texts_increasing(s: Seq<Seq<char>>) -> bool {
    forall|i: int, j: int| 0 <= i < j < s.len() ==> text_lt(s[i], s[j])
}

#[verifier::spinoff_prover]
#[verifier::rlimit(40)]
proof fn lemma_texts_insert(labels: Seq<String>, i: int, old_out: Seq<String>, j: int, label: String)
    requires
        0 <= i < labels.len(),
        label@ == labels[i]@,
        0 <= j <= old_out.len(),
        forall|a: int, b: int| 0 <= a < b < old_out.len() ==> text_lt(old_out[a]@, old_out[b]@),
        forall|a: int| 0 <= a < old_out.len() ==> #[trigger] has_text(labels.subrange(0, i), old_out[a]@),
        forall|k: int| 0 <= k < i ==> #[trigger] has_text(old_out, labels[k]@),
        forall|a: int| 0 <= a < j ==> text_lt((#[trigger] old_out[a])@, label@),
        j < old_out.len() ==> text_lt(label@, old_out[j]@),
    ensures
        ({
            let out = old_out.insert(j, label);
            &&& forall|a: int, b: int| 0 <= a < b < out.len() ==> text_lt(out[a]@, out[b]@)
            &&& forall|a: int| 0 <= a < out.len() ==> #[trigger] has_text(labels.subrange(0, i + 1), out[a]@)
            &&& forall|k: int| 0 <= k < i + 1 ==> #[trigger] has_text(out, labels[k]@)
        }),
{
    let out = old_out.insert(j, label);
    old_out.insert_ensures(j, label);
    assert forall|t: Seq<char>| has_text(labels.subrange(0, i), t) implies has_text(labels.subrange(0, i + 1), t) by {
        let k = choose|k: int| 0 <= k < i && (#[trigger] labels.subrange(0, i)[k])@ == t;
        assert(labels.subrange(0, i + 1)[k] == labels.subrange(0, i)[k]);
    }
    assert(labels.subrange(0, i + 1)[i] == labels[i]);
    assert forall|a: int, b: int| 0 <= a < b < out.len() implies text_lt(out[a]@, out[b]@) by {
        if b < j {
        } else if b == j {
        } else if a < j {
            assert(out[b] == old_out[b - 1]);
            assert(text_lt(old_out[a]@, old_out[b - 1]@));
        } else if a == j {
            assert(out[b] == old_out[b - 1]);
            if j < b - 1 {
                lemma_text_lt_transitive(label@, old_out[j]@, old_out[b - 1]@);
            }
        } else {
            assert(out[a] == old_out[a - 1]);
            assert(out[b] == old_out[b - 1]);
        }
    }
    assert forall|a: int| 0 <= a < out.len() implies #[trigger] has_text(labels.subrange(0, i + 1), out[a]@) by {
        if a < j {
            assert(out[a] == old_out[a]);
            assert(has_text(labels.subrange(0, i), old_out[a]@));
        } else if a == j {
            assert(labels.subrange(0, i + 1)[i]@ == out[a]@);
        } else {
            assert(out[a] == old_out[a - 1]);
            assert(has_text(labels.subrange(0, i), old_out[a - 1]@));
        }
    }
    assert forall|k: int| 0 <= k < i + 1 implies #[trigger] has_text(out, labels[k]@) by {
        if k < i {
            assert(has_text(old_out, labels[k]@));
            let a = choose|a: int| 0 <= a < old_out.len() && (#[trigger] old_out[a])@ == labels[k]@;
            if a < j {
                assert(out[a] == old_out[a]);
            } else {
                assert(out[a + 1] == old_out[a]);
            }
        } else {
            assert(out[j]@ == labels[k]@);
        }
    }
}

/// The distinct texts of `labels`, in ascending text order.
pub fn sorted_distinct_texts(labels: &Vec<String>) -> (out: Vec<String>)
    ensures
        texts_increasing(out@.map_values(|t: String| t@)),
        forall|i: int| 0 <= i < out@.len() ==> #[trigger] has_text(labels@, out@[i]@),
        forall|k: int| 0 <= k < labels@.len() ==> #[trigger] has_text(out@, labels@[k]@),
{
    let mut out: Vec<String> = Vec::new();
    let mut i: usize = 0;
    while i < labels.len()
        invariant
            i <= labels@.len(),
            forall|a: int, b: int| 0 <= a < b < out@.len() ==> text_lt(out@[a]@, out@[b]@),
            forall|a: int| 0 <= a < out@.len() ==> #[trigger] has_text(labels@.subrange(0, i as int), out@[a]@),
            forall|k: int| 0 <= k < i ==> #[trigger] has_text(out@, labels@[k]@),
        decreases labels@.len() - i,
    {
        let v = chars_of(labels[i].as_str());
        let mut j: usize = 0;
        let mut present = false;
        loop
            invariant_except_break
                !present,
            invariant
                j <= out@.len(),
                forall|a: int| 0 <= a < j ==> text_lt((#[trigger] out@[a])@, v@),
            ensures
                j <= out@.len(),
                forall|a: int| 0 <= a < j ==> text_lt((#[trigger] out@[a])@, v@),
                present ==> j < out@.len() && out@[j as int]@ == v@,
                !present ==> (j < out@.len() ==> text_lt(v@, out@[j as int]@)),
            decreases out@.len() - j,
        {
            if j == out.len() {
                break;
            }
            let w = chars_of(out[j].as_str());
            if !text_less(&w, &v) {
                proof {
                    lemma_text_lt_total(w@, v@);
                }
                present = !text_less(&v, &w);
                break;
            }
            j = j + 1;
        }
        if present {
            proof {
                assert(has_text(out@, labels@[i as int]@));
                assert forall|t: Seq<char>| has_text(labels@.subrange(0, i as int), t) implies has_text(
                    labels@.subrange(0, i + 1),
                    t,
                ) by {
                    let k = choose|k: int| 0 <= k < i && (#[trigger] labels@.subrange(0, i as int)[k])@ == t;
                    assert(labels@.subrange(0, i + 1)[k] == labels@.subrange(0, i as int)[k]);
                }
                assert forall|a: int| 0 <= a < out@.len() implies #[trigger] has_text(
                    labels@.subrange(0, i + 1),
                    out@[a]@,
                ) by {
                    assert(has_text(labels@.subrange(0, i as int), out@[a]@));
                }
            }
        } else {
            let ghost old_out = out@;
            let label = labels[i].clone();
            out.insert(j, label);
            proof {
                lemma_texts_insert(labels@, i as int, old_out, j as int, label);
            }
        }
        i = i + 1;
    }
    proof {
        assert(labels@.subrange(0, labels@.len() as int) =~= labels@);
        let views = out@.map_values(|t: String| t@);
        assert forall|a: int, b: int| 0 <= a < b < views.len() implies text_lt(views[a], views[b]) by {
            assert(views[a] == out@[a]@);
            assert(views[b] == out@[b]@);
        }
    }
    out
}

/// Row `x` sorts before row `y`: by label text, then by the second key,
/// then by row (a stable sort by label and second key).
pub open spec fn text_before(ls: Seq<Seq<char>>, ss: Seq<usize>, x: usize, y: usize) -> bool {
    text_lt(ls[x as int], ls[y as int]) || (ls[x as int] == ls[y as int] && (ss[x as int] < ss[y as int] || (
    ss[x as int] == ss[y as int] && x < y)))
}

proof fn lemma_text_before_transitive(ls: Seq<Seq<char>>, ss: Seq<usize>, x: usize, y: usize, z: usize)
    requires
        text_before(ls, ss, x, y),
        text_before(ls, ss, y, z),
    ensures
        text_before(ls, ss, x, z),
{
    if text_lt(ls[x as int], ls[y as int]) && text_lt(ls[y as int], ls[z as int]) {
        lemma_text_lt_transitive(ls[x as int], ls[y as int], ls[z as int]);
    }
}

#[verifier::spinoff_prover]
#[verifier::rlimit(40)]
proof fn lemma_text_rank_insert(ls: Seq<Seq<char>>, ss: Seq<usize>, old_out: Seq<usize>, j: int, i: usize)
    requires
        i < ls.len(),
        ls.len() == ss.len(),
        old_out.len() == i,
        0 <= j <= old_out.len(),
        forall|a: int| 0 <= a < old_out.len() ==> #[trigger] old_out[a] < i,
        forall|k: usize| k < i ==> #[trigger] old_out.contains(k),
        forall|a: int, b: int| 0 <= a < b < old_out.len() ==> text_before(ls, ss, old_out[a], old_out[b]),
        forall|a: int| 0 <= a < j ==> text_before(ls, ss, #[trigger] old_out[a], i),
        j < old_out.len() ==> text_before(ls, ss, i, old_out[j]),
    ensures
        ({
            let out = old_out.insert(j, i);
            &&& out.len() == i + 1
            &&& forall|a: int| 0 <= a < out.len() ==> #[trigger] out[a] < i + 1
            &&& forall|k: usize| k < i + 1 ==> #[trigger] out.contains(k)
            &&& forall|a: int, b: int| 0 <= a < b < out.len() ==> text_before(ls, ss, out[a], out[b])
        }),
{
    let out = old_out.insert(j, i);
    old_out.insert_ensures(j, i);
    assert forall|a: int, b: int| 0 <= a < b < out.len() implies text_before(ls, ss, out[a], out[b]) by {
        if b < j {
        } else if b == j {
        } else if a < j {
            assert(out[b] == old_out[b - 1]);
            assert(text_before(ls, ss, old_out[a], old_out[b - 1]));
        } else if a == j {
            assert(out[b] == old_out[b - 1]);
            if j < b - 1 {
                assert(text_before(ls, ss, old_out[j], old_out[b - 1]));
                lemma_text_before_transitive(ls, ss, i, old_out[j], old_out[b - 1]);
            }
        } else {
            assert(out[a] == old_out[a - 1]);
            assert(out[b] == old_out[b - 1]);
        }
    }
    assert forall|a: int| 0 <= a < out.len() implies #[trigger] out[a] < i + 1 by {
        if a < j {
        } else if a > j {
            assert(out[a] == old_out[a - 1]);
        }
    }
    assert forall|k: usize| k < i + 1 implies #[trigger] out.contains(k) by {
        if k < i {
            assert(old_out.contains(k));
            let a = choose|a: int| 0 <= a < old_out.len() && old_out[a] == k;
            if a < j {
                assert(out[a] == k);
            } else {
                assert(out[a + 1] == k);
            }
        } else {
            assert(out[j] == k);
        }
    }
}

/// The rows `0..labels.len()` sorted by label text, then by `seconds`;
/// equal rows keep their order.
pub fn rank_by_text(labels: &Vec<String>, seconds: &Vec<usize>) -> (out: Vec<usize>)
    requires
        labels@.len() == seconds@.len(),
    ensures
        out@.len() == labels@.len(),
        forall|i: int| 0 <= i < out@.len() ==> #[trigger] out@[i] < labels@.len(),
        forall|k: usize| k < labels@.len() ==> #[trigger] out@.contains(k),
        forall|i: int, j: int|
            0 <= i < j < out@.len() ==> text_before(labels@.map_values(|t: String| t@), seconds@, out@[i], out@[j]),
{
    let ghost ls = labels@.map_values(|t: String| t@);
    let ghost ss = seconds@;
    let mut keys: Vec<Vec<char>> = Vec::new();
    let mut k: usize = 0;
    while k < labels.len()
        invariant
            ls == labels@.map_values(|t: String| t@),
            k <= labels@.len(),
            keys@.len() == k,
            forall|a: int| 0 <= a < k ==> (#[trigger] keys@[a])@ == ls[a],
        decreases labels@.len() - k,
    {
        keys.push(chars_of(labels[k].as_str()));
        k = k + 1;
    }
    let mut out: Vec<usize> = Vec::new();
    let mut i: usize = 0;
    while i < labels.len()
        invariant
            ls == labels@.map_values(|t: String| t@),
            ss == seconds@,
            ls.len() == ss.len(),
            keys@.len() == ls.len(),
            forall|a: int| 0 <= a < ls.len() ==> (#[trigger] keys@[a])@ == ls[a],
            i <= ls.len(),
            out@.len() == i,
            forall|a: int| 0 <= a < out@.len() ==> #[trigger] out@[a] < i,
            forall|k: usize| k < i ==> #[trigger] out@.contains(k),
            forall|a: int, b: int| 0 <= a < b < out@.len() ==> text_before(ls, ss, out@[a], out@[b]),
        decreases ls.len() - i,
    {
        let mut j: usize = 0;
        loop
            invariant
                ls == labels@.map_values(|t: String| t@),
                ss == seconds@,
                ls.len() == ss.len(),
                keys@.len() == ls.len(),
                forall|a: int| 0 <= a < ls.len() ==> (#[trigger] keys@[a])@ == ls[a],
                i < ls.len(),
                j <= out@.len(),
                forall|a: int| 0 <= a < out@.len() ==> #[trigger] out@[a] < i,
                forall|a: int| 0 <= a < j ==> text_before(ls, ss, #[trigger] out@[a], i),
            ensures
                j <= out@.len(),
                forall|a: int| 0 <= a < j ==> text_before(ls, ss, #[trigger] out@[a], i),
                j < out@.len() ==> text_before(ls, ss, i, out@[j as int]),
            decreases out@.len() - j,
        {
            if j == out.len() {
                break;
            }
            let x = out[j];
            let mine = &keys[i];
            let theirs = &keys[x];
            let below = text_less(mine, theirs);
            let above = text_less(theirs, mine);
            proof {
                lemma_text_lt_total(ls[i as int], ls[x as int]);
                lemma_text_lt_irreflexive(ls[i as int]);
            }
            if below || (!above && seconds[i] < seconds[x]) {
                break;
            }
            j = j + 1;
        }
        let ghost old_out = out@;
        out.insert(j, i);
        proof {
            lemma_text_rank_insert(ls, ss, old_out, j as int, i);
        }
        i = i + 1;
    }
    out
}

} // verus!
