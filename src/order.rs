use crate::sql_text::texts;
use vstd::prelude::*;

verus! {

/// Lexicographic order of texts by code point, a proper prefix first: the
/// order of `str`'s comparison, which compares the UTF-8 bytes.
pub open spec fn str_lt(a: Seq<char>, b: Seq<char>) -> bool
    decreases a.len(),
{
    if a.len() == 0 {
        b.len() > 0
    } else if b.len() == 0 {
        false
    } else if a[0] != b[0] {
        (a[0] as u32) < (b[0] as u32)
    } else {
        str_lt(a.drop_first(), b.drop_first())
    }
}

pub open spec fn str_le(a: Seq<char>, b: Seq<char>) -> bool {
    a == b || str_lt(a, b)
}

/// The texts are in ascending order.
pub open spec fn sorted(s: Seq<Seq<char>>) -> bool {
    forall|i: int, j: int| 0 <= i < j < s.len() ==> str_le(#[trigger] s[i], #[trigger] s[j])
}

/// No text is before another and after it too.
pub proof fn lemma_str_lt_asymmetric(a: Seq<char>, b: Seq<char>)
    ensures
        !(str_lt(a, b) && str_lt(b, a)),
    decreases a.len(),
{
    if a.len() > 0 && b.len() > 0 && a[0] == b[0] {
        lemma_str_lt_asymmetric(a.drop_first(), b.drop_first());
    }
}

/// Relies on slice::sort on `String`s: ascending by `str`'s order, the same
/// strings in a new order.
#[verifier::external_body]
fn sort_strings(v: &mut Vec<String>)
    ensures
        sorted(texts(final(v)@)),
        texts(final(v)@).to_multiset() == texts(old(v)@).to_multiset(),
{
    v.sort()
}

/// Sorts the names and drops the repeats.
pub fn sort_unique(v: Vec<String>) -> (r: Vec<String>)
    ensures
        sorted(texts(r@)),
        texts(r@).no_duplicates(),
        forall|x: Seq<char>| texts(r@).contains(x) <==> texts(v@).contains(x),
{
    let mut v = v;
    let ghost orig = texts(v@);
    sort_strings(&mut v);
    proof {
        assert forall|x: Seq<char>| texts(v@).contains(x) <==> orig.contains(x) by {
            orig.to_multiset_ensures();
            texts(v@).to_multiset_ensures();
            assert(orig.to_multiset().count(x) == texts(v@).to_multiset().count(x));
        }
    }
    let mut r: Vec<String> = Vec::new();
    let mut i: usize = 0;
    while i < v.len()
        invariant
            i <= v.len(),
            sorted(texts(v@)),
            sorted(texts(r@)),
            texts(r@).no_duplicates(),
            forall|x: Seq<char>| texts(r@).contains(x) <==> texts(v@).subrange(0, i as int).contains(x),
            i > 0 ==> r@.len() > 0 && r@.last()@ == v@[i - 1]@,
        decreases v.len() - i,
    {
        let ghost vs = texts(v@);
        let ghost rs = texts(r@);
        let keep = if i == 0 { true } else { !(r[r.len() - 1] == v[i]) };
        proof {
            assert(vs.subrange(0, i as int + 1) =~= vs.subrange(0, i as int).push(vs[i as int]));
            if i > 0 {
                assert(rs.last() == rs[rs.len() - 1]);
            }
        }
        if keep {
            proof {
                assert forall|m: int| 0 <= m < rs.len() implies str_le(rs[m], vs[i as int]) && rs[m] != vs[i as int] by {
                    assert(rs[m] == texts(r@)[m]);
                    assert(texts(r@).contains(rs[m]));
                    assert(vs.subrange(0, i as int).contains(rs[m]));
                    let p = choose|p: int| 0 <= p < i && #[trigger] vs.subrange(0, i as int)[p] == rs[m];
                    assert(vs[p] == rs[m]);
                    if rs[m] == vs[i as int] {
                        assert(str_le(vs[p], vs[i - 1]));
                        assert(str_le(vs[i - 1], vs[i as int]));
                        lemma_str_lt_asymmetric(vs[i - 1], vs[i as int]);
                    }
                }
            }
            r.push(v[i].clone());
            proof {
                assert(texts(r@) =~= rs.push(vs[i as int]));
                assert forall|x: Seq<char>| texts(r@).contains(x) <==> vs.subrange(0, i as int + 1).contains(x) by {
                    if x == vs[i as int] {
                        assert(texts(r@)[rs.len() as int] == x);
                        assert(vs.subrange(0, i as int + 1)[i as int] == x);
                    } else if texts(r@).contains(x) {
                        let m = choose|m: int| 0 <= m < texts(r@).len() && #[trigger] texts(r@)[m] == x;
                        assert(rs[m] == x);
                        assert(rs.contains(x));
                        assert(vs.subrange(0, i as int).contains(x));
                        let q = choose|q: int| 0 <= q < i && #[trigger] vs.subrange(0, i as int)[q] == x;
                        assert(vs.subrange(0, i as int + 1)[q] == x);
                    } else if vs.subrange(0, i as int + 1).contains(x) {
                        let m = choose|m: int| 0 <= m < i + 1 && #[trigger] vs.subrange(0, i as int + 1)[m] == x;
                        assert(vs.subrange(0, i as int)[m] == x);
                        assert(rs.contains(x));
                        let q = choose|q: int| 0 <= q < rs.len() && #[trigger] rs[q] == x;
                        assert(texts(r@)[q] == x);
                    }
                }
            }
        } else {
            proof {
                assert forall|x: Seq<char>| texts(r@).contains(x) <==> vs.subrange(0, i as int + 1).contains(x) by {
                    if x == vs[i as int] {
                        assert(rs[rs.len() - 1] == x);
                        assert(vs.subrange(0, i as int + 1)[i as int] == x);
                    } else if vs.subrange(0, i as int + 1).contains(x) {
                        let m = choose|m: int| 0 <= m < i + 1 && #[trigger] vs.subrange(0, i as int + 1)[m] == x;
                        assert(vs.subrange(0, i as int)[m] == x);
                    }
                }
            }
        }
        i = i + 1;
    }
    proof {
        assert(texts(v@).subrange(0, v@.len() as int) =~= texts(v@));
    }
    r
}

/// Two sorted lists without repeats that hold the same texts are equal.
pub proof fn lemma_sorted_unique(a: Seq<Seq<char>>, b: Seq<Seq<char>>)
    requires
        sorted(a),
        sorted(b),
        a.no_duplicates(),
        b.no_duplicates(),
        forall|x: Seq<char>| a.contains(x) <==> b.contains(x),
    ensures
        a == b,
    decreases a.len(),
{
    if a.len() == 0 {
        if b.len() > 0 {
            assert(b.contains(b[0]));
        }
        assert(a =~= b);
    } else {
        assert(a.contains(a[0]));
        let q = choose|q: int| 0 <= q < b.len() && b[q] == a[0];
        assert(b.contains(b[0]));
        let p = choose|p: int| 0 <= p < a.len() && a[p] == b[0];
        if a[0] != b[0] {
            assert(p != 0 && q != 0);
            assert(str_le(a[0], a[p]));
            assert(str_le(b[0], b[q]));
            lemma_str_lt_asymmetric(a[0], b[0]);
        }
        let ta = a.drop_first();
        let tb = b.drop_first();
        assert forall|x: Seq<char>| ta.contains(x) <==> tb.contains(x) by {
            if ta.contains(x) {
                let i = choose|i: int| 0 <= i < ta.len() && ta[i] == x;
                assert(a[i + 1] == x);
                assert(a.contains(x));
                let j = choose|j: int| 0 <= j < b.len() && b[j] == x;
                assert(j != 0);
                assert(tb[j - 1] == x);
            }
            if tb.contains(x) {
                let i = choose|i: int| 0 <= i < tb.len() && tb[i] == x;
                assert(b[i + 1] == x);
                assert(b.contains(x));
                let j = choose|j: int| 0 <= j < a.len() && a[j] == x;
                assert(j != 0);
                assert(ta[j - 1] == x);
            }
        }
        assert forall|i: int, j: int| 0 <= i < j < ta.len() implies str_le(#[trigger] ta[i], #[trigger] ta[j]) by {
            assert(ta[i] == a[i + 1] && ta[j] == a[j + 1]);
        }
        assert forall|i: int, j: int| 0 <= i < j < tb.len() implies str_le(#[trigger] tb[i], #[trigger] tb[j]) by {
            assert(tb[i] == b[i + 1] && tb[j] == b[j + 1]);
        }
        assert forall|i: int, j: int| 0 <= i < j < ta.len() implies ta[i] != ta[j] by {
            assert(ta[i] == a[i + 1] && ta[j] == a[j + 1]);
        }
        assert forall|i: int, j: int| 0 <= i < j < tb.len() implies tb[i] != tb[j] by {
            assert(tb[i] == b[i + 1] && tb[j] == b[j + 1]);
        }
        lemma_sorted_unique(ta, tb);
        assert(a =~= seq![a[0]] + ta);
        assert(b =~= seq![b[0]] + tb);
    }
}

} // verus!
