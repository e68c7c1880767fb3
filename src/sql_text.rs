use regex::Regex;
use vstd::prelude::*;

verus! {

/// The views of a list of strings.
pub open spec fn texts(v: Seq<String>) -> Seq<Seq<char>> {
    v.map_values(|s: String| s@)
}

/// A pattern character that a case-insensitive literal search can take:
/// an upper-case ASCII letter or an underscore.
pub open spec fn pattern_char(p: char) -> bool {
    ('A' <= p && p <= 'Z') || p == '_'
}

/// Whether `c` matches the pattern character `p` under simple case folding.
pub open spec fn folds_to(c: char, p: char) -> bool {
    ||| c == p
    ||| ('A' <= p && p <= 'Z' && c as u32 == p as u32 + 32)
    ||| (p == 'S' && c == '\u{17F}')
    ||| (p == 'K' && c == '\u{212A}')
}

/// Whether `pat` matches `s` at its start, ignoring case.
pub open spec fn matches_at_start(s: Seq<char>, pat: Seq<char>) -> bool {
    &&& pat.len() <= s.len()
    &&& forall|i: int| 0 <= i < pat.len() ==> folds_to(#[trigger] s[i], pat[i])
}

/// `s` with every leftmost non-overlapping case-insensitive occurrence of
/// `pat` replaced by `rep`, scanning from the left.
pub open spec fn replace_ci(s: Seq<char>, pat: Seq<char>, rep: Seq<char>) -> Seq<char>
    decreases s.len(),
{
    if s.len() == 0 || pat.len() == 0 {
        s
    } else if matches_at_start(s, pat) {
        rep + replace_ci(s.subrange(pat.len() as int, s.len() as int), pat, rep)
    } else {
        seq![s[0]] + replace_ci(s.drop_first(), pat, rep)
    }
}

/// The timestamp type names renamed into the forms the grammar accepts.
pub open spec fn rename_timestamps(s: Seq<char>) -> Seq<char> {
    let s1 = replace_ci(s, "TIMESTAMP_NTZ"@, "TIMESTAMPNTZ"@);
    let s2 = replace_ci(s1, "TIMESTAMP_LTZ"@, "TIMESTAMPLTZ"@);
    replace_ci(s2, "TIMESTAMP_TZ"@, "TIMESTAMPTZ"@)
}

/// What is left of the text once every `CREATE OR REPLACE` statement for a
/// schema, database, task or procedure has been removed.
pub uninterp spec fn without_replace_statements(s: Seq<char>) -> Seq<char>;

/// The text as the grammar is given it.
pub open spec fn preprocessed(s: Seq<char>) -> Seq<char> {
    without_replace_statements(rename_timestamps(s))
}

/// The pieces of `s` between the separators `sep`, in order; a text without
/// separators is one piece, and a trailing separator leaves an empty piece.
pub open spec fn split_on(s: Seq<char>, sep: char) -> Seq<Seq<char>>
    decreases s.len(),
{
    if s.len() == 0 {
        seq![Seq::<char>::empty()]
    } else {
        let rest = split_on(s.drop_first(), sep);
        if s[0] == sep {
            seq![Seq::<char>::empty()] + rest
        } else {
            rest.update(0, seq![s[0]] + rest[0])
        }
    }
}

/// Relies on regex::Regex::replace_all with a case-insensitive pattern made
/// of letters and underscores only, and a replacement without `$`: every
/// leftmost non-overlapping match is replaced by the text as given.
#[verifier::external_body]
fn replace_literal_ci(text: &str, pat: &str, rep: &str) -> (r: String)
    requires
        0 < pat@.len() <= 16,
        forall|i: int| 0 <= i < pat@.len() ==> pattern_char(#[trigger] pat@[i]),
        !rep@.contains('$'),
    ensures
        r@ == replace_ci(text@, pat@, rep@),
{
    Regex::new(&format!("(?i){}", pat)).unwrap().replace_all(text, rep).into_owned()
}

/// Relies on regex::Regex::replace_all with the pattern
/// `(?is)create\s+or\s+replace\s+(schema|database|task|procedure)\b.*?;`
/// and an empty replacement. A match starts with `c` or `C`, so a text
/// without either comes back unchanged.
#[verifier::external_body]
fn remove_replace_statements(text: &str) -> (r: String)
    ensures
        r@ == without_replace_statements(text@),
        !text@.contains('c') && !text@.contains('C') ==> r@ == text@,
{
    let re = Regex::new(r"(?is)create\s+or\s+replace\s+(schema|database|task|procedure)\b.*?;");
    re.unwrap().replace_all(text, "").into_owned()
}

/// Relies on str::split with a character separator.
#[verifier::external_body]
fn split_on_char(text: &str, sep: char) -> (r: Vec<String>)
    ensures
        texts(r@) == split_on(text@, sep),
{
    text.split(sep).map(|p| p.to_string()).collect()
}

/// Rewrites DDL text around what the grammar cannot read: the underscored
/// timestamp type names are renamed, and `CREATE OR REPLACE` statements for
/// schemas, databases, tasks and procedures are dropped.
pub fn preprocess_sql(sql: &str) -> (r: String)
    ensures
        r@ == preprocessed(sql@),
{
    proof {
        reveal_strlit("TIMESTAMP_NTZ");
        reveal_strlit("TIMESTAMP_LTZ");
        reveal_strlit("TIMESTAMP_TZ");
        reveal_strlit("TIMESTAMPNTZ");
        reveal_strlit("TIMESTAMPLTZ");
        reveal_strlit("TIMESTAMPTZ");
    }
    let s1 = replace_literal_ci(sql, "TIMESTAMP_NTZ", "TIMESTAMPNTZ");
    let s2 = replace_literal_ci(s1.as_str(), "TIMESTAMP_LTZ", "TIMESTAMPLTZ");
    let s3 = replace_literal_ci(s2.as_str(), "TIMESTAMP_TZ", "TIMESTAMPTZ");
    remove_replace_statements(s3.as_str())
}

/// The text split into statement fragments at every `;`.
pub fn split_statements(sql: &str) -> (r: Vec<String>)
    ensures
        texts(r@) == split_on(sql@, ';'),
{
    split_on_char(sql, ';')
}

/// `pat` matches `t` at position `i`, ignoring case.
pub open spec fn hit(t: Seq<char>, pat: Seq<char>, i: int) -> bool {
    &&& 0 <= i
    &&& i + pat.len() <= t.len()
    &&& forall|k: int| 0 <= k < pat.len() ==> folds_to(#[trigger] t[i + k], pat[k])
}

/// `pat` matches `t` nowhere.
pub open spec fn free_of(t: Seq<char>, pat: Seq<char>) -> bool {
    forall|i: int| !#[trigger] hit(t, pat, i)
}

/// No match of `pat` can start inside `rep` and run past its end.
pub open spec fn tail_blocks(rep: Seq<char>, pat: Seq<char>) -> bool {
    forall|i: int| 0 <= i < rep.len() ==> #[trigger] tail_blocked_at(rep, pat, i)
}

pub open spec fn tail_blocked_at(rep: Seq<char>, pat: Seq<char>, i: int) -> bool {
    exists|k: int| 0 <= k < pat.len() && i + k < rep.len() && !folds_to(#[trigger] rep[i + k], pat[k])
}

/// No match of `pat` that starts before `rep` can reach into it.
pub open spec fn head_blocks(rep: Seq<char>, pat: Seq<char>) -> bool {
    forall|p: int| 1 <= p < pat.len() ==> #[trigger] head_blocked_at(rep, pat, p)
}

pub open spec fn head_blocked_at(rep: Seq<char>, pat: Seq<char>, p: int) -> bool {
    exists|k: int| 0 <= k < rep.len() && p + k < pat.len() && !folds_to(#[trigger] rep[k], pat[p + k])
}

proof fn lemma_hit_shift(t: Seq<char>, pat: Seq<char>, i: int)
    requires
        t.len() > 0,
        hit(t.drop_first(), pat, i),
    ensures
        hit(t, pat, i + 1),
{
    assert forall|k: int| 0 <= k < pat.len() implies folds_to(#[trigger] t[i + 1 + k], pat[k]) by {
        assert(t.drop_first()[i + k] == t[i + 1 + k]);
    }
}

proof fn lemma_hit_start(t: Seq<char>, pat: Seq<char>)
    ensures
        hit(t, pat, 0) <==> matches_at_start(t, pat),
{
    if hit(t, pat, 0) {
        assert forall|k: int| 0 <= k < pat.len() implies folds_to(#[trigger] t[k], pat[k]) by {
            assert(t[0 + k] == t[k]);
        }
    }
    if matches_at_start(t, pat) {
        assert forall|k: int| 0 <= k < pat.len() implies folds_to(#[trigger] t[0 + k], pat[k]) by {
            assert(t[k] == t[0 + k]);
        }
    }
}

/// A text that `pat` matches nowhere is left as it is.
proof fn lemma_replace_free(t: Seq<char>, pat: Seq<char>, rep: Seq<char>)
    requires
        pat.len() > 0,
        free_of(t, pat),
    ensures
        replace_ci(t, pat, rep) == t,
    decreases t.len(),
{
    if t.len() > 0 {
        lemma_hit_start(t, pat);
        assert(!hit(t, pat, 0));
        assert forall|i: int| !#[trigger] hit(t.drop_first(), pat, i) by {
            if hit(t.drop_first(), pat, i) {
                lemma_hit_shift(t, pat, i);
            }
        }
        lemma_replace_free(t.drop_first(), pat, rep);
        assert(t =~= seq![t[0]] + t.drop_first());
    }
}

/// Before the first match, the text is copied as it is.
proof fn lemma_replace_prefix(s: Seq<char>, pat: Seq<char>, rep: Seq<char>, j: int)
    requires
        pat.len() > 0,
        0 <= j <= s.len(),
        forall|i: int| 0 <= i < j ==> !#[trigger] hit(s, pat, i),
    ensures
        replace_ci(s, pat, rep) == s.subrange(0, j) + replace_ci(s.subrange(j, s.len() as int), pat, rep),
    decreases j,
{
    if j == 0 {
        assert(s.subrange(0, 0) + s.subrange(0, s.len() as int) =~= s.subrange(0, s.len() as int));
        assert(s.subrange(0, s.len() as int) =~= s);
        assert(s.subrange(0, 0) + replace_ci(s, pat, rep) =~= replace_ci(s, pat, rep));
    } else {
        lemma_hit_start(s, pat);
        let t = s.drop_first();
        assert forall|i: int| 0 <= i < j - 1 implies !#[trigger] hit(t, pat, i) by {
            if hit(t, pat, i) {
                lemma_hit_shift(s, pat, i);
            }
        }
        lemma_replace_prefix(t, pat, rep, j - 1);
        assert(t.subrange(j - 1, t.len() as int) =~= s.subrange(j, s.len() as int));
        assert(seq![s[0]] + t.subrange(0, j - 1) =~= s.subrange(0, j));
    }
}

/// The first match of `pat` in `s` below `bound`, if there is one.
proof fn lemma_first_hit(s: Seq<char>, pat: Seq<char>, bound: int) -> (j: int)
    requires
        exists|i: int| 0 <= i < bound && #[trigger] hit(s, pat, i),
    ensures
        0 <= j < bound,
        hit(s, pat, j),
        forall|i: int| 0 <= i < j ==> !#[trigger] hit(s, pat, i),
    decreases bound,
{
    if exists|i: int| 0 <= i < bound - 1 && #[trigger] hit(s, pat, i) {
        lemma_first_hit(s, pat, bound - 1)
    } else {
        bound - 1
    }
}

/// After replacing `pat` by `rep`, `other` matches nowhere, provided `rep`
/// cannot take part in a match of `other` and `other` is `pat` or matched
/// nowhere before.
proof fn lemma_replace_leaves_free(s: Seq<char>, pat: Seq<char>, rep: Seq<char>, other: Seq<char>)
    requires
        pat.len() > 0,
        other.len() > 0,
        tail_blocks(rep, other),
        head_blocks(rep, other),
        other == pat || free_of(s, other),
    ensures
        free_of(replace_ci(s, pat, rep), other),
    decreases s.len(),
{
    let out = replace_ci(s, pat, rep);
    if s.len() == 0 {
        assert forall|i: int| !#[trigger] hit(out, other, i) by {
            if hit(out, other, i) {
                assert(out.len() == 0);
            }
        }
    } else if matches_at_start(s, pat) {
        let rest = s.subrange(pat.len() as int, s.len() as int);
        if other != pat {
            assert forall|i: int| !#[trigger] hit(rest, other, i) by {
                if hit(rest, other, i) {
                    assert forall|k: int| 0 <= k < other.len() implies folds_to(#[trigger] s[i + pat.len() + k], other[k]) by {
                        assert(rest[i + k] == s[i + pat.len() + k]);
                    }
                    assert(hit(s, other, i + pat.len()));
                }
            }
        }
        lemma_replace_leaves_free(rest, pat, rep, other);
        let r = replace_ci(rest, pat, rep);
        assert(out == rep + r);
        assert forall|i: int| !#[trigger] hit(out, other, i) by {
            if hit(out, other, i) {
                if i >= rep.len() {
                    assert forall|k: int| 0 <= k < other.len() implies folds_to(#[trigger] r[i - rep.len() + k], other[k]) by {
                        assert(out[i + k] == r[i - rep.len() + k]);
                    }
                    assert(hit(r, other, i - rep.len()));
                } else {
                    assert(tail_blocked_at(rep, other, i));
                    let k = choose|k: int| 0 <= k < other.len() && i + k < rep.len() && !folds_to(#[trigger] rep[i + k], other[k]);
                    assert(out[i + k] == rep[i + k]);
                }
            }
        }
    } else {
        let t = s.drop_first();
        if other != pat {
            assert forall|i: int| !#[trigger] hit(t, other, i) by {
                if hit(t, other, i) {
                    lemma_hit_shift(s, other, i);
                }
            }
        }
        lemma_replace_leaves_free(t, pat, rep, other);
        let r = replace_ci(t, pat, rep);
        assert(out == seq![s[0]] + r);
        assert forall|i: int| !#[trigger] hit(out, other, i) by {
            if hit(out, other, i) {
                if i >= 1 {
                    assert forall|k: int| 0 <= k < other.len() implies folds_to(#[trigger] r[i - 1 + k], other[k]) by {
                        assert(out[i + k] == r[i - 1 + k]);
                    }
                    assert(hit(r, other, i - 1));
                } else {
                    let m = other.len() - 1;
                    if exists|j: int| 0 <= j < m && #[trigger] hit(t, pat, j) {
                        let j = lemma_first_hit(t, pat, m);
                        lemma_replace_prefix(t, pat, rep, j);
                        let tail = t.subrange(j, t.len() as int);
                        lemma_hit_start(tail, pat);
                        assert(matches_at_start(tail, pat)) by {
                            assert forall|k: int| 0 <= k < pat.len() implies folds_to(#[trigger] tail[0 + k], pat[k]) by {
                                assert(tail[0 + k] == t[j + k]);
                            }
                        }
                        let after = replace_ci(tail.subrange(pat.len() as int, tail.len() as int), pat, rep);
                        assert(r == t.subrange(0, j) + (rep + after));
                        let p = j + 1;
                        assert(head_blocked_at(rep, other, p));
                        let k = choose|k: int| 0 <= k < rep.len() && p + k < other.len() && !folds_to(#[trigger] rep[k], other[p + k]);
                        assert(out[p + k] == rep[k]);
                        assert(folds_to(out[0 + (p + k)], other[p + k]));
                    } else {
                        let j = if t.len() < m { t.len() as int } else { m };
                        lemma_replace_prefix(t, pat, rep, j);
                        assert forall|k: int| 0 <= k < other.len() implies folds_to(#[trigger] s[0 + k], other[k]) by {
                            assert(out[0 + k] == s[k]);
                        }
                        assert(hit(s, other, 0));
                        lemma_hit_start(s, pat);
                    }
                }
            }
        }
    }
}

/// A replacement that ends in `Z` and has no underscore cannot take part in
/// a match of a pattern shaped like the timestamp names: nine characters
/// none of which folds with `Z`, an underscore, then a short tail.
proof fn lemma_blocks(rep: Seq<char>, pat: Seq<char>)
    requires
        rep.len() >= 9,
        pat.len() >= 10,
        rep[rep.len() - 1] == 'Z',
        forall|k: int| 0 <= k < 9 ==> !folds_to('Z', #[trigger] pat[k]),
        pat[9] == '_',
        forall|k: int| 0 <= k < rep.len() ==> #[trigger] rep[k] != '_',
        forall|p: int| 10 <= p < pat.len() ==> !folds_to(rep[0], #[trigger] pat[p])
            || (p + 1 < pat.len() && !folds_to(rep[1], pat[p + 1])),
    ensures
        tail_blocks(rep, pat),
        head_blocks(rep, pat),
{
    assert forall|i: int| 0 <= i < rep.len() implies #[trigger] tail_blocked_at(rep, pat, i) by {
        if rep.len() - i <= 9 {
            let k = rep.len() - 1 - i;
            assert(!folds_to(rep[i + k], pat[k]));
        } else {
            assert(!folds_to(rep[i + 9], pat[9]));
        }
    }
    assert forall|p: int| 1 <= p < pat.len() implies #[trigger] head_blocked_at(rep, pat, p) by {
        if p <= 9 {
            let k = 9 - p;
            assert(!folds_to(rep[k], pat[p + k]));
        } else if !folds_to(rep[0], pat[p]) {
            assert(!folds_to(rep[0], pat[p + 0]));
        } else {
            assert(!folds_to(rep[1], pat[p + 1]));
        }
    }
}

/// Renaming the timestamp type names a second time changes nothing: the
/// renamed text holds none of the underscored names.
pub proof fn lemma_rename_timestamps_idempotent(s: Seq<char>)
    ensures
        rename_timestamps(rename_timestamps(s)) == rename_timestamps(s),
{
    reveal_strlit("TIMESTAMP_NTZ");
    reveal_strlit("TIMESTAMP_LTZ");
    reveal_strlit("TIMESTAMP_TZ");
    reveal_strlit("TIMESTAMPNTZ");
    reveal_strlit("TIMESTAMPLTZ");
    reveal_strlit("TIMESTAMPTZ");
    let pat_ntz = "TIMESTAMP_NTZ"@;
    let pat_ltz = "TIMESTAMP_LTZ"@;
    let pat_tz = "TIMESTAMP_TZ"@;
    let rep_ntz = "TIMESTAMPNTZ"@;
    let rep_ltz = "TIMESTAMPLTZ"@;
    let rep_tz = "TIMESTAMPTZ"@;
    lemma_blocks(rep_ntz, pat_ntz);
    lemma_blocks(rep_ltz, pat_ntz);
    lemma_blocks(rep_ltz, pat_ltz);
    lemma_blocks(rep_tz, pat_ntz);
    lemma_blocks(rep_tz, pat_ltz);
    lemma_blocks(rep_tz, pat_tz);
    let v = replace_ci(s, pat_ntz, rep_ntz);
    let u = replace_ci(v, pat_ltz, rep_ltz);
    let t = replace_ci(u, pat_tz, rep_tz);
    lemma_replace_leaves_free(s, pat_ntz, rep_ntz, pat_ntz);
    lemma_replace_leaves_free(v, pat_ltz, rep_ltz, pat_ntz);
    lemma_replace_leaves_free(v, pat_ltz, rep_ltz, pat_ltz);
    lemma_replace_leaves_free(u, pat_tz, rep_tz, pat_ntz);
    lemma_replace_leaves_free(u, pat_tz, rep_tz, pat_ltz);
    lemma_replace_leaves_free(u, pat_tz, rep_tz, pat_tz);
    lemma_replace_free(t, pat_ntz, rep_ntz);
    lemma_replace_free(t, pat_ltz, rep_ltz);
    lemma_replace_free(t, pat_tz, rep_tz);
}

} // verus!
