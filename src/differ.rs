use crate::line_diff::{diff_text, line_diff_of, rendered};
use crate::order::{lemma_sorted_unique, sort_unique, sorted};
use crate::ordered_set::{set_contains, set_get, set_items, set_len};
use crate::ordered_set::{add_unique, empty_set, set_insert};
use crate::parser::{add_columns, columns_of, objects_of, statements_complete, SqlParser};
use crate::sql_text::texts;
use crate::statement::{column_identity, create_joined_objectname, joined_name, make_column_identity, ColumnDecl, CreatedObject};
use crate::types::DiffItem;
use vstd::prelude::*;

verus! {

/// The items of `src` that `tgt` does not hold, in order.
pub open spec fn missing_objects(src: Seq<Seq<char>>, tgt: Seq<Seq<char>>) -> Seq<Seq<char>>
    decreases src.len(),
{
    if src.len() == 0 {
        Seq::empty()
    } else {
        let prev = missing_objects(src.drop_last(), tgt);
        if tgt.contains(src.last()) {
            prev
        } else {
            prev.push(src.last())
        }
    }
}

/// `object` once for each of its columns `cols` whose identity is new
/// (neither in `seen` nor declared by an earlier column of `cols`) and
/// that `tgt` lacks.
pub open spec fn owners_in(seen: Seq<Seq<char>>, object: Seq<char>, cols: Seq<ColumnDecl>, tgt: Seq<Seq<char>>) -> Seq<Seq<char>>
    decreases cols.len(),
{
    if cols.len() == 0 {
        Seq::empty()
    } else {
        let prev = owners_in(seen, object, cols.drop_last(), tgt);
        let cid = column_identity(object, cols.last());
        if add_columns(seen, object, cols.drop_last()).contains(cid) || tgt.contains(cid) {
            prev
        } else {
            prev.push(object)
        }
    }
}

/// Walking the column identities of the created objects, each identity
/// once, where it is first declared: for each one that `tgt` lacks, the
/// identity of the object that declares it.
pub open spec fn missing_owners(stmts: Seq<Option<CreatedObject>>, tgt: Seq<Seq<char>>) -> Seq<Seq<char>>
    decreases stmts.len(),
{
    if stmts.len() == 0 {
        Seq::empty()
    } else {
        let prev = missing_owners(stmts.drop_last(), tgt);
        match stmts.last() {
            Some(o) => prev + owners_in(columns_of(stmts.drop_last()), joined_name(o.name@), o.columns@, tgt),
            None => prev,
        }
    }
}

/// Column `j` of `cols` declares an identity that is new after `seen` and
/// the earlier columns, and that `tgt` lacks.
pub open spec fn fresh_at(seen: Seq<Seq<char>>, object: Seq<char>, cols: Seq<ColumnDecl>, tgt: Seq<Seq<char>>, j: int) -> bool {
    &&& 0 <= j < cols.len()
    &&& !add_columns(seen, object, cols.subrange(0, j)).contains(column_identity(object, cols[j]))
    &&& !tgt.contains(column_identity(object, cols[j]))
}

/// Column `j` of statement `k`, which creates `object`, is the first
/// declaration of its column identity in `stmts`, and `tgt` lacks it.
pub open spec fn first_missing_at(stmts: Seq<Option<CreatedObject>>, tgt: Seq<Seq<char>>, object: Seq<char>, k: int, j: int) -> bool {
    &&& 0 <= k < stmts.len()
    &&& stmts[k] is Some
    &&& joined_name(stmts[k]->0.name@) == object
    &&& fresh_at(columns_of(stmts.subrange(0, k)), object, stmts[k]->0.columns@, tgt, j)
}

/// `cid` is the identity of column `j` of statement `k`, which creates `object`.
pub open spec fn owns_at(stmts: Seq<Option<CreatedObject>>, object: Seq<char>, cid: Seq<char>, k: int, j: int) -> bool {
    &&& 0 <= k < stmts.len()
    &&& stmts[k] matches Some(o)
    &&& joined_name(o.name@) == object
    &&& 0 <= j < o.columns.len()
    &&& cid == column_identity(object, o.columns@[j])
}

proof fn lemma_missing_objects(src: Seq<Seq<char>>, tgt: Seq<Seq<char>>, x: Seq<char>)
    ensures
        missing_objects(src, tgt).contains(x) <==> src.contains(x) && !tgt.contains(x),
    decreases src.len(),
{
    if src.len() > 0 {
        let pre = src.drop_last();
        lemma_missing_objects(pre, tgt, x);
        let prev = missing_objects(pre, tgt);
        let res = missing_objects(src, tgt);
        assert(prev.contains(x) ==> res.contains(x)) by {
            if prev.contains(x) {
                let m = choose|m: int| 0 <= m < prev.len() && prev[m] == x;
                assert(res[m] == x);
            }
        }
        if src.contains(x) && !tgt.contains(x) {
            let i = choose|i: int| 0 <= i < src.len() && src[i] == x;
            if i < src.len() - 1 {
                assert(pre[i] == x);
            } else {
                assert(res[res.len() - 1] == x);
            }
        }
        if res.contains(x) {
            let m = choose|m: int| 0 <= m < res.len() && res[m] == x;
            if m < prev.len() {
                assert(prev[m] == x);
                let i = choose|i: int| 0 <= i < pre.len() && pre[i] == x;
                assert(src[i] == x);
            } else {
                assert(x == src.last());
                assert(src[src.len() - 1] == x);
            }
        }
    }
}

proof fn lemma_owners_in(seen: Seq<Seq<char>>, object: Seq<char>, cols: Seq<ColumnDecl>, tgt: Seq<Seq<char>>, x: Seq<char>)
    ensures
        owners_in(seen, object, cols, tgt).contains(x) <==> x == object
            && exists|j: int| #[trigger] fresh_at(seen, object, cols, tgt, j),
    decreases cols.len(),
{
    if cols.len() > 0 {
        let pre = cols.drop_last();
        lemma_owners_in(seen, object, pre, tgt, x);
        let prev = owners_in(seen, object, pre, tgt);
        let res = owners_in(seen, object, cols, tgt);
        let last = cols.len() - 1;
        assert(cols.subrange(0, last) =~= pre);
        assert forall|j: int| 0 <= j < pre.len() implies (#[trigger] fresh_at(seen, object, pre, tgt, j)
            <==> fresh_at(seen, object, cols, tgt, j)) by {
            assert(pre.subrange(0, j) =~= cols.subrange(0, j));
            assert(pre[j] == cols[j]);
        }
        assert(prev.contains(x) ==> res.contains(x)) by {
            if prev.contains(x) {
                let m = choose|m: int| 0 <= m < prev.len() && prev[m] == x;
                assert(res[m] == x);
            }
        }
        if x == object && exists|j: int| #[trigger] fresh_at(seen, object, cols, tgt, j) {
            let j = choose|j: int| #[trigger] fresh_at(seen, object, cols, tgt, j);
            if j < last {
                assert(fresh_at(seen, object, pre, tgt, j));
            } else {
                assert(res[res.len() - 1] == x);
            }
        }
        if res.contains(x) {
            let m = choose|m: int| 0 <= m < res.len() && res[m] == x;
            if m < prev.len() {
                assert(prev[m] == x);
                let j = choose|j: int| #[trigger] fresh_at(seen, object, pre, tgt, j);
                assert(fresh_at(seen, object, cols, tgt, j));
            } else {
                assert(x == object);
                assert(fresh_at(seen, object, cols, tgt, last));
            }
        }
    }
}

proof fn lemma_missing_owners(stmts: Seq<Option<CreatedObject>>, tgt: Seq<Seq<char>>, x: Seq<char>)
    ensures
        missing_owners(stmts, tgt).contains(x) <==> exists|k: int, j: int| #[trigger] first_missing_at(stmts, tgt, x, k, j),
    decreases stmts.len(),
{
    if stmts.len() > 0 {
        let pre = stmts.drop_last();
        lemma_missing_owners(pre, tgt, x);
        let prev = missing_owners(pre, tgt);
        let res = missing_owners(stmts, tgt);
        let last = stmts.len() - 1;
        assert(stmts.subrange(0, last) =~= pre);
        assert forall|k: int, j: int| 0 <= k < pre.len() implies (#[trigger] first_missing_at(pre, tgt, x, k, j)
            <==> first_missing_at(stmts, tgt, x, k, j)) by {
            assert(pre.subrange(0, k) =~= stmts.subrange(0, k));
            assert(pre[k] == stmts[k]);
        }
        if let Some(o) = stmts.last() {
            let id = joined_name(o.name@);
            let tail = owners_in(columns_of(pre), id, o.columns@, tgt);
            lemma_owners_in(columns_of(pre), id, o.columns@, tgt, x);
            assert(res == prev + tail);
            assert(stmts[last] == Some(o));
            if res.contains(x) {
                let m = choose|m: int| 0 <= m < res.len() && res[m] == x;
                if m < prev.len() {
                    assert(prev[m] == x);
                    let (k, j) = choose|k: int, j: int| #[trigger] first_missing_at(pre, tgt, x, k, j);
                    assert(first_missing_at(stmts, tgt, x, k, j));
                } else {
                    assert(tail[m - prev.len()] == x);
                    let j = choose|j: int| #[trigger] fresh_at(columns_of(pre), id, o.columns@, tgt, j);
                    assert(first_missing_at(stmts, tgt, x, last, j));
                }
            }
            if exists|k: int, j: int| #[trigger] first_missing_at(stmts, tgt, x, k, j) {
                let (k, j) = choose|k: int, j: int| #[trigger] first_missing_at(stmts, tgt, x, k, j);
                if k < last {
                    assert(first_missing_at(pre, tgt, x, k, j));
                    let m = choose|m: int| 0 <= m < prev.len() && prev[m] == x;
                    assert(res[m] == x);
                } else {
                    assert(fresh_at(columns_of(pre), id, o.columns@, tgt, j));
                    let m = choose|m: int| 0 <= m < tail.len() && tail[m] == x;
                    assert(res[prev.len() + m] == x);
                }
            }
        } else {
            if exists|k: int, j: int| #[trigger] first_missing_at(stmts, tgt, x, k, j) {
                let (k, j) = choose|k: int, j: int| #[trigger] first_missing_at(stmts, tgt, x, k, j);
                assert(k < last);
                assert(first_missing_at(pre, tgt, x, k, j));
            }
            if prev.contains(x) {
                let (k, j) = choose|k: int, j: int| #[trigger] first_missing_at(pre, tgt, x, k, j);
                assert(first_missing_at(stmts, tgt, x, k, j));
            }
        }
    }
}

proof fn lemma_add_columns_holds(acc: Seq<Seq<char>>, object: Seq<char>, cols: Seq<ColumnDecl>, j: int)
    requires
        0 <= j < cols.len(),
    ensures
        add_columns(acc, object, cols).contains(column_identity(object, cols[j])),
    decreases cols.len(),
{
    let pre = cols.drop_last();
    let prev = add_columns(acc, object, pre);
    let res = add_columns(acc, object, cols);
    if j < cols.len() - 1 {
        lemma_add_columns_holds(acc, object, pre, j);
        assert(pre[j] == cols[j]);
        if !prev.contains(column_identity(object, cols.last())) {
            let m = choose|m: int| 0 <= m < prev.len() && prev[m] == column_identity(object, cols[j]);
            assert(res[m] == prev[m]);
        }
    } else {
        if !prev.contains(column_identity(object, cols.last())) {
            assert(res[res.len() - 1] == column_identity(object, cols[j]));
        }
    }
}

proof fn lemma_add_columns_keeps(acc: Seq<Seq<char>>, object: Seq<char>, cols: Seq<ColumnDecl>, x: Seq<char>)
    requires
        acc.contains(x),
    ensures
        add_columns(acc, object, cols).contains(x),
    decreases cols.len(),
{
    if cols.len() > 0 {
        let pre = cols.drop_last();
        lemma_add_columns_keeps(acc, object, pre, x);
        let prev = add_columns(acc, object, pre);
        let m = choose|m: int| 0 <= m < prev.len() && prev[m] == x;
        assert(add_unique(prev, column_identity(object, cols.last()))[m] == x);
    }
}

/// Every column identity that a statement declares is among the columns.
proof fn lemma_owned_in_columns(stmts: Seq<Option<CreatedObject>>, object: Seq<char>, cid: Seq<char>, k: int, j: int)
    requires
        owns_at(stmts, object, cid, k, j),
    ensures
        columns_of(stmts).contains(cid),
    decreases stmts.len(),
{
    let pre = stmts.drop_last();
    if k < stmts.len() - 1 {
        assert(pre[k] == stmts[k]);
        assert(owns_at(pre, object, cid, k, j));
        lemma_owned_in_columns(pre, object, cid, k, j);
        if let Some(o) = stmts.last() {
            lemma_add_columns_keeps(columns_of(pre), joined_name(o.name@), o.columns@, cid);
        }
    } else {
        let o = stmts.last()->0;
        lemma_add_columns_holds(columns_of(pre), object, o.columns@, j);
    }
}

/// The identity of every created object is among the objects.
proof fn lemma_created_in_objects(stmts: Seq<Option<CreatedObject>>, k: int)
    requires
        0 <= k < stmts.len(),
        stmts[k] is Some,
    ensures
        objects_of(stmts).contains(joined_name(stmts[k]->0.name@)),
    decreases stmts.len(),
{
    let pre = stmts.drop_last();
    let prev = objects_of(pre);
    if k < stmts.len() - 1 {
        assert(pre[k] == stmts[k]);
        lemma_created_in_objects(pre, k);
        let m = choose|m: int| 0 <= m < prev.len() && prev[m] == joined_name(stmts[k]->0.name@);
        if let Some(o) = stmts.last() {
            assert(add_unique(prev, joined_name(o.name@))[m] == prev[m]);
        }
    } else {
        let id = joined_name(stmts[k]->0.name@);
        if !prev.contains(id) {
            assert(add_unique(prev, id)[prev.len() as int] == id);
        }
    }
}

/// Compares a source schema with a target schema.
pub struct Differ {
    pub source: SqlParser,
    pub target: SqlParser,
}

/// The identities of the items, in order.
pub open spec fn item_names(items: Seq<DiffItem>) -> Seq<Seq<char>> {
    items.map_values(|it: DiffItem| it.object@)
}

/// The text of a fragment that may be missing; empty when it is.
pub open spec fn text_or_empty(t: Option<Seq<char>>) -> Seq<char> {
    match t {
        Some(d) => d,
        None => Seq::empty(),
    }
}

impl Differ {
    pub open spec fn wf(&self) -> bool {
        self.source.wf() && self.target.wf()
    }

    /// The objects of the source that the target lacks, then, once per
    /// column of a source object that the target lacks, that object.
    pub open spec fn missing(&self) -> Seq<Seq<char>> {
        missing_objects(set_items(self.source.objects), set_items(self.target.objects))
            + missing_owners(self.source.statements@, set_items(self.target.columns))
    }

    /// The diff text reported for `object`: from the target's definition,
    /// or nothing, to the source's.
    pub open spec fn object_diff(&self, object: Seq<char>) -> Seq<char> {
        rendered(line_diff_of(text_or_empty(self.target.ddl_for(object)), text_or_empty(self.source.ddl_for(object))))
    }

    pub fn new(source: SqlParser, target: SqlParser) -> (r: Self)
        ensures
            r.source == source,
            r.target == target,
    {
        Differ { source, target }
    }

    /// The objects of the source whose identity the target lacks, in the
    /// source's order.
    pub fn get_internal_object_diff(&self) -> (r: Vec<String>)
        requires
            self.wf(),
        ensures
            texts(r@) == missing_objects(set_items(self.source.objects), set_items(self.target.objects)),
    {
        let ghost src = set_items(self.source.objects);
        let ghost tgt = set_items(self.target.objects);
        let mut r: Vec<String> = Vec::new();
        let n = set_len(&self.source.objects);
        let mut i: usize = 0;
        while i < n
            invariant
                i <= n,
                n == src.len(),
                src == set_items(self.source.objects),
                tgt == set_items(self.target.objects),
                texts(r@) == missing_objects(src.subrange(0, i as int), tgt),
            decreases n - i,
        {
            assert(src.subrange(0, i as int + 1).drop_last() =~= src.subrange(0, i as int));
            if let Some(o) = set_get(&self.source.objects, i) {
                if !set_contains(&self.target.objects, o.as_str()) {
                    let ghost before = texts(r@);
                    r.push(o.clone());
                    assert(texts(r@) =~= before.push(o@));
                }
            }
            i = i + 1;
        }
        assert(src.subrange(0, n as int) =~= src);
        r
    }

    /// For each column identity of the source that the target lacks, taken
    /// once, the identity of the object that first declares it, in the
    /// source's order. The owner is the whole object identity (`a.t` for
    /// `a.t.y-VARCHAR(10)`), not the text before the first dot.
    pub fn get_internal_column_object_diff(&self) -> (r: Vec<String>)
        requires
            self.wf(),
        ensures
            texts(r@) == missing_owners(self.source.statements@, set_items(self.target.columns)),
    {
        let ghost tgt = set_items(self.target.columns);
        let stmts = &self.source.statements;
        let mut seen = empty_set();
        let mut r: Vec<String> = Vec::new();
        let mut k: usize = 0;
        while k < stmts.len()
            invariant
                k <= stmts.len(),
                statements_complete(stmts@),
                tgt == set_items(self.target.columns),
                set_items(seen) == columns_of(stmts@.subrange(0, k as int)),
                texts(r@) == missing_owners(stmts@.subrange(0, k as int), tgt),
            decreases stmts.len() - k,
        {
            assert(stmts@.subrange(0, k + 1).drop_last() =~= stmts@.subrange(0, k as int));
            assert(stmts@[k as int] matches Some(o) ==> crate::statement::name_complete(o.name@));
            if let Some(o) = &stmts[k] {
                let id = create_joined_objectname(&o.name);
                let ghost start = texts(r@);
                let ghost start_seen = set_items(seen);
                let mut j: usize = 0;
                while j < o.columns.len()
                    invariant
                        j <= o.columns.len(),
                        tgt == set_items(self.target.columns),
                        set_items(seen) == add_columns(start_seen, id@, o.columns@.subrange(0, j as int)),
                        texts(r@) == start + owners_in(start_seen, id@, o.columns@.subrange(0, j as int), tgt),
                    decreases o.columns.len() - j,
                {
                    assert(o.columns@.subrange(0, j + 1).drop_last() =~= o.columns@.subrange(0, j as int));
                    let c = make_column_identity(id.as_str(), &o.columns[j]);
                    let fresh = set_insert(&mut seen, c.clone());
                    if fresh && !set_contains(&self.target.columns, c.as_str()) {
                        let ghost before = texts(r@);
                        r.push(id.clone());
                        assert(texts(r@) =~= before.push(id@));
                        assert(texts(r@) =~= start + owners_in(start_seen, id@, o.columns@.subrange(0, j + 1), tgt));
                    }
                    j = j + 1;
                }
                assert(o.columns@.subrange(0, o.columns.len() as int) =~= o.columns@);
            }
            k = k + 1;
        }
        assert(stmts@.subrange(0, stmts.len() as int) =~= stmts@);
        r
    }

    /// The identities of the differing objects, sorted, each once.
    pub fn get_object_diffs(&self) -> (r: Vec<String>)
        requires
            self.wf(),
        ensures
            sorted(texts(r@)),
            texts(r@).no_duplicates(),
            forall|x: Seq<char>| texts(r@).contains(x) <==> self.missing().contains(x),
    {
        let mut diffs = self.get_internal_object_diff();
        let mut more = self.get_internal_column_object_diff();
        let ghost a = texts(diffs@);
        let ghost b = texts(more@);
        diffs.append(&mut more);
        assert(texts(diffs@) =~= a + b);
        sort_unique(diffs)
    }

    /// Every differing object is defined by the source.
    pub proof fn lemma_missing_in_source(&self, x: Seq<char>)
        requires
            self.wf(),
            self.missing().contains(x),
        ensures
            set_items(self.source.objects).contains(x),
    {
        let a = missing_objects(set_items(self.source.objects), set_items(self.target.objects));
        let b = missing_owners(self.source.statements@, set_items(self.target.columns));
        let m = choose|m: int| 0 <= m < (a + b).len() && (a + b)[m] == x;
        lemma_missing_objects(set_items(self.source.objects), set_items(self.target.objects), x);
        lemma_missing_owners(self.source.statements@, set_items(self.target.columns), x);
        if m < a.len() {
            assert(a[m] == x);
        } else {
            assert(b[m - a.len()] == x);
            let (k, j) = choose|k: int, j: int| #[trigger] first_missing_at(self.source.statements@, set_items(self.target.columns), x, k, j);
            lemma_created_in_objects(self.source.statements@, k);
        }
    }

    /// An object differs exactly when the source defines it and the target
    /// does not, or when it is the object that first declares a column
    /// identity of the source that the target lacks; each such identity is
    /// one of the source's columns.
    pub proof fn lemma_missing_exact(&self, o: Seq<char>)
        requires
            self.wf(),
        ensures
            self.missing().contains(o) <==> (set_items(self.source.objects).contains(o)
                && !set_items(self.target.objects).contains(o)) || exists|k: int, j: int|
                #[trigger] first_missing_at(self.source.statements@, set_items(self.target.columns), o, k, j),
            forall|k: int, j: int| #[trigger] first_missing_at(self.source.statements@, set_items(self.target.columns), o, k, j)
                ==> set_items(self.source.columns).contains(column_identity(o, self.source.statements@[k]->0.columns@[j])),
    {
        let src = set_items(self.source.objects);
        let tgt = set_items(self.target.objects);
        let stmts = self.source.statements@;
        let tcols = set_items(self.target.columns);
        let a = missing_objects(src, tgt);
        let b = missing_owners(stmts, tcols);
        lemma_missing_objects(src, tgt, o);
        lemma_missing_owners(stmts, tcols, o);
        if (a + b).contains(o) {
            let m = choose|m: int| 0 <= m < (a + b).len() && (a + b)[m] == o;
            if m < a.len() {
                assert(a[m] == o);
            } else {
                assert(b[m - a.len()] == o);
            }
        }
        if a.contains(o) {
            let m = choose|m: int| 0 <= m < a.len() && a[m] == o;
            assert((a + b)[m] == o);
        }
        if b.contains(o) {
            let m = choose|m: int| 0 <= m < b.len() && b[m] == o;
            assert((a + b)[a.len() + m] == o);
        }
        assert forall|k: int, j: int| #[trigger] first_missing_at(stmts, tcols, o, k, j)
            implies set_items(self.source.columns).contains(column_identity(o, stmts[k]->0.columns@[j])) by {
            lemma_owned_in_columns(stmts, o, column_identity(o, stmts[k]->0.columns@[j]), k, j);
        }
    }

    /// One item per differing object, sorted by identity, each with the
    /// line diff from the target's definition (or nothing) to the source's.
    pub fn get_diff_items(&self) -> (r: Vec<DiffItem>)
        requires
            self.wf(),
        ensures
            sorted(item_names(r@)),
            item_names(r@).no_duplicates(),
            forall|x: Seq<char>| item_names(r@).contains(x) <==> self.missing().contains(x),
            forall|i: int| 0 <= i < r@.len() ==> (#[trigger] r@[i]).diff@ == self.object_diff(r@[i].object@),
    {
        let diffs = self.get_object_diffs();
        let mut items: Vec<DiffItem> = Vec::new();
        let mut i: usize = 0;
        while i < diffs.len()
            invariant
                i <= diffs.len(),
                self.wf(),
                forall|x: Seq<char>| texts(diffs@).contains(x) <==> self.missing().contains(x),
                item_names(items@) == texts(diffs@).subrange(0, i as int),
                forall|m: int| 0 <= m < items@.len() ==> (#[trigger] items@[m]).diff@ == self.object_diff(items@[m].object@),
            decreases diffs.len() - i,
        {
            let d = &diffs[i];
            proof {
                assert(texts(diffs@)[i as int] == d@);
                assert(texts(diffs@).contains(d@));
                self.lemma_missing_in_source(d@);
            }
            let source_ddl = self.source.get_ddl_by_object(d.as_str()).unwrap();
            let target_ddl = match self.target.get_ddl_by_object(d.as_str()) {
                Some(t) => t,
                None => String::new(),
            };
            let diff = diff_text(target_ddl.as_str(), source_ddl.as_str());
            let item = DiffItem::new(d.as_str(), diff.as_str());
            let ghost before = items@;
            items.push(item);
            proof {
                assert(item_names(items@) =~= item_names(before).push(d@));
                assert(texts(diffs@).subrange(0, i as int + 1) =~= texts(diffs@).subrange(0, i as int).push(d@));
                assert forall|m: int| 0 <= m < items@.len() implies (#[trigger] items@[m]).diff@ == self.object_diff(items@[m].object@) by {
                    if m < before.len() {
                        assert(items@[m] == before[m]);
                    }
                }
            }
            i = i + 1;
        }
        assert(texts(diffs@).subrange(0, diffs@.len() as int) =~= texts(diffs@));
        items
    }

    /// What `get_diff_items` promises of its result.
    pub open spec fn is_report(&self, r: Seq<DiffItem>) -> bool {
        &&& sorted(item_names(r))
        &&& item_names(r).no_duplicates()
        &&& forall|x: Seq<char>| item_names(r).contains(x) <==> self.missing().contains(x)
        &&& forall|i: int| 0 <= i < r.len() ==> (#[trigger] r[i]).diff@ == self.object_diff(r[i].object@)
    }

    /// The report is determined by the two schemas: two results that both
    /// meet the promise name the same objects in the same order, with the
    /// same diff texts.
    pub proof fn lemma_report_determined(&self, r1: Seq<DiffItem>, r2: Seq<DiffItem>)
        requires
            self.is_report(r1),
            self.is_report(r2),
        ensures
            item_names(r1) == item_names(r2),
            r1.len() == r2.len(),
            forall|i: int| 0 <= i < r1.len() ==> (#[trigger] r1[i]).diff@ == r2[i].diff@,
    {
        lemma_sorted_unique(item_names(r1), item_names(r2));
        assert forall|i: int| 0 <= i < r1.len() implies (#[trigger] r1[i]).diff@ == r2[i].diff@ by {
            assert(item_names(r1)[i] == item_names(r2)[i]);
            assert(r1[i].object@ == r2[i].object@);
        }
    }
}

} // verus!
