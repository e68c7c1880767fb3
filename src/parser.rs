use crate::ordered_set::{add_unique, empty_set, set_insert, set_items, set_position};
use crate::sql_text::{preprocess_sql, preprocessed, split_on, split_statements, texts};
use crate::statement::{
    create_joined_objectname, created_columns_of, created_names_of, created_of, created_view, created_views, columns_view, name_view, joined_name, make_column_identity,
    column_identity, name_complete, parse_created_columns, parse_created_names, parses, ColumnDecl, CreatedObject,
};
use indexmap::IndexSet;
use sqlparser::parser::ParserError;
use vstd::prelude::*;

verus! {

/// Why a DDL text could not be turned into a schema.
pub enum ExtractError {
    /// The text is not valid SQL under the grammar.
    Syntax(ParserError),
    /// A created table or view has a name part that is not an identifier.
    UnsupportedName,
    /// There are more statements than `;`-separated fragments of text.
    FragmentMismatch,
}

/// Every created object among the statements has a name made of identifiers.
pub open spec fn statements_complete(stmts: Seq<Option<CreatedObject>>) -> bool {
    forall|k: int| 0 <= k < stmts.len() ==> (#[trigger] stmts[k] matches Some(o) ==> name_complete(o.name@))
}

/// Every created object in the plain-value list has a name made of
/// identifiers.
pub open spec fn created_complete(v: Seq<Option<(Seq<Option<Seq<char>>>, Seq<(Seq<char>, Option<Seq<char>>)>)>>) -> bool {
    forall|k: int| 0 <= k < v.len() ==> parts_complete(#[trigger] v[k])
}

pub open spec fn parts_complete(o: Option<(Seq<Option<Seq<char>>>, Seq<(Seq<char>, Option<Seq<char>>)>)>) -> bool {
    match o {
        Some((parts, _)) => forall|i: int| 0 <= i < parts.len() ==> (#[trigger] parts[i]) is Some,
        None => true,
    }
}

proof fn lemma_complete_view(stmts: Seq<Option<CreatedObject>>)
    ensures
        statements_complete(stmts) <==> created_complete(created_views(stmts)),
{
    let v = created_views(stmts);
    if statements_complete(stmts) {
        assert forall|k: int| 0 <= k < v.len() implies parts_complete(#[trigger] v[k]) by {
            if let Some(c) = stmts[k] {
                assert(name_complete(c.name@));
                let parts = c.name@.map_values(|p: Option<String>| match p {
                    Some(t) => Some(t@),
                    None => None,
                });
                assert(v[k] == created_view(stmts[k]));
                assert forall|i: int| 0 <= i < parts.len() implies (#[trigger] parts[i]) is Some by {
                    assert(c.name@[i] is Some);
                }
            }
        }
    }
    if created_complete(v) {
        assert forall|k: int| 0 <= k < stmts.len() implies (#[trigger] stmts[k] matches Some(o) ==> name_complete(o.name@)) by {
            if let Some(c) = stmts[k] {
                assert(v[k] == created_view(stmts[k]));
                assert(parts_complete(v[k]));
                let parts = c.name@.map_values(|p: Option<String>| match p {
                    Some(t) => Some(t@),
                    None => None,
                });
                assert forall|i: int| 0 <= i < c.name@.len() implies (#[trigger] c.name@[i]) is Some by {
                    assert(parts[i] is Some);
                }
            }
        }
    }
}

/// The identities of the created objects, first-seen order, no repeats.
pub open spec fn objects_of(stmts: Seq<Option<CreatedObject>>) -> Seq<Seq<char>>
    decreases stmts.len(),
{
    if stmts.len() == 0 {
        Seq::empty()
    } else {
        let prev = objects_of(stmts.drop_last());
        match stmts.last() {
            Some(o) => add_unique(prev, joined_name(o.name@)),
            None => prev,
        }
    }
}

/// `acc` with the identities of the columns `cols` of `object` added in order.
pub open spec fn add_columns(acc: Seq<Seq<char>>, object: Seq<char>, cols: Seq<ColumnDecl>) -> Seq<Seq<char>>
    decreases cols.len(),
{
    if cols.len() == 0 {
        acc
    } else {
        add_unique(add_columns(acc, object, cols.drop_last()), column_identity(object, cols.last()))
    }
}

/// The identities of the columns of the created objects, first-seen order,
/// no repeats.
pub open spec fn columns_of(stmts: Seq<Option<CreatedObject>>) -> Seq<Seq<char>>
    decreases stmts.len(),
{
    if stmts.len() == 0 {
        Seq::empty()
    } else {
        let prev = columns_of(stmts.drop_last());
        match stmts.last() {
            Some(o) => add_columns(prev, joined_name(o.name@), o.columns@),
            None => prev,
        }
    }
}

/// For each identity of `objects_of(stmts)`, at the same position, the text
/// fragment of the statement that first defined it: the fragment at the
/// statement's own position.
pub open spec fn object_ddls_of(ddls: Seq<Seq<char>>, stmts: Seq<Option<CreatedObject>>) -> Seq<Seq<char>>
    decreases stmts.len(),
{
    if stmts.len() == 0 {
        Seq::empty()
    } else {
        let prev = object_ddls_of(ddls, stmts.drop_last());
        match stmts.last() {
            Some(o) => if objects_of(stmts.drop_last()).contains(joined_name(o.name@)) {
                prev
            } else {
                prev.push(ddls[stmts.len() - 1])
            },
            None => prev,
        }
    }
}

proof fn lemma_objects_shape(ddls: Seq<Seq<char>>, stmts: Seq<Option<CreatedObject>>)
    ensures
        objects_of(stmts).no_duplicates(),
        objects_of(stmts).len() == object_ddls_of(ddls, stmts).len(),
    decreases stmts.len(),
{
    if stmts.len() > 0 {
        lemma_objects_shape(ddls, stmts.drop_last());
        let prev = objects_of(stmts.drop_last());
        if let Some(o) = stmts.last() {
            let id = joined_name(o.name@);
            if !prev.contains(id) {
                assert forall|i: int, j: int| 0 <= i < j < prev.push(id).len()
                    implies prev.push(id)[i] != prev.push(id)[j] by {
                    if j == prev.len() {
                        assert(prev[i] == prev.push(id)[i]);
                    }
                }
            }
        }
    }
}

proof fn lemma_object_ddls_positions(ddls: Seq<Seq<char>>, stmts: Seq<Option<CreatedObject>>, i: int)
    requires
        0 <= i < objects_of(stmts).len(),
    ensures
        exists|k: int| 0 <= k < stmts.len() && #[trigger] stmts[k] is Some
            && joined_name(stmts[k]->0.name@) == objects_of(stmts)[i]
            && object_ddls_of(ddls, stmts)[i] == ddls[k],
    decreases stmts.len(),
{
    let pre = stmts.drop_last();
    lemma_objects_shape(ddls, pre);
    if i < objects_of(pre).len() {
        lemma_object_ddls_positions(ddls, pre, i);
        let k = choose|k: int| 0 <= k < pre.len() && #[trigger] pre[k] is Some
            && joined_name(pre[k]->0.name@) == objects_of(pre)[i]
            && object_ddls_of(ddls, pre)[i] == ddls[k];
        assert(stmts[k] == pre[k]);
    } else {
        let k = stmts.len() - 1;
        assert(stmts[k] is Some);
    }
}

/// One side of a comparison: the DDL text split into fragments, what each
/// statement created, and the identities of the objects and columns.
pub struct SqlParser {
    pub ddls: Vec<String>,
    pub statements: Vec<Option<CreatedObject>>,
    pub objects: IndexSet<String>,
    pub columns: IndexSet<String>,
    pub object_ddls: Vec<String>,
}

impl SqlParser {
    /// The sets and the fragment table agree with the statements.
    pub open spec fn wf(&self) -> bool {
        &&& statements_complete(self.statements@)
        &&& self.statements@.len() <= self.ddls@.len()
        &&& set_items(self.objects) == objects_of(self.statements@)
        &&& set_items(self.columns) == columns_of(self.statements@)
        &&& set_items(self.objects).no_duplicates()
        &&& texts(self.object_ddls@) == object_ddls_of(texts(self.ddls@), self.statements@)
        &&& self.object_ddls@.len() == set_items(self.objects).len()
    }

    /// The defining fragment of `object`, if this side defines it.
    pub open spec fn ddl_for(&self, object: Seq<char>) -> Option<Seq<char>> {
        if set_items(self.objects).contains(object) {
            Some(texts(self.object_ddls@)[set_items(self.objects).index_of(object)])
        } else {
            None
        }
    }

    /// Reads a DDL text: it is preprocessed, split into fragments at `;`,
    /// parsed, and the created objects and their columns are collected.
    /// Fails with `Syntax` exactly when the preprocessed text does not parse.
    pub fn new(sql: &str) -> (r: Result<Self, ExtractError>)
        ensures
            r matches Err(ExtractError::Syntax(_)) <==> !parses(preprocessed(sql@)),
            r matches Err(ExtractError::FragmentMismatch) <==> parses(preprocessed(sql@))
                && created_of(preprocessed(sql@)).len() > split_on(preprocessed(sql@), ';').len(),
            r matches Err(ExtractError::UnsupportedName) <==> parses(preprocessed(sql@))
                && created_of(preprocessed(sql@)).len() <= split_on(preprocessed(sql@), ';').len()
                && !created_complete(created_of(preprocessed(sql@))),
            r matches Ok(p) ==> p.wf() && texts(p.ddls@) == split_on(preprocessed(sql@), ';')
                && created_views(p.statements@) == created_of(preprocessed(sql@)),
    {
        let text = preprocess_sql(sql);
        let ddls = split_statements(text.as_str());
        let names = match parse_created_names(text.as_str()) {
            Err(e) => return Err(ExtractError::Syntax(e)),
            Ok(names) => names,
        };
        let columns = match parse_created_columns(text.as_str()) {
            Err(e) => return Err(ExtractError::Syntax(e)),
            Ok(columns) => columns,
        };
        let statements = Self::join_created(names, columns, Ghost(text@));
        proof {
            lemma_complete_view(statements@);
        }
        Self::from_parts(ddls, statements)
    }

    /// Pairs each statement's name with its columns.
    fn join_created(names: Vec<Option<Vec<Option<String>>>>, columns: Vec<Vec<ColumnDecl>>, sql: Ghost<Seq<char>>) -> (r: Vec<Option<CreatedObject>>)
        requires
            names@.map_values(|n: Option<Vec<Option<String>>>| match n {
                Some(parts) => Some(name_view(parts@)),
                None => None,
            }) == created_names_of(sql@),
            columns@.map_values(|c: Vec<ColumnDecl>| columns_view(c@)) == created_columns_of(sql@),
            columns@.len() == names@.len(),
        ensures
            created_views(r@) == created_of(sql@),
    {
        let ghost n0 = names@;
        let ghost c0 = columns@;
        let ghost total = names@.len();
        let mut names = names;
        let mut columns = columns;
        let mut r: Vec<Option<CreatedObject>> = Vec::new();
        while names.len() > 0
            invariant
                names@.len() == columns@.len(),
                r@.len() + names@.len() == total,
                names@ == n0.subrange(r@.len() as int, total as int),
                columns@ == c0.subrange(r@.len() as int, total as int),
                n0.len() == total,
                c0.len() == total,
                forall|k: int| 0 <= k < r@.len() ==> created_view(#[trigger] r@[k]) == created_of(sql@)[k],
                n0.map_values(|n: Option<Vec<Option<String>>>| match n {
                    Some(parts) => Some(name_view(parts@)),
                    None => None,
                }) == created_names_of(sql@),
                c0.map_values(|c: Vec<ColumnDecl>| columns_view(c@)) == created_columns_of(sql@),
            decreases names@.len(),
        {
            let ghost k = r@.len() as int;
            let n = names.remove(0);
            let c = columns.remove(0);
            assert(n == n0[k] && c == c0[k]);
            assert(created_names_of(sql@)[k] == match n0[k] {
                Some(parts) => Some(name_view(parts@)),
                None => None,
            });
            assert(created_columns_of(sql@)[k] == columns_view(c0[k]@));
            let created = match n {
                Some(name) => Some(CreatedObject { name, columns: c }),
                None => None,
            };
            let ghost before = r@;
            r.push(created);
            assert forall|m: int| 0 <= m < r@.len() implies created_view(#[trigger] r@[m]) == created_of(sql@)[m] by {
                if m < before.len() {
                    assert(r@[m] == before[m]);
                }
            }
            assert(names@ =~= n0.subrange(r@.len() as int, total as int));
            assert(columns@ =~= c0.subrange(r@.len() as int, total as int));
        }
        assert(created_views(r@) =~= created_of(sql@));
        r
    }

    /// Builds one side from its text fragments and what each statement
    /// created, in statement order.
    pub fn from_parts(ddls: Vec<String>, statements: Vec<Option<CreatedObject>>) -> (r: Result<Self, ExtractError>)
        ensures
            r matches Err(ExtractError::FragmentMismatch) <==> statements@.len() > ddls@.len(),
            r matches Err(ExtractError::UnsupportedName) <==> statements@.len() <= ddls@.len()
                && !statements_complete(statements@),
            r is Err ==> !(r matches Err(ExtractError::Syntax(_))),
            r matches Ok(p) ==> p.wf() && p.ddls@ == ddls@ && p.statements@ == statements@,
    {
        if statements.len() > ddls.len() {
            return Err(ExtractError::FragmentMismatch);
        }
        if !Self::names_complete(&statements) {
            return Err(ExtractError::UnsupportedName);
        }
        let (objects, object_ddls) = Self::create_object_hashset(&statements, &ddls);
        let columns = Self::create_object_column_hashset(&statements);
        proof {
            lemma_objects_shape(texts(ddls@), statements@);
        }
        Ok(SqlParser { ddls, statements, objects, columns, object_ddls })
    }

    /// Whether every created object's name is made of identifiers.
    pub fn names_complete(statements: &Vec<Option<CreatedObject>>) -> (r: bool)
        ensures
            r == statements_complete(statements@),
    {
        let mut k: usize = 0;
        while k < statements.len()
            invariant
                k <= statements.len(),
                statements_complete(statements@.subrange(0, k as int)),
            decreases statements.len() - k,
        {
            if let Some(o) = &statements[k] {
                let mut i: usize = 0;
                while i < o.name.len()
                    invariant
                        i <= o.name.len(),
                        k < statements.len(),
                        statements@[k as int] == Some(*o),
                        forall|j: int| 0 <= j < i ==> (#[trigger] o.name@[j]) is Some,
                    decreases o.name.len() - i,
                {
                    if o.name[i].is_none() {
                        assert(o.name@[i as int] is None);
                        assert(!name_complete(o.name@));
                        return false;
                    }
                    i = i + 1;
                }
            }
            assert forall|j: int| 0 <= j < k + 1 implies
                (#[trigger] statements@.subrange(0, k + 1)[j] matches Some(o) ==> name_complete(o.name@)) by {
                if j < k {
                    assert(statements@.subrange(0, k as int)[j] == statements@.subrange(0, k + 1)[j]);
                }
            }
            k = k + 1;
        }
        assert(statements@.subrange(0, statements.len() as int) =~= statements@);
        true
    }

    /// The identities of the created objects, and for each the fragment of
    /// the statement that first defined it.
    pub fn create_object_hashset(statements: &Vec<Option<CreatedObject>>, ddls: &Vec<String>) -> (r: (IndexSet<String>, Vec<String>))
        requires
            statements_complete(statements@),
            statements@.len() <= ddls@.len(),
        ensures
            set_items(r.0) == objects_of(statements@),
            texts(r.1@) == object_ddls_of(texts(ddls@), statements@),
    {
        let mut objects = empty_set();
        let mut object_ddls: Vec<String> = Vec::new();
        let mut k: usize = 0;
        while k < statements.len()
            invariant
                k <= statements.len(),
                statements.len() <= ddls.len(),
                statements_complete(statements@),
                set_items(objects) == objects_of(statements@.subrange(0, k as int)),
                texts(object_ddls@) == object_ddls_of(texts(ddls@), statements@.subrange(0, k as int)),
            decreases statements.len() - k,
        {
            assert(statements@.subrange(0, k + 1).drop_last() =~= statements@.subrange(0, k as int));
            assert(statements@[k as int] matches Some(o) ==> name_complete(o.name@));
            if let Some(o) = &statements[k] {
                let id = create_joined_objectname(&o.name);
                if set_insert(&mut objects, id) {
                    let ghost before = object_ddls@;
                    object_ddls.push(ddls[k].clone());
                    assert(texts(object_ddls@) =~= texts(before).push(ddls@[k as int]@));
                }
            }
            k = k + 1;
        }
        assert(statements@.subrange(0, statements.len() as int) =~= statements@);
        (objects, object_ddls)
    }

    /// The identities of the columns of the created objects.
    pub fn create_object_column_hashset(statements: &Vec<Option<CreatedObject>>) -> (r: IndexSet<String>)
        requires
            statements_complete(statements@),
        ensures
            set_items(r) == columns_of(statements@),
    {
        let mut columns = empty_set();
        let mut k: usize = 0;
        while k < statements.len()
            invariant
                k <= statements.len(),
                statements_complete(statements@),
                set_items(columns) == columns_of(statements@.subrange(0, k as int)),
            decreases statements.len() - k,
        {
            assert(statements@.subrange(0, k + 1).drop_last() =~= statements@.subrange(0, k as int));
            assert(statements@[k as int] matches Some(o) ==> name_complete(o.name@));
            if let Some(o) = &statements[k] {
                let id = create_joined_objectname(&o.name);
                let ghost start = set_items(columns);
                let mut j: usize = 0;
                while j < o.columns.len()
                    invariant
                        j <= o.columns.len(),
                        set_items(columns) == add_columns(start, id@, o.columns@.subrange(0, j as int)),
                    decreases o.columns.len() - j,
                {
                    assert(o.columns@.subrange(0, j + 1).drop_last() =~= o.columns@.subrange(0, j as int));
                    let c = make_column_identity(id.as_str(), &o.columns[j]);
                    set_insert(&mut columns, c);
                    j = j + 1;
                }
                assert(o.columns@.subrange(0, o.columns.len() as int) =~= o.columns@);
            }
            k = k + 1;
        }
        assert(statements@.subrange(0, statements.len() as int) =~= statements@);
        columns
    }

    /// The text fragment that defines `object_name` on this side, if any.
    pub fn get_ddl_by_object(&self, object_name: &str) -> (r: Option<String>)
        requires
            self.wf(),
        ensures
            r matches Some(d) ==> self.ddl_for(object_name@) == Some(d@),
            r is None ==> self.ddl_for(object_name@) is None,
    {
        match set_position(&self.objects, object_name) {
            Some(i) => {
                proof {
                    let s = set_items(self.objects);
                    assert(s.contains(object_name@));
                    s.index_of_first(object_name@);
                    assert(s.index_of(object_name@) == i) by {
                        let k = s.index_of(object_name@);
                        assert(s[k] == object_name@);
                    }
                }
                Some(self.object_ddls[i].clone())
            },
            None => None,
        }
    }

    /// Every object of this side has a definition, and it is the text
    /// fragment at the position of a statement that creates the object.
    pub proof fn lemma_ddl_is_defining_fragment(&self, object: Seq<char>)
        requires
            self.wf(),
            set_items(self.objects).contains(object),
        ensures
            self.ddl_for(object) is Some,
            exists|k: int| 0 <= k < self.statements@.len() && #[trigger] self.statements@[k] is Some
                && joined_name(self.statements@[k]->0.name@) == object
                && self.ddl_for(object) == Some(self.ddls@[k]@),
    {
        let s = set_items(self.objects);
        let i = s.index_of(object);
        s.index_of_first(object);
        lemma_object_ddls_positions(texts(self.ddls@), self.statements@, i);
        let k = choose|k: int| 0 <= k < self.statements@.len() && #[trigger] self.statements@[k] is Some
            && joined_name(self.statements@[k]->0.name@) == objects_of(self.statements@)[i]
            && object_ddls_of(texts(self.ddls@), self.statements@)[i] == texts(self.ddls@)[k];
        assert(texts(self.ddls@)[k] == self.ddls@[k]@);
    }
}

} // verus!
