use sqlparser::ast::Statement;
use sqlparser::dialect::SnowflakeDialect;
use sqlparser::parser::{Parser, ParserError};
use vstd::prelude::*;

verus! {

#[verifier::external_type_specification]
#[verifier::external_body]
pub struct ExParserError(ParserError);

/// A column declared by a created table or view: its name, and the
/// rendering of its declared type where one is declared.
pub struct ColumnDecl {
    pub name: String,
    pub data_type: Option<String>,
}

/// What a statement that creates a table or a view tells about the object:
/// the parts of its name (`None` for a part that is not an identifier) and
/// its declared columns.
pub struct CreatedObject {
    pub name: Vec<Option<String>>,
    pub columns: Vec<ColumnDecl>,
}

/// Whether the text is valid SQL under the Snowflake grammar.
pub uninterp spec fn parses(sql: Seq<char>) -> bool;

/// What `str::to_lowercase` makes of a text.
pub uninterp spec fn lower_of(s: Seq<char>) -> Seq<char>;

/// What a created object looks like as plain values: its name parts and
/// its columns with their declared types.
pub open spec fn created_view(o: Option<CreatedObject>) -> Option<(Seq<Option<Seq<char>>>, Seq<(Seq<char>, Option<Seq<char>>)>)> {
    match o {
        Some(c) => Some((name_view(c.name@), columns_view(c.columns@))),
        None => None,
    }
}

pub open spec fn created_views(v: Seq<Option<CreatedObject>>) -> Seq<Option<(Seq<Option<Seq<char>>>, Seq<(Seq<char>, Option<Seq<char>>)>)>> {
    v.map_values(|o: Option<CreatedObject>| created_view(o))
}

/// For each statement of the text under the Snowflake grammar, in order:
/// for a created table or view, the parts of its name (`None` for a part
/// that is not an identifier); `None` for any other statement.
pub uninterp spec fn created_names_of(sql: Seq<char>) -> Seq<Option<Seq<Option<Seq<char>>>>>;

/// For each statement of the text under the Snowflake grammar, in order:
/// the columns of a created table or view, each with its name and the
/// rendering of its declared type; none for any other statement.
pub uninterp spec fn created_columns_of(sql: Seq<char>) -> Seq<Seq<(Seq<char>, Option<Seq<char>>)>>;

/// For each statement, what it creates, as plain values.
pub open spec fn created_of(sql: Seq<char>) -> Seq<Option<(Seq<Option<Seq<char>>>, Seq<(Seq<char>, Option<Seq<char>>)>)>> {
    Seq::new(created_names_of(sql).len(), |k: int| match created_names_of(sql)[k] {
        Some(parts) => Some((parts, created_columns_of(sql)[k])),
        None => None,
    })
}

pub open spec fn name_view(name: Seq<Option<String>>) -> Seq<Option<Seq<char>>> {
    name.map_values(|p: Option<String>| match p {
        Some(t) => Some(t@),
        None => None,
    })
}

pub open spec fn columns_view(cols: Seq<ColumnDecl>) -> Seq<(Seq<char>, Option<Seq<char>>)> {
    cols.map_values(|d: ColumnDecl| (d.name@, match d.data_type {
        Some(t) => Some(t@),
        None => None,
    }))
}

/// Relies on sqlparser's Parser::parse_sql with the Snowflake dialect and
/// on its AST (`ObjectNamePart::as_ident`, `Ident::value`): whether the
/// text parses, and the name of each created table or view, depend on the
/// text alone.
#[verifier::external_body]
pub(crate) fn parse_created_names(sql: &str) -> (r: Result<Vec<Option<Vec<Option<String>>>>, ParserError>)
    ensures
        r is Ok <==> parses(sql@),
        r matches Ok(v) ==> v@.map_values(|n: Option<Vec<Option<String>>>| match n {
            Some(parts) => Some(name_view(parts@)),
            None => None,
        }) == created_names_of(sql@),
{
    Ok(Parser::parse_sql(&SnowflakeDialect {}, sql)?.iter().map(|s| match s {
        Statement::CreateTable(t) => Some(&t.name),
        Statement::CreateView(v) => Some(&v.name),
        _ => None,
    }.map(|n| n.0.iter().map(|p| p.as_ident().map(|i| i.value.clone())).collect())).collect())
}

/// Relies on sqlparser's Parser::parse_sql with the Snowflake dialect, on
/// its AST and on the `Display` of its `DataType`: the declared columns of
/// each statement depend on the text alone, one list per statement.
#[verifier::external_body]
pub(crate) fn parse_created_columns(sql: &str) -> (r: Result<Vec<Vec<ColumnDecl>>, ParserError>)
    ensures
        r is Ok <==> parses(sql@),
        r matches Ok(v) ==> v@.map_values(|c: Vec<ColumnDecl>| columns_view(c@)) == created_columns_of(sql@),
        r matches Ok(v) ==> v@.len() == created_names_of(sql@).len(),
{
    Ok(Parser::parse_sql(&SnowflakeDialect {}, sql)?.iter().map(|s| match s {
        Statement::CreateTable(t) => t.columns.iter().map(|c| ColumnDecl {
            name: c.name.value.clone(),
            data_type: Some(c.data_type.to_string()),
        }).collect(),
        Statement::CreateView(v) => v.columns.iter().map(|c| ColumnDecl {
            name: c.name.value.clone(),
            data_type: c.data_type.as_ref().map(|d| d.to_string()),
        }).collect(),
        _ => Vec::new(),
    }).collect())
}

/// Relies on str::to_lowercase: the result depends on the characters alone.
#[verifier::external_body]
fn lowercase(s: &str) -> (r: String)
    ensures
        r@ == lower_of(s@),
{
    s.to_lowercase()
}

/// The canonical form of the leading part of an object name.
pub open spec fn normalized_db_name(name: Seq<char>) -> Seq<char> {
    lower_of(name)
}

/// The text of a name part; empty for one that is not an identifier.
pub open spec fn part_text(p: Option<String>) -> Seq<char> {
    match p {
        Some(s) => s@,
        None => Seq::empty(),
    }
}

/// Every part of the name is an identifier.
pub open spec fn name_complete(parts: Seq<Option<String>>) -> bool {
    forall|i: int| 0 <= i < parts.len() ==> (#[trigger] parts[i]) is Some
}

/// The canonical identity of an object: the leading part normalized, the
/// others as written, joined by dots.
pub open spec fn joined_name(parts: Seq<Option<String>>) -> Seq<char>
    decreases parts.len(),
{
    if parts.len() == 0 {
        Seq::empty()
    } else if parts.len() == 1 {
        normalized_db_name(part_text(parts[0]))
    } else {
        joined_name(parts.drop_last()) + seq!['.'] + part_text(parts.last())
    }
}

/// The text of a column's declared type; empty where none is declared.
pub open spec fn type_text(t: Option<String>) -> Seq<char> {
    match t {
        Some(s) => s@,
        None => Seq::empty(),
    }
}

/// The identity of a column of the object `object`: `object.name-type`.
pub open spec fn column_identity(object: Seq<char>, c: ColumnDecl) -> Seq<char> {
    object + seq!['.'] + c.name@ + seq!['-'] + type_text(c.data_type)
}

/// Lower-cases the leading part of an object name; no aliases are defined,
/// so the lower-cased name is the canonical one.
pub fn normalize_db_name(name: &str) -> (r: String)
    ensures
        r@ == normalized_db_name(name@),
{
    lowercase(name)
}

/// Joins the parts of an object name into its canonical identity.
pub fn create_joined_objectname(name: &Vec<Option<String>>) -> (r: String)
    requires
        name_complete(name@),
    ensures
        r@ == joined_name(name@),
{
    proof {
        reveal_strlit(".");
    }
    let mut acc = String::new();
    let mut i: usize = 0;
    while i < name.len()
        invariant
            i <= name.len(),
            name_complete(name@),
            acc@ == joined_name(name@.subrange(0, i as int)),
        decreases name.len() - i,
    {
        assert(name@.subrange(0, i as int + 1).drop_last() =~= name@.subrange(0, i as int));
        if let Some(p) = &name[i] {
            if i == 0 {
                acc = normalize_db_name(p.as_str());
            } else {
                let ghost before = acc@;
                proof {
                    reveal_strlit(".");
                }
                acc.append(".");
                acc.append(p.as_str());
                assert(acc@ =~= before + seq!['.'] + p@);
            }
        }
        i = i + 1;
    }
    assert(name@.subrange(0, name.len() as int) =~= name@);
    acc
}

/// The identity of a column of the object `object`.
pub fn make_column_identity(object: &str, c: &ColumnDecl) -> (r: String)
    ensures
        r@ == column_identity(object@, *c),
{
    proof {
        reveal_strlit(".");
        reveal_strlit("-");
    }
    let mut r = String::from_str(object);
    r.append(".");
    r.append(c.name.as_str());
    r.append("-");
    if let Some(t) = &c.data_type {
        r.append(t.as_str());
    }
    assert(r@ =~= column_identity(object@, *c));
    r
}

} // verus!
