//! What the engine knows of a table, and predicates checked against it.
use vstd::prelude::*;
use vstd::hash_map::StringHashMap;
use crate::engine::error::{Error, ErrorView};
use crate::engine::predicate;
use crate::engine::predicate::{Predicate, PredicateView};
use crate::json;
use crate::json::{Json, JsonView};
use crate::number;
use crate::number::NumberView;
use crate::sort;
use crate::text;

verus! {

broadcast use vstd::hash_map::group_hash_map_axioms;

/// The columns of a table, its key columns, and the declared types by column name.
pub struct TableInfo {
    pub columns: Vec<String>,
    pub pk: Vec<String>,
    pub column_types: StringHashMap<String>,
}

/// The model of what is known of a table.
pub struct TableInfoView {
    pub columns: Seq<Seq<char>>,
    pub pk: Seq<Seq<char>>,
    pub column_types: Map<Seq<char>, Seq<char>>,
}

impl View for TableInfo {
    type V = TableInfoView;

    open spec fn view(&self) -> TableInfoView {
        TableInfoView {
            columns: text::texts(self.columns@),
            pk: text::texts(self.pk@),
            column_types: self.column_types@.map_values(|s: String| s@),
        }
    }
}

/// One column as SQLite lists it: its place, its name, its declared type, and its place in the
/// primary key, counted from one, or zero.
pub struct ColumnRow {
    pub cid: i64,
    pub name: String,
    pub decl: String,
    pub pk: i64,
}

/// The model of a listed column.
pub struct ColumnView {
    pub cid: i64,
    pub name: Seq<char>,
    pub decl: Seq<char>,
    pub pk: i64,
}

impl View for ColumnRow {
    type V = ColumnView;

    open spec fn view(&self) -> ColumnView {
        ColumnView { cid: self.cid, name: self.name@, decl: self.decl@, pk: self.pk }
    }
}

/// The models of some columns.
pub open spec fn column_views(rows: Seq<ColumnRow>) -> Seq<ColumnView> {
    Seq::new(rows.len(), |i: int| rows[i]@)
}

/// The order of columns by their places.
pub open spec fn by_place() -> spec_fn(ColumnView, ColumnView) -> bool {
    |a: ColumnView, b: ColumnView| a.cid <= b.cid
}

/// The columns in the order of their places.
pub open spec fn in_place_order(rows: Seq<ColumnView>) -> Seq<ColumnView> {
    sort::sorted(rows, by_place())
}

/// The names of some columns.
pub open spec fn names(rows: Seq<ColumnView>) -> Seq<Seq<char>> {
    Seq::new(rows.len(), |i: int| rows[i].name)
}

/// The declared types by column name.
pub open spec fn declared_types(rows: Seq<ColumnView>) -> Map<Seq<char>, Seq<char>>
    decreases rows.len(),
{
    if rows.len() == 0 {
        Map::empty()
    } else {
        declared_types(rows.drop_last()).insert(rows.last().name, rows.last().decl)
    }
}

/// The key columns among some columns, each behind its place in the key.
pub open spec fn key_places(rows: Seq<ColumnView>) -> Seq<(i64, Seq<char>)>
    decreases rows.len(),
{
    if rows.len() == 0 {
        Seq::empty()
    } else if rows.last().pk > 0 {
        key_places(rows.drop_last()).push((rows.last().pk, rows.last().name))
    } else {
        key_places(rows.drop_last())
    }
}

/// The order of key columns by their places in the key.
pub open spec fn by_key_place() -> spec_fn((i64, Seq<char>), (i64, Seq<char>)) -> bool {
    |a: (i64, Seq<char>), b: (i64, Seq<char>)| a.0 <= b.0
}

/// The names of the key columns in the order of the key.
pub open spec fn key_names(rows: Seq<ColumnView>) -> Seq<Seq<char>> {
    second_parts(sort::sorted(key_places(rows), by_key_place()))
}

/// The second parts of some pairs.
pub open spec fn second_parts(pairs: Seq<(i64, Seq<char>)>) -> Seq<Seq<char>> {
    Seq::new(pairs.len(), |i: int| pairs[i].1)
}

/// What the listed columns say of a table.
pub open spec fn described(rows: Seq<ColumnView>) -> TableInfoView {
    let ordered = in_place_order(rows);
    TableInfoView {
        columns: names(ordered),
        pk: key_names(ordered),
        column_types: declared_types(ordered),
    }
}

/// The result of inspecting a table: a table without columns does not exist.
pub open spec fn inspected(table: Seq<char>, rows: Seq<ColumnView>) -> Result<TableInfoView, ErrorView> {
    if rows.len() == 0 {
        Err(ErrorView::Bad("table "@ + table + " does not exist"@))
    } else {
        Ok(described(rows))
    }
}

/// The model of a result.
pub open spec fn info_result(r: Result<TableInfo, Error>) -> Result<TableInfoView, ErrorView> {
    match r {
        Ok(v) => Ok(v@),
        Err(e) => Err(e@),
    }
}

/// `str::to_uppercase`: the upper-case form of a text.
pub uninterp spec fn uppercase(s: Seq<char>) -> Seq<char>;

/// Whether every character of a text is an ASCII character.
pub open spec fn is_ascii(s: Seq<char>) -> bool {
    forall|i: int| 0 <= i < s.len() ==> (#[trigger] s[i] as u32) < 128
}

/// The upper-case form of an ASCII character: `a` to `z` become `A` to `Z`.
pub open spec fn ascii_upper_char(c: char) -> char {
    if 'a' <= c <= 'z' {
        (c as u32 - 32) as char
    } else {
        c
    }
}

/// The upper-case form of an ASCII text, character by character.
pub open spec fn ascii_upper(s: Seq<char>) -> Seq<char> {
    Seq::new(s.len(), |i: int| ascii_upper_char(s[i]))
}

/// The upper-case form of a text, by `str::to_uppercase`, which depends on the text alone. In a
/// text of ASCII characters `a` to `z` become `A` to `Z` and the others stay. What becomes of
/// other characters stays unsaid.
#[verifier::external_body]
pub(crate) fn to_upper(s: &str) -> (r: String)
    ensures
        r@ == uppercase(s@),
        is_ascii(s@) ==> r@ == ascii_upper(s@),
{
    s.to_uppercase()
}

/// Whether an upper-case declared type is that of a boolean column.
pub open spec fn names_bool(upper: Seq<char>) -> bool {
    text::contains(upper, "BOOL"@)
}

/// Whether a declared type is that of a boolean column.
pub open spec fn booleanish(decl: Seq<char>) -> bool {
    names_bool(uppercase(decl))
}

/// The declared type of a column: empty where none is known.
pub open spec fn declared_type(info: TableInfoView, column: Seq<char>) -> Seq<char> {
    if info.column_types.contains_key(column) {
        info.column_types[column]
    } else {
        Seq::empty()
    }
}

/// A value compared with a column, as the database stores it: booleans are stored as 0 and 1, in
/// boolean columns only.
pub open spec fn coerced(boolean_column: bool, value: JsonView) -> Result<JsonView, ErrorView> {
    match value {
        JsonView::Bool(b) => if boolean_column {
            Ok(
                JsonView::Number(
                    number::integer(
                        if b {
                            1
                        } else {
                            0
                        },
                    ),
                ),
            )
        } else {
            Err(ErrorView::BadInput("boolean predicates require BOOLEAN columns"@))
        },
        _ => Ok(value),
    }
}

/// The error for a predicate on a column that the table lacks.
pub open spec fn no_such_column(column: Seq<char>) -> ErrorView {
    ErrorView::BadInput("predicate column "@ + column + " does not exist"@)
}

/// A value compared with a column of a table, as the database stores it.
pub open spec fn normalized_value(
    info: TableInfoView,
    column: Seq<char>,
    value: JsonView,
) -> Result<JsonView, ErrorView> {
    if !info.columns.contains(column) {
        Err(no_such_column(column))
    } else {
        coerced(booleanish(declared_type(info, column)), value)
    }
}

/// Some values compared with a column, or the first error among them.
pub open spec fn normalized_values(
    info: TableInfoView,
    column: Seq<char>,
    values: Seq<JsonView>,
) -> Result<Seq<JsonView>, ErrorView>
    decreases values.len(),
{
    if values.len() == 0 {
        Ok(Seq::empty())
    } else {
        match normalized_values(info, column, values.drop_last()) {
            Err(e) => Err(e),
            Ok(front) => match normalized_value(info, column, values.last()) {
                Err(e) => Err(e),
                Ok(v) => Ok(front.push(v)),
            },
        }
    }
}

/// A predicate with every value as the database stores it, or the first error in it. Every column
/// has to be one of the table, with or without values to compare it with. A range needs a bound
/// that is not null.
pub open spec fn normalized(info: TableInfoView, p: PredicateView) -> Result<PredicateView, ErrorView>
    decreases p,
{
    match p {
        PredicateView::All => Ok(PredicateView::All),
        PredicateView::Eq { column, value } => match normalized_value(info, column, value) {
            Ok(v) => Ok(PredicateView::Eq { column, value: v }),
            Err(e) => Err(e),
        },
        PredicateView::Range { op, column, value } => if value == JsonView::Null {
            Err(
                ErrorView::BadInput(
                    "range predicate "@ + predicate::op_key(op) + " requires a non-null value"@,
                ),
            )
        } else {
            match normalized_value(info, column, value) {
                Ok(v) => Ok(PredicateView::Range { op, column, value: v }),
                Err(e) => Err(e),
            }
        },
        PredicateView::In { column, values } => if !info.columns.contains(column) {
            Err(no_such_column(column))
        } else {
            match normalized_values(info, column, values) {
                Ok(vs) => Ok(PredicateView::In { column, values: vs }),
                Err(e) => Err(e),
            }
        },
        PredicateView::And(children) => match normalized_list(info, children) {
            Ok(ps) => Ok(PredicateView::And(ps)),
            Err(e) => Err(e),
        },
    }
}

/// Some predicates with every value as the database stores it, or the first error among them.
pub open spec fn normalized_list(
    info: TableInfoView,
    list: Seq<PredicateView>,
) -> Result<Seq<PredicateView>, ErrorView>
    decreases list,
{
    if list.len() == 0 {
        Ok(Seq::empty())
    } else {
        match normalized_list(info, list.drop_last()) {
            Err(e) => Err(e),
            Ok(front) => match normalized(info, list.last()) {
                Err(e) => Err(e),
                Ok(p) => Ok(front.push(p)),
            },
        }
    }
}

/// The model of a result.
pub open spec fn value_result(r: Result<Json, Error>) -> Result<JsonView, ErrorView> {
    match r {
        Ok(v) => Ok(v@),
        Err(e) => Err(e@),
    }
}

/// The model of a result.
pub open spec fn values_result(r: Result<Vec<Json>, Error>) -> Result<Seq<JsonView>, ErrorView> {
    match r {
        Ok(v) => Ok(json::views(v@)),
        Err(e) => Err(e@),
    }
}

/// The model of a result.
pub open spec fn predicate_result(r: Result<Predicate, Error>) -> Result<PredicateView, ErrorView> {
    match r {
        Ok(p) => Ok(p@),
        Err(e) => Err(e@),
    }
}

/// The model of a result.
pub open spec fn predicates_result(
    r: Result<Vec<Predicate>, Error>,
) -> Result<Seq<PredicateView>, ErrorView> {
    match r {
        Ok(p) => Ok(predicate::predicate_views(p@)),
        Err(e) => Err(e@),
    }
}

/// Whether an upper-case declared type is that of a boolean column.
pub fn mentions_bool(upper: &str) -> (r: bool)
    ensures
        r == names_bool(upper@),
{
    text::contains_text(upper, "BOOL")
}

/// Whether a declared type is that of a boolean column.
pub fn is_booleanish(decl: &str) -> (r: bool)
    ensures
        r == booleanish(decl@),
        is_ascii(decl@) ==> r == names_bool(ascii_upper(decl@)),
{
    let upper = to_upper(decl);
    mentions_bool(upper.as_str())
}

/// A value compared with a column, as the database stores it.
pub fn coerce_value(boolean_column: bool, value: &Json) -> (r: Result<Json, Error>)
    ensures
        value_result(r) == coerced(boolean_column, value@),
{
    match value {
        Json::Bool(b) => {
            if boolean_column {
                Ok(
                    Json::integer(
                        if *b {
                            1
                        } else {
                            0
                        },
                    ),
                )
            } else {
                Err(Error::BadInput("boolean predicates require BOOLEAN columns".to_string()))
            }
        },
        _ => Ok(value.clone()),
    }
}

fn missing_column(column: &str) -> (r: Error)
    ensures
        r@ == no_such_column(column@),
{
    let mut message = "predicate column ".to_string();
    message.append(column);
    message.append(" does not exist");
    Error::BadInput(message)
}

/// A value compared with a column of a table, as the database stores it.
pub fn normalize_value(info: &TableInfo, column: &str, value: &Json) -> (r: Result<Json, Error>)
    ensures
        value_result(r) == normalized_value(info@, column@, value@),
        info@.columns.contains(column@) && is_ascii(declared_type(info@, column@)) ==> value_result(r) == coerced(
            names_bool(ascii_upper(declared_type(info@, column@))),
            value@,
        ),
{
    if !text::has_text(&info.columns, column) {
        return Err(missing_column(column));
    }
    let boolean_column = match info.column_types.get(column) {
        Some(decl) => is_booleanish(decl.as_str()),
        None => {
            let decl = String::new();
            is_booleanish(decl.as_str())
        },
    };
    coerce_value(boolean_column, value)
}

proof fn lemma_values_error_stays(
    info: TableInfoView,
    column: Seq<char>,
    values: Seq<JsonView>,
    k: int,
)
    requires
        0 <= k <= values.len(),
        normalized_values(info, column, values.take(k)) is Err,
    ensures
        normalized_values(info, column, values) == normalized_values(info, column, values.take(k)),
    decreases values.len() - k,
{
    if k == values.len() {
        assert(values.take(k) =~= values);
    } else {
        assert(values.take(k + 1).drop_last() =~= values.take(k));
        lemma_values_error_stays(info, column, values, k + 1);
    }
}

proof fn lemma_list_error_stays(info: TableInfoView, list: Seq<PredicateView>, k: int)
    requires
        0 <= k <= list.len(),
        normalized_list(info, list.take(k)) is Err,
    ensures
        normalized_list(info, list) == normalized_list(info, list.take(k)),
    decreases list.len() - k,
{
    if k == list.len() {
        assert(list.take(k) =~= list);
    } else {
        assert(list.take(k + 1).drop_last() =~= list.take(k));
        lemma_list_error_stays(info, list, k + 1);
    }
}

fn normalize_values(info: &TableInfo, column: &str, values: &Vec<Json>) -> (r: Result<Vec<Json>, Error>)
    ensures
        values_result(r) == normalized_values(info@, column@, json::views(values@)),
{
    let ghost vs = json::views(values@);
    let mut out: Vec<Json> = Vec::new();
    let mut i: usize = 0;
    assert(json::views(out@) =~= Seq::empty());
    while i < values.len()
        invariant
            i <= values@.len(),
            vs == json::views(values@),
            normalized_values(info@, column@, vs.take(i as int)) == Ok::<Seq<JsonView>, ErrorView>(
                json::views(out@),
            ),
        decreases values@.len() - i,
    {
        assert(vs.take(i + 1).drop_last() =~= vs.take(i as int));
        assert(vs.take(i + 1).last() == values@[i as int]@);
        match normalize_value(info, column, &values[i]) {
            Ok(v) => {
                let ghost before = json::views(out@);
                out.push(v);
                assert(json::views(out@) =~= before.push(v@));
            },
            Err(e) => {
                proof {
                    lemma_values_error_stays(info@, column@, vs, i + 1);
                }
                return Err(e);
            },
        }
        i += 1;
    }
    assert(vs.take(values@.len() as int) =~= vs);
    Ok(out)
}

fn normalize_children(info: &TableInfo, children: &Vec<Predicate>) -> (r: Result<Vec<Predicate>, Error>)
    ensures
        predicates_result(r) == normalized_list(info@, predicate::predicate_views(children@)),
    decreases children,
{
    let ghost ps = predicate::predicate_views(children@);
    let mut out: Vec<Predicate> = Vec::new();
    let mut i: usize = 0;
    assert(predicate::predicate_views(out@) =~= Seq::empty());
    while i < children.len()
        invariant
            i <= children@.len(),
            ps == predicate::predicate_views(children@),
            normalized_list(info@, ps.take(i as int)) == Ok::<Seq<PredicateView>, ErrorView>(
                predicate::predicate_views(out@),
            ),
        decreases children@.len() - i,
    {
        assert(ps.take(i + 1).drop_last() =~= ps.take(i as int));
        assert(ps.take(i + 1).last() == children@[i as int]@);
        assert(decreases_to!(children => children@[i as int]));
        match normalize_predicate(info, &children[i]) {
            Ok(p) => {
                let ghost before = predicate::predicate_views(out@);
                out.push(p);
                assert(predicate::predicate_views(out@) =~= before.push(p@));
            },
            Err(e) => {
                proof {
                    lemma_list_error_stays(info@, ps, i + 1);
                }
                return Err(e);
            },
        }
        i += 1;
    }
    assert(ps.take(children@.len() as int) =~= ps);
    Ok(out)
}

/// A predicate with every value as the database stores it. Everything downstream of it takes
/// predicates in this form.
pub fn normalize_predicate(info: &TableInfo, p: &Predicate) -> (r: Result<Predicate, Error>)
    ensures
        predicate_result(r) == normalized(info@, p@),
    decreases p,
{
    match p {
        Predicate::All => Ok(Predicate::All),
        Predicate::Eq { column, value } => match normalize_value(info, column.as_str(), value) {
            Ok(v) => Ok(Predicate::Eq { column: column.clone(), value: v }),
            Err(e) => Err(e),
        },
        Predicate::Range { op, column, value } => {
            if value.is_null() {
                let mut message = "range predicate ".to_string();
                message.append(op.key());
                message.append(" requires a non-null value");
                return Err(Error::BadInput(message));
            }
            match normalize_value(info, column.as_str(), value) {
                Ok(v) => Ok(Predicate::Range { op: *op, column: column.clone(), value: v }),
                Err(e) => Err(e),
            }
        },
        Predicate::In { column, values } => {
            if !text::has_text(&info.columns, column.as_str()) {
                return Err(missing_column(column.as_str()));
            }
            match normalize_values(info, column.as_str(), values) {
                Ok(vs) => Ok(Predicate::In { column: column.clone(), values: vs }),
                Err(e) => Err(e),
            }
        },
        Predicate::And(children) => {
            proof {
                predicate::lemma_and_view(*children);
            }
            match normalize_children(info, children) {
                Ok(ps) => {
                    proof {
                        predicate::lemma_and_view(ps);
                    }
                    Ok(Predicate::And(ps))
                },
                Err(e) => Err(e),
            }
        },
    }
}

type Placed = (i64, (String, String, i64));

spec fn placed_view() -> spec_fn(Placed) -> ColumnView {
    |x: Placed| ColumnView { cid: x.0, name: x.1.0@, decl: x.1.1@, pk: x.1.2 }
}

fn order_columns(rows: Vec<ColumnRow>) -> (r: Vec<Placed>)
    ensures
        r@.map_values(placed_view()) == in_place_order(column_views(rows@)),
{
    let ghost all = rows@;
    let mut items: Vec<Placed> = Vec::new();
    for row in it: rows
        invariant
            it.seq() == all,
            items@.len() == it.index(),
            forall|j: int| 0 <= j < items@.len() ==> placed_view()(#[trigger] items@[j]) == all[j]@,
    {
        items.push((row.cid, (row.name, row.decl, row.pk)));
    }
    assert(items@.map_values(placed_view()) =~= column_views(all));
    proof {
        sort::lemma_sorted_map(
            items@,
            placed_view(),
            sort::by_key::<i64, (String, String, i64)>(),
            by_place(),
            |x: Placed| true,
        );
    }
    sort::sort_by_key(items)
}

spec fn place_view() -> spec_fn((i64, String)) -> (i64, Seq<char>) {
    |x: (i64, String)| (x.0, x.1@)
}

fn order_keys(keys: Vec<(i64, String)>) -> (r: Vec<String>)
    ensures
        text::texts(r@) == second_parts(sort::sorted(keys@.map_values(place_view()), by_key_place())),
{
    proof {
        sort::lemma_sorted_map(keys@, place_view(), sort::by_key::<i64, String>(), by_key_place(), |x: (i64, String)| true);
    }
    let ghost want = sort::sorted(keys@.map_values(place_view()), by_key_place());
    let sorted = sort::sort_by_key(keys);
    let ghost all = sorted@;
    let mut out: Vec<String> = Vec::new();
    for key in it: sorted
        invariant
            it.seq() == all,
            all.map_values(place_view()) == want,
            out@.len() == it.index(),
            forall|j: int| 0 <= j < out@.len() ==> (#[trigger] out@[j])@ == all[j].1@,
    {
        out.push(key.1);
    }
    assert forall|j: int| 0 <= j < out@.len() implies (#[trigger] out@[j])@ == want[j].1 by {
        assert(want[j] == place_view()(all[j]));
    }
    assert(text::texts(out@) =~= second_parts(want));
    out
}

/// What is known of a table from its listed columns.
pub fn inspect_table(table: &str, rows: Vec<ColumnRow>) -> (r: Result<TableInfo, Error>)
    ensures
        info_result(r) == inspected(table@, column_views(rows@)),
{
    if rows.len() == 0 {
        let mut message = "table ".to_string();
        message.append(table);
        message.append(" does not exist");
        return Err(Error::Bad(message));
    }
    let ghost ordered = in_place_order(column_views(rows@));
    let cols = order_columns(rows);
    let mut columns: Vec<String> = Vec::new();
    let mut column_types: StringHashMap<String> = StringHashMap::new();
    let mut keys: Vec<(i64, String)> = Vec::new();
    let mut i: usize = 0;
    assert(column_types@.map_values(|s: String| s@) =~= declared_types(ordered.take(0)));
    assert(keys@.map_values(place_view()) =~= key_places(ordered.take(0)));
    while i < cols.len()
        invariant
            i <= cols@.len(),
            cols@.map_values(placed_view()) == ordered,
            columns@.len() == i,
            forall|j: int| 0 <= j < i ==> (#[trigger] columns@[j])@ == ordered[j].name,
            column_types@.map_values(|s: String| s@) == declared_types(ordered.take(i as int)),
            keys@.map_values(place_view()) == key_places(ordered.take(i as int)),
        decreases cols@.len() - i,
    {
        let col = &cols[i];
        assert(ordered[i as int] == placed_view()(cols@[i as int]));
        assert(ordered.take(i + 1).drop_last() =~= ordered.take(i as int));
        let ghost types_before = column_types@;
        let ghost keys_before = keys@;
        columns.push(col.1.0.clone());
        column_types.insert(col.1.0.clone(), col.1.1.clone());
        assert(column_types@.map_values(|s: String| s@) =~= types_before.map_values(|s: String| s@).insert(
            col.1.0@,
            col.1.1@,
        ));
        if col.1.2 > 0 {
            keys.push((col.1.2, col.1.0.clone()));
            assert(keys@.map_values(place_view()) =~= keys_before.map_values(place_view()).push(
                (col.1.2, col.1.0@),
            ));
        }
        i += 1;
    }
    assert(ordered.take(ordered.len() as int) =~= ordered);
    assert(text::texts(columns@) =~= names(ordered));
    let pk = order_keys(keys);
    Ok(TableInfo { columns, pk, column_types })
}

/// A watched table has its key columns as they were when it was first watched.
pub open spec fn watched(
    info: TableInfoView,
    table: Seq<char>,
    pk: Option<Seq<Seq<char>>>,
) -> Result<TableInfoView, ErrorView> {
    match pk {
        Some(pk) => Ok(TableInfoView { pk, ..info }),
        None => Err(ErrorView::Bad("table "@ + table + " is not watched by Electrolite"@)),
    }
}

/// The key columns of a table as text, from which they are read again.
pub fn key_columns_text(info: &TableInfo) -> (r: String)
    ensures
        r@ == json::encoded(JsonView::Array(json::text_values(info@.pk))),
        json::parsed_texts(r@) == Some(info@.pk),
{
    json::texts_to_json(&info.pk)
}

/// The key columns that a stored text lists: `None` where it is no list of texts.
pub fn stored_key_columns(stored: &str) -> (r: Option<Vec<String>>)
    ensures
        json::option_texts(r) == json::parsed_texts(stored@),
{
    json::texts_from_json(stored)
}

/// What is known of a watched table, given its key columns as they were stored.
pub fn watched_info(info: TableInfo, table: &str, pk: Option<Vec<String>>) -> (r: Result<TableInfo, Error>)
    ensures
        info_result(r) == watched(info@, table@, json::option_texts(pk)),
{
    match pk {
        Some(pk) => Ok(TableInfo { columns: info.columns, pk, column_types: info.column_types }),
        None => {
            let mut message = "table ".to_string();
            message.append(table);
            message.append(" is not watched by Electrolite");
            Err(Error::Bad(message))
        },
    }
}

proof fn lemma_values_stable(info: TableInfoView, column: Seq<char>, values: Seq<JsonView>)
    ensures
        normalized_values(info, column, values) matches Ok(vs) ==> vs.len() == values.len()
            && normalized_values(info, column, vs) == Ok::<Seq<JsonView>, ErrorView>(vs),
    decreases values.len(),
{
    if values.len() > 0 {
        lemma_values_stable(info, column, values.drop_last());
        if let Ok(vs) = normalized_values(info, column, values) {
            let front = normalized_values(info, column, values.drop_last())->Ok_0;
            assert(vs.drop_last() =~= front);
        }
    }
}

proof fn lemma_list_stable(info: TableInfoView, list: Seq<PredicateView>)
    ensures
        normalized_list(info, list) matches Ok(ps) ==> ps.len() == list.len() && normalized_list(info, ps) == Ok::<
            Seq<PredicateView>,
            ErrorView,
        >(ps),
    decreases list,
{
    if list.len() > 0 {
        lemma_list_stable(info, list.drop_last());
        law_normalization_is_stable(info, list.last());
        if let Ok(ps) = normalized_list(info, list) {
            let front = normalized_list(info, list.drop_last())->Ok_0;
            assert(ps.drop_last() =~= front);
        }
    }
}

/// Normalizing a predicate that is normalized already leaves it as it is.
pub proof fn law_normalization_is_stable(info: TableInfoView, p: PredicateView)
    ensures
        normalized(info, p) matches Ok(q) ==> normalized(info, q) == Ok::<PredicateView, ErrorView>(q),
    decreases p,
{
    match p {
        PredicateView::In { column, values } => {
            lemma_values_stable(info, column, values);
        },
        PredicateView::And(children) => {
            lemma_list_stable(info, children);
        },
        _ => {},
    }
}

/// Whether a value cannot be compared with a column: the table lacks the column, or the value is
/// boolean and the column is not.
pub open spec fn mismatched(info: TableInfoView, column: Seq<char>, value: JsonView) -> bool {
    !info.columns.contains(column) || (value is Bool && !booleanish(declared_type(info, column)))
}

/// Whether a predicate makes no sense for a table: it names a column that the table lacks, compares
/// a column that is not boolean with a boolean, or bounds a range by null.
pub open spec fn senseless(info: TableInfoView, p: PredicateView) -> bool
    decreases p,
{
    match p {
        PredicateView::All => false,
        PredicateView::Eq { column, value } => mismatched(info, column, value),
        PredicateView::Range { op, column, value } => value == JsonView::Null || mismatched(info, column, value),
        PredicateView::In { column, values } => {
            ||| !info.columns.contains(column)
            ||| exists|i: int| 0 <= i < values.len() && mismatched(info, column, #[trigger] values[i])
        },
        PredicateView::And(children) => exists|i: int|
            0 <= i < children.len() && senseless(info, #[trigger] children[i]),
    }
}

proof fn lemma_values_errors(info: TableInfoView, column: Seq<char>, values: Seq<JsonView>)
    ensures
        normalized_values(info, column, values) is Err <==> exists|i: int|
            0 <= i < values.len() && mismatched(info, column, #[trigger] values[i]),
        normalized_values(info, column, values) matches Err(e) ==> e is BadInput,
    decreases values.len(),
{
    if values.len() > 0 {
        let front = values.drop_last();
        lemma_values_errors(info, column, front);
        if normalized_values(info, column, front) is Err {
            let i = choose|i: int| 0 <= i < front.len() && mismatched(info, column, #[trigger] front[i]);
            assert(mismatched(info, column, values[i]));
        } else if normalized_values(info, column, values) is Err {
            assert(mismatched(info, column, values[values.len() - 1]));
        } else {
            assert forall|i: int| 0 <= i < values.len() implies !mismatched(info, column, #[trigger] values[i]) by {
                if i < front.len() {
                    assert(front[i] == values[i]);
                }
            }
        }
    }
}

proof fn lemma_list_errors(info: TableInfoView, list: Seq<PredicateView>)
    ensures
        normalized_list(info, list) is Err <==> exists|i: int|
            0 <= i < list.len() && senseless(info, #[trigger] list[i]),
        normalized_list(info, list) matches Err(e) ==> e is BadInput,
    decreases list,
{
    if list.len() > 0 {
        let front = list.drop_last();
        lemma_list_errors(info, front);
        law_senseless_predicates_are_bad_input(info, list.last());
        if normalized_list(info, front) is Err {
            let i = choose|i: int| 0 <= i < front.len() && senseless(info, #[trigger] front[i]);
            assert(senseless(info, list[i]));
        } else if normalized_list(info, list) is Err {
            assert(senseless(info, list[list.len() - 1]));
        } else {
            assert forall|i: int| 0 <= i < list.len() implies !senseless(info, #[trigger] list[i]) by {
                if i < front.len() {
                    assert(front[i] == list[i]);
                }
            }
        }
    }
}

/// The bad-input boundary: a predicate is refused exactly where it makes no sense for the table,
/// and then as bad input.
pub proof fn law_senseless_predicates_are_bad_input(info: TableInfoView, p: PredicateView)
    ensures
        normalized(info, p) is Err <==> senseless(info, p),
        normalized(info, p) matches Err(e) ==> e is BadInput,
    decreases p,
{
    match p {
        PredicateView::In { column, values } => {
            assert(p->values == values);
            lemma_values_errors(info, column, values);
        },
        PredicateView::And(children) => {
            assert(p->And_0 == children);
            lemma_list_errors(info, children);
        },
        _ => {},
    }
}

/// Whether a value is another one as the database stores it: a boolean as 1 or 0, and every other
/// value as it is.
pub open spec fn stored_as(v: JsonView, w: JsonView) -> bool {
    match v {
        JsonView::Bool(true) => w == JsonView::Number(NumberView::PosInt(1)),
        JsonView::Bool(false) => w == JsonView::Number(NumberView::PosInt(0)),
        _ => w == v,
    }
}

/// Whether two predicates have one structure and differ in nothing but booleans that one of them
/// writes as 1 and 0.
pub open spec fn same_but_booleans(p: PredicateView, q: PredicateView) -> bool
    decreases p,
{
    match (p, q) {
        (PredicateView::All, PredicateView::All) => true,
        (PredicateView::Eq { column: c, value: v }, PredicateView::Eq { column: d, value: w }) => {
            c == d && stored_as(v, w)
        },
        (
            PredicateView::Range { op: o, column: c, value: v },
            PredicateView::Range { op: u, column: d, value: w },
        ) => o == u && c == d && stored_as(v, w),
        (PredicateView::In { column: c, values: v }, PredicateView::In { column: d, values: w }) => {
            &&& c == d
            &&& v.len() == w.len()
            &&& forall|i: int| 0 <= i < v.len() ==> stored_as(#[trigger] v[i], w[i])
        },
        (PredicateView::And(a), PredicateView::And(b)) => {
            &&& a.len() == b.len()
            &&& forall|i: int| 0 <= i < a.len() ==> same_but_booleans(#[trigger] a[i], b[i])
        },
        _ => false,
    }
}

proof fn lemma_values_stored(info: TableInfoView, column: Seq<char>, values: Seq<JsonView>)
    ensures
        normalized_values(info, column, values) matches Ok(vs) ==> {
            &&& vs.len() == values.len()
            &&& forall|i: int| 0 <= i < values.len() ==> stored_as(#[trigger] values[i], vs[i])
        },
    decreases values.len(),
{
    if values.len() > 0 {
        let front = values.drop_last();
        lemma_values_stored(info, column, front);
        if let Ok(vs) = normalized_values(info, column, values) {
            let ws = normalized_values(info, column, front)->Ok_0;
            assert forall|i: int| 0 <= i < values.len() implies stored_as(#[trigger] values[i], vs[i]) by {
                if i < front.len() {
                    assert(front[i] == values[i]);
                    assert(ws[i] == vs[i]);
                }
            }
        }
    }
}

proof fn lemma_list_same_but_booleans(info: TableInfoView, list: Seq<PredicateView>)
    ensures
        normalized_list(info, list) matches Ok(ps) ==> {
            &&& ps.len() == list.len()
            &&& forall|i: int| 0 <= i < list.len() ==> same_but_booleans(#[trigger] list[i], ps[i])
        },
    decreases list,
{
    if list.len() > 0 {
        let front = list.drop_last();
        lemma_list_same_but_booleans(info, front);
        law_normalization_keeps_the_structure(info, list.last());
        if let Ok(ps) = normalized_list(info, list) {
            let qs = normalized_list(info, front)->Ok_0;
            assert forall|i: int| 0 <= i < list.len() implies same_but_booleans(#[trigger] list[i], ps[i]) by {
                if i < front.len() {
                    assert(front[i] == list[i]);
                    assert(qs[i] == ps[i]);
                }
            }
        }
    }
}

/// Normalizing changes nothing of a predicate but how its booleans are written: kinds, comparisons,
/// columns, values and parts stay, in their order.
pub proof fn law_normalization_keeps_the_structure(info: TableInfoView, p: PredicateView)
    ensures
        normalized(info, p) matches Ok(q) ==> same_but_booleans(p, q),
    decreases p,
{
    match p {
        PredicateView::In { column, values } => {
            assert(p->values == values);
            lemma_values_stored(info, column, values);
            if let Ok(q) = normalized(info, p) {
                assert(q->values == normalized_values(info, column, values)->Ok_0);
            }
        },
        PredicateView::And(children) => {
            assert(p->And_0 == children);
            lemma_list_same_but_booleans(info, children);
            if let Ok(q) = normalized(info, p) {
                assert(q->And_0 == normalized_list(info, children)->Ok_0);
            }
        },
        _ => {},
    }
}

/// Whether a predicate compares with no boolean.
pub open spec fn no_booleans(p: PredicateView) -> bool
    decreases p,
{
    match p {
        PredicateView::All => true,
        PredicateView::Eq { column, value } => !(value is Bool),
        PredicateView::Range { op, column, value } => !(value is Bool),
        PredicateView::In { column, values } => forall|i: int|
            0 <= i < values.len() ==> !((#[trigger] values[i]) is Bool),
        PredicateView::And(children) => forall|i: int|
            0 <= i < children.len() ==> no_booleans(#[trigger] children[i]),
    }
}

proof fn lemma_same_without_booleans(p: PredicateView, q: PredicateView)
    requires
        same_but_booleans(p, q),
        no_booleans(p),
    ensures
        p == q,
    decreases p,
{
    match (p, q) {
        (PredicateView::In { column: c, values: v }, PredicateView::In { column: d, values: w }) => {
            assert(p->values == v && q->values == w);
            assert forall|i: int| 0 <= i < v.len() implies v[i] == w[i] by {
                assert(stored_as(v[i], w[i]));
            }
            assert(v =~= w);
        },
        (PredicateView::And(a), PredicateView::And(b)) => {
            assert(p->And_0 == a && q->And_0 == b);
            assert forall|i: int| 0 <= i < a.len() implies a[i] == b[i] by {
                assert(same_but_booleans(a[i], b[i]));
                assert(no_booleans(a[i]));
                lemma_same_without_booleans(a[i], b[i]);
            }
            assert(a =~= b);
        },
        _ => {},
    }
}

/// A predicate without booleans is normalized as it stands, so it selects the rows that it selected.
pub proof fn law_normalization_keeps_predicates_without_booleans(
    info: TableInfoView,
    p: PredicateView,
    row: JsonView,
)
    requires
        no_booleans(p),
    ensures
        normalized(info, p) matches Ok(q) ==> q == p && predicate::selects(q, row) == predicate::selects(p, row),
{
    law_normalization_keeps_the_structure(info, p);
    if let Ok(q) = normalized(info, p) {
        lemma_same_without_booleans(p, q);
    }
}

/// Whether a row is another one as the database stores it: it has the same columns, and the values
/// as they are stored.
pub open spec fn row_stored_as(row: JsonView, stored: JsonView) -> bool {
    forall|column: Seq<char>|
        match (#[trigger] json::field(row, column), json::field(stored, column)) {
            (Some(v), Some(w)) => stored_as(v, w),
            (None, None) => true,
            _ => false,
        }
}

/// Whether booleans are compared with booleans only: no column of a row that a predicate compares
/// with a boolean holds a number, and none that holds a boolean is compared with a number.
pub open spec fn booleans_apart(p: PredicateView, row: JsonView) -> bool
    decreases p,
{
    match p {
        PredicateView::All => true,
        PredicateView::Eq { column, value } => value_apart(row, column, value),
        PredicateView::Range { op, column, value } => value_apart(row, column, value),
        PredicateView::In { column, values } => forall|i: int|
            0 <= i < values.len() ==> value_apart(row, column, #[trigger] values[i]),
        PredicateView::And(children) => forall|i: int|
            0 <= i < children.len() ==> booleans_apart(#[trigger] children[i], row),
    }
}

/// Whether a value and what a column of a row holds are not a boolean and a number.
pub open spec fn value_apart(row: JsonView, column: Seq<char>, value: JsonView) -> bool {
    match json::field(row, column) {
        Some(held) => !(held is Bool && value is Number) && !(held is Number && value is Bool),
        None => true,
    }
}

proof fn lemma_stored_values(v: JsonView, w: JsonView, held: JsonView, kept: JsonView)
    requires
        stored_as(v, w),
        stored_as(held, kept),
        !(held is Bool && v is Number),
        !(held is Number && v is Bool),
    ensures
        json::same_json(held, v) == json::same_json(kept, w),
        json::same_json(v, held) == json::same_json(w, kept),
        predicate::rank(held, v) == predicate::rank(kept, w),
{
    if held is Bool && v is Bool {
        number::law_integers_keep_their_order(0, 1);
        assert(number::integer(0) == NumberView::PosInt(0) && number::integer(1) == NumberView::PosInt(1));
    }
}

/// Normalizing does not change which rows a predicate selects: a row as the database stores it
/// satisfies the normalized predicate exactly where the row with its booleans satisfies the
/// predicate as it was written.
pub proof fn law_normalization_selects_the_same_rows(
    p: PredicateView,
    q: PredicateView,
    row: JsonView,
    stored: JsonView,
)
    requires
        same_but_booleans(p, q),
        row_stored_as(row, stored),
        booleans_apart(p, row),
    ensures
        predicate::selects(q, stored) == predicate::selects(p, row),
    decreases p,
{
    match (p, q) {
        (PredicateView::Eq { column: c, value: v }, PredicateView::Eq { column: d, value: w }) => {
            if let Some(held) = json::field(row, c) {
                lemma_stored_values(v, w, held, json::field(stored, c)->0);
            }
        },
        (
            PredicateView::Range { op: o, column: c, value: v },
            PredicateView::Range { op: u, column: d, value: w },
        ) => {
            if let Some(held) = json::field(row, c) {
                lemma_stored_values(v, w, held, json::field(stored, c)->0);
            }
        },
        (PredicateView::In { column: c, values: v }, PredicateView::In { column: d, values: w }) => {
            assert(p->values == v && q->values == w);
            if let Some(held) = json::field(row, c) {
                let kept = json::field(stored, c)->0;
                assert forall|i: int| 0 <= i < v.len() implies json::same_json(#[trigger] v[i], held)
                    == json::same_json(w[i], kept) by {
                    assert(stored_as(v[i], w[i]) && value_apart(row, c, v[i]));
                    lemma_stored_values(v[i], w[i], held, kept);
                }
                if predicate::selects(p, row) {
                    let i = choose|i: int| 0 <= i < v.len() && json::same_json(#[trigger] v[i], held);
                    assert(json::same_json(w[i], kept));
                }
                if predicate::selects(q, stored) {
                    let i = choose|i: int| 0 <= i < w.len() && json::same_json(#[trigger] w[i], kept);
                    assert(json::same_json(v[i], held));
                }
            }
        },
        (PredicateView::And(a), PredicateView::And(b)) => {
            assert(p->And_0 == a && q->And_0 == b);
            assert forall|i: int| 0 <= i < a.len() implies predicate::selects(#[trigger] a[i], row)
                == predicate::selects(b[i], stored) by {
                assert(same_but_booleans(a[i], b[i]) && booleans_apart(a[i], row));
                law_normalization_selects_the_same_rows(a[i], b[i], row, stored);
            }
            if predicate::selects(p, row) {
                assert forall|i: int| 0 <= i < b.len() implies predicate::selects(#[trigger] b[i], stored) by {
                    assert(predicate::selects(a[i], row));
                }
            }
            if predicate::selects(q, stored) {
                assert forall|i: int| 0 <= i < a.len() implies predicate::selects(#[trigger] a[i], row) by {
                    assert(predicate::selects(b[i], stored));
                }
            }
        },
        _ => {},
    }
}

/// The columns among some that belong to the primary key.
pub open spec fn keys_among(rows: Seq<ColumnView>) -> Seq<ColumnView> {
    rows.filter(|r: ColumnView| r.pk > 0)
}

/// The place in the key and the name of each of some columns.
pub open spec fn places(rows: Seq<ColumnView>) -> Seq<(i64, Seq<char>)> {
    rows.map_values(|r: ColumnView| (r.pk, r.name))
}

proof fn lemma_key_places(rows: Seq<ColumnView>)
    ensures
        key_places(rows) == places(keys_among(rows)),
    decreases rows.len(),
{
    reveal(Seq::filter);
    if rows.len() > 0 {
        lemma_key_places(rows.drop_last());
        let front = keys_among(rows.drop_last());
        assert(places(front.push(rows.last())) =~= places(front).push((rows.last().pk, rows.last().name)));
    }
    assert(key_places(rows) =~= places(keys_among(rows)));
}

proof fn lemma_filter_multiset(a: Seq<ColumnView>, b: Seq<ColumnView>)
    requires
        a.to_multiset() == b.to_multiset(),
    ensures
        keys_among(a).to_multiset() == keys_among(b).to_multiset(),
{
    let f = |r: ColumnView| r.pk > 0;
    a.to_multiset_ensures();
    b.to_multiset_ensures();
    lemma_filter_counts(a);
    lemma_filter_counts(b);
    assert(keys_among(a).to_multiset() =~= keys_among(b).to_multiset());
}

proof fn lemma_filter_counts(a: Seq<ColumnView>)
    ensures
        forall|x: ColumnView| #[trigger]
            keys_among(a).to_multiset().count(x) == (if x.pk > 0 {
                a.to_multiset().count(x)
            } else {
                0
            }),
    decreases a.len(),
{
    broadcast use vstd::seq_lib::group_to_multiset_ensures;

    reveal(Seq::filter);
    if a.len() > 0 {
        let front = a.drop_last();
        lemma_filter_counts(front);
        assert(a =~= front.push(a.last()));
        if a.last().pk > 0 {
            assert(keys_among(a) == keys_among(front).push(a.last()));
        } else {
            assert(keys_among(a) == keys_among(front));
        }
    }
}

/// What is known of a table is what is listed: its columns are the listed ones in the order of their
/// places, and its key has the listed key columns, each as often as it is listed, in the order of
/// their places in the key.
pub proof fn law_tables_are_as_listed(table: Seq<char>, rows: Seq<ColumnView>)
    ensures
        inspected(table, rows) is Ok <==> rows.len() > 0,
        inspected(table, rows) matches Err(e) ==> e is Bad,
        inspected(table, rows) matches Ok(info) ==> {
            &&& exists|ordered: Seq<ColumnView>|
                {
                    &&& #[trigger] ordered.to_multiset() == rows.to_multiset()
                    &&& forall|i: int, j: int|
                        0 <= i < j < ordered.len() ==> (#[trigger] ordered[i]).cid <= (#[trigger] ordered[j]).cid
                    &&& info.columns == ordered.map_values(|r: ColumnView| r.name)
                }
            &&& exists|keys: Seq<(i64, Seq<char>)>|
                {
                    &&& #[trigger] keys.to_multiset() == places(keys_among(rows)).to_multiset()
                    &&& forall|i: int, j: int|
                        0 <= i < j < keys.len() ==> (#[trigger] keys[i]).0 <= (#[trigger] keys[j]).0
                    &&& info.pk == keys.map_values(|k: (i64, Seq<char>)| k.1)
                }
        },
{
    if let Ok(info) = inspected(table, rows) {
        let ordered = in_place_order(rows);
        sort::law_sorting_is_stable(rows, by_place(), |r: ColumnView| false);
        assert forall|i: int, j: int| 0 <= i < j < ordered.len() implies (#[trigger] ordered[i]).cid <= (
        #[trigger] ordered[j]).cid by {
            assert(by_place()(ordered[i], ordered[j]));
        }
        assert(info.columns =~= ordered.map_values(|r: ColumnView| r.name));
        let list = key_places(ordered);
        let keys = sort::sorted(list, by_key_place());
        sort::law_sorting_is_stable(list, by_key_place(), |k: (i64, Seq<char>)| false);
        lemma_key_places(ordered);
        lemma_filter_multiset(ordered, rows);
        sort::lemma_map_ignores_order(
            keys_among(ordered),
            keys_among(rows),
            |r: ColumnView| (r.pk, r.name),
        );
        assert(keys.to_multiset() == places(keys_among(rows)).to_multiset());
        assert forall|i: int, j: int| 0 <= i < j < keys.len() implies (#[trigger] keys[i]).0 <= (
        #[trigger] keys[j]).0 by {
            assert(by_key_place()(keys[i], keys[j]));
        }
        assert(info.pk =~= keys.map_values(|k: (i64, Seq<char>)| k.1));
    }
}

/// Each column has the type that is declared for it, and no other name has a type.
pub proof fn law_columns_have_their_types(table: Seq<char>, rows: Seq<ColumnView>)
    requires
        forall|i: int, j: int| 0 <= i < j < rows.len() ==> (#[trigger] rows[i]).name != (#[trigger] rows[j]).name,
    ensures
        inspected(table, rows) matches Ok(info) ==> {
            &&& forall|i: int|
                0 <= i < rows.len() ==> info.column_types.contains_key((#[trigger] rows[i]).name)
                    && info.column_types[rows[i].name] == rows[i].decl
            &&& forall|name: Seq<char>| #[trigger]
                info.column_types.contains_key(name) ==> exists|i: int| 0 <= i < rows.len() && (#[trigger] rows[i]).name == name
        },
{
    if let Ok(info) = inspected(table, rows) {
        let ordered = in_place_order(rows);
        sort::law_sorting_is_stable(rows, by_place(), |r: ColumnView| false);
        ordered.to_multiset_ensures();
        rows.to_multiset_ensures();
        assert(rows.no_duplicates()) by {
            assert forall|i: int, j: int| 0 <= i < rows.len() && 0 <= j < rows.len() && i != j implies rows[i]
                != rows[j] by {
                if i < j {
                    assert(rows[i].name != rows[j].name);
                } else {
                    assert(rows[j].name != rows[i].name);
                }
            }
        }
        assert(forall|x: ColumnView| ordered.contains(x) <==> #[trigger] rows.contains(x)) by {
            assert forall|x: ColumnView| ordered.contains(x) <==> #[trigger] rows.contains(x) by {
                assert(ordered.contains(x) <==> ordered.to_multiset().count(x) > 0);
                assert(rows.contains(x) <==> rows.to_multiset().count(x) > 0);
            }
        }
        lemma_declared(ordered);
        assert forall|i: int| 0 <= i < rows.len() implies info.column_types.contains_key((#[trigger] rows[i]).name)
            && info.column_types[rows[i].name] == rows[i].decl by {
            assert(rows.contains(rows[i]));
            let j = choose|j: int| 0 <= j < ordered.len() && ordered[j] == rows[i];
            assert(info.column_types.contains_key(ordered[j].name));
            let k = choose|k: int|
                0 <= k < ordered.len() && (#[trigger] ordered[k]).name == rows[i].name && info.column_types[rows[i].name]
                    == ordered[k].decl;
            assert(ordered.contains(ordered[k]));
            assert(rows.contains(ordered[k]));
            let m = choose|m: int| 0 <= m < rows.len() && rows[m] == ordered[k];
            if m < i {
                assert(rows[m].name != rows[i].name);
            } else if m > i {
                assert(rows[i].name != rows[m].name);
            }
        }
        assert forall|name: Seq<char>| #[trigger] info.column_types.contains_key(name) implies exists|i: int|
            0 <= i < rows.len() && (#[trigger] rows[i]).name == name by {
            let k = choose|k: int|
                0 <= k < ordered.len() && (#[trigger] ordered[k]).name == name && info.column_types[name]
                    == ordered[k].decl;
            assert(ordered.contains(ordered[k]));
            assert(rows.contains(ordered[k]));
            let m = choose|m: int| 0 <= m < rows.len() && rows[m] == ordered[k];
            assert(rows[m].name == name);
        }
    }
}

proof fn lemma_declared(rows: Seq<ColumnView>)
    ensures
        forall|i: int| 0 <= i < rows.len() ==> declared_types(rows).contains_key((#[trigger] rows[i]).name),
        forall|name: Seq<char>| #[trigger]
            declared_types(rows).contains_key(name) ==> exists|k: int|
                0 <= k < rows.len() && (#[trigger] rows[k]).name == name && declared_types(rows)[name]
                    == rows[k].decl,
    decreases rows.len(),
{
    if rows.len() > 0 {
        let front = rows.drop_last();
        lemma_declared(front);
        let last = rows.len() - 1;
        assert(rows[last] == rows.last());
        assert forall|i: int| 0 <= i < rows.len() implies declared_types(rows).contains_key(
            (#[trigger] rows[i]).name,
        ) by {
            if i < last {
                assert(front[i] == rows[i]);
            }
        }
        assert forall|name: Seq<char>| #[trigger] declared_types(rows).contains_key(name) implies exists|k: int|
            0 <= k < rows.len() && (#[trigger] rows[k]).name == name && declared_types(rows)[name] == rows[k].decl by {
            if name == rows.last().name {
                assert(rows[last].name == name);
            } else {
                let k = choose|k: int|
                    0 <= k < front.len() && (#[trigger] front[k]).name == name && declared_types(front)[name]
                        == front[k].decl;
                assert(rows[k] == front[k]);
            }
        }
    }
}

/// A watched table is known by its columns and their types as they are now, and by its key as it was
/// when it was first watched. One that is not watched has none, and cannot be read.
pub proof fn law_watched_tables_keep_their_key(info: TableInfoView, table: Seq<char>, pk: Seq<Seq<char>>)
    ensures
        watched(info, table, Some(pk)) matches Ok(w) && w.pk == pk && w.columns == info.columns && w.column_types
            == info.column_types,
        watched(info, table, None) matches Err(e) && e is Bad,
{
}

/// A text with the name of the boolean type in it.
pub open spec fn around_bool(before: Seq<char>, behind: Seq<char>) -> Seq<char> {
    before + seq!['B', 'O', 'O', 'L'] + behind
}

/// A declared type is that of a boolean column wherever it mentions one, in upper or lower case,
/// whatever stands around it.
pub proof fn law_boolean_types_mention_one(before: Seq<char>, word: Seq<char>, behind: Seq<char>)
    requires
        word.len() == 4,
        word[0] == 'B' || word[0] == 'b',
        word[1] == 'O' || word[1] == 'o',
        word[2] == 'O' || word[2] == 'o',
        word[3] == 'L' || word[3] == 'l',
    ensures
        names_bool(ascii_upper(before + word + behind)),
        forall|upper: Seq<char>|
            names_bool(upper) <==> exists|a: Seq<char>, b: Seq<char>| #[trigger] around_bool(a, b) == upper,
{
    reveal_strlit("BOOL");
    let w = "BOOL"@;
    assert(w =~= seq!['B', 'O', 'O', 'L']);
    let s = ascii_upper(before + word + behind);
    let n = before.len() as int;
    assert(s.subrange(n, n + w.len()) =~= w);
    assert forall|upper: Seq<char>| names_bool(upper) <==> exists|a: Seq<char>, b: Seq<char>| #[trigger]
        around_bool(a, b) == upper by {
        if names_bool(upper) {
            let i = choose|i: int| 0 <= i <= upper.len() - w.len() && #[trigger] upper.subrange(i, i + w.len()) == w;
            let (a, b) = (upper.take(i), upper.skip(i + 4));
            assert(a + upper.subrange(i, i + w.len()) + b =~= upper);
            assert(around_bool(a, b) =~= upper);
        }
        if exists|a: Seq<char>, b: Seq<char>| #[trigger] around_bool(a, b) == upper {
            let (a, b) = choose|a: Seq<char>, b: Seq<char>| #[trigger] around_bool(a, b) == upper;
            let i = a.len() as int;
            assert(upper.subrange(i, i + w.len()) =~= w);
        }
    }
}

/// What is refused for a column or a table says which one it is.
pub proof fn law_errors_name_their_cause(table: Seq<char>, column: Seq<char>, info: TableInfoView)
    ensures
        no_such_column(column) matches ErrorView::BadInput(m) && text::contains(m, column) && m
            == "predicate column "@ + column + " does not exist"@,
        inspected(table, Seq::empty()) matches Err(ErrorView::Bad(m)) && text::contains(m, table) && m
            == "table "@ + table + " does not exist"@,
        watched(info, table, None) matches Err(ErrorView::Bad(m)) && text::contains(m, table) && m == "table "@ + table
            + " is not watched by Electrolite"@,
{
    lemma_within("predicate column "@, column, " does not exist"@);
    lemma_within("table "@, table, " does not exist"@);
    lemma_within("table "@, table, " is not watched by Electrolite"@);
}

proof fn lemma_within(a: Seq<char>, b: Seq<char>, c: Seq<char>)
    ensures
        text::contains(a + b + c, b),
{
    let s = a + b + c;
    let i = a.len() as int;
    assert(s.subrange(i, i + b.len()) =~= b);
}

/// What is refused of a predicate says why: a boolean where the column has none, and a range without a
/// bound, which is named by its comparison.
pub proof fn law_refused_predicates_say_why(
    info: TableInfoView,
    b: bool,
    op: predicate::RangeOp,
    column: Seq<char>,
)
    ensures
        coerced(false, JsonView::Bool(b)) == Err::<JsonView, ErrorView>(
            ErrorView::BadInput("boolean predicates require BOOLEAN columns"@),
        ),
        normalized(info, PredicateView::Range { op, column, value: JsonView::Null }) == Err::<PredicateView, ErrorView>(
            ErrorView::BadInput("range predicate "@ + predicate::op_key(op) + " requires a non-null value"@),
        ),
        !info.columns.contains(column) ==> normalized(
            info,
            PredicateView::Eq { column, value: JsonView::Bool(b) },
        ) == Err::<PredicateView, ErrorView>(no_such_column(column)),
{
}

/// Of a conjunction the first part that makes no sense says why it is refused.
pub proof fn law_the_first_senseless_part_counts(info: TableInfoView, children: Seq<PredicateView>)
    ensures
        normalized(info, PredicateView::And(children)) matches Err(e) ==> exists|k: int|
            {
                &&& 0 <= k < children.len()
                &&& #[trigger] normalized(info, children[k]) == Err::<PredicateView, ErrorView>(e)
                &&& forall|i: int| 0 <= i < k ==> (#[trigger] normalized(info, children[i])) is Ok
            },
{
    let p = PredicateView::And(children);
    assert(p->And_0 == children);
    lemma_first_error(info, children);
}

proof fn lemma_first_error(info: TableInfoView, list: Seq<PredicateView>)
    ensures
        normalized_list(info, list) is Ok ==> forall|i: int|
            0 <= i < list.len() ==> (#[trigger] normalized(info, list[i])) is Ok,
        normalized_list(info, list) matches Err(e) ==> exists|k: int|
            {
                &&& 0 <= k < list.len()
                &&& #[trigger] normalized(info, list[k]) == Err::<PredicateView, ErrorView>(e)
                &&& forall|i: int| 0 <= i < k ==> (#[trigger] normalized(info, list[i])) is Ok
            },
    decreases list.len(),
{
    if list.len() > 0 {
        let front = list.drop_last();
        lemma_first_error(info, front);
        match normalized_list(info, front) {
            Ok(_) => {
                assert forall|i: int| 0 <= i < front.len() implies (#[trigger] normalized(info, list[i])) is Ok by {
                    assert(normalized(info, front[i]) is Ok);
                }
                let last = list.len() - 1;
                assert(normalized(info, list[last]) == normalized(info, list.last()));
            },
            Err(e) => {
                let k = choose|k: int|
                    {
                        &&& 0 <= k < front.len()
                        &&& #[trigger] normalized(info, front[k]) == Err::<PredicateView, ErrorView>(e)
                        &&& forall|i: int| 0 <= i < k ==> (#[trigger] normalized(info, front[i])) is Ok
                    };
                assert(normalized(info, list[k]) == Err::<PredicateView, ErrorView>(e));
                assert forall|i: int| 0 <= i < k implies (#[trigger] normalized(info, list[i])) is Ok by {
                    assert(normalized(info, front[i]) is Ok);
                }
            },
        }
    }
}

} // verus!
