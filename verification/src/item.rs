//! Items and positional marshaling.
//!
//! An item carries three parallel value arrays — strings, integers,
//! floats — whose positions are given by the catalog order filtered by
//! each field's bucket.  Marshaling turns rows of named cells into those
//! arrays and back; the round trip is exact when the catalog's names are
//! unique and the array lengths match the catalog.

use vstd::prelude::*;

use crate::errors::Error;
use crate::schema::Bucket;
use crate::schema::FieldDescriptor;
use crate::schema::KindV;
use crate::schema::fields_view;
use crate::schema::spec_bucket_of;
use crate::schema::bucket_of;
use crate::strings::str_eq;

verus! {

/// One dynamic column value.  Float values are carried as IEEE-754 bit
/// patterns; their numeric reading lives outside the library.
#[derive(Clone, PartialEq, Eq, Debug)]
pub enum Value {
    Text(String),
    Integer(i32),
    Float(u32),
}

/// The mathematical form of a value.
pub enum ValueV {
    Text(Seq<char>),
    Integer(i32),
    Float(u32),
}

pub open spec fn value_v(v: &Value) -> ValueV {
    match v {
        Value::Text(s) => ValueV::Text(s@),
        Value::Integer(n) => ValueV::Integer(*n),
        Value::Float(b) => ValueV::Float(*b),
    }
}

pub open spec fn values_view(vals: Seq<Value>) -> Seq<ValueV> {
    Seq::new(vals.len(), |i: int| value_v(&vals[i]))
}

/// The bucket a value variant belongs to.
pub open spec fn value_bucket(v: ValueV) -> Bucket {
    match v {
        ValueV::Text(_) => Bucket::Strings,
        ValueV::Integer(_) => Bucket::Integers,
        ValueV::Float(_) => Bucket::Floats,
    }
}

/// One stored item: fixed columns plus the three positional value arrays.
#[derive(Clone, PartialEq, Eq, Debug)]
pub struct Item {
    pub id: String,
    pub name: String,
    pub image_type: String,
    pub string_vars: Vec<String>,
    pub int_vars: Vec<i32>,
    pub float_vars: Vec<u32>,
}

/// How many catalog fields store into the given bucket.
pub open spec fn count_bucket(cat: Seq<(Seq<char>, KindV)>, b: Bucket) -> nat
    decreases cat.len(),
{
    if cat.len() == 0 {
        0
    } else {
        (if spec_bucket_of(cat[0].1) == b {
            1nat
        } else {
            0nat
        }) + count_bucket(cat.drop_first(), b)
    }
}

/// The arrays fit the catalog: each array's length is the count of the
/// fields that store into its bucket.
pub open spec fn counts_match(
    cat: Seq<(Seq<char>, KindV)>,
    svars: Seq<Seq<char>>,
    ivars: Seq<i32>,
    fvars: Seq<u32>,
) -> bool {
    &&& svars.len() == count_bucket(cat, Bucket::Strings)
    &&& ivars.len() == count_bucket(cat, Bucket::Integers)
    &&& fvars.len() == count_bucket(cat, Bucket::Floats)
}

/// The row values of an item against a catalog: one value per field in
/// catalog order, consumed positionally from the field's bucket.
pub open spec fn spec_row_values(
    cat: Seq<(Seq<char>, KindV)>,
    svars: Seq<Seq<char>>,
    ivars: Seq<i32>,
    fvars: Seq<u32>,
) -> Seq<ValueV>
    decreases cat.len(),
{
    if cat.len() == 0 {
        Seq::empty()
    } else {
        match spec_bucket_of(cat[0].1) {
            Bucket::Strings => seq![ValueV::Text(svars[0])] + spec_row_values(
                cat.drop_first(),
                svars.drop_first(),
                ivars,
                fvars,
            ),
            Bucket::Integers => seq![ValueV::Integer(ivars[0])] + spec_row_values(
                cat.drop_first(),
                svars,
                ivars.drop_first(),
                fvars,
            ),
            Bucket::Floats => seq![ValueV::Float(fvars[0])] + spec_row_values(
                cat.drop_first(),
                svars,
                ivars,
                fvars.drop_first(),
            ),
        }
    }
}

/// Counts the fields of each bucket: strings, integers, floats.
pub fn count_buckets(fields: &Vec<FieldDescriptor>) -> (r: (usize, usize, usize))
    ensures
        r.0 == count_bucket(fields_view(fields@), Bucket::Strings),
        r.1 == count_bucket(fields_view(fields@), Bucket::Integers),
        r.2 == count_bucket(fields_view(fields@), Bucket::Floats),
{
    let ghost cat = fields_view(fields@);
    let n = fields.len();
    let mut sc: usize = 0;
    let mut ic: usize = 0;
    let mut fc: usize = 0;
    let mut i: usize = 0;
    proof {
        assert(cat.skip(0) =~= cat);
        lemma_count_skip_all(cat);
    }
    while i < n
        invariant
            i <= n,
            n == fields.len(),
            cat == fields_view(fields@),
            sc + count_bucket(cat.skip(i as int), Bucket::Strings) == count_bucket(
                cat,
                Bucket::Strings,
            ),
            ic + count_bucket(cat.skip(i as int), Bucket::Integers) == count_bucket(
                cat,
                Bucket::Integers,
            ),
            fc + count_bucket(cat.skip(i as int), Bucket::Floats) == count_bucket(
                cat,
                Bucket::Floats,
            ),
            sc <= i && ic <= i && fc <= i,
        decreases n - i,
    {
        proof {
            assert(cat.skip(i as int).drop_first() =~= cat.skip(i + 1));
            assert(cat.skip(i as int)[0] == cat[i as int]);
        }
        match bucket_of(&fields[i].kind) {
            Bucket::Strings => {
                sc += 1;
            },
            Bucket::Integers => {
                ic += 1;
            },
            Bucket::Floats => {
                fc += 1;
            },
        }
        i += 1;
    }
    proof {
        assert(cat.skip(n as int) =~= Seq::<(Seq<char>, KindV)>::empty());
    }
    (sc, ic, fc)
}

proof fn lemma_count_skip_all(cat: Seq<(Seq<char>, KindV)>)
    ensures
        count_bucket(Seq::<(Seq<char>, KindV)>::empty(), Bucket::Strings) == 0,
        count_bucket(Seq::<(Seq<char>, KindV)>::empty(), Bucket::Integers) == 0,
        count_bucket(Seq::<(Seq<char>, KindV)>::empty(), Bucket::Floats) == 0,
{
}

/// Flattens an item's value arrays into one row of values in catalog
/// order.  A length mismatch between any array and its bucket count is a
/// validation error, reported before anything is consumed.
pub fn unmarshal_item(item: &Item, fields: &Vec<FieldDescriptor>) -> (r: Result<Vec<Value>, Error>)
    ensures
        match r {
            Ok(vals) => {
                &&& counts_match(
                    fields_view(fields@),
                    item.string_vars.deep_view(),
                    item.int_vars@,
                    item.float_vars@,
                )
                &&& values_view(vals@) == spec_row_values(
                    fields_view(fields@),
                    item.string_vars.deep_view(),
                    item.int_vars@,
                    item.float_vars@,
                )
                &&& vals@.len() == fields@.len()
            },
            Err(Error::Validation) => !counts_match(
                fields_view(fields@),
                item.string_vars.deep_view(),
                item.int_vars@,
                item.float_vars@,
            ),
            Err(_) => false,
        },
{
    let ghost cat = fields_view(fields@);
    let ghost sv = item.string_vars.deep_view();
    let ghost iv = item.int_vars@;
    let ghost fv = item.float_vars@;
    let (sc, ic, fc) = count_buckets(fields);
    if sc != item.string_vars.len() || ic != item.int_vars.len() || fc != item.float_vars.len() {
        return Err(Error::Validation);
    }
    let n = fields.len();
    let slen = item.string_vars.len();
    let ilen = item.int_vars.len();
    let flen = item.float_vars.len();
    let mut vals: Vec<Value> = Vec::new();
    let mut si: usize = 0;
    let mut ii: usize = 0;
    let mut fi: usize = 0;
    let mut i: usize = 0;
    proof {
        assert(cat.skip(0) =~= cat);
        assert(sv.skip(0) =~= sv);
        assert(iv.skip(0) =~= iv);
        assert(fv.skip(0) =~= fv);
        assert(values_view(vals@) =~= Seq::<ValueV>::empty());
    }
    while i < n
        invariant
            i <= n,
            n == fields.len(),
            si <= slen && slen == sv.len(),
            ii <= ilen && ilen == iv.len(),
            fi <= flen && flen == fv.len(),
            cat == fields_view(fields@),
            sv == item.string_vars.deep_view(),
            iv == item.int_vars@,
            fv == item.float_vars@,
            vals@.len() == i,
            si + count_bucket(cat.skip(i as int), Bucket::Strings) == sv.len(),
            ii + count_bucket(cat.skip(i as int), Bucket::Integers) == iv.len(),
            fi + count_bucket(cat.skip(i as int), Bucket::Floats) == fv.len(),
            spec_row_values(cat, sv, iv, fv) == values_view(vals@) + spec_row_values(
                cat.skip(i as int),
                sv.skip(si as int),
                iv.skip(ii as int),
                fv.skip(fi as int),
            ),
        decreases n - i,
    {
        proof {
            assert(cat.skip(i as int).drop_first() =~= cat.skip(i + 1));
            assert(cat.skip(i as int)[0] == cat[i as int]);
        }
        let ghost valsv = values_view(vals@);
        match bucket_of(&fields[i].kind) {
            Bucket::Strings => {
                proof {
                    assert(count_bucket(cat.skip(i as int), Bucket::Strings) >= 1);
                    assert(sv.skip(si as int)[0] == sv[si as int]);
                    assert(sv.skip(si as int).drop_first() =~= sv.skip(si + 1));
                }
                vals.push(Value::Text(item.string_vars[si].clone()));
                si += 1;
            },
            Bucket::Integers => {
                proof {
                    assert(count_bucket(cat.skip(i as int), Bucket::Integers) >= 1);
                    assert(iv.skip(ii as int)[0] == iv[ii as int]);
                    assert(iv.skip(ii as int).drop_first() =~= iv.skip(ii + 1));
                }
                vals.push(Value::Integer(item.int_vars[ii]));
                ii += 1;
            },
            Bucket::Floats => {
                proof {
                    assert(count_bucket(cat.skip(i as int), Bucket::Floats) >= 1);
                    assert(fv.skip(fi as int)[0] == fv[fi as int]);
                    assert(fv.skip(fi as int).drop_first() =~= fv.skip(fi + 1));
                }
                vals.push(Value::Float(item.float_vars[fi]));
                fi += 1;
            },
        }
        proof {
            assert(values_view(vals@) =~= valsv + seq![value_v(&vals@[i as int])]);
        }
        i += 1;
    }
    proof {
        assert(cat.skip(n as int) =~= Seq::<(Seq<char>, KindV)>::empty());
        assert(spec_row_values(cat, sv, iv, fv) =~= values_view(vals@));
    }
    Ok(vals)
}

/// One named dynamic cell of a fetched row.
pub struct Cell {
    pub column: String,
    pub value: Value,
}

/// A fetched row: the fixed columns and the dynamic cells, in whatever
/// order the storage returned them.
pub struct Row {
    pub id: String,
    pub name: String,
    pub image_type: String,
    pub cells: Vec<Cell>,
}

pub open spec fn cells_view(cells: Seq<Cell>) -> Seq<(Seq<char>, ValueV)> {
    Seq::new(cells.len(), |i: int| (cells[i].column@, value_v(&cells[i].value)))
}

/// The first cell of that column name, if any.
pub open spec fn lookup_cell(cells: Seq<(Seq<char>, ValueV)>, n: Seq<char>) -> Option<ValueV>
    decreases cells.len(),
{
    if cells.len() == 0 {
        None
    } else if cells[0].0 == n {
        Some(cells[0].1)
    } else {
        lookup_cell(cells.drop_first(), n)
    }
}

/// The value a missing or unreadable cell falls back to, per bucket.
pub open spec fn default_for(b: Bucket) -> ValueV {
    match b {
        Bucket::Strings => ValueV::Text(Seq::empty()),
        Bucket::Integers => ValueV::Integer(0),
        Bucket::Floats => ValueV::Float(0),
    }
}

/// The three value arrays a row marshals into, walking the catalog in
/// order, classifying each cell's value into its bucket, and defaulting
/// where a cell is missing.
pub open spec fn spec_buckets(
    cat: Seq<(Seq<char>, KindV)>,
    cells: Seq<(Seq<char>, ValueV)>,
) -> (Seq<Seq<char>>, Seq<i32>, Seq<u32>)
    decreases cat.len(),
{
    if cat.len() == 0 {
        (Seq::empty(), Seq::empty(), Seq::empty())
    } else {
        let rest = spec_buckets(cat.drop_first(), cells);
        let v = match lookup_cell(cells, cat[0].0) {
            Some(v) => v,
            None => default_for(spec_bucket_of(cat[0].1)),
        };
        match v {
            ValueV::Text(s) => (seq![s] + rest.0, rest.1, rest.2),
            ValueV::Integer(n) => (rest.0, seq![n] + rest.1, rest.2),
            ValueV::Float(b) => (rest.0, rest.1, seq![b] + rest.2),
        }
    }
}

/// The position of the first cell of that column, if any.
fn find_cell(cells: &Vec<Cell>, name: &String) -> (r: Option<usize>)
    ensures
        match r {
            Some(k) => 0 <= k < cells@.len() && lookup_cell(cells_view(cells@), name@) == Some(
                cells_view(cells@)[k as int].1,
            ) && cells_view(cells@)[k as int].0 == name@,
            None => lookup_cell(cells_view(cells@), name@) is None,
        },
{
    let n = cells.len();
    let mut i: usize = 0;
    while i < n
        invariant
            i <= n,
            n == cells@.len(),
            forall|k: int| 0 <= k < i ==> (#[trigger] cells_view(cells@)[k]).0 != name@,
        decreases n - i,
    {
        if str_eq(cells[i].column.as_str(), name.as_str()) {
            proof {
                assert(cells_view(cells@)[i as int].0 == name@);
                lemma_lookup_at(cells_view(cells@), name@, i as int);
            }
            return Some(i);
        }
        i += 1;
    }
    proof {
        lemma_lookup_at(cells_view(cells@), name@, n as int);
    }
    None
}

/// The first matching position characterizes `lookup_cell`.
proof fn lemma_lookup_at(cells: Seq<(Seq<char>, ValueV)>, n: Seq<char>, k: int)
    requires
        0 <= k <= cells.len(),
        forall|i: int| 0 <= i < k ==> (#[trigger] cells[i]).0 != n,
        k == cells.len() || cells[k].0 == n,
    ensures
        lookup_cell(cells, n) == if k == cells.len() {
            Option::<ValueV>::None
        } else {
            Some(cells[k].1)
        },
    decreases cells.len(),
{
    if cells.len() == 0 {
    } else if k == 0 {
    } else {
        assert(cells[0].0 != n);
        assert forall|i: int| 0 <= i < k - 1 implies (#[trigger] cells.drop_first()[i]).0 != n by {
            assert(cells.drop_first()[i] == cells[i + 1]);
        }
        lemma_lookup_at(cells.drop_first(), n, k - 1);
    }
}

/// Marshals a fetched row into an item against the current catalog:
/// each field's cell is looked up by name and classified into its bucket
/// by its value, in catalog order; a missing cell defaults.
pub fn marshal_item(row: Row, fields: &Vec<FieldDescriptor>) -> (r: Item)
    ensures
        r.id@ == row.id@,
        r.name@ == row.name@,
        r.image_type@ == row.image_type@,
        r.string_vars.deep_view() == spec_buckets(
            fields_view(fields@),
            cells_view(row.cells@),
        ).0,
        r.int_vars@ == spec_buckets(fields_view(fields@), cells_view(row.cells@)).1,
        r.float_vars@ == spec_buckets(fields_view(fields@), cells_view(row.cells@)).2,
{
    let ghost cat = fields_view(fields@);
    let ghost cells = cells_view(row.cells@);
    let n = fields.len();
    let mut svars: Vec<String> = Vec::new();
    let mut ivars: Vec<i32> = Vec::new();
    let mut fvars: Vec<u32> = Vec::new();
    let mut i: usize = 0;
    proof {
        assert(cat.skip(0) =~= cat);
        assert(svars.deep_view() =~= Seq::<Seq<char>>::empty());
    }
    while i < n
        invariant
            i <= n,
            n == fields.len(),
            cat == fields_view(fields@),
            cells == cells_view(row.cells@),
            spec_buckets(cat, cells).0 == svars.deep_view() + spec_buckets(
                cat.skip(i as int),
                cells,
            ).0,
            spec_buckets(cat, cells).1 == ivars@ + spec_buckets(cat.skip(i as int), cells).1,
            spec_buckets(cat, cells).2 == fvars@ + spec_buckets(cat.skip(i as int), cells).2,
        decreases n - i,
    {
        proof {
            assert(cat.skip(i as int).drop_first() =~= cat.skip(i + 1));
            assert(cat.skip(i as int)[0] == cat[i as int]);
        }
        let ghost sv0 = svars.deep_view();
        let found = find_cell(&row.cells, &fields[i].name);
        match found {
            Some(k) => {
                match &row.cells[k].value {
                    Value::Text(s) => {
                        svars.push(s.clone());
                        proof {
                            assert(svars.deep_view() =~= sv0 + seq![s@]);
                        }
                    },
                    Value::Integer(m) => {
                        ivars.push(*m);
                    },
                    Value::Float(b) => {
                        fvars.push(*b);
                    },
                }
            },
            None => {
                match bucket_of(&fields[i].kind) {
                    Bucket::Strings => {
                        svars.push(String::new());
                        proof {
                            assert(svars.deep_view() =~= sv0 + seq![Seq::<char>::empty()]);
                        }
                    },
                    Bucket::Integers => {
                        ivars.push(0);
                    },
                    Bucket::Floats => {
                        fvars.push(0);
                    },
                }
            },
        }
        i += 1;
    }
    proof {
        assert(cat.skip(n as int) =~= Seq::<(Seq<char>, KindV)>::empty());
        assert(spec_buckets(cat, cells).0 =~= svars.deep_view());
        assert(spec_buckets(cat, cells).1 =~= ivars@);
        assert(spec_buckets(cat, cells).2 =~= fvars@);
    }
    Item {
        id: row.id,
        name: row.name,
        image_type: row.image_type,
        string_vars: svars,
        int_vars: ivars,
        float_vars: fvars,
    }
}

/// The row cells an unmarshaled item writes: the catalog's names paired
/// with the row values, in order.
pub open spec fn mk_cells(cat: Seq<(Seq<char>, KindV)>, vals: Seq<ValueV>) -> Seq<
    (Seq<char>, ValueV),
> {
    Seq::new(cat.len(), |i: int| (cat[i].0, vals[i]))
}

/// No two catalog fields share a name.
pub open spec fn unique_names(cat: Seq<(Seq<char>, KindV)>) -> bool {
    forall|i: int, j: int|
        0 <= i < j < cat.len() ==> (#[trigger] cat[i]).0 != (#[trigger] cat[j]).0
}

/// A cell whose column matches no catalog name does not change what the
/// catalog marshals.
proof fn lemma_buckets_drop_cell(cat: Seq<(Seq<char>, KindV)>, cells: Seq<(Seq<char>, ValueV)>)
    requires
        cells.len() > 0,
        forall|i: int| 0 <= i < cat.len() ==> (#[trigger] cat[i]).0 != cells[0].0,
    ensures
        spec_buckets(cat, cells) == spec_buckets(cat, cells.drop_first()),
    decreases cat.len(),
{
    if cat.len() == 0 {
    } else {
        assert(cat[0].0 != cells[0].0);
        assert forall|i: int| 0 <= i < cat.drop_first().len() implies (
        #[trigger] cat.drop_first()[i]).0 != cells[0].0 by {
            assert(cat.drop_first()[i] == cat[i + 1]);
        }
        lemma_buckets_drop_cell(cat.drop_first(), cells);
    }
}

/// A row of values is as long as its catalog.
proof fn lemma_row_values_len(
    cat: Seq<(Seq<char>, KindV)>,
    sv: Seq<Seq<char>>,
    iv: Seq<i32>,
    fv: Seq<u32>,
)
    ensures
        spec_row_values(cat, sv, iv, fv).len() == cat.len(),
    decreases cat.len(),
{
    if cat.len() == 0 {
    } else {
        match spec_bucket_of(cat[0].1) {
            Bucket::Strings => {
                lemma_row_values_len(cat.drop_first(), sv.drop_first(), iv, fv);
            },
            Bucket::Integers => {
                lemma_row_values_len(cat.drop_first(), sv, iv.drop_first(), fv);
            },
            Bucket::Floats => {
                lemma_row_values_len(cat.drop_first(), sv, iv, fv.drop_first());
            },
        }
    }
}

/// Dropping the first field drops the first cell.
proof fn lemma_mk_cells_tail(cat: Seq<(Seq<char>, KindV)>, vals: Seq<ValueV>)
    requires
        cat.len() > 0,
        vals.len() == cat.len(),
    ensures
        mk_cells(cat, vals).drop_first() == mk_cells(cat.drop_first(), vals.drop_first()),
{
    assert forall|w: int| 0 <= w < cat.len() - 1 implies mk_cells(cat, vals).drop_first()[w]
        == mk_cells(cat.drop_first(), vals.drop_first())[w] by {
        assert(mk_cells(cat, vals).drop_first()[w] == mk_cells(cat, vals)[w + 1]);
        assert(cat.drop_first()[w] == cat[w + 1]);
        assert(vals.drop_first()[w] == vals[w + 1]);
    }
    assert(mk_cells(cat, vals).drop_first() =~= mk_cells(cat.drop_first(), vals.drop_first()));
}

/// Law (positional round trip): for any catalog with unique names and an
/// item whose value arrays fit it, writing the row values and marshaling
/// them back reproduces the original arrays exactly.
pub proof fn lemma_positional_round_trip(
    cat: Seq<(Seq<char>, KindV)>,
    sv: Seq<Seq<char>>,
    iv: Seq<i32>,
    fv: Seq<u32>,
)
    requires
        unique_names(cat),
        counts_match(cat, sv, iv, fv),
    ensures
        spec_buckets(cat, mk_cells(cat, spec_row_values(cat, sv, iv, fv))).0 == sv,
        spec_buckets(cat, mk_cells(cat, spec_row_values(cat, sv, iv, fv))).1 == iv,
        spec_buckets(cat, mk_cells(cat, spec_row_values(cat, sv, iv, fv))).2 == fv,
    decreases cat.len(),
{
    let vals = spec_row_values(cat, sv, iv, fv);
    let cells = mk_cells(cat, vals);
    lemma_row_values_len(cat, sv, iv, fv);
    if cat.len() == 0 {
        assert(sv =~= Seq::<Seq<char>>::empty());
        assert(iv =~= Seq::<i32>::empty());
        assert(fv =~= Seq::<u32>::empty());
    } else {
        let rest_cat = cat.drop_first();
        let v0 = vals[0];
        assert(cells[0] == (cat[0].0, v0));
        assert(lookup_cell(cells, cat[0].0) == Some(v0));
        assert forall|i: int| 0 <= i < rest_cat.len() implies (#[trigger] rest_cat[i]).0
            != cells[0].0 by {
            assert(rest_cat[i] == cat[i + 1]);
        }
        lemma_buckets_drop_cell(rest_cat, cells);
        assert forall|i: int, j: int|
            0 <= i < j < rest_cat.len() implies (#[trigger] rest_cat[i]).0 != (
        #[trigger] rest_cat[j]).0 by {
            assert(rest_cat[i] == cat[i + 1]);
            assert(rest_cat[j] == cat[j + 1]);
        }
        match spec_bucket_of(cat[0].1) {
            Bucket::Strings => {
                assert(count_bucket(cat, Bucket::Strings) >= 1);
                let sv2 = sv.drop_first();
                lemma_positional_round_trip(rest_cat, sv2, iv, fv);
                lemma_mk_cells_tail(cat, vals);
                assert(vals.drop_first() =~= spec_row_values(rest_cat, sv2, iv, fv));
                assert(cells.drop_first() == mk_cells(
                    rest_cat,
                    spec_row_values(rest_cat, sv2, iv, fv),
                ));
                assert(spec_buckets(cat, cells).0 =~= sv);
                assert(spec_buckets(cat, cells).1 == iv);
                assert(spec_buckets(cat, cells).2 == fv);
            },
            Bucket::Integers => {
                assert(count_bucket(cat, Bucket::Integers) >= 1);
                let iv2 = iv.drop_first();
                lemma_positional_round_trip(rest_cat, sv, iv2, fv);
                lemma_mk_cells_tail(cat, vals);
                assert(vals.drop_first() =~= spec_row_values(rest_cat, sv, iv2, fv));
                assert(cells.drop_first() == mk_cells(
                    rest_cat,
                    spec_row_values(rest_cat, sv, iv2, fv),
                ));
                assert(spec_buckets(cat, cells).0 == sv);
                assert(spec_buckets(cat, cells).1 =~= iv);
                assert(spec_buckets(cat, cells).2 == fv);
            },
            Bucket::Floats => {
                assert(count_bucket(cat, Bucket::Floats) >= 1);
                let fv2 = fv.drop_first();
                lemma_positional_round_trip(rest_cat, sv, iv, fv2);
                lemma_mk_cells_tail(cat, vals);
                assert(vals.drop_first() =~= spec_row_values(rest_cat, sv, iv, fv2));
                assert(cells.drop_first() == mk_cells(
                    rest_cat,
                    spec_row_values(rest_cat, sv, iv, fv2),
                ));
                assert(spec_buckets(cat, cells).0 == sv);
                assert(spec_buckets(cat, cells).1 == iv);
                assert(spec_buckets(cat, cells).2 =~= fv);
            },
        }
    }
}

/// Pairs the catalog's field names with a row of values, as the write
/// path stores them.  The value count must match the catalog.
pub fn pair_columns(fields: &Vec<FieldDescriptor>, vals: Vec<Value>) -> (r: Result<Vec<Cell>, Error>)
    ensures
        match r {
            Ok(cells) => vals@.len() == fields@.len() && cells_view(cells@) == mk_cells(
                fields_view(fields@),
                values_view(vals@),
            ),
            Err(Error::Validation) => vals@.len() != fields@.len(),
            Err(_) => false,
        },
{
    if vals.len() != fields.len() {
        return Err(Error::Validation);
    }
    let ghost cat = fields_view(fields@);
    let ghost valsv = values_view(vals@);
    let n = fields.len();
    let mut cells: Vec<Cell> = Vec::new();
    let mut vals = vals;
    let mut i: usize = 0;
    // consume the values from the back to move them without cloning
    while i < n
        invariant
            i <= n,
            n == fields.len(),
            cat == fields_view(fields@),
            vals@.len() == n - i,
            cells@.len() == i,
            forall|k: int| 0 <= k < i ==> cells_view(cells@)[k] == mk_cells(cat, valsv)[k],
            forall|k: int| 0 <= k < n - i ==> value_v(&vals@[k]) == valsv[i + k],
        decreases n - i,
    {
        let ghost cellsv0 = cells_view(cells@);
        let v = vals.remove(0);
        cells.push(Cell { column: fields[i].name.clone(), value: v });
        proof {
            assert(cells_view(cells@)[i as int] == (fields@[i as int].name@, value_v(
                &cells@[i as int].value,
            )));
            assert forall|k: int| 0 <= k < i + 1 implies cells_view(cells@)[k] == mk_cells(
                cat,
                valsv,
            )[k] by {
                if k < i {
                    assert(cells_view(cells@)[k] == cellsv0[k]);
                }
            }
        }
        i += 1;
    }
    proof {
        assert(cells_view(cells@) =~= mk_cells(cat, valsv));
    }
    Ok(cells)
}

/// The column names of a catalog, in order.
pub open spec fn names_of(cat: Seq<(Seq<char>, KindV)>) -> Seq<Seq<char>> {
    Seq::new(cat.len(), |i: int| cat[i].0)
}

/// The fixed columns every item row carries.
pub open spec fn fixed_insert_columns() -> Seq<Seq<char>> {
    seq!["id"@, "name"@, "image_type"@]
}

/// A planned row write: the column names, in order, and one bound value
/// per column.  The shell renders this into a parameterized statement;
/// every value is always a bound parameter, never spliced into the text.
pub struct InsertPlan {
    pub columns: Vec<String>,
    pub values: Vec<Value>,
}

/// A planned row update: the columns to set with their bound values, and
/// the id the update keys on, bound last.
pub struct UpdatePlan {
    pub columns: Vec<String>,
    pub values: Vec<Value>,
    pub id: String,
}

/// Plans the insert of an item: the fixed columns, then one column per
/// catalog field with the item's values consumed positionally.  A value
/// count that does not fit the catalog is rejected before any write.
pub fn insert_plan(item: &Item, fields: &Vec<FieldDescriptor>) -> (r: Result<InsertPlan, Error>)
    ensures
        match r {
            Ok(p) => {
                &&& counts_match(
                    fields_view(fields@),
                    item.string_vars.deep_view(),
                    item.int_vars@,
                    item.float_vars@,
                )
                &&& p.columns.deep_view() == fixed_insert_columns() + names_of(
                    fields_view(fields@),
                )
                &&& values_view(p.values@) == seq![
                    ValueV::Text(item.id@),
                    ValueV::Text(item.name@),
                    ValueV::Text(item.image_type@),
                ] + spec_row_values(
                    fields_view(fields@),
                    item.string_vars.deep_view(),
                    item.int_vars@,
                    item.float_vars@,
                )
                &&& p.columns@.len() == p.values@.len()
            },
            Err(Error::Validation) => !counts_match(
                fields_view(fields@),
                item.string_vars.deep_view(),
                item.int_vars@,
                item.float_vars@,
            ),
            Err(_) => false,
        },
{
    let ghost cat = fields_view(fields@);
    let row = match unmarshal_item(item, fields) {
        Ok(row) => row,
        Err(e) => {
            return Err(e);
        },
    };
    let mut columns: Vec<String> = Vec::new();
    columns.push("id".to_owned());
    columns.push("name".to_owned());
    columns.push("image_type".to_owned());
    let mut values: Vec<Value> = Vec::new();
    values.push(Value::Text(item.id.clone()));
    values.push(Value::Text(item.name.clone()));
    values.push(Value::Text(item.image_type.clone()));
    let ghost fixedv = values_view(values@);
    proof {
        assert(columns.deep_view() =~= fixed_insert_columns());
        assert(fixedv =~= seq![
            ValueV::Text(item.id@),
            ValueV::Text(item.name@),
            ValueV::Text(item.image_type@),
        ]);
    }
    let n = fields.len();
    let mut i: usize = 0;
    let ghost rowv = values_view(row@);
    let mut row = row;
    while i < n
        invariant
            i <= n,
            n == fields.len(),
            cat == fields_view(fields@),
            columns.deep_view() == fixed_insert_columns() + names_of(cat).take(i as int),
            rowv.len() == n,
            row@.len() == n - i,
            values@.len() == i + 3,
            values_view(values@) == fixedv + rowv.take(i as int),
            forall|k: int| 0 <= k < n - i ==> value_v(&row@[k]) == rowv[i + k],
        decreases n - i,
    {
        let ghost colsv = columns.deep_view();
        let ghost valsv = values_view(values@);
        columns.push(fields[i].name.clone());
        let v = row.remove(0);
        values.push(v);
        proof {
            assert(columns.deep_view() =~= colsv + seq![cat[i as int].0]);
            assert(names_of(cat).take(i + 1) =~= names_of(cat).take(i as int) + seq![cat[
                i as int].0]);
            assert(columns.deep_view() =~= fixed_insert_columns() + names_of(cat).take(i + 1));
            assert(values_view(values@) =~= valsv + seq![rowv[i as int]]);
            assert(rowv.take(i + 1) =~= rowv.take(i as int) + seq![rowv[i as int]]);
            assert(values_view(values@) =~= fixedv + rowv.take(i + 1));
        }
        i += 1;
    }
    proof {
        assert(names_of(cat).take(n as int) =~= names_of(cat));
        assert(rowv.take(n as int) =~= rowv);
    }
    Ok(InsertPlan { columns, values })
}

/// Plans the update of an existing item: name, image type and every
/// catalog field are rewritten; the id keys the update.
pub fn update_plan(item: &Item, fields: &Vec<FieldDescriptor>) -> (r: Result<UpdatePlan, Error>)
    ensures
        match r {
            Ok(p) => {
                &&& counts_match(
                    fields_view(fields@),
                    item.string_vars.deep_view(),
                    item.int_vars@,
                    item.float_vars@,
                )
                &&& p.columns.deep_view() == seq!["name"@, "image_type"@] + names_of(
                    fields_view(fields@),
                )
                &&& values_view(p.values@) == seq![
                    ValueV::Text(item.name@),
                    ValueV::Text(item.image_type@),
                ] + spec_row_values(
                    fields_view(fields@),
                    item.string_vars.deep_view(),
                    item.int_vars@,
                    item.float_vars@,
                )
                &&& p.columns@.len() == p.values@.len()
                &&& p.id@ == item.id@
            },
            Err(Error::Validation) => !counts_match(
                fields_view(fields@),
                item.string_vars.deep_view(),
                item.int_vars@,
                item.float_vars@,
            ),
            Err(_) => false,
        },
{
    let ghost cat = fields_view(fields@);
    let row = match unmarshal_item(item, fields) {
        Ok(row) => row,
        Err(e) => {
            return Err(e);
        },
    };
    let mut columns: Vec<String> = Vec::new();
    columns.push("name".to_owned());
    columns.push("image_type".to_owned());
    let mut values: Vec<Value> = Vec::new();
    values.push(Value::Text(item.name.clone()));
    values.push(Value::Text(item.image_type.clone()));
    let ghost fixedv = values_view(values@);
    proof {
        assert(columns.deep_view() =~= seq!["name"@, "image_type"@]);
        assert(fixedv =~= seq![ValueV::Text(item.name@), ValueV::Text(item.image_type@)]);
    }
    let n = fields.len();
    let mut i: usize = 0;
    let ghost rowv = values_view(row@);
    let mut row = row;
    while i < n
        invariant
            i <= n,
            n == fields.len(),
            cat == fields_view(fields@),
            columns.deep_view() == seq!["name"@, "image_type"@] + names_of(cat).take(i as int),
            rowv.len() == n,
            row@.len() == n - i,
            values@.len() == i + 2,
            values_view(values@) == fixedv + rowv.take(i as int),
            forall|k: int| 0 <= k < n - i ==> value_v(&row@[k]) == rowv[i + k],
        decreases n - i,
    {
        let ghost colsv = columns.deep_view();
        let ghost valsv = values_view(values@);
        columns.push(fields[i].name.clone());
        let v = row.remove(0);
        values.push(v);
        proof {
            assert(columns.deep_view() =~= colsv + seq![cat[i as int].0]);
            assert(names_of(cat).take(i + 1) =~= names_of(cat).take(i as int) + seq![cat[
                i as int].0]);
            assert(columns.deep_view() =~= seq!["name"@, "image_type"@] + names_of(cat).take(
                i + 1,
            ));
            assert(values_view(values@) =~= valsv + seq![rowv[i as int]]);
            assert(rowv.take(i + 1) =~= rowv.take(i as int) + seq![rowv[i as int]]);
            assert(values_view(values@) =~= fixedv + rowv.take(i + 1));
        }
        i += 1;
    }
    proof {
        assert(names_of(cat).take(n as int) =~= names_of(cat));
        assert(rowv.take(n as int) =~= rowv);
    }
    Ok(UpdatePlan { columns, values, id: item.id.clone() })
}

/// Maps the client's display name for the fixed name column onto its
/// storage name.
pub fn normalize_search_column(column: String) -> (r: String)
    ensures
        r@ == if column@ == "Name"@ {
            "name"@
        } else {
            column@
        },
{
    if str_eq(column.as_str(), "Name") {
        "name".to_owned()
    } else {
        column
    }
}

/// A search column is accepted only off the allow-list: the fixed name
/// column or a field of the current catalog, looked up by name.
pub fn validate_search_column(fields: &Vec<FieldDescriptor>, column: &String) -> (r: Result<
    (),
    Error,
>)
    ensures
        match r {
            Ok(()) => column@ == "name"@ || exists|i: int|
                0 <= i < fields_view(fields@).len() && (#[trigger] fields_view(fields@)[i]).0
                    == column@,
            Err(Error::Validation) => !(column@ == "name"@ || exists|i: int|
                0 <= i < fields_view(fields@).len() && (#[trigger] fields_view(fields@)[i]).0
                    == column@),
            Err(_) => false,
        },
{
    if str_eq(column.as_str(), "name") {
        return Ok(());
    }
    let n = fields.len();
    let mut i: usize = 0;
    while i < n
        invariant
            i <= n,
            n == fields.len(),
            forall|k: int| 0 <= k < i ==> (#[trigger] fields_view(fields@)[k]).0 != column@,
        decreases n - i,
    {
        if str_eq(fields[i].name.as_str(), column.as_str()) {
            proof {
                assert(fields_view(fields@)[i as int].0 == column@);
            }
            return Ok(());
        }
        i += 1;
    }
    Err(Error::Validation)
}

} // verus!
