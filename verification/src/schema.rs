//! The per-tenant field catalog: user-defined field kinds, their wire
//! tags, and the ordered, append-biased catalog whose order is the
//! positional contract the item store marshals against.

use vstd::prelude::*;
use vstd::string::StrSliceExecFns;
use vstd::string::StringExecFns;

use crate::errors::Error;
use crate::strings::lemma_first_sep_at;
use crate::strings::split_all;
use crate::strings::split_all_str;
use crate::strings::str_eq;
use crate::strings::str_starts_with;

verus! {

/// The kind of a user-defined field.
#[derive(Clone, PartialEq, Eq, Debug)]
pub enum FieldKind {
    Text,
    Integer,
    Float,
    Boolean,
    Percentage,
    Paragraph,
    Gallery,
    List(Vec<String>),
}

/// The mathematical form of a field kind; list options are plain
/// character sequences.
pub enum KindV {
    Text,
    Integer,
    Float,
    Boolean,
    Percentage,
    Paragraph,
    Gallery,
    List(Seq<Seq<char>>),
}

pub open spec fn kind_v(k: &FieldKind) -> KindV {
    match k {
        FieldKind::Text => KindV::Text,
        FieldKind::Integer => KindV::Integer,
        FieldKind::Float => KindV::Float,
        FieldKind::Boolean => KindV::Boolean,
        FieldKind::Percentage => KindV::Percentage,
        FieldKind::Paragraph => KindV::Paragraph,
        FieldKind::Gallery => KindV::Gallery,
        FieldKind::List(opts) => KindV::List(opts.deep_view()),
    }
}

/// The value bucket a field kind stores into: the string, integer or
/// float array of an item.
pub enum Bucket {
    Strings,
    Integers,
    Floats,
}

pub open spec fn spec_bucket_of(k: KindV) -> Bucket {
    match k {
        KindV::Text => Bucket::Strings,
        KindV::List(_) => Bucket::Strings,
        KindV::Paragraph => Bucket::Strings,
        KindV::Gallery => Bucket::Strings,
        KindV::Integer => Bucket::Integers,
        KindV::Boolean => Bucket::Integers,
        KindV::Float => Bucket::Floats,
        KindV::Percentage => Bucket::Floats,
    }
}

/// The bucket of a field kind.
pub fn bucket_of(k: &FieldKind) -> (b: Bucket)
    ensures
        b == spec_bucket_of(kind_v(k)),
{
    match k {
        FieldKind::Text => Bucket::Strings,
        FieldKind::List(_) => Bucket::Strings,
        FieldKind::Paragraph => Bucket::Strings,
        FieldKind::Gallery => Bucket::Strings,
        FieldKind::Integer => Bucket::Integers,
        FieldKind::Boolean => Bucket::Integers,
        FieldKind::Float => Bucket::Floats,
        FieldKind::Percentage => Bucket::Floats,
    }
}

/// The encoded options of a list kind: each option preceded by a comma.
pub open spec fn encode_opts(opts: Seq<Seq<char>>) -> Seq<char>
    decreases opts.len(),
{
    if opts.len() == 0 {
        Seq::empty()
    } else {
        seq![','] + opts[0] + encode_opts(opts.drop_first())
    }
}

/// The wire tag of a field kind.
pub open spec fn tag_of(k: KindV) -> Seq<char> {
    match k {
        KindV::Text => "text"@,
        KindV::Integer => "integer"@,
        KindV::Float => "float"@,
        KindV::Boolean => "bool"@,
        KindV::Percentage => "percentage"@,
        KindV::Paragraph => "paragraph"@,
        KindV::Gallery => "gallery"@,
        KindV::List(opts) => "list"@ + encode_opts(opts),
    }
}

/// The kind a wire tag denotes; an unrecognized tag falls back to text,
/// as stored catalogs are read tolerantly.
pub open spec fn parse_tag(t: Seq<char>) -> KindV {
    if t == "integer"@ {
        KindV::Integer
    } else if t == "float"@ {
        KindV::Float
    } else if t == "bool"@ {
        KindV::Boolean
    } else if t == "percentage"@ {
        KindV::Percentage
    } else if t == "paragraph"@ {
        KindV::Paragraph
    } else if t == "gallery"@ {
        KindV::Gallery
    } else if t.len() >= 5 && t.subrange(0, 5) == "list,"@ {
        KindV::List(split_all(t.skip(5), ','))
    } else {
        KindV::Text
    }
}

/// A kind whose tag survives the round trip onto the wire: list options
/// must be present and comma-free (they may be empty strings).
pub open spec fn wf_kind(k: KindV) -> bool {
    match k {
        KindV::List(opts) => opts.len() > 0 && forall|i: int|
            0 <= i < opts.len() ==> forall|c: int|
                0 <= c < (#[trigger] opts[i]).len() ==> opts[i][c] != ',',
        _ => true,
    }
}

/// Serializes a field kind to its wire tag.
pub fn kind_to_tag(kind: &FieldKind) -> (r: String)
    ensures
        r@ == tag_of(kind_v(kind)),
{
    match kind {
        FieldKind::Text => "text".to_owned(),
        FieldKind::Integer => "integer".to_owned(),
        FieldKind::Float => "float".to_owned(),
        FieldKind::Boolean => "bool".to_owned(),
        FieldKind::Percentage => "percentage".to_owned(),
        FieldKind::Paragraph => "paragraph".to_owned(),
        FieldKind::Gallery => "gallery".to_owned(),
        FieldKind::List(opts) => {
            let mut r = "list".to_owned();
            let n = opts.len();
            let mut i: usize = 0;
            proof {
                assert(opts.deep_view().take(0) =~= Seq::<Seq<char>>::empty());
                assert(r@ =~= "list"@ + encode_opts(opts.deep_view().take(0)));
            }
            while i < n
                invariant
                    i <= n,
                    n == opts.len(),
                    r@ == "list"@ + encode_opts(opts.deep_view().take(i as int)),
                decreases n - i,
            {
                let ghost prefix = opts.deep_view().take(i as int);
                let ghost member = opts.deep_view()[i as int];
                r.append(",");
                r.append(opts[i].as_str());
                proof {
                    reveal_strlit(",");
                    assert(","@ =~= seq![',']);
                    lemma_encode_opts_snoc(prefix, member);
                    assert(opts.deep_view().take(i + 1) =~= prefix + seq![member]);
                    assert(r@ =~= "list"@ + encode_opts(opts.deep_view().take(i + 1)));
                }
                i += 1;
            }
            proof {
                assert(opts.deep_view().take(n as int) =~= opts.deep_view());
            }
            r
        },
    }
}

/// `encode_opts` over a sequence extended at the back.
pub proof fn lemma_encode_opts_snoc(opts: Seq<Seq<char>>, o: Seq<char>)
    ensures
        encode_opts(opts + seq![o]) == encode_opts(opts) + seq![','] + o,
    decreases opts.len(),
{
    if opts.len() == 0 {
        assert(opts + seq![o] =~= seq![o]);
        assert(seq![o].drop_first() =~= Seq::<Seq<char>>::empty());
        assert(encode_opts(seq![o].drop_first()) == Seq::<char>::empty());
        assert(encode_opts(opts + seq![o]) =~= encode_opts(opts) + seq![','] + o);
    } else {
        assert((opts + seq![o]).drop_first() =~= opts.drop_first() + seq![o]);
        lemma_encode_opts_snoc(opts.drop_first(), o);
        assert(encode_opts(opts + seq![o]) =~= encode_opts(opts) + seq![','] + o);
    }
}

/// Parses a wire tag into a field kind.
pub fn tag_to_kind(tag: &str) -> (r: FieldKind)
    ensures
        kind_v(&r) == parse_tag(tag@),
{
    if str_eq(tag, "integer") {
        FieldKind::Integer
    } else if str_eq(tag, "float") {
        FieldKind::Float
    } else if str_eq(tag, "bool") {
        FieldKind::Boolean
    } else if str_eq(tag, "percentage") {
        FieldKind::Percentage
    } else if str_eq(tag, "paragraph") {
        FieldKind::Paragraph
    } else if str_eq(tag, "gallery") {
        FieldKind::Gallery
    } else if str_starts_with(tag, "list,") {
        proof {
            reveal_strlit("list,");
        }
        let n = tag.unicode_len();
        let opts = split_all_str(tag.substring_char(5, n), ',');
        proof {
            assert(tag@.subrange(5, n as int) =~= tag@.skip(5));
        }
        FieldKind::List(opts)
    } else {
        proof {
            reveal_strlit("list,");
        }
        FieldKind::Text
    }
}

/// Law (tag round trip): a well-formed kind survives serialization to its
/// wire tag and back.
pub proof fn lemma_tag_round_trip(k: KindV)
    requires
        wf_kind(k),
    ensures
        parse_tag(tag_of(k)) == k,
{
    reveal_strlit("text");
    reveal_strlit("integer");
    reveal_strlit("float");
    reveal_strlit("bool");
    reveal_strlit("percentage");
    reveal_strlit("paragraph");
    reveal_strlit("gallery");
    reveal_strlit("list");
    reveal_strlit("list,");
    match k {
        KindV::Text => {
            assert("text"@ != "bool"@) by {
                assert("text"@[0] == 't');
                assert("bool"@[0] == 'b');
            }
        },
        KindV::Integer => {
        },
        KindV::Float => {
        },
        KindV::Boolean => {
        },
        KindV::Percentage => {
        },
        KindV::Paragraph => {
        },
        KindV::Gallery => {
            assert("gallery"@ != "integer"@) by {
                assert("gallery"@[0] == 'g');
                assert("integer"@[0] == 'i');
            }
        },
        KindV::List(opts) => {
            let t = tag_of(k);
            let enc = encode_opts(opts);
            assert(enc == seq![','] + opts[0] + encode_opts(opts.drop_first()));
            assert(enc[0] == ',');
            assert(t == "list"@ + enc);
            assert(t.len() >= 5);
            assert(t[0] == 'l');
            assert(t != "integer"@) by {
                assert("integer"@[0] == 'i');
            }
            assert(t != "float"@) by {
                assert("float"@[0] == 'f');
            }
            assert(t != "bool"@) by {
                assert("bool"@[0] == 'b');
            }
            assert(t != "percentage"@) by {
                assert("percentage"@[0] == 'p');
            }
            assert(t != "paragraph"@) by {
                assert("paragraph"@[0] == 'p');
            }
            assert(t != "gallery"@) by {
                assert("gallery"@[0] == 'g');
            }
            assert(t.subrange(0, 5) =~= "list,"@);
            assert(t.skip(5) =~= opts[0] + encode_opts(opts.drop_first()));
            lemma_split_opts(opts);
        },
    }
}

/// Splitting the comma-joined options recovers them, in order.
proof fn lemma_split_opts(opts: Seq<Seq<char>>)
    requires
        opts.len() > 0,
        forall|i: int|
            0 <= i < opts.len() ==> forall|c: int|
                0 <= c < (#[trigger] opts[i]).len() ==> opts[i][c] != ',',
    ensures
        split_all(opts[0] + encode_opts(opts.drop_first()), ',') == opts,
    decreases opts.len(),
{
    let s = opts[0] + encode_opts(opts.drop_first());
    if opts.len() == 1 {
        assert(encode_opts(opts.drop_first()) == Seq::<char>::empty());
        assert(s =~= opts[0]);
        assert forall|i: int| 0 <= i < s.len() implies s[i] != ',' by {
            assert(opts[0][i] != ',');
        }
        lemma_first_sep_at(s, ',', s.len() as int);
        assert(split_all(s, ',') == seq![s]);
        assert(seq![s] =~= opts);
    } else {
        let rest = opts.drop_first();
        assert(encode_opts(rest) == seq![','] + rest[0] + encode_opts(rest.drop_first()));
        let k = opts[0].len() as int;
        assert forall|i: int| 0 <= i < k implies s[i] != ',' by {
            assert(s[i] == opts[0][i]);
        }
        assert(s[k] == ',');
        lemma_first_sep_at(s, ',', k);
        assert(s.take(k) =~= opts[0]);
        assert(s.skip(k + 1) =~= rest[0] + encode_opts(rest.drop_first()));
        assert forall|i: int|
            0 <= i < rest.len() implies forall|c: int|
            0 <= c < (#[trigger] rest[i]).len() ==> rest[i][c] != ',' by {
            assert(rest[i] == opts[i + 1]);
        }
        lemma_split_opts(rest);
        assert(split_all(s, ',') =~= opts);
    }
}

/// A character a field name may hold.
pub open spec fn is_alnum_char(c: char) -> bool {
    ('a' <= c && c <= 'z') || ('A' <= c && c <= 'Z') || ('0' <= c && c <= '9')
}

/// A usable field name: nonempty, alphanumeric, and not one of the fixed
/// column names `id`, `name`, `image_type`.
pub open spec fn valid_field_name(n: Seq<char>) -> bool {
    &&& n.len() > 0
    &&& forall|i: int| 0 <= i < n.len() ==> is_alnum_char(#[trigger] n[i])
    &&& n != "id"@
    &&& n != "name"@
    &&& n != "image_type"@
}

/// Whether a name may be used for a new or renamed field.
pub fn field_name_ok(name: &String) -> (r: bool)
    ensures
        r == valid_field_name(name@),
{
    let s = name.as_str();
    let n = s.unicode_len();
    if n == 0 {
        return false;
    }
    let mut i: usize = 0;
    while i < n
        invariant
            i <= n,
            n == name@.len(),
            s@ == name@,
            forall|k: int| 0 <= k < i ==> is_alnum_char(#[trigger] name@[k]),
        decreases n - i,
    {
        let c = s.get_char(i);
        let ok = ('a' <= c && c <= 'z') || ('A' <= c && c <= 'Z') || ('0' <= c && c <= '9');
        if !ok {
            return false;
        }
        i += 1;
    }
    if str_eq(s, "id") || str_eq(s, "name") || str_eq(s, "image_type") {
        return false;
    }
    true
}

/// One user-defined field: its name and kind.
#[derive(Clone, PartialEq, Eq, Debug)]
pub struct FieldDescriptor {
    pub name: String,
    pub kind: FieldKind,
}

/// The view of a catalog: each field as its name and kind.
pub open spec fn fields_view(fs: Seq<FieldDescriptor>) -> Seq<(Seq<char>, KindV)> {
    Seq::new(fs.len(), |i: int| (fs[i].name@, kind_v(&fs[i].kind)))
}

/// The position of the first field of that name, or -1.
pub open spec fn find_name(cat: Seq<(Seq<char>, KindV)>, n: Seq<char>) -> int
    decreases cat.len(),
{
    if cat.len() == 0 {
        -1
    } else if cat[0].0 == n {
        0
    } else {
        let r = find_name(cat.drop_first(), n);
        if r == -1 {
            -1
        } else {
            1 + r
        }
    }
}

pub proof fn lemma_find_name_range(cat: Seq<(Seq<char>, KindV)>, n: Seq<char>)
    ensures
        find_name(cat, n) == -1 || (0 <= find_name(cat, n) < cat.len() && cat[find_name(cat, n)].0
            == n),
    decreases cat.len(),
{
    if cat.len() == 0 {
    } else if cat[0].0 == n {
    } else {
        lemma_find_name_range(cat.drop_first(), n);
    }
}

/// The first matching position characterizes `find_name`.
pub proof fn lemma_find_name_at(cat: Seq<(Seq<char>, KindV)>, n: Seq<char>, k: int)
    requires
        0 <= k <= cat.len(),
        forall|i: int| 0 <= i < k ==> (#[trigger] cat[i]).0 != n,
        k == cat.len() || cat[k].0 == n,
    ensures
        find_name(cat, n) == if k == cat.len() {
            -1
        } else {
            k
        },
    decreases cat.len(),
{
    if cat.len() == 0 {
    } else if k == 0 {
    } else {
        assert(cat[0].0 != n);
        assert forall|i: int| 0 <= i < k - 1 implies (#[trigger] cat.drop_first()[i]).0 != n by {
            assert(cat.drop_first()[i] == cat[i + 1]);
        }
        lemma_find_name_at(cat.drop_first(), n, k - 1);
    }
}

/// A catalog operation, in mathematical form.
pub enum CatalogOpV {
    Add(Seq<char>, KindV),
    Remove(Seq<char>),
    Rename(Seq<char>, Seq<char>, KindV),
}

/// The effect of one operation on the catalog view; a rejected operation
/// leaves the catalog unchanged.
pub open spec fn apply_op(cat: Seq<(Seq<char>, KindV)>, op: CatalogOpV) -> Seq<(Seq<char>, KindV)> {
    match op {
        CatalogOpV::Add(n, k) => {
            if valid_field_name(n) && find_name(cat, n) == -1 {
                cat + seq![(n, k)]
            } else {
                cat
            }
        },
        CatalogOpV::Remove(n) => {
            if find_name(cat, n) >= 0 {
                cat.remove(find_name(cat, n))
            } else {
                cat
            }
        },
        CatalogOpV::Rename(o, n, k) => {
            let i = find_name(cat, o);
            if i >= 0 && valid_field_name(n) && (find_name(cat, n) == -1 || find_name(cat, n)
                == i) {
                cat.update(i, (n, k))
            } else {
                cat
            }
        },
    }
}

pub open spec fn apply_ops(cat: Seq<(Seq<char>, KindV)>, ops: Seq<CatalogOpV>) -> Seq<
    (Seq<char>, KindV),
>
    decreases ops.len(),
{
    if ops.len() == 0 {
        cat
    } else {
        apply_ops(apply_op(cat, ops[0]), ops.drop_first())
    }
}

/// Where the field at `idx` ends up after one operation; `None` once it
/// has been removed.
pub open spec fn track_one(cat: Seq<(Seq<char>, KindV)>, op: CatalogOpV, idx: int) -> Option<int> {
    match op {
        CatalogOpV::Remove(n) => {
            let r = find_name(cat, n);
            if r >= 0 {
                if idx == r {
                    None
                } else if idx > r {
                    Some(idx - 1)
                } else {
                    Some(idx)
                }
            } else {
                Some(idx)
            }
        },
        _ => Some(idx),
    }
}

/// Where the field at `idx` ends up after a whole operation sequence.
pub open spec fn track(cat: Seq<(Seq<char>, KindV)>, ops: Seq<CatalogOpV>, idx: int) -> Option<int>
    decreases ops.len(),
{
    if ops.len() == 0 {
        Some(idx)
    } else {
        match track_one(cat, ops[0], idx) {
            None => None,
            Some(i2) => track(apply_op(cat, ops[0]), ops.drop_first(), i2),
        }
    }
}

/// Law (append-only order): after any sequence of add, rename and remove
/// operations, two fields that were never removed keep their relative
/// order in the catalog.
pub proof fn lemma_append_only_order(
    cat: Seq<(Seq<char>, KindV)>,
    ops: Seq<CatalogOpV>,
    i: int,
    j: int,
)
    requires
        0 <= i < j < cat.len(),
        track(cat, ops, i) is Some,
        track(cat, ops, j) is Some,
    ensures
        0 <= track(cat, ops, i)->Some_0 < track(cat, ops, j)->Some_0 < apply_ops(cat, ops).len(),
    decreases ops.len(),
{
    if ops.len() == 0 {
    } else {
        let op = ops[0];
        let cat2 = apply_op(cat, op);
        let i2 = track_one(cat, op, i)->Some_0;
        let j2 = track_one(cat, op, j)->Some_0;
        match op {
            CatalogOpV::Add(n, k) => {
                assert(cat2.len() >= cat.len());
            },
            CatalogOpV::Remove(n) => {
                lemma_find_name_range(cat, n);
            },
            CatalogOpV::Rename(o, n, k) => {
                lemma_find_name_range(cat, o);
            },
        }
        assert(0 <= i2 < j2 < cat2.len());
        lemma_append_only_order(cat2, ops.drop_first(), i2, j2);
    }
}

/// The ordered catalog of user-defined fields of one tenant.  Field order
/// is the positional contract the item store consumes; it only ever grows
/// at the end, and renames keep their position.
pub struct Catalog {
    fields: Vec<FieldDescriptor>,
}

impl View for Catalog {
    type V = Seq<(Seq<char>, KindV)>;

    closed spec fn view(&self) -> Seq<(Seq<char>, KindV)> {
        fields_view(self.fields@)
    }
}

impl Catalog {
    /// Well-formed: every name valid, no two fields share a name.
    pub open spec fn wf(&self) -> bool {
        &&& forall|i: int| 0 <= i < self@.len() ==> valid_field_name((#[trigger] self@[i]).0)
        &&& forall|i: int, j: int|
            0 <= i < j < self@.len() ==> (#[trigger] self@[i]).0 != (#[trigger] self@[j]).0
    }

    pub fn new() -> (r: Catalog)
        ensures
            r@ =~= Seq::<(Seq<char>, KindV)>::empty(),
            r.wf(),
    {
        Catalog { fields: Vec::new() }
    }

    pub fn len(&self) -> (n: usize)
        ensures
            n == self@.len(),
    {
        self.fields.len()
    }

    /// The ordered descriptor sequence: the positional contract.
    pub fn list(&self) -> (v: &Vec<FieldDescriptor>)
        ensures
            fields_view(v@) == self@,
    {
        &self.fields
    }

    /// The position of the field with this name.
    pub fn find(&self, name: &String) -> (r: Option<usize>)
        ensures
            match r {
                Some(i) => 0 <= i < self@.len() && find_name(self@, name@) == i as int,
                None => find_name(self@, name@) == -1,
            },
    {
        let n = self.fields.len();
        let mut i: usize = 0;
        while i < n
            invariant
                i <= n,
                n == self.fields.len(),
                self@ == fields_view(self.fields@),
                forall|k: int| 0 <= k < i ==> (#[trigger] self@[k]).0 != name@,
            decreases n - i,
        {
            if str_eq(self.fields[i].name.as_str(), name.as_str()) {
                proof {
                    assert(self@[i as int].0 == name@);
                    lemma_find_name_at(self@, name@, i as int);
                }
                return Some(i);
            }
            i += 1;
        }
        proof {
            lemma_find_name_at(self@, name@, n as int);
        }
        None
    }

    /// Appends a new field: rejects bad or reserved names before any
    /// mutation, and duplicate names as a conflict.  New fields only ever
    /// go to the end.
    pub fn add_field(&mut self, name: String, kind: FieldKind) -> (r: Result<(), Error>)
        requires
            old(self).wf(),
        ensures
            final(self).wf(),
            final(self)@ == apply_op(old(self)@, CatalogOpV::Add(name@, kind_v(&kind))),
            match r {
                Ok(()) => {
                    &&& valid_field_name(name@)
                    &&& find_name(old(self)@, name@) == -1
                    &&& final(self)@ == old(self)@ + seq![(name@, kind_v(&kind))]
                },
                Err(Error::Validation) => !valid_field_name(name@),
                Err(Error::Conflict) => valid_field_name(name@) && find_name(old(self)@, name@)
                    != -1,
                Err(_) => false,
            },
    {
        if !field_name_ok(&name) {
            return Err(Error::Validation);
        }
        if self.find(&name).is_some() {
            return Err(Error::Conflict);
        }
        let ghost before = self@;
        let ghost namev = name@;
        let ghost kv = kind_v(&kind);
        self.fields.push(FieldDescriptor { name, kind });
        proof {
            assert(self@ =~= before + seq![(namev, kv)]);
            assert forall|a: int, b: int|
                0 <= a < b < self@.len() implies (#[trigger] self@[a]).0 != (
            #[trigger] self@[b]).0 by {
                if b == before.len() as int {
                    lemma_find_name_range(before, namev);
                    if before[a].0 == namev {
                        lemma_find_name_at_contains(before, namev, a);
                    }
                }
            }
        }
        Ok(())
    }

    /// Removes the named field; the fields after it close the gap, all
    /// relative order kept.
    pub fn remove_field(&mut self, name: &String) -> (r: Result<(), Error>)
        requires
            old(self).wf(),
        ensures
            final(self).wf(),
            final(self)@ == apply_op(old(self)@, CatalogOpV::Remove(name@)),
            match r {
                Ok(()) => find_name(old(self)@, name@) >= 0 && final(self)@ == old(self)@.remove(
                    find_name(old(self)@, name@),
                ),
                Err(Error::NotFound) => find_name(old(self)@, name@) == -1,
                Err(_) => false,
            },
    {
        match self.find(name) {
            None => Err(Error::NotFound),
            Some(i) => {
                let ghost before = self@;
                self.fields.remove(i);
                proof {
                    assert(self@ =~= before.remove(i as int));
                    lemma_remove_keeps_catalog_wf(before, i as int);
                }
                Ok(())
            },
        }
    }

    /// Renames the named field, possibly changing its kind; the field
    /// keeps its position.  The new name must be valid and must not
    /// collide with another field.
    pub fn rename_field(&mut self, old_name: &String, new_name: String, new_kind: FieldKind) -> (r:
        Result<(), Error>)
        requires
            old(self).wf(),
        ensures
            final(self).wf(),
            final(self)@ == apply_op(
                old(self)@,
                CatalogOpV::Rename(old_name@, new_name@, kind_v(&new_kind)),
            ),
            match r {
                Ok(()) => {
                    let i = find_name(old(self)@, old_name@);
                    &&& i >= 0
                    &&& valid_field_name(new_name@)
                    &&& final(self)@ == old(self)@.update(i, (new_name@, kind_v(&new_kind)))
                },
                Err(Error::NotFound) => find_name(old(self)@, old_name@) == -1,
                Err(Error::Validation) => find_name(old(self)@, old_name@) >= 0
                    && !valid_field_name(new_name@),
                Err(Error::Conflict) => {
                    let i = find_name(old(self)@, old_name@);
                    let w = find_name(old(self)@, new_name@);
                    i >= 0 && valid_field_name(new_name@) && w != -1 && w != i
                },
                Err(_) => false,
            },
    {
        let i = match self.find(old_name) {
            None => {
                return Err(Error::NotFound);
            },
            Some(i) => i,
        };
        if !field_name_ok(&new_name) {
            return Err(Error::Validation);
        }
        match self.find(&new_name) {
            Some(w) => {
                if w != i {
                    return Err(Error::Conflict);
                }
            },
            None => {},
        }
        let ghost before = self@;
        let ghost namev = new_name@;
        let ghost kv = kind_v(&new_kind);
        self.fields.set(i, FieldDescriptor { name: new_name, kind: new_kind });
        proof {
            assert(self@ =~= before.update(i as int, (namev, kv)));
            lemma_find_name_range(before, namev);
            assert forall|a: int, b: int|
                0 <= a < b < self@.len() implies (#[trigger] self@[a]).0 != (
            #[trigger] self@[b]).0 by {
                let w = find_name(before, namev);
                if a == i {
                    if before[b].0 == namev {
                        lemma_find_name_at_contains(before, namev, b);
                        assert(w != -1);
                        assert(w <= b);
                        if w != i as int {
                            assert(false);
                        } else {
                            assert(before[i as int].0 == namev);
                        }
                    }
                } else if b == i {
                    if before[a].0 == namev {
                        lemma_find_name_at_contains(before, namev, a);
                        assert(w != -1);
                        assert(w <= a);
                        if w != i as int {
                            assert(false);
                        }
                    }
                }
            }
        }
        Ok(())
    }
}

/// If some position matches the name, `find_name` finds one at or before
/// that position.
pub proof fn lemma_find_name_at_contains(cat: Seq<(Seq<char>, KindV)>, n: Seq<char>, w: int)
    requires
        0 <= w < cat.len(),
        cat[w].0 == n,
    ensures
        0 <= find_name(cat, n) <= w,
    decreases cat.len(),
{
    if cat[0].0 == n {
    } else {
        assert(cat.drop_first()[w - 1] == cat[w]);
        lemma_find_name_at_contains(cat.drop_first(), n, w - 1);
    }
}

proof fn lemma_remove_keeps_catalog_wf(cat: Seq<(Seq<char>, KindV)>, i: int)
    requires
        0 <= i < cat.len(),
        forall|a: int| 0 <= a < cat.len() ==> valid_field_name((#[trigger] cat[a]).0),
        forall|a: int, b: int|
            0 <= a < b < cat.len() ==> (#[trigger] cat[a]).0 != (#[trigger] cat[b]).0,
    ensures
        forall|a: int| 0 <= a < cat.remove(i).len() ==> valid_field_name((#[trigger] cat.remove(i)[a]).0),
        forall|a: int, b: int|
            0 <= a < b < cat.remove(i).len() ==> (#[trigger] cat.remove(i)[a]).0 != (
            #[trigger] cat.remove(i)[b]).0,
{
    let r = cat.remove(i);
    assert forall|a: int| 0 <= a < r.len() implies valid_field_name((#[trigger] r[a]).0) by {
        if a < i {
            assert(r[a] == cat[a]);
        } else {
            assert(r[a] == cat[a + 1]);
        }
    }
    assert forall|a: int, b: int| 0 <= a < b < r.len() implies (#[trigger] r[a]).0 != (
    #[trigger] r[b]).0 by {
        let a2: int = if a < i {
            a
        } else {
            a + 1
        };
        let b2: int = if b < i {
            b
        } else {
            b + 1
        };
        assert(r[a] == cat[a2]);
        assert(r[b] == cat[b2]);
    }
}

} // verus!
