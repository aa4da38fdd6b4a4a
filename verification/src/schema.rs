//! Inference of JSON response schemas per endpoint and target, and their comparison.
use vstd::prelude::*;
use crate::json::{JsonTree, JsonValue, tree_of};
use crate::matcher::Target;
use crate::text::str_eq;

verus! {

// ---------------------------------------------------------------------------
// Types
// ---------------------------------------------------------------------------

/// The inferred type of a JSON field.
#[derive(Debug)]
pub enum FieldType {
    String,
    Integer,
    Float,
    Boolean,
    Object(SchemaNode),
    Array(Box<FieldType>),
    Null,
}

/// What has been seen of one field: its type (fixed by the first sample that
/// had it), in how many samples it was present, out of how many, and whether
/// it was ever null.
#[derive(Debug)]
pub struct FieldStats {
    pub field_type: FieldType,
    pub seen_count: u32,
    pub total_count: u32,
    pub nullable: bool,
}

/// The fields of an object schema, by name.
pub type SchemaNode = Vec<(String, FieldStats)>;

pub enum TypeTree {
    String,
    Integer,
    Float,
    Boolean,
    Object(Seq<(Seq<char>, StatsTree)>),
    Array(Box<TypeTree>),
    Null,
}

pub struct StatsTree {
    pub field_type: TypeTree,
    pub seen_count: u32,
    pub total_count: u32,
    pub nullable: bool,
}

pub open spec fn type_tree(t: FieldType) -> TypeTree
    decreases t,
{
    match t {
        FieldType::String => TypeTree::String,
        FieldType::Integer => TypeTree::Integer,
        FieldType::Float => TypeTree::Float,
        FieldType::Boolean => TypeTree::Boolean,
        FieldType::Null => TypeTree::Null,
        FieldType::Array(e) => TypeTree::Array(Box::new(type_tree(*e))),
        FieldType::Object(n) => TypeTree::Object(
            Seq::new(
                n.len() as nat,
                |i: int|
                    if 0 <= i < n.len() {
                        (n@[i].0@, stats_tree(n@[i].1))
                    } else {
                        (Seq::empty(), StatsTree { field_type: TypeTree::Null, seen_count: 0, total_count: 0, nullable: false })
                    },
            ),
        ),
    }
}

pub open spec fn stats_tree(s: FieldStats) -> StatsTree
    decreases s,
{
    StatsTree {
        field_type: type_tree(s.field_type),
        seen_count: s.seen_count,
        total_count: s.total_count,
        nullable: s.nullable,
    }
}

pub open spec fn node_view(n: Seq<(String, FieldStats)>) -> Seq<(Seq<char>, StatsTree)> {
    n.map_values(|p: (String, FieldStats)| (p.0@, stats_tree(p.1)))
}

/// The stats of the first field called `name`.
pub open spec fn field_named(fields: Seq<(Seq<char>, StatsTree)>, name: Seq<char>) -> Option<StatsTree>
    decreases fields.len(),
{
    if fields.len() == 0 {
        None
    } else if fields[0].0 == name {
        Some(fields[0].1)
    } else {
        field_named(fields.drop_first(), name)
    }
}

/// Type equality: objects are equal when they have equally many fields and
/// each field of the first is in the second with equal stats.
pub open spec fn types_equal(a: TypeTree, b: TypeTree) -> bool
    decreases a, 1nat,
{
    match (a, b) {
        (TypeTree::String, TypeTree::String) => true,
        (TypeTree::Integer, TypeTree::Integer) => true,
        (TypeTree::Float, TypeTree::Float) => true,
        (TypeTree::Boolean, TypeTree::Boolean) => true,
        (TypeTree::Null, TypeTree::Null) => true,
        (TypeTree::Array(x), TypeTree::Array(y)) => types_equal(*x, *y),
        (TypeTree::Object(x), TypeTree::Object(y)) => x.len() == y.len() && forall|i: int|
            0 <= i < x.len() ==> match field_named(y, #[trigger] x[i].0) {
                Some(s) => stats_equal(x[i].1, s),
                None => false,
            },
        _ => false,
    }
}

pub open spec fn stats_equal(a: StatsTree, b: StatsTree) -> bool
    decreases a, 0nat,
{
    &&& types_equal(a.field_type, b.field_type)
    &&& a.seen_count == b.seen_count
    &&& a.total_count == b.total_count
    &&& a.nullable == b.nullable
}

/// `a[i]` is the first element of `a` that is not null.
pub open spec fn is_first_non_null(a: Seq<JsonTree>, i: int) -> bool {
    &&& 0 <= i < a.len()
    &&& !(a[i] is Null)
    &&& forall|j: int| 0 <= j < i ==> #[trigger] a[j] is Null
}

/// The type of a JSON value: numbers read as floats are `Float`, other numbers
/// `Integer`; an object's fields each count as seen once in one sample; an
/// array takes the type of its first non-null element (`Null` when it has
/// none).
pub open spec fn inferred(v: JsonTree) -> TypeTree
    decreases v,
{
    match v {
        JsonTree::Str(_) => TypeTree::String,
        JsonTree::Number(_, f) => if f { TypeTree::Float } else { TypeTree::Integer },
        JsonTree::Bool(_) => TypeTree::Boolean,
        JsonTree::Null => TypeTree::Null,
        JsonTree::Object(o) => TypeTree::Object(
            Seq::new(
                o.len(),
                |i: int|
                    if 0 <= i < o.len() {
                        (o[i].0, StatsTree { field_type: inferred(o[i].1), seen_count: 1, total_count: 1, nullable: o[i].1 is Null })
                    } else {
                        (Seq::empty(), StatsTree { field_type: TypeTree::Null, seen_count: 0, total_count: 0, nullable: false })
                    },
            ),
        ),
        JsonTree::Array(a) => TypeTree::Array(
            Box::new(
                if exists|i: int| #[trigger] is_first_non_null(a, i) {
                    inferred(a[choose|i: int| #[trigger] is_first_non_null(a, i)])
                } else {
                    TypeTree::Null
                },
            ),
        ),
    }
}

// ---------------------------------------------------------------------------
// Presence
// ---------------------------------------------------------------------------

/// `x` rounded to a multiple of `p`, halfway cases to the even multiple.
pub open spec fn round_to_multiple(x: int, p: int) -> int {
    let q = x / p;
    let r = x % p;
    if 2 * r > p || (2 * r == p && q % 2 == 1) {
        (q + 1) * p
    } else {
        q * p
    }
}

/// The value of `x as f32`: the nearest number with a 24-bit significand,
/// halfway cases to even.
pub open spec fn f32_value_of(x: u32) -> int {
    if x < 0x100_0000 {
        x as int
    } else if x < 0x200_0000 {
        round_to_multiple(x as int, 2)
    } else if x < 0x400_0000 {
        round_to_multiple(x as int, 4)
    } else if x < 0x800_0000 {
        round_to_multiple(x as int, 8)
    } else if x < 0x1000_0000 {
        round_to_multiple(x as int, 16)
    } else if x < 0x2000_0000 {
        round_to_multiple(x as int, 32)
    } else if x < 0x4000_0000 {
        round_to_multiple(x as int, 64)
    } else if x < 0x8000_0000 {
        round_to_multiple(x as int, 128)
    } else {
        round_to_multiple(x as int, 256)
    }
}

/// A field is required when its presence rate `seen / total`, computed in
/// `f32`, exceeds `0.95f32`. `0.95f32` is 15938355 / 2^24, and a correctly
/// rounded `f32` quotient exceeds it exactly when the quotient of the rounded
/// operands is at least 31876711 / 2^25 (the midpoint to the next `f32`,
/// which rounds up because its significand is even); `n / 0` is infinite for
/// `n > 0` and not a number for `n = 0`.
pub open spec fn presence_exceeds_95(seen: u32, total: u32) -> bool {
    let s = f32_value_of(seen);
    let t = f32_value_of(total);
    if t == 0 {
        s > 0
    } else {
        s * 0x200_0000 >= 31876711 * t
    }
}

fn round_multiple(x: u64, p: u64) -> (r: u64)
    requires
        p == 2 || p == 4 || p == 8 || p == 16 || p == 32 || p == 64 || p == 128 || p == 256,
        x < 0x1_0000_0000,
    ensures
        r == round_to_multiple(x as int, p as int),
{
    let q = x / p;
    let r = x % p;
    if 2 * r > p || (2 * r == p && q % 2 == 1) {
        (q + 1) * p
    } else {
        q * p
    }
}

fn f32_value(x: u32) -> (r: u64)
    ensures
        r == f32_value_of(x),
        r <= 0x1_0000_0000,
{
    let v = x as u64;
    let r = if x < 0x100_0000 {
        v
    } else if x < 0x200_0000 {
        round_multiple(v, 2)
    } else if x < 0x400_0000 {
        round_multiple(v, 4)
    } else if x < 0x800_0000 {
        round_multiple(v, 8)
    } else if x < 0x1000_0000 {
        round_multiple(v, 16)
    } else if x < 0x2000_0000 {
        round_multiple(v, 32)
    } else if x < 0x4000_0000 {
        round_multiple(v, 64)
    } else if x < 0x8000_0000 {
        round_multiple(v, 128)
    } else {
        round_multiple(v, 256)
    };
    assert(r <= 0x1_0000_0000) by (nonlinear_arith)
        requires
            r == f32_value_of(x),
            x < 0x1_0000_0000,
    {
    }
    r
}

impl FieldStats {
    /// The field was present in more than 95% of the samples.
    pub fn is_required(&self) -> (r: bool)
        ensures
            r == presence_exceeds_95(self.seen_count, self.total_count),
    {
        let s = f32_value(self.seen_count);
        let t = f32_value(self.total_count);
        if t == 0 {
            s > 0
        } else {
            s * 0x200_0000 >= 31876711 * t
        }
    }
}


// ---------------------------------------------------------------------------
// Operations on types
// ---------------------------------------------------------------------------

proof fn lemma_object_type_tree(n: SchemaNode)
    ensures
        type_tree(FieldType::Object(n)) == TypeTree::Object(node_view(n@)),
{
    let t = type_tree(FieldType::Object(n));
    if let TypeTree::Object(o) = t {
        assert(o =~= node_view(n@));
    }
}

/// The type of a JSON object's member, as `inferred` gives it.
pub open spec fn member_stats(m: (Seq<char>, JsonTree)) -> (Seq<char>, StatsTree) {
    (m.0, StatsTree { field_type: inferred(m.1), seen_count: 1, total_count: 1, nullable: m.1 is Null })
}

pub open spec fn members_stats(o: Seq<(Seq<char>, JsonTree)>) -> Seq<(Seq<char>, StatsTree)> {
    o.map_values(|m: (Seq<char>, JsonTree)| member_stats(m))
}

proof fn lemma_inferred_object(o: Seq<(Seq<char>, JsonTree)>)
    ensures
        inferred(JsonTree::Object(o)) == TypeTree::Object(members_stats(o)),
{
    let t = inferred(JsonTree::Object(o));
    if let TypeTree::Object(x) = t {
        assert(x =~= members_stats(o));
    }
}

/// The index of the first field called `name`.
pub fn find_field(n: &SchemaNode, name: &String) -> (r: Option<usize>)
    ensures
        match r {
            Some(i) => i < n.len() && n@[i as int].0@ == name@ && field_named(node_view(n@), name@)
                == Some(stats_tree(n@[i as int].1)),
            None => field_named(node_view(n@), name@) is None,
        },
{
    let ghost v = node_view(n@);
    let mut i: usize = 0;
    assert(v.skip(0) =~= v);
    while i < n.len()
        invariant
            i <= n.len(),
            v == node_view(n@),
            field_named(v, name@) == field_named(v.skip(i as int), name@),
        decreases n.len() - i,
    {
        let ghost rest = v.skip(i as int);
        assert(rest.drop_first() =~= v.skip(i + 1));
        if n[i].0 == *name {
            return Some(i);
        }
        i = i + 1;
    }
    assert(v.skip(i as int) =~= Seq::<(Seq<char>, StatsTree)>::empty());
    None
}

/// A copy of a type.
pub fn copy_type(t: &FieldType) -> (r: FieldType)
    ensures
        type_tree(r) == type_tree(*t),
    decreases t,
{
    match t {
        FieldType::String => FieldType::String,
        FieldType::Integer => FieldType::Integer,
        FieldType::Float => FieldType::Float,
        FieldType::Boolean => FieldType::Boolean,
        FieldType::Null => FieldType::Null,
        FieldType::Array(e) => FieldType::Array(Box::new(copy_type(e))),
        FieldType::Object(n) => {
            let mut out: SchemaNode = Vec::new();
            let mut i: usize = 0;
            while i < n.len()
                invariant
                    i <= n.len(),
                    *t == FieldType::Object(*n),
                    out.len() == i,
                    forall|j: int| 0 <= j < i ==> (#[trigger] out@[j]).0@ == n@[j].0@ && stats_tree(out@[j].1) == stats_tree(n@[j].1),
                decreases n.len() - i,
            {
                let s = &n[i].1;
                assert(decreases_to!(*t => (*t)->Object_0));
                assert(decreases_to!(*n => n@));
                assert(decreases_to!(n@ => n@[i as int]));
                assert(decreases_to!(n@[i as int] => n@[i as int].1));
                assert(decreases_to!(n@[i as int].1 => n@[i as int].1.field_type));
                let c = FieldStats {
                    field_type: copy_type(&s.field_type),
                    seen_count: s.seen_count,
                    total_count: s.total_count,
                    nullable: s.nullable,
                };
                out.push((n[i].0.clone(), c));
                i = i + 1;
            }
            let r = FieldType::Object(out);
            proof {
                lemma_object_type_tree(out);
                lemma_object_type_tree(*n);
                assert(node_view(out@) =~= node_view(n@));
            }
            r
        },
    }
}

/// Whether two types are equal (see `types_equal`).
pub fn types_eq(a: &FieldType, b: &FieldType) -> (r: bool)
    ensures
        r == types_equal(type_tree(*a), type_tree(*b)),
    decreases a,
{
    match (a, b) {
        (FieldType::String, FieldType::String) => true,
        (FieldType::Integer, FieldType::Integer) => true,
        (FieldType::Float, FieldType::Float) => true,
        (FieldType::Boolean, FieldType::Boolean) => true,
        (FieldType::Null, FieldType::Null) => true,
        (FieldType::Array(x), FieldType::Array(y)) => types_eq(x, y),
        (FieldType::Object(x), FieldType::Object(y)) => {
            let ghost xv = node_view(x@);
            let ghost yv = node_view(y@);
            proof {
                lemma_object_type_tree(*x);
                lemma_object_type_tree(*y);
            }
            if x.len() != y.len() {
                return false;
            }
            let mut i: usize = 0;
            while i < x.len()
                invariant
                    i <= x.len(),
                    *a == FieldType::Object(*x),
                    type_tree(*a) == TypeTree::Object(xv),
                    type_tree(*b) == TypeTree::Object(yv),
                    x.len() == y.len(),
                    xv == node_view(x@),
                    yv == node_view(y@),
                    forall|j: int| 0 <= j < i ==> match field_named(yv, #[trigger] xv[j].0) {
                        Some(s) => stats_equal(xv[j].1, s),
                        None => false,
                    },
                decreases x.len() - i,
            {
                match find_field(y, &x[i].0) {
                    Some(k) => {
                        let sa = &x[i].1;
                        let sb = &y[k].1;
                        assert(decreases_to!(*a => (*a)->Object_0));
                        assert(decreases_to!(*x => x@));
                        assert(decreases_to!(x@ => x@[i as int]));
                        assert(decreases_to!(x@[i as int] => x@[i as int].1));
                        assert(decreases_to!(x@[i as int].1 => x@[i as int].1.field_type));
                        let same = types_eq(&sa.field_type, &sb.field_type) && sa.seen_count == sb.seen_count
                            && sa.total_count == sb.total_count && sa.nullable == sb.nullable;
                        if !same {
                            assert(xv[i as int].0 == x@[i as int].0@);
                            assert(xv[i as int].1 == stats_tree(x@[i as int].1));
                            assert(!stats_equal(xv[i as int].1, stats_tree(y@[k as int].1)));
                            assert(!types_equal(TypeTree::Object(xv), TypeTree::Object(yv)));
                            return false;
                        }
                    },
                    None => {
                        assert(xv[i as int].0 == x@[i as int].0@);
                        assert(!types_equal(TypeTree::Object(xv), TypeTree::Object(yv)));
                        return false;
                    },
                }
                i = i + 1;
            }
            true
        },
        _ => false,
    }
}

/// The type of a JSON value (see `inferred`).
pub fn infer_type(v: &JsonValue) -> (r: FieldType)
    ensures
        type_tree(r) == inferred(tree_of(*v)),
    decreases v,
{
    match v {
        JsonValue::String(st) => {
            assert(tree_of(*v) == JsonTree::Str(st@));
            FieldType::String
        },
        JsonValue::Number(n) => {
            assert(tree_of(*v) == JsonTree::Number(n.text@, n.is_f64));
            if n.is_f64 {
                FieldType::Float
            } else {
                FieldType::Integer
            }
        },
        JsonValue::Bool(b) => {
            assert(tree_of(*v) == JsonTree::Bool(*b));
            FieldType::Boolean
        },
        JsonValue::Null => {
            assert(tree_of(*v) == JsonTree::Null);
            FieldType::Null
        },
        JsonValue::Object(m) => {
            let mut out: SchemaNode = Vec::new();
            let mut i: usize = 0;
            while i < m.len()
                invariant
                    i <= m.len(),
                    *v == JsonValue::Object(*m),
                    out.len() == i,
                    forall|j: int| 0 <= j < i ==> (#[trigger] out@[j]).0@ == m@[j].0@ && stats_tree(out@[j].1) == (StatsTree {
                        field_type: inferred(tree_of(m@[j].1)),
                        seen_count: 1,
                        total_count: 1,
                        nullable: tree_of(m@[j].1) is Null,
                    }),
                decreases m.len() - i,
            {
                assert(decreases_to!(*v => (*v)->Object_0));
                assert(decreases_to!(*m => m@));
                assert(decreases_to!(m@ => m@[i as int]));
                assert(decreases_to!(m@[i as int] => m@[i as int].1));
                let field_type = infer_type(&m[i].1);
                let nullable = match &m[i].1 {
                    JsonValue::Null => true,
                    _ => false,
                };
                out.push((m[i].0.clone(), FieldStats { field_type, seen_count: 1, total_count: 1, nullable }));
                i = i + 1;
            }
            let r = FieldType::Object(out);
            proof {
                lemma_object_type_tree(out);
                crate::json::lemma_object_tree(*m);
                lemma_inferred_object(crate::json::members_tree(m@));
                assert(node_view(out@) =~= members_stats(crate::json::members_tree(m@)));
            }
            assert(type_tree(r) == inferred(tree_of(*v)));
            r
        },
        JsonValue::Array(a) => {
            proof {
                crate::json::lemma_array_tree(*a);
            }
            let ghost et = crate::json::elements_tree(a@);
            assert(tree_of(*v) == JsonTree::Array(et));
            let mut i: usize = 0;
            while i < a.len()
                invariant
                    i <= a.len(),
                    *v == JsonValue::Array(*a),
                    tree_of(*v) == JsonTree::Array(et),
                    et == crate::json::elements_tree(a@),
                    forall|j: int| 0 <= j < i ==> #[trigger] et[j] is Null,
                decreases a.len() - i,
            {
                let null = match &a[i] {
                    JsonValue::Null => true,
                    _ => false,
                };
                assert(et[i as int] == tree_of(a@[i as int]));
                if !null {
                    assert(is_first_non_null(et, i as int));
                    assert forall|k: int| #[trigger] is_first_non_null(et, k) implies k == i by {
                        if k < i {
                            assert(et[k] is Null);
                        } else if k > i {
                            assert(et[i as int] is Null);
                        }
                    }
                    assert(decreases_to!(*v => (*v)->Array_0));
                    assert(decreases_to!(*a => a@));
                    assert(decreases_to!(a@ => a@[i as int]));
                    let e = infer_type(&a[i]);
                    let r = FieldType::Array(Box::new(e));
                    assert(type_tree(r) == TypeTree::Array(Box::new(type_tree(e))));
                    return r;
                }
                i = i + 1;
            }
            assert forall|k: int| !#[trigger] is_first_non_null(et, k) by {
                if 0 <= k < et.len() {
                    assert(et[k] is Null);
                }
            }
            let r = FieldType::Array(Box::new(FieldType::Null));
            assert(type_tree(FieldType::Null) == TypeTree::Null);
            assert(type_tree(r) == TypeTree::Array(Box::new(type_tree(FieldType::Null))));
            r
        },
    }
}


// ---------------------------------------------------------------------------
// The inferrer
// ---------------------------------------------------------------------------

/// The schema seen so far for one endpoint on one target: its fields and the
/// number of JSON object bodies observed.
#[derive(Debug)]
pub struct EndpointSchema {
    pub endpoint: String,
    pub target: Target,
    pub fields: SchemaNode,
    pub sample_count: u32,
}

/// Schemas per endpoint and target. Divergence is reported only once both
/// targets have `min_samples` samples.
#[derive(Debug)]
pub struct SchemaInferrer {
    pub schemas: Vec<EndpointSchema>,
    pub min_samples: u32,
}

/// Fields that differ between the schemas the two targets show for one endpoint.
#[derive(Debug)]
pub struct StructuralSchemaDivergence {
    pub endpoint: String,
    pub fields_only_a: Vec<String>,
    pub fields_only_b: Vec<String>,
    pub type_mismatches: Vec<(String, FieldType, FieldType)>,
    /// Fields both targets have that are required on one and optional on
    /// the other, in the order of A's schema.
    pub requirement_changes: Vec<String>,
}

pub open spec fn entry_matches(e: EndpointSchema, endpoint: Seq<char>, target: Target) -> bool {
    e.endpoint@ == endpoint && e.target == target
}

/// The sample count and fields recorded for `(endpoint, target)`.
pub open spec fn schema_for(s: Seq<EndpointSchema>, endpoint: Seq<char>, target: Target) -> Option<(u32, Seq<(Seq<char>, StatsTree)>)> {
    if exists|i: int| 0 <= i < s.len() && #[trigger] entry_matches(s[i], endpoint, target) {
        let i = choose|i: int| 0 <= i < s.len() && #[trigger] entry_matches(s[i], endpoint, target);
        Some((s[i].sample_count, node_view(s[i].fields@)))
    } else {
        None
    }
}

/// No two fields share a name.
pub open spec fn field_names_distinct(f: Seq<(Seq<char>, StatsTree)>) -> bool {
    forall|i: int, j: int| 0 <= i < j < f.len() ==> (#[trigger] f[i]).0 != (#[trigger] f[j]).0
}

/// Entries are unique per endpoint and target, and within an entry field
/// names are distinct and every field counts all samples and was seen at
/// least once and at most that often.
pub open spec fn schemas_wf(s: Seq<EndpointSchema>) -> bool {
    &&& forall|i: int, j: int|
        0 <= i < j < s.len() ==> !(s[i].endpoint@ == s[j].endpoint@ && s[i].target == s[j].target)
    &&& forall|i: int|
        0 <= i < s.len() ==> {
            let f = #[trigger] node_view(s[i].fields@);
            &&& field_names_distinct(f)
            &&& forall|k: int|
                0 <= k < f.len() ==> (#[trigger] f[k]).1.total_count == s[i].sample_count
                    && 1 <= f[k].1.seen_count <= s[i].sample_count
        }
}

/// The value of the first member called `name`.
pub open spec fn member_named(members: Seq<(Seq<char>, JsonTree)>, name: Seq<char>) -> Option<JsonTree>
    decreases members.len(),
{
    if members.len() == 0 {
        None
    } else if members[0].0 == name {
        Some(members[0].1)
    } else {
        member_named(members.drop_first(), name)
    }
}

/// A known field after one more sample with members `members` (of `total`).
pub open spec fn updated_field(f: (Seq<char>, StatsTree), members: Seq<(Seq<char>, JsonTree)>, total: u32) -> (Seq<char>, StatsTree) {
    match member_named(members, f.0) {
        Some(v) => (
            f.0,
            StatsTree {
                field_type: f.1.field_type,
                seen_count: (f.1.seen_count + 1) as u32,
                total_count: total,
                nullable: f.1.nullable || v is Null,
            },
        ),
        None => (
            f.0,
            StatsTree {
                field_type: f.1.field_type,
                seen_count: f.1.seen_count,
                total_count: total,
                nullable: f.1.nullable,
            },
        ),
    }
}

/// A field first seen in this sample.
pub open spec fn new_field(m: (Seq<char>, JsonTree), total: u32) -> (Seq<char>, StatsTree) {
    (m.0, StatsTree { field_type: inferred(m.1), seen_count: 1, total_count: total, nullable: m.1 is Null })
}

/// The members of `ms` whose name no field has, each name once (its first
/// member), in member order.
pub open spec fn fresh_members(fields: Seq<(Seq<char>, StatsTree)>, ms: Seq<(Seq<char>, JsonTree)>) -> Seq<(Seq<char>, JsonTree)>
    decreases ms.len(),
{
    if ms.len() == 0 {
        Seq::empty()
    } else {
        let p = fresh_members(fields, ms.drop_last());
        let m = ms.last();
        if field_named(fields, m.0) is None && member_named(p, m.0) is None {
            p.push(m)
        } else {
            p
        }
    }
}

/// A field first seen in sample number `total`, as a function of its member.
pub open spec fn new_field_of(total: u32) -> spec_fn((Seq<char>, JsonTree)) -> (Seq<char>, StatsTree) {
    |m: (Seq<char>, JsonTree)| new_field(m, total)
}

/// The fields after observing an object with `members` as sample number
/// `total`: known fields are counted (present or not), fields seen for the
/// first time follow in member order with the type of their value.
pub open spec fn observed_fields(
    fields: Seq<(Seq<char>, StatsTree)>,
    members: Seq<(Seq<char>, JsonTree)>,
    total: u32,
) -> Seq<(Seq<char>, StatsTree)> {
    fields.map_values(|f: (Seq<char>, StatsTree)| updated_field(f, members, total)) + fresh_members(
        fields,
        members,
    ).map_values(new_field_of(total))
}

proof fn lemma_schema_for_push(s: Seq<EndpointSchema>, t2: Seq<EndpointSchema>, e: Seq<char>, t: Target)
    requires
        t2.len() == s.len() + 1,
        forall|i: int| 0 <= i < s.len() ==> t2[i] == s[i],
        schemas_wf(t2),
        schema_for(s, t2[s.len() as int].endpoint@, t2[s.len() as int].target) is None,
    ensures
        schema_for(t2, e, t) == if entry_matches(t2[s.len() as int], e, t) {
            Some((t2[s.len() as int].sample_count, node_view(t2[s.len() as int].fields@)))
        } else {
            schema_for(s, e, t)
        },
{
    let n = s.len() as int;
    if entry_matches(t2[n], e, t) {
        let c = choose|i: int| 0 <= i < t2.len() && #[trigger] entry_matches(t2[i], e, t);
        if c < n {
            assert(entry_matches(s[c], e, t));
        }
    } else {
        if exists|i: int| 0 <= i < s.len() && #[trigger] entry_matches(s[i], e, t) {
            let c = choose|i: int| 0 <= i < s.len() && #[trigger] entry_matches(s[i], e, t);
            assert(entry_matches(t2[c], e, t));
            let d = choose|i: int| 0 <= i < t2.len() && #[trigger] entry_matches(t2[i], e, t);
            assert(d < n);
            assert(entry_matches(s[d], e, t));
            if c != d {
                if c < d {
                    assert(!(t2[c].endpoint@ == t2[d].endpoint@ && t2[c].target == t2[d].target));
                } else {
                    assert(!(t2[d].endpoint@ == t2[c].endpoint@ && t2[d].target == t2[c].target));
                }
            }
        } else {
            if exists|i: int| 0 <= i < t2.len() && #[trigger] entry_matches(t2[i], e, t) {
                let d = choose|i: int| 0 <= i < t2.len() && #[trigger] entry_matches(t2[i], e, t);
                assert(entry_matches(s[d], e, t));
            }
        }
    }
}

proof fn lemma_schema_for_update(s: Seq<EndpointSchema>, t2: Seq<EndpointSchema>, i: int)
    requires
        0 <= i < s.len(),
        t2.len() == s.len(),
        forall|j: int| 0 <= j < s.len() && j != i ==> t2[j] == s[j],
        t2[i].endpoint@ == s[i].endpoint@,
        t2[i].target == s[i].target,
        schemas_wf(s),
    ensures
        forall|e: Seq<char>, t: Target| #[trigger] schema_for(t2, e, t) == if entry_matches(s[i], e, t) {
            Some((t2[i].sample_count, node_view(t2[i].fields@)))
        } else {
            schema_for(s, e, t)
        },
{
    assert forall|e: Seq<char>, t: Target| #[trigger] schema_for(t2, e, t) == if entry_matches(s[i], e, t) {
        Some((t2[i].sample_count, node_view(t2[i].fields@)))
    } else {
        schema_for(s, e, t)
    } by {
        assert forall|j: int| 0 <= j < s.len() implies (#[trigger] entry_matches(t2[j], e, t)) == entry_matches(s[j], e, t) by {}
        if exists|j: int| 0 <= j < s.len() && #[trigger] entry_matches(s[j], e, t) {
            let c = choose|j: int| 0 <= j < s.len() && #[trigger] entry_matches(s[j], e, t);
            let d = choose|j: int| 0 <= j < t2.len() && #[trigger] entry_matches(t2[j], e, t);
            assert(entry_matches(t2[c], e, t));
            assert(entry_matches(s[d], e, t));
            if c != d {
                if c < d {
                    assert(!(s[c].endpoint@ == s[d].endpoint@ && s[c].target == s[d].target));
                } else {
                    assert(!(s[d].endpoint@ == s[c].endpoint@ && s[d].target == s[c].target));
                }
            }
            if entry_matches(s[i], e, t) {
                if c != i {
                    if c < i {
                        assert(!(s[c].endpoint@ == s[i].endpoint@ && s[c].target == s[i].target));
                    } else {
                        assert(!(s[i].endpoint@ == s[c].endpoint@ && s[i].target == s[c].target));
                    }
                }
            }
        } else {
            if exists|j: int| 0 <= j < t2.len() && #[trigger] entry_matches(t2[j], e, t) {
                let d = choose|j: int| 0 <= j < t2.len() && #[trigger] entry_matches(t2[j], e, t);
                assert(entry_matches(s[d], e, t));
            }
        }
    }
}

/// The index of the first member called `name`.
fn find_member(members: &Vec<(String, JsonValue)>, name: &String) -> (r: Option<usize>)
    ensures
        match r {
            Some(j) => j < members.len() && member_named(crate::json::members_tree(members@), name@)
                == Some(tree_of(members@[j as int].1)),
            None => member_named(crate::json::members_tree(members@), name@) is None,
        },
{
    let ghost v = crate::json::members_tree(members@);
    let mut i: usize = 0;
    assert(v.skip(0) =~= v);
    while i < members.len()
        invariant
            i <= members.len(),
            v == crate::json::members_tree(members@),
            member_named(v, name@) == member_named(v.skip(i as int), name@),
        decreases members.len() - i,
    {
        let ghost rest = v.skip(i as int);
        assert(rest.drop_first() =~= v.skip(i + 1));
        if members[i].0 == *name {
            return Some(i);
        }
        i = i + 1;
    }
    assert(v.skip(i as int) =~= Seq::<(Seq<char>, JsonTree)>::empty());
    None
}

fn contains_name(names: &Vec<String>, name: &String) -> (r: bool)
    ensures
        r == exists|i: int| 0 <= i < names.len() && #[trigger] names@[i]@ == name@,
{
    let mut i: usize = 0;
    while i < names.len()
        invariant
            i <= names.len(),
            forall|j: int| 0 <= j < i ==> #[trigger] names@[j]@ != name@,
        decreases names.len() - i,
    {
        if names[i] == *name {
            return true;
        }
        i = i + 1;
    }
    false
}

proof fn lemma_field_named_none(f: Seq<(Seq<char>, StatsTree)>, k: Seq<char>)
    ensures
        (field_named(f, k) is None) == (forall|i: int| 0 <= i < f.len() ==> #[trigger] f[i].0 != k),
    decreases f.len(),
{
    if f.len() > 0 {
        lemma_field_named_none(f.drop_first(), k);
        if field_named(f, k) is None {
            assert forall|i: int| 0 <= i < f.len() implies #[trigger] f[i].0 != k by {
                if i > 0 {
                    assert(f.drop_first()[i - 1] == f[i]);
                }
            }
        } else if f[0].0 != k {
            let i = choose|i: int| 0 <= i < f.drop_first().len() && #[trigger] f.drop_first()[i].0 == k;
            assert(f[i + 1].0 == k);
        }
    }
}

fn is_json_null(v: &JsonValue) -> (r: bool)
    ensures
        r == (tree_of(*v) is Null),
{
    match v {
        JsonValue::Null => true,
        JsonValue::Bool(b) => {
            assert(tree_of(*v) == JsonTree::Bool(*b));
            false
        },
        JsonValue::Number(n) => {
            assert(tree_of(*v) == JsonTree::Number(n.text@, n.is_f64));
            false
        },
        JsonValue::String(s) => {
            assert(tree_of(*v) == JsonTree::Str(s@));
            false
        },
        JsonValue::Array(a) => {
            proof {
                crate::json::lemma_array_tree(*a);
            }
            false
        },
        JsonValue::Object(o) => {
            proof {
                crate::json::lemma_object_tree(*o);
            }
            false
        },
    }
}

proof fn lemma_member_named_none(f: Seq<(Seq<char>, JsonTree)>, k: Seq<char>)
    ensures
        (member_named(f, k) is None) == (forall|i: int| 0 <= i < f.len() ==> #[trigger] f[i].0 != k),
    decreases f.len(),
{
    if f.len() > 0 {
        lemma_member_named_none(f.drop_first(), k);
        if member_named(f, k) is None {
            assert forall|i: int| 0 <= i < f.len() implies #[trigger] f[i].0 != k by {
                if i > 0 {
                    assert(f.drop_first()[i - 1] == f[i]);
                }
            }
        } else if f[0].0 != k {
            let i = choose|i: int| 0 <= i < f.drop_first().len() && #[trigger] f.drop_first()[i].0 == k;
            assert(f[i + 1].0 == k);
        }
    }
}

/// The fields after one more sample (see `observed_fields`).
fn observe_fields(fields: SchemaNode, members: &Vec<(String, JsonValue)>, total: u32) -> (r: SchemaNode)
    requires
        total >= 1,
        forall|k: int| 0 <= k < fields.len() ==> 1 <= (#[trigger] fields@[k]).1.seen_count < total,
        field_names_distinct(node_view(fields@)),
    ensures
        node_view(r@) == observed_fields(node_view(fields@), crate::json::members_tree(members@), total),
        forall|k: int| 0 <= k < r.len() ==> (#[trigger] r@[k]).1.total_count == total && 1 <= r@[k].1.seen_count <= total,
        field_names_distinct(node_view(r@)),
{
    let ghost fv = node_view(fields@);
    let ghost mv = crate::json::members_tree(members@);
    let mut rest = fields;
    let mut out: SchemaNode = Vec::new();
    let mut names: Vec<String> = Vec::new();
    let n = rest.len();
    let mut k: usize = 0;
    while k < n
        invariant
            k <= n,
            n == fv.len(),
            fv == node_view(fields@),
            field_names_distinct(fv),
            mv == crate::json::members_tree(members@),
            rest@ == fields@.skip(k as int),
            out.len() == k,
            names.len() == k,
            forall|j: int| 0 <= j < k ==> (#[trigger] names@[j])@ == fv[j].0,
            node_view(out@) == fv.take(k as int).map_values(|f: (Seq<char>, StatsTree)| updated_field(f, mv, total)),
            forall|j: int| 0 <= j < k ==> (#[trigger] out@[j]).1.total_count == total && 1 <= out@[j].1.seen_count <= total,
            forall|j: int| 0 <= j < fields.len() ==> 1 <= (#[trigger] fields@[j]).1.seen_count < total,
        decreases n - k,
    {
        let (name, stats) = rest.remove(0);
        assert(fields@[k as int] == (name, stats));
        let seen = match find_member(members, &name) {
            Some(j) => Some(is_json_null(&members[j].1)),
            None => None,
        };
        let FieldStats { field_type, seen_count, total_count: _, nullable } = stats;
        let next = match seen {
            Some(is_null) => FieldStats { field_type, seen_count: seen_count + 1, total_count: total, nullable: nullable || is_null },
            None => FieldStats { field_type, seen_count, total_count: total, nullable },
        };
        let ghost before = out@;
        names.push(name.clone());
        out.push((name, next));
        proof {
            assert(fv.take(k + 1) =~= fv.take(k as int).push(fv[k as int]));
            assert(out@.drop_last() =~= before);
            assert(node_view(out@) =~= node_view(before).push((name@, stats_tree(next))));
        }
        k = k + 1;
    }
    assert(fv.take(n as int) =~= fv);
    let ghost first = node_view(out@);
    assert forall|q: int| 0 <= q < first.len() implies #[trigger] first[q].0 == fv[q].0 by {}
    assert(mv.take(0) =~= Seq::<(Seq<char>, JsonTree)>::empty());
    assert(first + fresh_members(fv, mv.take(0)).map_values(new_field_of(total)) =~= first);
    let mut j: usize = 0;
    while j < members.len()
        invariant
            j <= members.len(),
            fv == node_view(fields@),
            mv == crate::json::members_tree(members@),
            total >= 1,
            first.len() == fv.len(),
            forall|q: int| 0 <= q < first.len() ==> #[trigger] first[q].0 == fv[q].0,
            names.len() == out.len(),
            forall|q: int| 0 <= q < names.len() ==> (#[trigger] names@[q])@ == node_view(out@)[q].0,
            forall|q: int, r: int| 0 <= q < r < names.len() ==> (#[trigger] names@[q])@ != (#[trigger] names@[r])@,
            node_view(out@) == first + fresh_members(fv, mv.take(j as int)).map_values(new_field_of(total)),
            forall|q: int| 0 <= q < out.len() ==> (#[trigger] out@[q]).1.total_count == total && 1 <= out@[q].1.seen_count <= total,
        decreases members.len() - j,
    {
        let ghost before = node_view(out@);
        let ghost fresh = fresh_members(fv, mv.take(j as int));
        let ghost fm = fresh.map_values(new_field_of(total));
        let ghost key = mv[j as int].0;
        assert(before == first + fm);
        assert(before.len() == fv.len() + fresh.len());
        assert(names.len() == before.len());
        assert forall|q: int| fv.len() <= q < before.len() implies #[trigger] before[q] == new_field(fresh[q - fv.len()], total) by {
            assert(before[q] == fm[q - fv.len()]);
        }
        let known = contains_name(&names, &members[j].0);
        proof {
            assert(key == members@[j as int].0@);
            assert(mv.take(j + 1).drop_last() =~= mv.take(j as int));
            assert(mv.take(j + 1).last() == mv[j as int]);
            lemma_field_named_none(fv, key);
            lemma_member_named_none(fresh, key);
            if known {
                let q = choose|q: int| 0 <= q < names.len() && #[trigger] names@[q]@ == members@[j as int].0@;
                if q < fv.len() {
                    assert(before[q] == first[q]);
                    assert(fv[q].0 == key);
                } else {
                    assert(before[q] == new_field(fresh[q - fv.len()], total));
                    assert(fresh[q - fv.len()].0 == key);
                }
            } else {
                assert forall|q: int| 0 <= q < fv.len() implies #[trigger] fv[q].0 != key by {
                    assert(names@[q]@ == before[q].0);
                    assert(before[q] == first[q]);
                }
                assert forall|q: int| 0 <= q < fresh.len() implies #[trigger] fresh[q].0 != key by {
                    assert(names@[q + fv.len()]@ == before[q + fv.len()].0);
                    assert(before[q + fv.len()] == new_field(fresh[q], total));
                }
            }
            assert(fresh_members(fv, mv.take(j + 1)) == if !known {
                fresh.push(mv[j as int])
            } else {
                fresh
            });
        }
        if !known {
            let field_type = infer_type(&members[j].1);
            let nullable = is_json_null(&members[j].1);
            let ghost prev = out@;
            let ghost prev_names = names@;
            names.push(members[j].0.clone());
            out.push((members[j].0.clone(), FieldStats { field_type, seen_count: 1, total_count: total, nullable }));
            proof {
                assert(out@.drop_last() =~= prev);
                assert(node_view(out@) =~= before.push(new_field(mv[j as int], total)));
                assert(fresh.push(mv[j as int]).map_values(new_field_of(total)) =~= fm.push(new_field(mv[j as int], total)));
                assert forall|q: int| 0 <= q < names.len() implies (#[trigger] names@[q])@ == node_view(out@)[q].0 by {
                    if q < prev_names.len() {
                        assert(names@[q] == prev_names[q]);
                    }
                }
                assert forall|q: int, r: int| 0 <= q < r < names.len() implies (#[trigger] names@[q])@ != (#[trigger] names@[r])@ by {
                    if r == prev_names.len() {
                        assert(names@[q] == prev_names[q]);
                        assert(!(prev_names[q]@ == members@[j as int].0@));
                    } else {
                        assert(names@[q] == prev_names[q]);
                        assert(names@[r] == prev_names[r]);
                    }
                }
            }
        }
        j = j + 1;
    }
    assert(mv.take(members.len() as int) =~= mv);
    assert forall|q: int, r: int| 0 <= q < r < node_view(out@).len() implies (#[trigger] node_view(out@)[q]).0
        != (#[trigger] node_view(out@)[r]).0 by {
        assert(names@[q]@ != names@[r]@);
    }
    out
}

/// A field of `x` that `y` lacks and that is required.
pub open spec fn required_and_missing(y: Seq<(Seq<char>, StatsTree)>) -> spec_fn((Seq<char>, StatsTree)) -> bool {
    |f: (Seq<char>, StatsTree)| field_named(y, f.0) is None && presence_exceeds_95(f.1.seen_count, f.1.total_count)
}

pub open spec fn name_of_field() -> spec_fn((Seq<char>, StatsTree)) -> Seq<char> {
    |f: (Seq<char>, StatsTree)| f.0
}

/// The names of the required fields of `x` that `y` lacks, in `x`'s order.
pub open spec fn required_only_in(x: Seq<(Seq<char>, StatsTree)>, y: Seq<(Seq<char>, StatsTree)>) -> Seq<Seq<char>> {
    x.filter(required_and_missing(y)).map_values(name_of_field())
}

/// A field of `x` that `y` has with another type.
pub open spec fn retyped_in(y: Seq<(Seq<char>, StatsTree)>) -> spec_fn((Seq<char>, StatsTree)) -> bool {
    |f: (Seq<char>, StatsTree)|
        match field_named(y, f.0) {
            Some(s) => !types_equal(f.1.field_type, s.field_type),
            None => false,
        }
}

pub open spec fn mismatch_entry(y: Seq<(Seq<char>, StatsTree)>) -> spec_fn((Seq<char>, StatsTree)) -> (Seq<char>, TypeTree, TypeTree) {
    |f: (Seq<char>, StatsTree)|
        (
            f.0,
            f.1.field_type,
            match field_named(y, f.0) {
                Some(s) => s.field_type,
                None => TypeTree::Null,
            },
        )
}

/// The fields of `x` whose type differs in `y`: name, type in `x`, type in
/// `y`, in `x`'s order.
pub open spec fn type_mismatches_of(x: Seq<(Seq<char>, StatsTree)>, y: Seq<(Seq<char>, StatsTree)>) -> Seq<(Seq<char>, TypeTree, TypeTree)> {
    x.filter(retyped_in(y)).map_values(mismatch_entry(y))
}

/// A field of `x` that `y` also has, required in one and optional in the other.
pub open spec fn requirement_flipped_in(y: Seq<(Seq<char>, StatsTree)>) -> spec_fn((Seq<char>, StatsTree)) -> bool {
    |f: (Seq<char>, StatsTree)|
        match field_named(y, f.0) {
            Some(s) => presence_exceeds_95(f.1.seen_count, f.1.total_count) != presence_exceeds_95(
                s.seen_count,
                s.total_count,
            ),
            None => false,
        }
}

/// The names of the fields of `x` that are required in one of `x` and `y`
/// and optional in the other, in `x`'s order.
pub open spec fn requirement_changes_of(x: Seq<(Seq<char>, StatsTree)>, y: Seq<(Seq<char>, StatsTree)>) -> Seq<Seq<char>> {
    x.filter(requirement_flipped_in(y)).map_values(name_of_field())
}

/// What a divergence report says.
pub struct DivergenceView {
    pub endpoint: Seq<char>,
    pub fields_only_a: Seq<Seq<char>>,
    pub fields_only_b: Seq<Seq<char>>,
    pub type_mismatches: Seq<(Seq<char>, TypeTree, TypeTree)>,
    pub requirement_changes: Seq<Seq<char>>,
}

impl StructuralSchemaDivergence {
    pub open spec fn view(&self) -> DivergenceView {
        DivergenceView {
            endpoint: self.endpoint@,
            fields_only_a: self.fields_only_a@.map_values(|n: String| n@),
            fields_only_b: self.fields_only_b@.map_values(|n: String| n@),
            type_mismatches: self.type_mismatches@.map_values(
                |m: (String, FieldType, FieldType)| (m.0@, type_tree(m.1), type_tree(m.2)),
            ),
            requirement_changes: self.requirement_changes@.map_values(|n: String| n@),
        }
    }
}

/// The divergence between the schemas of targets A and B for `endpoint`:
/// none until both have at least `min_samples` samples; otherwise the
/// required fields each lacks from the other, the fields typed differently
/// and the fields required on one side only, unless all four lists are
/// empty.
pub open spec fn divergence_of(s: &SchemaInferrer, endpoint: Seq<char>) -> Option<DivergenceView> {
    match (schema_for(s.schemas@, endpoint, Target::A), schema_for(s.schemas@, endpoint, Target::B)) {
        (Some((ca, fa)), Some((cb, fb))) => {
            let d = DivergenceView {
                endpoint,
                fields_only_a: required_only_in(fa, fb),
                fields_only_b: required_only_in(fb, fa),
                type_mismatches: type_mismatches_of(fa, fb),
                requirement_changes: requirement_changes_of(fa, fb),
            };
            if ca < s.min_samples || cb < s.min_samples {
                None
            } else if d.fields_only_a.len() == 0 && d.fields_only_b.len() == 0 && d.type_mismatches.len() == 0
                && d.requirement_changes.len() == 0 {
                None
            } else {
                Some(d)
            }
        },
        _ => None,
    }
}

/// Keeping some fields of a schema node keeps their names distinct.
pub proof fn lemma_filter_keeps_names_distinct(x: Seq<(Seq<char>, StatsTree)>, p: spec_fn((Seq<char>, StatsTree)) -> bool)
    requires
        field_names_distinct(x),
    ensures
        field_names_distinct(x.filter(p)),
        x.filter(p).map_values(name_of_field()).no_duplicates(),
    decreases x.len(),
{
    if x.len() > 0 {
        let d = x.drop_last();
        assert forall|i: int, j: int| 0 <= i < j < d.len() implies (#[trigger] d[i]).0 != (#[trigger] d[j]).0 by {
            assert(d[i] == x[i] && d[j] == x[j]);
        }
        lemma_filter_keeps_names_distinct(d, p);
        let sub = d.filter(p);
        reveal(Seq::filter);
        if !p(x.last()) {
            assert(x.filter(p) == sub);
        } else {
            assert forall|i: int| 0 <= i < sub.len() implies (#[trigger] sub[i]).0 != x.last().0 by {
                assert(sub.contains(sub[i]));
                d.lemma_filter_contains_rev(p, sub[i]);
                let k = choose|k: int| 0 <= k < d.len() && d[k] == sub[i];
                assert(x[k] == d[k]);
            }
            let f = x.filter(p);
            assert(f == sub.push(x.last()));
            assert forall|i: int, j: int| 0 <= i < j < f.len() implies (#[trigger] f[i]).0 != (#[trigger] f[j]).0 by {
                if j == sub.len() {
                    assert(f[i] == sub[i]);
                } else {
                    assert(f[i] == sub[i] && f[j] == sub[j]);
                }
            }
        }
    }
    let f = x.filter(p);
    let names = f.map_values(name_of_field());
    assert forall|i: int, j: int| 0 <= i < names.len() && 0 <= j < names.len() && i != j implies names[i] != names[j] by {
        if i < j {
            assert(f[i].0 != f[j].0);
        } else {
            assert(f[j].0 != f[i].0);
        }
    }
}

/// The names of the required fields of `x` that `y` lacks.
fn required_only_in_first(x: &SchemaNode, y: &SchemaNode) -> (r: Vec<String>)
    ensures
        r@.map_values(|n: String| n@) == required_only_in(node_view(x@), node_view(y@)),
{
    let ghost xv = node_view(x@);
    let ghost yv = node_view(y@);
    let mut out: Vec<String> = Vec::new();
    let mut i: usize = 0;
    while i < x.len()
        invariant
            i <= x.len(),
            xv == node_view(x@),
            yv == node_view(y@),
            out@.map_values(|n: String| n@) == xv.take(i as int).filter(required_and_missing(yv)).map_values(name_of_field()),
        decreases x.len() - i,
    {
        let ghost kept = xv.take(i as int).filter(required_and_missing(yv));
        let ghost prev = out@;
        proof {
            assert(xv.take(i + 1) =~= xv.take(i as int).push(xv[i as int]));
            xv.take(i as int).lemma_filter_push(xv[i as int], required_and_missing(yv));
            assert(xv[i as int] == (x@[i as int].0@, stats_tree(x@[i as int].1)));
        }
        let missing = match find_field(y, &x[i].0) {
            Some(_) => false,
            None => true,
        };
        if missing && x[i].1.is_required() {
            out.push(x[i].0.clone());
            proof {
                assert(out@.drop_last() =~= prev);
                assert(out@.map_values(|n: String| n@) =~= prev.map_values(|n: String| n@).push(x@[i as int].0@));
                assert(kept.push(xv[i as int]).map_values(name_of_field()) =~= kept.map_values(name_of_field()).push(xv[i as int].0));
            }
        }
        i = i + 1;
    }
    assert(xv.take(x.len() as int) =~= xv);
    out
}

/// The fields of `x` that `y` types differently.
fn type_mismatches(x: &SchemaNode, y: &SchemaNode) -> (r: Vec<(String, FieldType, FieldType)>)
    ensures
        r@.map_values(|m: (String, FieldType, FieldType)| (m.0@, type_tree(m.1), type_tree(m.2))) == type_mismatches_of(
            node_view(x@),
            node_view(y@),
        ),
{
    let ghost xv = node_view(x@);
    let ghost yv = node_view(y@);
    let mut out: Vec<(String, FieldType, FieldType)> = Vec::new();
    let mut i: usize = 0;
    while i < x.len()
        invariant
            i <= x.len(),
            xv == node_view(x@),
            yv == node_view(y@),
            out@.map_values(|m: (String, FieldType, FieldType)| (m.0@, type_tree(m.1), type_tree(m.2)))
                == xv.take(i as int).filter(retyped_in(yv)).map_values(mismatch_entry(yv)),
        decreases x.len() - i,
    {
        let ghost kept = xv.take(i as int).filter(retyped_in(yv));
        let ghost prev = out@;
        proof {
            assert(xv.take(i + 1) =~= xv.take(i as int).push(xv[i as int]));
            xv.take(i as int).lemma_filter_push(xv[i as int], retyped_in(yv));
            assert(xv[i as int] == (x@[i as int].0@, stats_tree(x@[i as int].1)));
        }
        match find_field(y, &x[i].0) {
            Some(k) => {
                if !types_eq(&x[i].1.field_type, &y[k].1.field_type) {
                    let ta = copy_type(&x[i].1.field_type);
                    let tb = copy_type(&y[k].1.field_type);
                    out.push((x[i].0.clone(), ta, tb));
                    proof {
                        assert(out@.drop_last() =~= prev);
                        assert(out@.map_values(|m: (String, FieldType, FieldType)| (m.0@, type_tree(m.1), type_tree(m.2)))
                            =~= prev.map_values(|m: (String, FieldType, FieldType)| (m.0@, type_tree(m.1), type_tree(m.2))).push(
                            mismatch_entry(yv)(xv[i as int]),
                        ));
                        assert(kept.push(xv[i as int]).map_values(mismatch_entry(yv)) =~= kept.map_values(mismatch_entry(yv)).push(
                            mismatch_entry(yv)(xv[i as int]),
                        ));
                    }
                }
            },
            None => {},
        }
        i = i + 1;
    }
    assert(xv.take(x.len() as int) =~= xv);
    out
}

/// The names of the fields of `x` that `y` has too, required in one and
/// optional in the other.
fn requirement_changes(x: &SchemaNode, y: &SchemaNode) -> (r: Vec<String>)
    ensures
        r@.map_values(|n: String| n@) == requirement_changes_of(node_view(x@), node_view(y@)),
{
    let ghost xv = node_view(x@);
    let ghost yv = node_view(y@);
    let mut out: Vec<String> = Vec::new();
    let mut i: usize = 0;
    while i < x.len()
        invariant
            i <= x.len(),
            xv == node_view(x@),
            yv == node_view(y@),
            out@.map_values(|n: String| n@) == xv.take(i as int).filter(requirement_flipped_in(yv)).map_values(name_of_field()),
        decreases x.len() - i,
    {
        let ghost kept = xv.take(i as int).filter(requirement_flipped_in(yv));
        let ghost prev = out@;
        proof {
            assert(xv.take(i + 1) =~= xv.take(i as int).push(xv[i as int]));
            xv.take(i as int).lemma_filter_push(xv[i as int], requirement_flipped_in(yv));
            assert(xv[i as int] == (x@[i as int].0@, stats_tree(x@[i as int].1)));
        }
        let flipped = match find_field(y, &x[i].0) {
            Some(k) => x[i].1.is_required() != y[k].1.is_required(),
            None => false,
        };
        if flipped {
            out.push(x[i].0.clone());
            proof {
                assert(out@.drop_last() =~= prev);
                assert(out@.map_values(|n: String| n@) =~= prev.map_values(|n: String| n@).push(x@[i as int].0@));
                assert(kept.push(xv[i as int]).map_values(name_of_field()) =~= kept.map_values(name_of_field()).push(xv[i as int].0));
            }
        }
        i = i + 1;
    }
    assert(xv.take(x.len() as int) =~= xv);
    out
}

impl SchemaInferrer {
    pub open spec fn wf(&self) -> bool {
        schemas_wf(self.schemas@)
    }

    /// The number of samples observed for `(endpoint, target)`.
    pub open spec fn samples(&self, endpoint: Seq<char>, target: Target) -> nat {
        match schema_for(self.schemas@, endpoint, target) {
            Some((c, _)) => c as nat,
            None => 0,
        }
    }

    /// An empty inferrer that waits for 50 samples per target.
    pub fn new() -> (r: SchemaInferrer)
        ensures
            r.wf(),
            r.min_samples == 50,
            forall|e: Seq<char>, t: Target| schema_for(r.schemas@, e, t) is None,
    {
        SchemaInferrer { schemas: Vec::new(), min_samples: 50 }
    }

    fn find(&self, endpoint: &str, target: Target) -> (r: Option<usize>)
        requires
            self.wf(),
        ensures
            match r {
                Some(i) => i < self.schemas.len() && entry_matches(self.schemas@[i as int], endpoint@, target)
                    && schema_for(self.schemas@, endpoint@, target) == Some(
                    (self.schemas@[i as int].sample_count, node_view(self.schemas@[i as int].fields@)),
                ),
                None => schema_for(self.schemas@, endpoint@, target) is None,
            },
    {
        let mut i: usize = 0;
        while i < self.schemas.len()
            invariant
                i <= self.schemas.len(),
                self.wf(),
                forall|j: int| 0 <= j < i ==> !(#[trigger] entry_matches(self.schemas@[j], endpoint@, target)),
            decreases self.schemas.len() - i,
        {
            if self.schemas[i].target == target && str_eq(self.schemas[i].endpoint.as_str(), endpoint) {
                let ghost c = choose|c: int| 0 <= c < self.schemas@.len() && #[trigger] entry_matches(self.schemas@[c], endpoint@, target);
                assert(entry_matches(self.schemas@[i as int], endpoint@, target));
                assert(c == i) by {
                    if c < i {
                        assert(!entry_matches(self.schemas@[c], endpoint@, target));
                    } else if c > i {
                        assert(!(self.schemas@[i as int].endpoint@ == self.schemas@[c].endpoint@
                            && self.schemas@[i as int].target == self.schemas@[c].target));
                    }
                }
                return Some(i);
            }
            i = i + 1;
        }
        None
    }

    /// Records one response body for `(endpoint, target)`. Only JSON objects
    /// count as samples; any other value leaves the schemas as they were.
    pub fn observe(&mut self, endpoint: &str, target: Target, body: &JsonValue)
        requires
            old(self).wf(),
            old(self).samples(endpoint@, target) < u32::MAX,
        ensures
            final(self).wf(),
            final(self).min_samples == old(self).min_samples,
            match tree_of(*body) {
                JsonTree::Object(members) => forall|e: Seq<char>, t: Target|
                    #[trigger] schema_for(final(self).schemas@, e, t) == if e == endpoint@ && t == target {
                        let prior = match schema_for(old(self).schemas@, endpoint@, target) {
                            Some(x) => x,
                            None => (0u32, Seq::empty()),
                        };
                        Some(((prior.0 + 1) as u32, observed_fields(prior.1, members, (prior.0 + 1) as u32)))
                    } else {
                        schema_for(old(self).schemas@, e, t)
                    },
                _ => final(self).schemas@ == old(self).schemas@,
            },
    {
        let members = match body {
            JsonValue::Object(m) => m,
            _ => return ,
        };
        proof {
            crate::json::lemma_object_tree(*members);
        }
        let ghost old_schemas = self.schemas@;
        let i = match self.find(endpoint, target) {
            Some(i) => i,
            None => {
                let entry = EndpointSchema {
                    endpoint: endpoint.to_string(),
                    target,
                    fields: Vec::new(),
                    sample_count: 0,
                };
                self.schemas.push(entry);
                proof {
                    assert(node_view(self.schemas@[old_schemas.len() as int].fields@) =~= Seq::empty());
                    assert forall|a: int, b: int| 0 <= a < b < self.schemas@.len() implies !(self.schemas@[a].endpoint@ == self.schemas@[b].endpoint@
                        && self.schemas@[a].target == self.schemas@[b].target) by {
                        if b == old_schemas.len() {
                            assert(!entry_matches(old_schemas[a], endpoint@, target));
                        }
                    }
                    assert forall|e: Seq<char>, t: Target| #[trigger] schema_for(self.schemas@, e, t) == if e == endpoint@ && t == target {
                        Some((0u32, Seq::<(Seq<char>, StatsTree)>::empty()))
                    } else {
                        schema_for(old_schemas, e, t)
                    } by {
                        lemma_schema_for_push(old_schemas, self.schemas@, e, t);
                    }
                }
                self.schemas.len() - 1
            },
        };
        let ghost mid = self.schemas@;
        let ghost prior = match schema_for(old_schemas, endpoint@, target) {
            Some(x) => x,
            None => (0u32, Seq::<(Seq<char>, StatsTree)>::empty()),
        };
        assert(mid[i as int].sample_count == prior.0 && node_view(mid[i as int].fields@) == prior.1);
        let mut entry = self.schemas.remove(i);
        let total = entry.sample_count + 1;
        let mut fields: SchemaNode = Vec::new();
        std::mem::swap(&mut fields, &mut entry.fields);
        proof {
            assert(schemas_wf(mid));
            let f = node_view(mid[i as int].fields@);
            assert(fields@ == mid[i as int].fields@);
            assert forall|k: int| 0 <= k < fields.len() implies 1 <= (#[trigger] fields@[k]).1.seen_count < total by {
                assert(f[k] == (fields@[k].0@, stats_tree(fields@[k].1)));
            }
        }
        let updated = observe_fields(fields, members, total);
        entry.fields = updated;
        entry.sample_count = total;
        self.schemas.insert(i, entry);
        proof {
            assert(self.schemas@ =~= mid.update(i as int, self.schemas@[i as int]));
            lemma_schema_for_update(mid, self.schemas@, i as int);
            assert forall|e: Seq<char>, t: Target| #[trigger] schema_for(self.schemas@, e, t) == if e == endpoint@ && t == target {
                Some((total, observed_fields(prior.1, crate::json::members_tree(members@), total)))
            } else {
                schema_for(old_schemas, e, t)
            } by {
                if !(e == endpoint@ && t == target) {
                    assert(!entry_matches(mid[i as int], e, t));
                }
            }
        }
    }

    /// The structural divergence between the two targets' schemas for
    /// `endpoint` (see `divergence_of`), once both have at least
    /// `min_samples` samples.
    pub fn diff(&self, endpoint: &str) -> (r: Option<StructuralSchemaDivergence>)
        requires
            self.wf(),
        ensures
            match r {
                Some(d) => divergence_of(self, endpoint@) == Some(d.view()),
                None => divergence_of(self, endpoint@) is None,
            },
            r matches Some(d) ==> {
                &&& d.view().fields_only_a.no_duplicates()
                &&& d.view().fields_only_b.no_duplicates()
                &&& d.view().requirement_changes.no_duplicates()
                &&& forall|i: int, j: int|
                    0 <= i < j < d.view().type_mismatches.len() ==> (#[trigger] d.view().type_mismatches[i]).0
                        != (#[trigger] d.view().type_mismatches[j]).0
            },
    {
        let ia = match self.find(endpoint, Target::A) {
            Some(i) => i,
            None => return None,
        };
        let ib = match self.find(endpoint, Target::B) {
            Some(i) => i,
            None => return None,
        };
        let sa = &self.schemas[ia];
        let sb = &self.schemas[ib];
        if sa.sample_count < self.min_samples || sb.sample_count < self.min_samples {
            return None;
        }
        let only_a = required_only_in_first(&sa.fields, &sb.fields);
        let only_b = required_only_in_first(&sb.fields, &sa.fields);
        let mismatches = type_mismatches(&sa.fields, &sb.fields);
        let changes = requirement_changes(&sa.fields, &sb.fields);
        if only_a.len() == 0 && only_b.len() == 0 && mismatches.len() == 0 && changes.len() == 0 {
            return None;
        }
        let d = StructuralSchemaDivergence {
            endpoint: endpoint.to_string(),
            fields_only_a: only_a,
            fields_only_b: only_b,
            type_mismatches: mismatches,
            requirement_changes: changes,
        };
        proof {
            let fa = node_view(sa.fields@);
            let fb = node_view(sb.fields@);
            assert(field_names_distinct(fa));
            assert(field_names_distinct(fb));
            lemma_filter_keeps_names_distinct(fa, required_and_missing(fb));
            lemma_filter_keeps_names_distinct(fb, required_and_missing(fa));
            lemma_filter_keeps_names_distinct(fa, requirement_flipped_in(fb));
            lemma_filter_keeps_names_distinct(fa, retyped_in(fb));
            let kept = fa.filter(retyped_in(fb));
            let tm = type_mismatches_of(fa, fb);
            assert forall|i: int, j: int| 0 <= i < j < tm.len() implies (#[trigger] tm[i]).0 != (#[trigger] tm[j]).0 by {
                assert(tm[i].0 == kept[i].0 && tm[j].0 == kept[j].0);
            }
        }
        Some(d)
    }

    /// The number of JSON object bodies observed for `(endpoint, target)`.
    pub fn sample_count(&self, endpoint: &str, target: Target) -> (r: u32)
        requires
            self.wf(),
        ensures
            r == self.samples(endpoint@, target),
    {
        match self.find(endpoint, target) {
            Some(i) => self.schemas[i].sample_count,
            None => 0,
        }
    }
}


// ---------------------------------------------------------------------------
// Law: identical samples
// ---------------------------------------------------------------------------

/// The fields after observing an object with `members` `n` times, starting
/// from no samples (the fields `observe` records).
pub open spec fn repeated_observation(members: Seq<(Seq<char>, JsonTree)>, n: nat) -> Seq<(Seq<char>, StatsTree)>
    decreases n,
{
    if n == 0 {
        Seq::empty()
    } else {
        observed_fields(repeated_observation(members, (n - 1) as nat), members, n as u32)
    }
}

proof fn lemma_fresh_members_are_fresh(fields: Seq<(Seq<char>, StatsTree)>, ms: Seq<(Seq<char>, JsonTree)>)
    ensures
        forall|i: int|
            0 <= i < fresh_members(fields, ms).len() ==> field_named(fields, (#[trigger] fresh_members(fields, ms)[i]).0)
                is None && member_named(ms, fresh_members(fields, ms)[i].0) is Some,
    decreases ms.len(),
{
    if ms.len() > 0 {
        let d = ms.drop_last();
        lemma_fresh_members_are_fresh(fields, d);
        let p = fresh_members(fields, d);
        let f = fresh_members(fields, ms);
        assert forall|i: int| 0 <= i < f.len() implies field_named(fields, (#[trigger] f[i]).0) is None
            && member_named(ms, f[i].0) is Some by {
            let k = f[i].0;
            lemma_member_named_none(ms, k);
            lemma_member_named_none(d, k);
            if i < p.len() {
                assert(f[i] == p[i]);
                if member_named(ms, k) is None {
                    let j = choose|j: int| 0 <= j < d.len() && #[trigger] d[j].0 == k;
                    assert(ms[j] == d[j]);
                }
            } else {
                assert(f[i] == ms.last());
                assert(ms[ms.len() - 1].0 == k);
            }
        }
    }
}

proof fn lemma_fresh_members_cover(fields: Seq<(Seq<char>, StatsTree)>, ms: Seq<(Seq<char>, JsonTree)>, j: int)
    requires
        0 <= j < ms.len(),
    ensures
        field_named(fields, ms[j].0) is Some || member_named(fresh_members(fields, ms), ms[j].0) is Some,
    decreases ms.len(),
{
    let d = ms.drop_last();
    let p = fresh_members(fields, d);
    let f = fresh_members(fields, ms);
    let k = ms[j].0;
    lemma_member_named_none(p, k);
    lemma_member_named_none(f, k);
    if j < ms.len() - 1 {
        assert(d[j] == ms[j]);
        lemma_fresh_members_cover(fields, d, j);
        if field_named(fields, k) is None {
            let q = choose|q: int| 0 <= q < p.len() && #[trigger] p[q].0 == k;
            assert(f[q] == p[q]);
        }
    } else {
        if field_named(fields, k) is None && member_named(p, k) is None {
            assert(f[f.len() - 1] == ms.last());
        } else if field_named(fields, k) is None {
            let q = choose|q: int| 0 <= q < p.len() && #[trigger] p[q].0 == k;
            assert(f[q] == p[q]);
        }
    }
}

proof fn lemma_fresh_members_none_new(fields: Seq<(Seq<char>, StatsTree)>, ms: Seq<(Seq<char>, JsonTree)>)
    requires
        forall|j: int| 0 <= j < ms.len() ==> field_named(fields, (#[trigger] ms[j]).0) is Some,
    ensures
        fresh_members(fields, ms).len() == 0,
    decreases ms.len(),
{
    if ms.len() > 0 {
        let d = ms.drop_last();
        assert forall|j: int| 0 <= j < d.len() implies field_named(fields, (#[trigger] d[j]).0) is Some by {
            assert(d[j] == ms[j]);
        }
        lemma_fresh_members_none_new(fields, d);
        assert(field_named(fields, ms[ms.len() - 1].0) is Some);
    }
}

proof fn lemma_full_presence_required(n: u32)
    requires
        n >= 1,
    ensures
        presence_exceeds_95(n, n),
{
    let t = f32_value_of(n);
    assert(t > 0) by {
        if n >= 0x100_0000 {
            let p: int = if n < 0x200_0000 { 2 } else if n < 0x400_0000 { 4 } else if n < 0x800_0000 { 8 } else if n
                < 0x1000_0000 { 16 } else if n < 0x2000_0000 { 32 } else if n < 0x4000_0000 { 64 } else if n
                < 0x8000_0000 { 128 } else { 256 };
            assert(t == round_to_multiple(n as int, p));
            let q = (n as int) / p;
            assert(q >= 1) by (nonlinear_arith)
                requires
                    n >= 0x100_0000,
                    p <= 256,
                    p > 0,
                    q == (n as int) / p,
            ;
            assert(q * p > 0) by (nonlinear_arith)
                requires
                    q >= 1,
                    p > 0,
            ;
            assert((q + 1) * p > 0) by (nonlinear_arith)
                requires
                    q >= 1,
                    p > 0,
            ;
        }
    }
    assert(t * 0x200_0000 >= 31876711 * t) by (nonlinear_arith)
        requires
            t > 0,
    ;
}

/// Observing the same JSON object `n` times (at least once) for an endpoint
/// and target that had no samples gives a schema in which every member of
/// the object is a field, and every field was seen in all `n` samples and
/// is required.
pub proof fn law_identical_samples_are_required(members: Seq<(Seq<char>, JsonTree)>, n: nat)
    requires
        1 <= n <= u32::MAX,
    ensures
        forall|i: int|
            0 <= i < repeated_observation(members, n).len() ==> {
                let s = (#[trigger] repeated_observation(members, n)[i]).1;
                &&& s.seen_count == n
                &&& s.total_count == n
                &&& presence_exceeds_95(s.seen_count, s.total_count)
            },
        forall|j: int| 0 <= j < members.len() ==> field_named(repeated_observation(members, n), (#[trigger] members[j]).0) is Some,
    decreases n,
{
    let f = repeated_observation(members, n);
    let prev = repeated_observation(members, (n - 1) as nat);
    let fresh = fresh_members(prev, members);
    let kept = prev.map_values(|x: (Seq<char>, StatsTree)| updated_field(x, members, n as u32));
    assert(f == kept + fresh.map_values(new_field_of(n as u32)));
    lemma_fresh_members_are_fresh(prev, members);
    if n == 1 {
        assert(prev.len() == 0);
        assert forall|i: int| 0 <= i < f.len() implies {
            let s = (#[trigger] f[i]).1;
            &&& s.seen_count == n
            &&& s.total_count == n
            &&& presence_exceeds_95(s.seen_count, s.total_count)
        } by {
            assert(f[i] == new_field(fresh[i], 1));
            lemma_full_presence_required(1);
        }
        assert forall|j: int| 0 <= j < members.len() implies field_named(f, (#[trigger] members[j]).0) is Some by {
            lemma_fresh_members_cover(prev, members, j);
            lemma_field_named_none(prev, members[j].0);
            lemma_member_named_none(fresh, members[j].0);
            lemma_field_named_none(f, members[j].0);
            assert(field_named(prev, members[j].0) is None);
            assert(member_named(fresh, members[j].0) is Some);
            let q = choose|q: int| 0 <= q < fresh.len() && #[trigger] fresh[q].0 == members[j].0;
            assert(kept.len() == 0);
            assert(f[q] == new_field(fresh[q], 1));
            assert(f[q].0 == members[j].0);
        }
    } else {
        law_identical_samples_are_required(members, (n - 1) as nat);
        lemma_fresh_members_none_new(prev, members);
        assert(f =~= kept);
        assert forall|i: int| 0 <= i < f.len() implies {
            let s = (#[trigger] f[i]).1;
            &&& s.seen_count == n
            &&& s.total_count == n
            &&& presence_exceeds_95(s.seen_count, s.total_count)
        } by {
            assert(f[i] == updated_field(prev[i], members, n as u32));
            let s0 = prev[i].1;
            assert(s0.seen_count == n - 1);
            lemma_present_field_is_member(members, (n - 1) as nat, i);
            lemma_full_presence_required(n as u32);
        }
        assert forall|j: int| 0 <= j < members.len() implies field_named(f, (#[trigger] members[j]).0) is Some by {
            lemma_field_named_none(prev, members[j].0);
            lemma_field_named_none(f, members[j].0);
            let q = choose|q: int| 0 <= q < prev.len() && #[trigger] prev[q].0 == members[j].0;
            assert(f[q].0 == prev[q].0);
        }
    }
}

proof fn lemma_member_named_push(d: Seq<(Seq<char>, JsonTree)>, z: (Seq<char>, JsonTree), k: Seq<char>)
    ensures
        member_named(d.push(z), k) == if member_named(d, k) is Some {
            member_named(d, k)
        } else if z.0 == k {
            Some(z.1)
        } else {
            None
        },
    decreases d.len(),
{
    if d.len() > 0 {
        assert(d.push(z)[0] == d[0]);
        assert(d.push(z).drop_first() =~= d.drop_first().push(z));
        lemma_member_named_push(d.drop_first(), z, k);
    } else {
        assert(d.push(z)[0] == z);
        assert(d.push(z).drop_first() =~= Seq::<(Seq<char>, JsonTree)>::empty());
        assert(member_named(Seq::<(Seq<char>, JsonTree)>::empty(), k) is None);
    }
}

/// The members first seen in an object are its first members of each name,
/// one per name.
proof fn lemma_fresh_members_are_first(ms: Seq<(Seq<char>, JsonTree)>)
    ensures
        forall|i: int|
            0 <= i < fresh_members(Seq::empty(), ms).len() ==> member_named(ms, (#[trigger] fresh_members(Seq::empty(), ms)[i]).0)
                == Some(fresh_members(Seq::empty(), ms)[i].1),
        forall|i: int, j: int|
            0 <= i < j < fresh_members(Seq::empty(), ms).len() ==> (#[trigger] fresh_members(Seq::empty(), ms)[i]).0
                != (#[trigger] fresh_members(Seq::empty(), ms)[j]).0,
    decreases ms.len(),
{
    let e = Seq::<(Seq<char>, StatsTree)>::empty();
    if ms.len() > 0 {
        let d = ms.drop_last();
        let z = ms.last();
        lemma_fresh_members_are_first(d);
        let p = fresh_members(e, d);
        let f = fresh_members(e, ms);
        assert(d.push(z) =~= ms);
        assert(field_named(e, z.0) is None);
        assert forall|i: int| 0 <= i < p.len() implies member_named(ms, (#[trigger] p[i]).0) == Some(p[i].1) by {
            lemma_member_named_push(d, z, p[i].0);
        }
        if member_named(p, z.0) is None {
            lemma_member_named_none(p, z.0);
            lemma_member_named_push(d, z, z.0);
            assert(member_named(d, z.0) is None) by {
                if member_named(d, z.0) is Some {
                    lemma_member_named_none(d, z.0);
                    let j = choose|j: int| 0 <= j < d.len() && #[trigger] d[j].0 == z.0;
                    lemma_fresh_members_cover(e, d, j);
                }
            }
            assert(f == p.push(z));
            assert forall|i: int| 0 <= i < f.len() implies member_named(ms, (#[trigger] f[i]).0) == Some(f[i].1) by {
                if i < p.len() {
                    assert(f[i] == p[i]);
                }
            }
            assert forall|i: int, j: int| 0 <= i < j < f.len() implies (#[trigger] f[i]).0 != (#[trigger] f[j]).0 by {
                assert(f[i] == p[i]);
                if j < p.len() {
                    assert(f[j] == p[j]);
                }
            }
        } else {
            assert(f == p);
        }
    }
}

/// Observing the same JSON object `n` times (at least once) for an endpoint
/// and target that had no samples records exactly its member names, once
/// each, every field with the type of the object's first member of that
/// name and nullable exactly when that member is null.
pub proof fn law_identical_samples_record_their_members(members: Seq<(Seq<char>, JsonTree)>, n: nat)
    requires
        1 <= n <= u32::MAX,
    ensures
        field_names_distinct(repeated_observation(members, n)),
        forall|i: int|
            0 <= i < repeated_observation(members, n).len() ==> {
                let f = #[trigger] repeated_observation(members, n)[i];
                &&& member_named(members, f.0) is Some
                &&& f.1.field_type == inferred(member_named(members, f.0)->0)
                &&& f.1.nullable == (member_named(members, f.0)->0 is Null)
            },
        forall|j: int| 0 <= j < members.len() ==> field_named(repeated_observation(members, n), (#[trigger] members[j]).0) is Some,
    decreases n,
{
    law_identical_samples_are_required(members, n);
    let f = repeated_observation(members, n);
    let prev = repeated_observation(members, (n - 1) as nat);
    let fresh = fresh_members(prev, members);
    let kept = prev.map_values(|x: (Seq<char>, StatsTree)| updated_field(x, members, n as u32));
    assert(f == kept + fresh.map_values(new_field_of(n as u32)));
    if n == 1 {
        assert(prev == Seq::<(Seq<char>, StatsTree)>::empty());
        lemma_fresh_members_are_first(members);
        assert(kept.len() == 0);
        assert forall|i: int| 0 <= i < f.len() implies {
            let g = #[trigger] f[i];
            &&& member_named(members, g.0) is Some
            &&& g.1.field_type == inferred(member_named(members, g.0)->0)
            &&& g.1.nullable == (member_named(members, g.0)->0 is Null)
        } by {
            assert(f[i] == new_field(fresh[i], 1));
        }
        assert forall|i: int, j: int| 0 <= i < j < f.len() implies (#[trigger] f[i]).0 != (#[trigger] f[j]).0 by {
            assert(f[i] == new_field(fresh[i], 1));
            assert(f[j] == new_field(fresh[j], 1));
        }
    } else {
        law_identical_samples_record_their_members(members, (n - 1) as nat);
        lemma_fresh_members_none_new(prev, members);
        assert(f =~= kept);
        assert forall|i: int| 0 <= i < f.len() implies {
            let g = #[trigger] f[i];
            &&& member_named(members, g.0) is Some
            &&& g.1.field_type == inferred(member_named(members, g.0)->0)
            &&& g.1.nullable == (member_named(members, g.0)->0 is Null)
        } by {
            assert(f[i] == updated_field(prev[i], members, n as u32));
        }
        assert forall|i: int, j: int| 0 <= i < j < f.len() implies (#[trigger] f[i]).0 != (#[trigger] f[j]).0 by {
            assert(f[i].0 == prev[i].0 && f[j].0 == prev[j].0);
        }
    }
}

/// Every field recorded from repeated observations of `members` is a member.
proof fn lemma_present_field_is_member(members: Seq<(Seq<char>, JsonTree)>, n: nat, i: int)
    requires
        1 <= n <= u32::MAX,
        0 <= i < repeated_observation(members, n).len(),
    ensures
        member_named(members, repeated_observation(members, n)[i].0) is Some,
    decreases n,
{
    let f = repeated_observation(members, n);
    let prev = repeated_observation(members, (n - 1) as nat);
    let fresh = fresh_members(prev, members);
    let kept = prev.map_values(|x: (Seq<char>, StatsTree)| updated_field(x, members, n as u32));
    assert(f == kept + fresh.map_values(new_field_of(n as u32)));
    lemma_fresh_members_are_fresh(prev, members);
    if i < prev.len() {
        assert(f[i] == updated_field(prev[i], members, n as u32));
        lemma_present_field_is_member(members, (n - 1) as nat, i);
    } else {
        assert(f[i] == new_field(fresh[i - prev.len()], n as u32));
    }
}

// ---------------------------------------------------------------------------
// Law: nested type changes are reported
// ---------------------------------------------------------------------------

/// Which kind of type: string, integer, float, boolean, object, array, null.
pub open spec fn type_kind(t: TypeTree) -> int {
    match t {
        TypeTree::String => 0,
        TypeTree::Integer => 1,
        TypeTree::Float => 2,
        TypeTree::Boolean => 3,
        TypeTree::Object(_) => 4,
        TypeTree::Array(_) => 5,
        TypeTree::Null => 6,
    }
}

proof fn lemma_field_named_some(f: Seq<(Seq<char>, StatsTree)>, k: Seq<char>)
    requires
        field_named(f, k) is Some,
    ensures
        exists|i: int| 0 <= i < f.len() && (#[trigger] f[i]).0 == k && f[i].1 == field_named(f, k)->0,
    decreases f.len(),
{
    if f[0].0 != k {
        lemma_field_named_some(f.drop_first(), k);
        let i = choose|i: int| 0 <= i < f.drop_first().len() && (#[trigger] f.drop_first()[i]).0 == k && f.drop_first()[i].1
            == field_named(f.drop_first(), k)->0;
        assert(f[i + 1] == f.drop_first()[i]);
    } else {
        assert(f[0].0 == k);
    }
}

/// Types of different kinds are never equal, and two object types are equal
/// only when every field of the first is in the second, under the same
/// name, with an equal type.
pub proof fn law_equal_types_agree_fieldwise(a: TypeTree, b: TypeTree)
    ensures
        types_equal(a, b) ==> type_kind(a) == type_kind(b),
        types_equal(a, b) ==> match (a, b) {
            (TypeTree::Object(x), TypeTree::Object(y)) => x.len() == y.len() && forall|i: int|
                0 <= i < x.len() ==> (field_named(y, (#[trigger] x[i]).0) matches Some(s) && types_equal(
                    x[i].1.field_type,
                    s.field_type,
                )),
            (TypeTree::Array(x), TypeTree::Array(y)) => types_equal(*x, *y),
            _ => true,
        },
{
    if let (TypeTree::Object(x), TypeTree::Object(y)) = (a, b) {
        if types_equal(a, b) {
            assert forall|i: int| 0 <= i < x.len() implies (field_named(y, (#[trigger] x[i]).0) matches Some(s)
                && types_equal(x[i].1.field_type, s.field_type)) by {
                let n = x[i].0;
                assert(match field_named(y, n) {
                    Some(s) => stats_equal(x[i].1, s),
                    None => false,
                });
            }
        }
    }
}

/// A field present on both sides whose object type holds, under one name, a
/// nested field of another kind on each side (an integer `age` becoming a
/// string, say) is reported among the type mismatches under its own name.
pub proof fn law_nested_type_changes_are_reported(
    fa: Seq<(Seq<char>, StatsTree)>,
    fb: Seq<(Seq<char>, StatsTree)>,
    k: Seq<char>,
    g: Seq<char>,
)
    requires
        field_named(fa, k) matches Some(sa) && sa.field_type is Object,
        field_named(fb, k) matches Some(sb) && sb.field_type is Object,
        field_named(field_named(fa, k)->0.field_type->Object_0, g) is Some,
        field_named(field_named(fb, k)->0.field_type->Object_0, g) is Some,
        type_kind(field_named(field_named(fa, k)->0.field_type->Object_0, g)->0.field_type) != type_kind(
            field_named(field_named(fb, k)->0.field_type->Object_0, g)->0.field_type,
        ),
    ensures
        exists|i: int| 0 <= i < type_mismatches_of(fa, fb).len() && (#[trigger] type_mismatches_of(fa, fb)[i]).0 == k,
{
    let sa = field_named(fa, k)->0;
    let sb = field_named(fb, k)->0;
    let xa = sa.field_type->Object_0;
    let xb = sb.field_type->Object_0;
    let ga = field_named(xa, g)->0;
    let gb = field_named(xb, g)->0;
    lemma_field_named_some(xa, g);
    let q = choose|q: int| 0 <= q < xa.len() && (#[trigger] xa[q]).0 == g && xa[q].1 == ga;
    law_equal_types_agree_fieldwise(ga.field_type, gb.field_type);
    assert(!types_equal(sa.field_type, sb.field_type)) by {
        if types_equal(sa.field_type, sb.field_type) {
            assert(field_named(xb, xa[q].0) == Some(gb));
            assert(stats_equal(xa[q].1, gb));
        }
    }
    lemma_field_named_some(fa, k);
    let j = choose|j: int| 0 <= j < fa.len() && (#[trigger] fa[j]).0 == k && fa[j].1 == sa;
    assert(retyped_in(fb)(fa[j]));
    broadcast use vstd::seq_lib::group_filter_ensures;
    fa.lemma_filter_contains(retyped_in(fb), j);
    let kept = fa.filter(retyped_in(fb));
    let m = choose|m: int| 0 <= m < kept.len() && kept[m] == fa[j];
    assert(type_mismatches_of(fa, fb)[m] == mismatch_entry(fb)(kept[m]));
}

} // verus!
