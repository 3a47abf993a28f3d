use vstd::prelude::*;

use crate::decode::Data;
use crate::decode::DataV;
use crate::decode::Value;
use crate::decode::ValueV;
use crate::decode::view_data;
use crate::decode::view_datas;
use crate::decode::view_values;
use crate::decode::lemma_view_values_index;
use crate::decode::lemma_view_values_len;
use crate::math::V3;
use crate::math::LIMIT;
use crate::num::COORD_LIMIT;
use crate::num::fixed_of;
use vstd::string::StringSliceAdditionalSpecFns;
use vstd::string::StringExecFns;

verus! {

broadcast use vstd::std_specs::vec::group_vec_axioms, vstd::slice::group_slice_axioms;

// ---------------------------------------------------------------------------
// The domain resolver: indexes the decoded records by id and walks the
// fixed reference chain down to the list of faces.  Every lookup is
// narrowly typed: a record of the wrong name, a missing argument or an
// argument of the wrong shape fails with an error naming the entity being
// resolved, and the contracts below state exactly which documents resolve.
// ---------------------------------------------------------------------------

/// A local coordinate frame: an origin, the surface normal or cylinder
/// axis, and the reference direction, in micro-units.
#[derive(PartialEq, Debug, Clone, Copy)]
pub struct Axis {
    pub p: V3,
    pub direction: V3,
    pub ref_direction: V3,
}

/// The carrier surface of a face: a plane, or a cylinder with its radius
/// in micro-units.
#[derive(PartialEq, Debug, Clone, Copy)]
pub enum FaceElement {
    Cylinder(i64, Axis),
    Plane(Axis),
}

#[derive(PartialEq, Debug, Clone, Copy)]
pub struct AdvancedFace {
    pub flag: bool,
    pub elem: FaceElement,
}

#[derive(PartialEq, Debug)]
pub enum ParseError {
    HeaderParseError(String),
    DataParseError(String),
    PreprocessError(String),
}

/// All coordinates of the frame lie within the document range.
pub open spec fn axis_bounded(ax: Axis) -> bool {
    &&& in_coord_range(ax.p)
    &&& in_coord_range(ax.direction)
    &&& in_coord_range(ax.ref_direction)
}

pub open spec fn in_coord_range(v: V3) -> bool {
    &&& -COORD_LIMIT <= v.sx() <= COORD_LIMIT
    &&& -COORD_LIMIT <= v.sy() <= COORD_LIMIT
    &&& -COORD_LIMIT <= v.sz() <= COORD_LIMIT
}

pub open spec fn face_bounded(f: AdvancedFace) -> bool {
    match f.elem {
        FaceElement::Plane(ax) => axis_bounded(ax),
        FaceElement::Cylinder(r, ax) => axis_bounded(ax) && -COORD_LIMIT <= r <= COORD_LIMIT,
    }
}

// ---------------------------------------------------------------------------
// The database: records indexed by id.
// ---------------------------------------------------------------------------

pub open spec fn data_id(d: DataV) -> u64 {
    match d {
        DataV::Single(id, _, _) => id,
        DataV::Aggregate(id, _) => id,
    }
}

/// The first record with the given id, in document order.
pub open spec fn sp_find(ds: Seq<DataV>, id: u64) -> Option<DataV>
    decreases ds.len(),
{
    if ds.len() == 0 {
        Option::None
    } else if data_id(ds[0]) == id {
        Option::Some(ds[0])
    } else {
        sp_find(ds.skip(1), id)
    }
}

pub open spec fn unique_ids(ds: Seq<DataV>) -> bool {
    forall|i: int, j: int|
        0 <= i < j < ds.len() ==> data_id(#[trigger] ds[i]) != data_id(#[trigger] ds[j])
}

/// The id-indexed store of data records, read-only once built.
#[derive(Debug)]
pub struct DataDB {
    pub recs: Vec<Data>,
}

impl View for DataDB {
    type V = Seq<DataV>;

    open spec fn view(&self) -> Seq<DataV> {
        view_datas(self.recs@)
    }
}

fn data_id_of(d: &Data) -> (r: u64)
    ensures
        r == data_id(view_data(*d)),
{
    match d {
        Data::Single(id, _, _) => *id,
        Data::Aggregate(id, _) => *id,
    }
}

/// Builds the database, refusing a document in which two records carry
/// the same id.
pub fn make_db(data: Vec<Data>) -> (r: Result<DataDB, ParseError>)
    ensures
        match r {
            Ok(db) => db@ == view_datas(data@) && unique_ids(view_datas(data@)),
            Err(e) => !unique_ids(view_datas(data@)) && (e matches ParseError::DataParseError(m)
                && m@ == "duplicate id"@),
        },
{
    let ghost ds = view_datas(data@);
    let n = data.len();
    let mut i: usize = 0;
    while i < n
        invariant
            0 <= i <= n == data@.len(),
            ds == view_datas(data@),
            forall|a: int, b: int|
                0 <= a < b < ds.len() && a < i ==> data_id(#[trigger] ds[a]) != data_id(
                    #[trigger] ds[b],
                ),
        decreases n - i,
    {
        let mut j: usize = i + 1;
        while j < n
            invariant
                0 <= i < j <= n == data@.len(),
                ds == view_datas(data@),
                forall|b: int| i < b < j ==> data_id(ds[i as int]) != data_id(#[trigger] ds[b]),
            decreases n - j,
        {
            if data_id_of(&data[i]) == data_id_of(&data[j]) {
                proof {
                    assert(data_id(ds[i as int]) == data_id(ds[j as int]));
                    assert(!unique_ids(ds));
                }
                return Err(ParseError::DataParseError(String::from_str("duplicate id")));
            }
            j = j + 1;
        }
        i = i + 1;
    }
    Ok(DataDB { recs: data })
}

impl DataDB {
    /// The record with the given id, where the document has one.
    pub fn get(&self, id: u64) -> (r: Option<&Data>)
        ensures
            match r {
                Some(d) => sp_find(self@, id) == Option::Some(view_data(*d)),
                None => sp_find(self@, id) is None,
            },
    {
        let ghost ds = self@;
        let n = self.recs.len();
        proof {
            assert(ds.skip(0) =~= ds);
        }
        let mut k: usize = 0;
        while k < n
            invariant
                0 <= k <= n == self.recs@.len(),
                ds == self@,
                ds.len() == n,
                sp_find(ds, id) == sp_find(ds.skip(k as int), id),
            decreases n - k,
        {
            if data_id_of(&self.recs[k]) == id {
                proof {
                    assert(ds.skip(k as int)[0] == ds[k as int]);
                }
                return Some(&self.recs[k]);
            }
            proof {
                assert(ds.skip(k as int).skip(1) =~= ds.skip(k as int + 1));
                assert(ds.skip(k as int)[0] == ds[k as int]);
            }
            k = k + 1;
        }
        proof {
            assert(ds.skip(n as int).len() == 0);
        }
        None
    }
}

/// Compares record-name bytes with a literal.
pub fn bytes_eq(a: &Vec<u8>, b: &[u8]) -> (r: bool)
    ensures
        r == (a@ == b@),
{
    if a.len() != b.len() {
        proof {
            assert(a@.len() != b@.len());
        }
        return false;
    }
    let n = a.len();
    let mut k: usize = 0;
    while k < n
        invariant
            0 <= k <= n,
            n == a@.len() == b@.len(),
            forall|t: int| 0 <= t < k ==> a@[t] == b@[t],
        decreases n - k,
    {
        if a[k] != b[k] {
            return false;
        }
        k = k + 1;
    }
    proof {
        assert(a@ =~= b@);
    }
    true
}

} // verus!

verus! {

// ---------------------------------------------------------------------------
// The fixed resolution chain: anchor record, styled item, solid, shell,
// face list.
// ---------------------------------------------------------------------------

pub open spec fn mdgpr_name() -> Seq<u8> {
    "MECHANICAL_DESIGN_GEOMETRIC_PRESENTATION_REPRESENTATION".spec_bytes()
}

/// The id of the first record that is a single instance of the anchor
/// entity, in document order.
pub open spec fn sp_find_root(ds: Seq<DataV>) -> Option<u64>
    decreases ds.len(),
{
    if ds.len() == 0 {
        Option::None
    } else if ds[0] matches DataV::Single(id, n, _) && n == mdgpr_name() {
        Option::Some(data_id(ds[0]))
    } else {
        sp_find_root(ds.skip(1))
    }
}

pub fn find_mechanical_design_geometric_presentation_representation_id(map: &DataDB) -> (r:
    Result<u64, ParseError>)
    ensures
        match r {
            Ok(id) => sp_find_root(map@) == Option::Some(id),
            Err(e) => sp_find_root(map@) is None && (e matches ParseError::DataParseError(m)
                && m@ == "MECHANICAL_DESIGN_GEOMETRIC_PRESENTATION_REPRESENTATION"@),
        },
{
    let ghost ds = map@;
    let n = map.recs.len();
    proof {
        assert(ds.skip(0) =~= ds);
    }
    let mut k: usize = 0;
    while k < n
        invariant
            0 <= k <= n == map.recs@.len(),
            ds == map@,
            ds.len() == n,
            sp_find_root(ds) == sp_find_root(ds.skip(k as int)),
        decreases n - k,
    {
        proof {
            assert(ds.skip(k as int)[0] == ds[k as int]);
            assert(ds.skip(k as int).skip(1) =~= ds.skip(k as int + 1));
        }
        match &map.recs[k] {
            Data::Single(id, name, _) => {
                if bytes_eq(
                    name,
                    "MECHANICAL_DESIGN_GEOMETRIC_PRESENTATION_REPRESENTATION".as_bytes(),
                ) {
                    return Ok(*id);
                }
            },
            _ => {},
        }
        k = k + 1;
    }
    proof {
        assert(ds.skip(n as int).len() == 0);
    }
    Err(
        ParseError::DataParseError(
            String::from_str("MECHANICAL_DESIGN_GEOMETRIC_PRESENTATION_REPRESENTATION"),
        ),
    )
}

pub open spec fn all_ids(ts: Seq<ValueV>) -> bool {
    forall|i: int| 0 <= i < ts.len() ==> (#[trigger] ts[i]) is Id
}

pub open spec fn ids_map(ts: Seq<ValueV>) -> Seq<u64> {
    Seq::new(ts.len(), |i: int| ts[i]->Id_0)
}

/// Collects the members of a tuple of id references.
fn collect_ids(ts: &Vec<Value>) -> (r: Option<Vec<u64>>)
    ensures
        match r {
            Some(v) => all_ids(view_values(ts@)) && v@ == ids_map(view_values(ts@)),
            None => !all_ids(view_values(ts@)),
        },
{
    proof {
        lemma_view_values_len(ts@);
    }
    let n = ts.len();
    let mut out: Vec<u64> = Vec::new();
    let mut k: usize = 0;
    while k < n
        invariant
            0 <= k <= n == ts@.len(),
            view_values(ts@).len() == n,
            out@.len() == k,
            forall|t: int|
                0 <= t < k ==> (#[trigger] view_values(ts@)[t]) is Id && out@[t] == view_values(
                    ts@,
                )[t]->Id_0,
        decreases n - k,
    {
        proof {
            lemma_view_values_index(ts@, k as int);
        }
        match &ts[k] {
            Value::Id(id) => {
                out.push(*id);
            },
            _ => {
                return None;
            },
        }
        k = k + 1;
    }
    proof {
        assert(out@ =~= ids_map(view_values(ts@)));
    }
    Some(out)
}

pub open spec fn sp_styled_item_ids(ds: Seq<DataV>, id: u64) -> Option<Seq<u64>> {
    match sp_find(ds, id) {
        Option::Some(DataV::Single(_, n, args)) => {
            if n == mdgpr_name() && args.len() >= 2 && (args[1] matches ValueV::Tuple(ts)
                && all_ids(ts)) {
                Option::Some(ids_map(args[1]->Tuple_0))
            } else {
                Option::None
            }
        },
        _ => Option::None,
    }
}

/// The styled-item ids listed by the anchor record.
pub fn get_styled_item_ids(map: &DataDB, id: u64) -> (r: Result<Vec<u64>, ParseError>)
    ensures
        match r {
            Ok(v) => sp_styled_item_ids(map@, id) == Option::Some(v@),
            Err(e) => sp_styled_item_ids(map@, id) is None && (e
                matches ParseError::DataParseError(m) && m@
                == "MECHANICAL_DESIGN_GEOMETRIC_PRESENTATION_REPRESENTATION"@),
        },
{
    let e = || -> (r: ParseError)
        ensures
            r matches ParseError::DataParseError(m) && m@
                == "MECHANICAL_DESIGN_GEOMETRIC_PRESENTATION_REPRESENTATION"@,
        {
        ParseError::DataParseError(
            String::from_str("MECHANICAL_DESIGN_GEOMETRIC_PRESENTATION_REPRESENTATION"),
        )
    };
    match map.get(id) {
        Some(d) => {
            match d {
                Data::Single(_, name, args) => {
                    proof {
                        lemma_view_values_len(args@);
                    }
                    if !bytes_eq(
                        name,
                        "MECHANICAL_DESIGN_GEOMETRIC_PRESENTATION_REPRESENTATION".as_bytes(),
                    ) {
                        return Err(e());
                    }
                    if args.len() < 2 {
                        return Err(e());
                    }
                    proof {
                        lemma_view_values_index(args@, 1);
                    }
                    match &args[1] {
                        Value::Tuple(ts) => {
                            match collect_ids(ts) {
                                Some(v) => Ok(v),
                                None => Err(e()),
                            }
                        },
                        _ => Err(e()),
                    }
                },
                _ => Err(e()),
            }
        },
        None => Err(e()),
    }
}

/// A record that is a single instance of the named entity whose argument
/// at `idx` is an id reference.
pub open spec fn sp_ref_arg(ds: Seq<DataV>, id: u64, name: Seq<u8>, idx: int) -> Option<u64> {
    match sp_find(ds, id) {
        Option::Some(DataV::Single(_, n, args)) => {
            if n == name && args.len() > idx && (args[idx] matches ValueV::Id(t)) {
                Option::Some(args[idx]->Id_0)
            } else {
                Option::None
            }
        },
        _ => Option::None,
    }
}

fn get_ref_arg(map: &DataDB, id: u64, name: &str, idx: usize, err: &str) -> (r: Result<
    u64,
    ParseError,
>)
    ensures
        match r {
            Ok(v) => sp_ref_arg(map@, id, name.spec_bytes(), idx as int) == Option::Some(v),
            Err(e) => sp_ref_arg(map@, id, name.spec_bytes(), idx as int) is None && (e
                matches ParseError::DataParseError(m) && m@ == err@),
        },
{
    match map.get(id) {
        Some(d) => {
            match d {
                Data::Single(_, n, args) => {
                    proof {
                        lemma_view_values_len(args@);
                    }
                    if !bytes_eq(n, name.as_bytes()) {
                        return Err(ParseError::DataParseError(String::from_str(err)));
                    }
                    if args.len() <= idx {
                        return Err(ParseError::DataParseError(String::from_str(err)));
                    }
                    proof {
                        lemma_view_values_index(args@, idx as int);
                    }
                    match &args[idx] {
                        Value::Id(t) => Ok(*t),
                        _ => Err(ParseError::DataParseError(String::from_str(err))),
                    }
                },
                _ => Err(ParseError::DataParseError(String::from_str(err))),
            }
        },
        None => Err(ParseError::DataParseError(String::from_str(err))),
    }
}

/// The manifold-solid id referenced by a styled item.
pub fn get_manifold_solid_brep_id(map: &DataDB, id: u64) -> (r: Result<u64, ParseError>)
    ensures
        match r {
            Ok(v) => sp_ref_arg(map@, id, "STYLED_ITEM".spec_bytes(), 2) == Option::Some(v),
            Err(e) => sp_ref_arg(map@, id, "STYLED_ITEM".spec_bytes(), 2) is None && (e
                matches ParseError::DataParseError(m) && m@ == "STYLED_ITEM"@),
        },
{
    get_ref_arg(map, id, "STYLED_ITEM", 2, "STYLED_ITEM")
}

/// The closed-shell id referenced by a manifold solid.
pub fn get_closed_shell_id(map: &DataDB, id: u64) -> (r: Result<u64, ParseError>)
    ensures
        match r {
            Ok(v) => sp_ref_arg(map@, id, "MANIFOLD_SOLID_BREP".spec_bytes(), 1) == Option::Some(
                v,
            ),
            Err(e) => sp_ref_arg(map@, id, "MANIFOLD_SOLID_BREP".spec_bytes(), 1) is None && (e
                matches ParseError::DataParseError(m) && m@ == "MANIFOLD_SOLID_BREP"@),
        },
{
    get_ref_arg(map, id, "MANIFOLD_SOLID_BREP", 1, "MANIFOLD_SOLID_BREP")
}

pub open spec fn sp_advanced_face_ids(ds: Seq<DataV>, id: u64) -> Option<Seq<u64>> {
    match sp_find(ds, id) {
        Option::Some(DataV::Single(_, n, args)) => {
            if n == "CLOSED_SHELL".spec_bytes() && args.len() >= 2 && (args[1]
                matches ValueV::Tuple(ts) && all_ids(ts)) {
                Option::Some(ids_map(args[1]->Tuple_0))
            } else {
                Option::None
            }
        },
        _ => Option::None,
    }
}

/// The face ids listed by a closed shell.
pub fn get_advanced_face_ids(map: &DataDB, id: u64) -> (r: Result<Vec<u64>, ParseError>)
    ensures
        match r {
            Ok(v) => sp_advanced_face_ids(map@, id) == Option::Some(v@),
            Err(e) => sp_advanced_face_ids(map@, id) is None && (e
                matches ParseError::DataParseError(m) && m@ == "CLOSED_SHELL"@),
        },
{
    let e = || -> (r: ParseError)
        ensures
            r matches ParseError::DataParseError(m) && m@ == "CLOSED_SHELL"@,
        {
        ParseError::DataParseError(String::from_str("CLOSED_SHELL"))
    };
    match map.get(id) {
        Some(d) => {
            match d {
                Data::Single(_, name, args) => {
                    proof {
                        lemma_view_values_len(args@);
                    }
                    if !bytes_eq(name, "CLOSED_SHELL".as_bytes()) {
                        return Err(e());
                    }
                    if args.len() < 2 {
                        return Err(e());
                    }
                    proof {
                        lemma_view_values_index(args@, 1);
                    }
                    match &args[1] {
                        Value::Tuple(ts) => {
                            match collect_ids(ts) {
                                Some(v) => Ok(v),
                                None => Err(e()),
                            }
                        },
                        _ => Err(e()),
                    }
                },
                _ => Err(e()),
            }
        },
        None => Err(e()),
    }
}

} // verus!

verus! {

// ---------------------------------------------------------------------------
// Geometric records: points, directions, placements, faces.
// ---------------------------------------------------------------------------

pub open spec fn v3_triple(v: V3) -> (int, int, int) {
    (v.sx(), v.sy(), v.sz())
}

pub open spec fn axis_triple(ax: Axis) -> ((int, int, int), (int, int, int), (int, int, int)) {
    (v3_triple(ax.p), v3_triple(ax.direction), v3_triple(ax.ref_direction))
}

/// A record `name(_, (x, y, z))` of three real literals, each within the
/// coordinate range once in micro-units.
pub open spec fn sp_v3_of(ds: Seq<DataV>, id: u64, name: Seq<u8>) -> Option<(int, int, int)> {
    match sp_find(ds, id) {
        Option::Some(DataV::Single(_, n, args)) => {
            if n == name && args.len() >= 2 && (args[1] matches ValueV::Tuple(ts) && ts.len() == 3
                && ts[0] is Float && ts[1] is Float && ts[2] is Float) {
                let f0 = fixed_of(args[1]->Tuple_0[0]->Float_0);
                let f1 = fixed_of(args[1]->Tuple_0[1]->Float_0);
                let f2 = fixed_of(args[1]->Tuple_0[2]->Float_0);
                if -COORD_LIMIT <= f0 <= COORD_LIMIT && -COORD_LIMIT <= f1 <= COORD_LIMIT
                    && -COORD_LIMIT <= f2 <= COORD_LIMIT {
                    Option::Some((f0, f1, f2))
                } else {
                    Option::None
                }
            } else {
                Option::None
            }
        },
        _ => Option::None,
    }
}

fn parse_v3(map: &DataDB, id: u64, name: &str, err: &str) -> (r: Result<V3, ParseError>)
    ensures
        match r {
            Ok(v) => sp_v3_of(map@, id, name.spec_bytes()) == Option::Some(v3_triple(v))
                && in_coord_range(v),
            Err(e) => sp_v3_of(map@, id, name.spec_bytes()) is None && (e
                matches ParseError::DataParseError(m) && m@ == err@),
        },
{
    match map.get(id) {
        Some(d) => {
            match d {
                Data::Single(_, n, args) => {
                    proof {
                        lemma_view_values_len(args@);
                    }
                    if !bytes_eq(n, name.as_bytes()) {
                        return Err(ParseError::DataParseError(String::from_str(err)));
                    }
                    if args.len() < 2 {
                        return Err(ParseError::DataParseError(String::from_str(err)));
                    }
                    proof {
                        lemma_view_values_index(args@, 1);
                    }
                    match &args[1] {
                        Value::Tuple(ts) => {
                            proof {
                                lemma_view_values_len(ts@);
                            }
                            if ts.len() != 3 {
                                return Err(ParseError::DataParseError(String::from_str(err)));
                            }
                            proof {
                                lemma_view_values_index(ts@, 0);
                                lemma_view_values_index(ts@, 1);
                                lemma_view_values_index(ts@, 2);
                            }
                            let d0 = match &ts[0] {
                                Value::Float(d) => *d,
                                _ => {
                                    return Err(
                                        ParseError::DataParseError(String::from_str(err)),
                                    );
                                },
                            };
                            let d1 = match &ts[1] {
                                Value::Float(d) => *d,
                                _ => {
                                    return Err(
                                        ParseError::DataParseError(String::from_str(err)),
                                    );
                                },
                            };
                            let d2 = match &ts[2] {
                                Value::Float(d) => *d,
                                _ => {
                                    return Err(
                                        ParseError::DataParseError(String::from_str(err)),
                                    );
                                },
                            };
                            let f0 = match d0.to_fixed() {
                                Some(v) => v,
                                None => {
                                    return Err(
                                        ParseError::DataParseError(String::from_str(err)),
                                    );
                                },
                            };
                            let f1 = match d1.to_fixed() {
                                Some(v) => v,
                                None => {
                                    return Err(
                                        ParseError::DataParseError(String::from_str(err)),
                                    );
                                },
                            };
                            let f2 = match d2.to_fixed() {
                                Some(v) => v,
                                None => {
                                    return Err(
                                        ParseError::DataParseError(String::from_str(err)),
                                    );
                                },
                            };
                            Ok(V3([f0, f1, f2]))
                        },
                        _ => Err(ParseError::DataParseError(String::from_str(err))),
                    }
                },
                _ => Err(ParseError::DataParseError(String::from_str(err))),
            }
        },
        None => Err(ParseError::DataParseError(String::from_str(err))),
    }
}

/// Resolves a `DIRECTION` record to a vector in micro-units.
pub fn parse_direction(map: &DataDB, id: u64) -> (r: Result<V3, ParseError>)
    ensures
        match r {
            Ok(v) => sp_v3_of(map@, id, "DIRECTION".spec_bytes()) == Option::Some(v3_triple(v))
                && in_coord_range(v),
            Err(e) => sp_v3_of(map@, id, "DIRECTION".spec_bytes()) is None && (e
                matches ParseError::DataParseError(m) && m@ == "DIRECTION"@),
        },
{
    parse_v3(map, id, "DIRECTION", "DIRECTION")
}

/// Resolves a `CARTESIAN_POINT` record to a point in micro-units.
pub fn parse_cartesian_point(map: &DataDB, id: u64) -> (r: Result<V3, ParseError>)
    ensures
        match r {
            Ok(v) => sp_v3_of(map@, id, "CARTESIAN_POINT".spec_bytes()) == Option::Some(
                v3_triple(v),
            ) && in_coord_range(v),
            Err(e) => sp_v3_of(map@, id, "CARTESIAN_POINT".spec_bytes()) is None && (e
                matches ParseError::DataParseError(m) && m@ == "CARTESIAN_POINT"@),
        },
{
    parse_v3(map, id, "CARTESIAN_POINT", "CARTESIAN_POINT")
}

/// An `AXIS2_PLACEMENT_3D`: an origin point and two directions.
pub open spec fn sp_axis(ds: Seq<DataV>, id: u64) -> Option<
    ((int, int, int), (int, int, int), (int, int, int)),
> {
    match sp_find(ds, id) {
        Option::Some(DataV::Single(_, n, args)) => {
            if n == "AXIS2_PLACEMENT_3D".spec_bytes() && args.len() >= 4 && args[1] is Id
                && args[2] is Id && args[3] is Id {
                let p = sp_v3_of(ds, args[1]->Id_0, "CARTESIAN_POINT".spec_bytes());
                let dir = sp_v3_of(ds, args[2]->Id_0, "DIRECTION".spec_bytes());
                let rd = sp_v3_of(ds, args[3]->Id_0, "DIRECTION".spec_bytes());
                if p is Some && dir is Some && rd is Some {
                    Option::Some((p->0, dir->0, rd->0))
                } else {
                    Option::None
                }
            } else {
                Option::None
            }
        },
        _ => Option::None,
    }
}

/// The error names a placement resolution can report.
pub open spec fn axis_err(m: Seq<char>) -> bool {
    m == "AXIS2_PLACEMENT_3D"@ || m == "CARTESIAN_POINT"@ || m == "DIRECTION"@
}

/// Resolves an `AXIS2_PLACEMENT_3D` record into a coordinate frame.
pub fn parse_ref_direction_placement_3d(map: &DataDB, id: u64) -> (r: Result<Axis, ParseError>)
    ensures
        match r {
            Ok(ax) => sp_axis(map@, id) == Option::Some(axis_triple(ax)) && axis_bounded(ax),
            Err(e) => sp_axis(map@, id) is None && (e matches ParseError::DataParseError(m)
                && axis_err(m@)),
        },
{
    let e = || -> (r: ParseError)
        ensures
            r matches ParseError::DataParseError(m) && m@ == "AXIS2_PLACEMENT_3D"@,
        {
        ParseError::DataParseError(String::from_str("AXIS2_PLACEMENT_3D"))
    };
    match map.get(id) {
        Some(d) => {
            match d {
                Data::Single(_, n, args) => {
                    proof {
                        lemma_view_values_len(args@);
                    }
                    if !bytes_eq(n, "AXIS2_PLACEMENT_3D".as_bytes()) {
                        return Err(e());
                    }
                    if args.len() < 4 {
                        return Err(e());
                    }
                    proof {
                        lemma_view_values_index(args@, 1);
                        lemma_view_values_index(args@, 2);
                        lemma_view_values_index(args@, 3);
                    }
                    let pid = match &args[1] {
                        Value::Id(t) => *t,
                        _ => {
                            return Err(e());
                        },
                    };
                    let did = match &args[2] {
                        Value::Id(t) => *t,
                        _ => {
                            return Err(e());
                        },
                    };
                    let rid = match &args[3] {
                        Value::Id(t) => *t,
                        _ => {
                            return Err(e());
                        },
                    };
                    let p = parse_cartesian_point(map, pid)?;
                    let direction = parse_direction(map, did)?;
                    let ref_direction = parse_direction(map, rid)?;
                    Ok(Axis { p, direction, ref_direction })
                },
                _ => Err(e()),
            }
        },
        None => Err(e()),
    }
}

/// A face carrier surface: a plane, or a cylinder with a radius within
/// the coordinate range.  The triple is the placement; the flag tells a
/// cylinder from a plane; the integer is the cylinder radius.
pub open spec fn sp_face_elem(ds: Seq<DataV>, id: u64) -> Option<
    (bool, int, ((int, int, int), (int, int, int), (int, int, int))),
> {
    match sp_find(ds, id) {
        Option::Some(DataV::Single(_, n, args)) => {
            if n == "PLANE".spec_bytes() {
                if args.len() >= 2 && args[1] is Id && sp_axis(ds, args[1]->Id_0) is Some {
                    Option::Some((false, 0, sp_axis(ds, args[1]->Id_0)->0))
                } else {
                    Option::None
                }
            } else if n == "CYLINDRICAL_SURFACE".spec_bytes() {
                if args.len() >= 3 && args[1] is Id && args[2] is Float && -COORD_LIMIT <= fixed_of(
                    args[2]->Float_0,
                ) <= COORD_LIMIT && sp_axis(ds, args[1]->Id_0) is Some {
                    Option::Some(
                        (true, fixed_of(args[2]->Float_0), sp_axis(ds, args[1]->Id_0)->0),
                    )
                } else {
                    Option::None
                }
            } else {
                Option::None
            }
        },
        _ => Option::None,
    }
}

pub open spec fn face_elem_err(m: Seq<char>) -> bool {
    m == "face element"@ || axis_err(m)
}

pub open spec fn face_elem_repr(fe: FaceElement) -> (
    bool,
    int,
    ((int, int, int), (int, int, int), (int, int, int)),
) {
    match fe {
        FaceElement::Plane(ax) => (false, 0, axis_triple(ax)),
        FaceElement::Cylinder(r, ax) => (true, r as int, axis_triple(ax)),
    }
}

/// Resolves a `PLANE` or `CYLINDRICAL_SURFACE` record.
pub fn parse_face_element(map: &DataDB, id: u64) -> (r: Result<FaceElement, ParseError>)
    ensures
        match r {
            Ok(fe) => sp_face_elem(map@, id) == Option::Some(face_elem_repr(fe)) && (
            fe matches FaceElement::Plane(ax) ==> axis_bounded(ax)) && (
            fe matches FaceElement::Cylinder(rad, ax) ==> axis_bounded(ax) && -COORD_LIMIT <= rad
                <= COORD_LIMIT),
            Err(e) => sp_face_elem(map@, id) is None && (e matches ParseError::DataParseError(m)
                && face_elem_err(m@)),
        },
{
    let e = || -> (r: ParseError)
        ensures
            r matches ParseError::DataParseError(m) && m@ == "face element"@,
        {
        ParseError::DataParseError(String::from_str("face element"))
    };
    match map.get(id) {
        Some(d) => {
            match d {
                Data::Single(_, n, args) => {
                    proof {
                        lemma_view_values_len(args@);
                    }
                    if bytes_eq(n, "PLANE".as_bytes()) {
                        if args.len() < 2 {
                            return Err(e());
                        }
                        proof {
                            lemma_view_values_index(args@, 1);
                        }
                        let aid = match &args[1] {
                            Value::Id(t) => *t,
                            _ => {
                                return Err(e());
                            },
                        };
                        let axis = parse_ref_direction_placement_3d(map, aid)?;
                        Ok(FaceElement::Plane(axis))
                    } else if bytes_eq(n, "CYLINDRICAL_SURFACE".as_bytes()) {
                        if args.len() < 3 {
                            return Err(e());
                        }
                        proof {
                            lemma_view_values_index(args@, 1);
                            lemma_view_values_index(args@, 2);
                        }
                        let aid = match &args[1] {
                            Value::Id(t) => *t,
                            _ => {
                                return Err(e());
                            },
                        };
                        let rad = match &args[2] {
                            Value::Float(dc) => match dc.to_fixed() {
                                Some(v) => v,
                                None => {
                                    return Err(e());
                                },
                            },
                            _ => {
                                return Err(e());
                            },
                        };
                        let axis = parse_ref_direction_placement_3d(map, aid)?;
                        Ok(FaceElement::Cylinder(rad, axis))
                    } else {
                        Err(e())
                    }
                },
                _ => Err(e()),
            }
        },
        None => Err(e()),
    }
}

/// An `ADVANCED_FACE`: the orientation flag and the carrier surface.
pub open spec fn sp_advanced_face(ds: Seq<DataV>, id: u64) -> Option<
    (bool, (bool, int, ((int, int, int), (int, int, int), (int, int, int)))),
> {
    match sp_find(ds, id) {
        Option::Some(DataV::Single(_, n, args)) => {
            if n == "ADVANCED_FACE".spec_bytes() && args.len() >= 4 && args[2] is Id
                && args[3] is Bool && sp_face_elem(ds, args[2]->Id_0) is Some {
                Option::Some((args[3]->Bool_0, sp_face_elem(ds, args[2]->Id_0)->0))
            } else {
                Option::None
            }
        },
        _ => Option::None,
    }
}

pub open spec fn adv_face_err(m: Seq<char>) -> bool {
    m == "ADVANCED_FACE"@ || face_elem_err(m)
}

pub open spec fn adv_face_repr(f: AdvancedFace) -> (
    bool,
    (bool, int, ((int, int, int), (int, int, int), (int, int, int))),
) {
    (f.flag, face_elem_repr(f.elem))
}

/// Resolves an `ADVANCED_FACE` record.
pub fn parse_advanced_face(map: &DataDB, id: u64) -> (r: Result<AdvancedFace, ParseError>)
    ensures
        match r {
            Ok(f) => sp_advanced_face(map@, id) == Option::Some(adv_face_repr(f)) && face_bounded(
                f,
            ),
            Err(e) => sp_advanced_face(map@, id) is None && (e
                matches ParseError::DataParseError(m) && adv_face_err(m@)),
        },
{
    let e = || -> (r: ParseError)
        ensures
            r matches ParseError::DataParseError(m) && m@ == "ADVANCED_FACE"@,
        {
        ParseError::DataParseError(String::from_str("ADVANCED_FACE"))
    };
    match map.get(id) {
        Some(d) => {
            match d {
                Data::Single(_, n, args) => {
                    proof {
                        lemma_view_values_len(args@);
                    }
                    if !bytes_eq(n, "ADVANCED_FACE".as_bytes()) {
                        return Err(e());
                    }
                    if args.len() < 4 {
                        return Err(e());
                    }
                    proof {
                        lemma_view_values_index(args@, 2);
                        lemma_view_values_index(args@, 3);
                    }
                    let eid = match &args[2] {
                        Value::Id(t) => *t,
                        _ => {
                            return Err(e());
                        },
                    };
                    let flag = match &args[3] {
                        Value::Bool(b) => *b,
                        _ => {
                            return Err(e());
                        },
                    };
                    let elem = parse_face_element(map, eid)?;
                    Ok(AdvancedFace { flag, elem })
                },
                _ => Err(e()),
            }
        },
        None => Err(e()),
    }
}

} // verus!

verus! {

// ---------------------------------------------------------------------------
// The whole data section: database, chain, face list.
// ---------------------------------------------------------------------------

/// The face list that a data section resolves to, where it resolves.
pub open spec fn sp_faces(ds: Seq<DataV>) -> Option<
    Seq<(bool, (bool, int, ((int, int, int), (int, int, int), (int, int, int))))>,
> {
    match sp_find_root(ds) {
        Option::None => Option::None,
        Option::Some(root) => match sp_styled_item_ids(ds, root) {
            Option::None => Option::None,
            Option::Some(sids) => {
                if sids.len() < 1 {
                    Option::None
                } else {
                    match sp_ref_arg(ds, sids[0], "STYLED_ITEM".spec_bytes(), 2) {
                        Option::None => Option::None,
                        Option::Some(msb) => match sp_ref_arg(
                            ds,
                            msb,
                            "MANIFOLD_SOLID_BREP".spec_bytes(),
                            1,
                        ) {
                            Option::None => Option::None,
                            Option::Some(shell) => match sp_advanced_face_ids(ds, shell) {
                                Option::None => Option::None,
                                Option::Some(fids) => {
                                    if forall|i: int|
                                        0 <= i < fids.len() ==> sp_advanced_face(
                                            ds,
                                            #[trigger] fids[i],
                                        ) is Some {
                                        Option::Some(
                                            Seq::new(
                                                fids.len(),
                                                |i: int| sp_advanced_face(ds, fids[i])->0,
                                            ),
                                        )
                                    } else {
                                        Option::None
                                    }
                                },
                            },
                        },
                    }
                }
            },
        },
    }
}

pub open spec fn faces_repr(fs: Seq<AdvancedFace>) -> Seq<
    (bool, (bool, int, ((int, int, int), (int, int, int), (int, int, int)))),
> {
    Seq::new(fs.len(), |i: int| adv_face_repr(fs[i]))
}

pub open spec fn all_faces_bounded(fs: Seq<AdvancedFace>) -> bool {
    forall|i: int| 0 <= i < fs.len() ==> face_bounded(#[trigger] fs[i])
}

/// Resolves a decoded data section to its advanced faces, walking the
/// fixed chain from the anchor record.
pub fn parse_data(parsed_data: Vec<Data>) -> (r: Result<Vec<AdvancedFace>, ParseError>)
    ensures
        match r {
            Ok(fs) => unique_ids(view_datas(parsed_data@)) && sp_faces(view_datas(parsed_data@))
                == Option::Some(faces_repr(fs@)) && all_faces_bounded(fs@),
            Err(e) => (!unique_ids(view_datas(parsed_data@)) || sp_faces(
                view_datas(parsed_data@),
            ) is None) && (e matches ParseError::DataParseError(_)),
        },
{
    let ghost ds = view_datas(parsed_data@);
    let map = match make_db(parsed_data) {
        Ok(m) => m,
        Err(e) => {
            return Err(e);
        },
    };
    let root_id = match find_mechanical_design_geometric_presentation_representation_id(&map) {
        Ok(v) => v,
        Err(e) => {
            proof {
                assert(sp_faces(ds) is None);
                assert(view_datas(parsed_data@) == ds);
                assert(sp_faces(view_datas(parsed_data@)) is None);
            }
            return Err(e);
        },
    };
    let styled_item_ids = match get_styled_item_ids(&map, root_id) {
        Ok(v) => v,
        Err(e) => {
            proof {
                assert(sp_faces(ds) is None);
            }
            return Err(e);
        },
    };
    if styled_item_ids.len() < 1 {
        proof {
            assert(sp_faces(ds) is None);
        }
        return Err(ParseError::DataParseError(String::from_str("STYLED_ITEM")));
    }
    let manifold_solid_brep_id = match get_manifold_solid_brep_id(&map, styled_item_ids[0]) {
        Ok(v) => v,
        Err(e) => {
            proof {
                assert(sp_faces(ds) is None);
            }
            return Err(e);
        },
    };
    let closed_shell_id = match get_closed_shell_id(&map, manifold_solid_brep_id) {
        Ok(v) => v,
        Err(e) => {
            proof {
                assert(sp_faces(ds) is None);
            }
            return Err(e);
        },
    };
    let advanced_face_ids = match get_advanced_face_ids(&map, closed_shell_id) {
        Ok(v) => v,
        Err(e) => {
            proof {
                assert(sp_faces(ds) is None);
            }
            return Err(e);
        },
    };
    let ghost fids = advanced_face_ids@;
    let n = advanced_face_ids.len();
    let mut faces: Vec<AdvancedFace> = Vec::new();
    let mut k: usize = 0;
    #[verifier::loop_isolation(false)]
    while k < n
        invariant
            0 <= k <= n == advanced_face_ids@.len(),
            fids == advanced_face_ids@,
            ds == map@,
            unique_ids(ds),
            sp_find_root(ds) == Option::Some(root_id),
            sp_styled_item_ids(ds, root_id) == Option::Some(styled_item_ids@),
            styled_item_ids@.len() >= 1,
            sp_ref_arg(ds, styled_item_ids@[0], "STYLED_ITEM".spec_bytes(), 2) == Option::Some(
                manifold_solid_brep_id,
            ),
            sp_ref_arg(ds, manifold_solid_brep_id, "MANIFOLD_SOLID_BREP".spec_bytes(), 1)
                == Option::Some(closed_shell_id),
            sp_advanced_face_ids(ds, closed_shell_id) == Option::Some(fids),
            faces@.len() == k,
            forall|t: int|
                0 <= t < k ==> sp_advanced_face(ds, #[trigger] fids[t]) == Option::Some(
                    adv_face_repr(faces@[t]),
                ) && face_bounded(faces@[t]),
        decreases n - k,
    {
        match parse_advanced_face(&map, advanced_face_ids[k]) {
            Ok(f) => {
                faces.push(f);
            },
            Err(e) => {
                proof {
                    assert(sp_advanced_face(ds, fids[k as int]) is None);
                    assert(!(forall|i: int|
                        0 <= i < fids.len() ==> sp_advanced_face(ds, #[trigger] fids[i]) is Some));
                    assert(sp_faces(ds) is None);
                }
                return Err(e);
            },
        }
        k = k + 1;
    }
    proof {
        assert(faces_repr(faces@) =~= Seq::new(
            fids.len(),
            |i: int| sp_advanced_face(ds, fids[i])->0,
        ));
        assert(sp_faces(ds) == Option::Some(faces_repr(faces@)));
        assert(sp_faces(view_datas(parsed_data@)) == Option::Some(faces_repr(faces@)));
        assert forall|i: int| 0 <= i < faces@.len() implies face_bounded(#[trigger] faces@[i]) by {
            assert(sp_advanced_face(ds, fids[i]) == Option::Some(adv_face_repr(faces@[i])));
        }
        assert(all_faces_bounded(faces@));
        assert(unique_ids(view_datas(parsed_data@)));
    }
    Ok(faces)
}

} // verus!

verus! {

// ---------------------------------------------------------------------------
// The header: the three well-known records become named fields, all other
// records are ignored.
// ---------------------------------------------------------------------------

/// The interpreted header of a document.
#[derive(PartialEq, Debug)]
pub struct Header {
    pub description: Vec<Vec<u8>>,
    pub implementation_level: Vec<u8>,
    pub name: Vec<u8>,
    pub time_stamp: Vec<u8>,
    pub author: Vec<Vec<u8>>,
    pub organization: Vec<Vec<u8>>,
    pub preprocessor_version: Vec<u8>,
    pub originating_system: Vec<u8>,
    pub authorisation: Vec<u8>,
    pub file_schema: Vec<Vec<u8>>,
}

pub struct HeaderV {
    pub description: Seq<Seq<u8>>,
    pub implementation_level: Seq<u8>,
    pub name: Seq<u8>,
    pub time_stamp: Seq<u8>,
    pub author: Seq<Seq<u8>>,
    pub organization: Seq<Seq<u8>>,
    pub preprocessor_version: Seq<u8>,
    pub originating_system: Seq<u8>,
    pub authorisation: Seq<u8>,
    pub file_schema: Seq<Seq<u8>>,
}

pub open spec fn view_strs(v: Seq<Vec<u8>>) -> Seq<Seq<u8>> {
    Seq::new(v.len(), |i: int| v[i]@)
}

impl View for Header {
    type V = HeaderV;

    open spec fn view(&self) -> HeaderV {
        HeaderV {
            description: view_strs(self.description@),
            implementation_level: self.implementation_level@,
            name: self.name@,
            time_stamp: self.time_stamp@,
            author: view_strs(self.author@),
            organization: view_strs(self.organization@),
            preprocessor_version: self.preprocessor_version@,
            originating_system: self.originating_system@,
            authorisation: self.authorisation@,
            file_schema: view_strs(self.file_schema@),
        }
    }
}

pub open spec fn empty_header() -> HeaderV {
    HeaderV {
        description: Seq::empty(),
        implementation_level: Seq::empty(),
        name: Seq::empty(),
        time_stamp: Seq::empty(),
        author: Seq::empty(),
        organization: Seq::empty(),
        preprocessor_version: Seq::empty(),
        originating_system: Seq::empty(),
        authorisation: Seq::empty(),
        file_schema: Seq::empty(),
    }
}

pub open spec fn all_strings(ts: Seq<ValueV>) -> bool {
    forall|i: int| 0 <= i < ts.len() ==> (#[trigger] ts[i]) is String
}

pub open spec fn strs_map(ts: Seq<ValueV>) -> Seq<Seq<u8>> {
    Seq::new(ts.len(), |i: int| ts[i]->String_0)
}

/// How one header record changes the interpreted header.  A record of an
/// unknown name changes nothing; the three known records demand their
/// exact argument shapes.
pub open spec fn sp_header_step(h: HeaderV, name: Seq<u8>, args: Seq<ValueV>) -> Option<HeaderV> {
    if name == "FILE_DESCRIPTION".spec_bytes() {
        if args.len() >= 2 && (args[0] matches ValueV::Tuple(ts) && all_strings(ts))
            && args[1] is String {
            Option::Some(
                HeaderV {
                    description: strs_map(args[0]->Tuple_0),
                    implementation_level: args[1]->String_0,
                    ..h
                },
            )
        } else {
            Option::None
        }
    } else if name == "FILE_NAME".spec_bytes() {
        if args.len() >= 7 && args[0] is String && args[1] is String && (args[2]
            matches ValueV::Tuple(ts) && all_strings(ts)) && (args[3] matches ValueV::Tuple(ts)
            && all_strings(ts)) && args[4] is String && args[5] is String && args[6] is String {
            Option::Some(
                HeaderV {
                    name: args[0]->String_0,
                    time_stamp: args[1]->String_0,
                    author: strs_map(args[2]->Tuple_0),
                    organization: strs_map(args[3]->Tuple_0),
                    preprocessor_version: args[4]->String_0,
                    originating_system: args[5]->String_0,
                    authorisation: args[6]->String_0,
                    ..h
                },
            )
        } else {
            Option::None
        }
    } else if name == "FILE_SCHEMA".spec_bytes() {
        if args.len() >= 1 && (args[0] matches ValueV::Tuple(ts) && all_strings(ts)) {
            Option::Some(HeaderV { file_schema: strs_map(args[0]->Tuple_0), ..h })
        } else {
            Option::None
        }
    } else {
        Option::Some(h)
    }
}

/// The interpreted header after all records, in document order.
pub open spec fn sp_parse_header(hs: Seq<(Seq<u8>, Seq<ValueV>)>, h: HeaderV) -> Option<HeaderV>
    decreases hs.len(),
{
    if hs.len() == 0 {
        Option::Some(h)
    } else {
        match sp_header_step(h, hs[0].0, hs[0].1) {
            Option::Some(h1) => sp_parse_header(hs.skip(1), h1),
            Option::None => Option::None,
        }
    }
}

pub open spec fn header_err(m: Seq<char>) -> bool {
    m == "FILE_DESCRIPTION"@ || m == "FILE_NAME"@ || m == "FILE_SCHEMA"@
}

/// Collects the members of a tuple of strings.
fn collect_strings(ts: &Vec<Value>) -> (r: Option<Vec<Vec<u8>>>)
    ensures
        match r {
            Some(v) => all_strings(view_values(ts@)) && view_strs(v@) == strs_map(
                view_values(ts@),
            ),
            None => !all_strings(view_values(ts@)),
        },
{
    proof {
        lemma_view_values_len(ts@);
    }
    let n = ts.len();
    let mut out: Vec<Vec<u8>> = Vec::new();
    let mut k: usize = 0;
    while k < n
        invariant
            0 <= k <= n == ts@.len(),
            view_values(ts@).len() == n,
            out@.len() == k,
            forall|t: int|
                0 <= t < k ==> (#[trigger] view_values(ts@)[t]) is String && out@[t]@
                    == view_values(ts@)[t]->String_0,
        decreases n - k,
    {
        proof {
            lemma_view_values_index(ts@, k as int);
        }
        match &ts[k] {
            Value::String(s) => {
                let mut c: Vec<u8> = Vec::new();
                let m = s.len();
                let mut q: usize = 0;
                while q < m
                    invariant
                        0 <= q <= m == s@.len(),
                        c@ == s@.take(q as int),
                    decreases m - q,
                {
                    c.push(s[q]);
                    proof {
                        assert(c@ =~= s@.take(q as int + 1));
                    }
                    q = q + 1;
                }
                proof {
                    assert(c@ =~= s@);
                }
                out.push(c);
            },
            _ => {
                return None;
            },
        }
        k = k + 1;
    }
    proof {
        assert(view_strs(out@) =~= strs_map(view_values(ts@)));
    }
    Some(out)
}

fn copy_bytes(s: &Vec<u8>) -> (r: Vec<u8>)
    ensures
        r@ == s@,
{
    let mut c: Vec<u8> = Vec::new();
    let m = s.len();
    let mut q: usize = 0;
    while q < m
        invariant
            0 <= q <= m == s@.len(),
            c@ == s@.take(q as int),
        decreases m - q,
    {
        c.push(s[q]);
        proof {
            assert(c@ =~= s@.take(q as int + 1));
        }
        q = q + 1;
    }
    proof {
        assert(c@ =~= s@);
    }
    c
}

/// Interprets the decoded header records.
pub fn parse_header(parsed_header: Vec<(Vec<u8>, Vec<Value>)>) -> (r: Result<Header, ParseError>)
    ensures
        match r {
            Ok(h) => sp_parse_header(crate::decode::view_descs(parsed_header@), empty_header())
                == Option::Some(h@),
            Err(e) => sp_parse_header(crate::decode::view_descs(parsed_header@), empty_header())
                is None && (e matches ParseError::HeaderParseError(m) && header_err(m@)),
        },
{
    let ghost hs = crate::decode::view_descs(parsed_header@);
    let mut header = Header {
        description: Vec::new(),
        implementation_level: Vec::new(),
        name: Vec::new(),
        time_stamp: Vec::new(),
        author: Vec::new(),
        organization: Vec::new(),
        preprocessor_version: Vec::new(),
        originating_system: Vec::new(),
        authorisation: Vec::new(),
        file_schema: Vec::new(),
    };
    proof {
        assert(view_strs(header.description@) =~= Seq::<Seq<u8>>::empty());
        assert(view_strs(header.author@) =~= Seq::<Seq<u8>>::empty());
        assert(view_strs(header.organization@) =~= Seq::<Seq<u8>>::empty());
        assert(view_strs(header.file_schema@) =~= Seq::<Seq<u8>>::empty());
        assert(header@ == empty_header());
        assert(hs.skip(0) =~= hs);
    }
    let n = parsed_header.len();
    let mut k: usize = 0;
    #[verifier::loop_isolation(false)]
    while k < n
        invariant
            0 <= k <= n,
            sp_parse_header(hs, empty_header()) == sp_parse_header(hs.skip(k as int), header@),
        decreases n - k,
    {
        proof {
            assert(hs.skip(k as int)[0] == hs[k as int]);
            assert(hs.skip(k as int).skip(1) =~= hs.skip(k as int + 1));
            assert(hs[k as int] == crate::decode::view_desc(parsed_header@[k as int]));
        }
        let rec = &parsed_header[k];
        let name = &rec.0;
        let args = &rec.1;
        proof {
            lemma_view_values_len(args@);
        }
        if bytes_eq(name, "FILE_DESCRIPTION".as_bytes()) {
            let e = ParseError::HeaderParseError(String::from_str("FILE_DESCRIPTION"));
            if args.len() < 2 {
                return Err(e);
            }
            proof {
                lemma_view_values_index(args@, 0);
                lemma_view_values_index(args@, 1);
            }
            let ts = match &args[0] {
                Value::Tuple(ts) => ts,
                _ => {
                    return Err(e);
                },
            };
            let descr = match collect_strings(ts) {
                Some(v) => v,
                None => {
                    return Err(e);
                },
            };
            let lvl = match &args[1] {
                Value::String(s) => copy_bytes(s),
                _ => {
                    return Err(e);
                },
            };
            header.description = descr;
            header.implementation_level = lvl;
        } else if bytes_eq(name, "FILE_NAME".as_bytes()) {
            let e = ParseError::HeaderParseError(String::from_str("FILE_NAME"));
            if args.len() < 7 {
                return Err(e);
            }
            proof {
                lemma_view_values_index(args@, 0);
                lemma_view_values_index(args@, 1);
                lemma_view_values_index(args@, 2);
                lemma_view_values_index(args@, 3);
                lemma_view_values_index(args@, 4);
                lemma_view_values_index(args@, 5);
                lemma_view_values_index(args@, 6);
            }
            let nm = match &args[0] {
                Value::String(s) => copy_bytes(s),
                _ => {
                    return Err(e);
                },
            };
            let tstamp = match &args[1] {
                Value::String(s) => copy_bytes(s),
                _ => {
                    return Err(e);
                },
            };
            let auth = match &args[2] {
                Value::Tuple(ts) => match collect_strings(ts) {
                    Some(v) => v,
                    None => {
                        return Err(e);
                    },
                },
                _ => {
                    return Err(e);
                },
            };
            let org = match &args[3] {
                Value::Tuple(ts) => match collect_strings(ts) {
                    Some(v) => v,
                    None => {
                        return Err(e);
                    },
                },
                _ => {
                    return Err(e);
                },
            };
            let prep = match &args[4] {
                Value::String(s) => copy_bytes(s),
                _ => {
                    return Err(e);
                },
            };
            let orig = match &args[5] {
                Value::String(s) => copy_bytes(s),
                _ => {
                    return Err(e);
                },
            };
            let autho = match &args[6] {
                Value::String(s) => copy_bytes(s),
                _ => {
                    return Err(e);
                },
            };
            header.name = nm;
            header.time_stamp = tstamp;
            header.author = auth;
            header.organization = org;
            header.preprocessor_version = prep;
            header.originating_system = orig;
            header.authorisation = autho;
        } else if bytes_eq(name, "FILE_SCHEMA".as_bytes()) {
            let e = ParseError::HeaderParseError(String::from_str("FILE_SCHEMA"));
            if args.len() < 1 {
                return Err(e);
            }
            proof {
                lemma_view_values_index(args@, 0);
            }
            let ts = match &args[0] {
                Value::Tuple(ts) => ts,
                _ => {
                    return Err(e);
                },
            };
            let schema = match collect_strings(ts) {
                Some(v) => v,
                None => {
                    return Err(e);
                },
            };
            header.file_schema = schema;
        }
        k = k + 1;
    }
    proof {
        assert(hs.skip(n as int).len() == 0);
    }
    Ok(header)
}

} // verus!

verus! {

// ---------------------------------------------------------------------------
// The whole front half: decoding plus resolution.
// ---------------------------------------------------------------------------

pub open spec fn msg_linecol(l: int, c: int) -> Seq<char> {
    "irregular syntax at "@ + crate::fmt::dec_chars(l as nat) + ":"@ + crate::fmt::dec_chars(
        c as nat,
    )
}

pub open spec fn msg_span(l1: int, c1: int, l2: int, c2: int) -> Seq<char> {
    "irregular syntax in "@ + crate::fmt::dec_chars(l1 as nat) + ":"@ + crate::fmt::dec_chars(
        c1 as nat,
    ) + " -- "@ + crate::fmt::dec_chars(l2 as nat) + ":"@ + crate::fmt::dec_chars(c2 as nat)
}

/// The message reports the decoder failure at its position.
pub open spec fn pre_msg_matches(m: Seq<char>, b: Seq<u8>) -> bool {
    match crate::decode::sp_step(b) {
        crate::decode::SpR::Found(_, _) => false,
        crate::decode::SpR::Fail(p) => m == msg_linecol(
            crate::decode::sp_line(b, p),
            crate::decode::sp_col(b, p),
        ),
        crate::decode::SpR::FailSpan(p, q) => m == msg_span(
            crate::decode::sp_line(b, p),
            crate::decode::sp_col(b, p),
            crate::decode::sp_line(b, q),
            crate::decode::sp_col(b, q),
        ),
        crate::decode::SpR::Internal => m == "internal parser error"@,
    }
}

/// Decodes and resolves a whole document: the interpreted header and the
/// face list.
pub fn parse(s: &str) -> (r: Result<(Header, Vec<AdvancedFace>), ParseError>)
    ensures
        s.spec_bytes().len() < usize::MAX ==> {
            let b = s.spec_bytes();
            match r {
                Ok((h, fs)) => {
                    &&& crate::decode::sp_step(b) matches crate::decode::SpR::Found(st, _)
                        && sp_parse_header(st.header, empty_header()) == Option::Some(h@)
                        && unique_ids(st.data) && sp_faces(st.data) == Option::Some(
                        faces_repr(fs@),
                    )
                    &&& all_faces_bounded(fs@)
                },
                Err(e) => match e {
                    ParseError::PreprocessError(m) => pre_msg_matches(m@, b),
                    ParseError::HeaderParseError(m) => (crate::decode::sp_step(b)
                        matches crate::decode::SpR::Found(st, _) && sp_parse_header(
                        st.header,
                        empty_header(),
                    ) is None && header_err(m@)),
                    ParseError::DataParseError(_) => (crate::decode::sp_step(b)
                        matches crate::decode::SpR::Found(st, _) && sp_parse_header(
                        st.header,
                        empty_header(),
                    ) is Some && (!unique_ids(st.data) || sp_faces(st.data) is None)),
                },
            }
        },
{
    let parsed = match crate::decode::parse(s) {
        Ok(st) => st,
        Err(e) => {
            let m: String = match e {
                crate::decode::PreprocessError::Fail(info) => {
                    match info {
                        crate::decode::PreprocessErrorInfo::LineCol(lc) => {
                            let mut m = String::from_str("irregular syntax at ");
                            crate::fmt::push_u64(&mut m, lc.0 as u64);
                            m.append(":");
                            crate::fmt::push_u64(&mut m, lc.1 as u64);
                            proof {
                                reveal_strlit("irregular syntax at ");
                                reveal_strlit(":");
                            }
                            m
                        },
                        crate::decode::PreprocessErrorInfo::Span(lc1, lc2) => {
                            let mut m = String::from_str("irregular syntax in ");
                            crate::fmt::push_u64(&mut m, lc1.0 as u64);
                            m.append(":");
                            crate::fmt::push_u64(&mut m, lc1.1 as u64);
                            m.append(" -- ");
                            crate::fmt::push_u64(&mut m, lc2.0 as u64);
                            m.append(":");
                            crate::fmt::push_u64(&mut m, lc2.1 as u64);
                            proof {
                                reveal_strlit("irregular syntax in ");
                                reveal_strlit(" -- ");
                                reveal_strlit(":");
                            }
                            m
                        },
                    }
                },
                crate::decode::PreprocessError::InternalError => {
                    String::from_str("internal parser error")
                },
            };
            return Err(ParseError::PreprocessError(m));
        },
    };
    let header = parse_header(parsed.header)?;
    let faces = parse_data(parsed.data)?;
    Ok((header, faces))
}

} // verus!
