//! Assembling a volume: slice order, voxel spacing and the slice images.
use vstd::prelude::*;
use crate::decimal::{Decimal, MAX_MICROS};
use crate::directory::{DirectoryEntry, copy_bytes, dicom_files, empty_metadata, entries_for, entry_for};
use crate::dataset::dicom_parses;
use crate::handler::{file_pixel_attributes, image_reads};
use crate::pixels::{frame_png, first_frame_samples};
use crate::propagate::{clone_decimals, decimals_view};
use crate::sorting::{lemma_sort_by, sort_by, sort_by_keys};
use crate::handler::DicomHandler;
use crate::hierarchy::{Instance, instance_of};
use crate::metadata::DicomMetadata;
use crate::error::DicomError;
use crate::spatial::{runs_descending, tier_of, usable_position, usable_position_exec, volume_key, volume_keys};

verus! {

broadcast use vstd::seq_lib::group_to_multiset_ensures;

/// `r` is the integer square root of `n`.
pub open spec fn is_isqrt(r: int, n: int) -> bool {
    r >= 0 && r * r <= n < (r + 1) * (r + 1)
}

/// The largest root `isqrt` is asked for is below this bound (squared).
pub const ROOT_BOUND: u128 = 0x4000_0000_0000;

/// The integer square root: the largest `r` with `r * r <= n`.
pub fn isqrt(n: u128) -> (r: u64)
    requires
        n < ROOT_BOUND * ROOT_BOUND,
    ensures
        is_isqrt(r as int, n as int),
{
    let mut lo: u128 = 0;
    let mut hi: u128 = ROOT_BOUND;
    while hi - lo > 1
        invariant
            lo < hi <= ROOT_BOUND,
            lo * lo <= n,
            n < hi * hi,
        decreases hi - lo,
    {
        let mid = lo + (hi - lo) / 2;
        assert(mid * mid <= ROOT_BOUND * ROOT_BOUND) by (nonlinear_arith)
            requires mid <= ROOT_BOUND;
        if mid * mid <= n {
            lo = mid;
        } else {
            hi = mid;
        }
    }
    assert(hi == lo + 1);
    lo as u64
}

/// The squared distance, in squared millionths, of two positions.
pub open spec fn sq_distance(p: Seq<Decimal>, q: Seq<Decimal>) -> int {
    let dx = p[0].micros - q[0].micros;
    let dy = p[1].micros - q[1].micros;
    let dz = p[2].micros - q[2].micros;
    dx * dx + dy * dy + dz * dz
}

pub open spec fn position_of(e: DirectoryEntry) -> Seq<Decimal> {
    e.metadata.image_position->0@
}

/// Entries `i` and `j` both have usable positions, at distinct places.
pub open spec fn distinct_pair(es: Seq<DirectoryEntry>, i: int, j: int) -> bool {
    &&& 0 <= i < j < es.len()
    &&& usable_position(es[i].metadata.image_position)
    &&& usable_position(es[j].metadata.image_position)
    &&& sq_distance(position_of(es[i]), position_of(es[j])) > 0
}

/// `d` is the smallest positive squared distance between two positions.
pub open spec fn closest_sq_distance(es: Seq<DirectoryEntry>, d: int) -> bool {
    &&& exists|i: int, j: int| distinct_pair(es, i, j) && sq_distance(position_of(es[i]), position_of(es[j])) == d
    &&& forall|i: int, j: int|
        distinct_pair(es, i, j) ==> d <= #[trigger] sq_distance(position_of(es[i]), position_of(es[j]))
}

fn sq_distance_exec(p: &Vec<Decimal>, q: &Vec<Decimal>) -> (r: u128)
    requires
        p@.len() >= 3,
        q@.len() >= 3,
        forall|i: int| 0 <= i < 3 ==> (#[trigger] p@[i]).in_range(),
        forall|i: int| 0 <= i < 3 ==> (#[trigger] q@[i]).in_range(),
    ensures
        r as int == sq_distance(p@, q@),
        r < 1_200_000_000_000_000_000_000_000_001,
{
    assert(p@[0].in_range() && p@[1].in_range() && p@[2].in_range());
    assert(q@[0].in_range() && q@[1].in_range() && q@[2].in_range());
    let dx = (p[0].micros as i128) - (q[0].micros as i128);
    let dy = (p[1].micros as i128) - (q[1].micros as i128);
    let dz = (p[2].micros as i128) - (q[2].micros as i128);
    assert(0 <= dx * dx <= 400_000_000_000_000_000_000_000_000) by (nonlinear_arith)
        requires -20_000_000_000_000 <= dx <= 20_000_000_000_000;
    assert(0 <= dy * dy <= 400_000_000_000_000_000_000_000_000) by (nonlinear_arith)
        requires -20_000_000_000_000 <= dy <= 20_000_000_000_000;
    assert(0 <= dz * dz <= 400_000_000_000_000_000_000_000_000) by (nonlinear_arith)
        requires -20_000_000_000_000 <= dz <= 20_000_000_000_000;
    (dx * dx + dy * dy + dz * dz) as u128
}

/// The smallest positive squared distance between two usable positions.
fn closest_positions(es: &Vec<DirectoryEntry>) -> (r: Option<u128>)
    ensures
        r is Some ==> closest_sq_distance(es@, r->0 as int) && r->0 < 1_200_000_000_000_000_000_000_000_001,
        r is None ==> forall|i: int, j: int| !distinct_pair(es@, i, j),
{
    let mut best: Option<u128> = None;
    let mut i: usize = 0;
    while i < es.len()
        invariant
            i <= es.len(),
            best is None ==> forall|a: int, b: int| a < i ==> !distinct_pair(es@, a, b),
            best is Some ==> best->0 < 1_200_000_000_000_000_000_000_000_001
                && (exists|a: int, b: int| distinct_pair(es@, a, b) && sq_distance(position_of(es@[a]), position_of(es@[b])) == best->0)
                && forall|a: int, b: int| a < i && distinct_pair(es@, a, b) ==> best->0 <= #[trigger] sq_distance(position_of(es@[a]), position_of(es@[b])),
        decreases es.len() - i,
    {
        if usable_position_exec(&es[i].metadata.image_position) {
            let mut j: usize = i + 1;
            while j < es.len()
                invariant
                    i < es.len(),
                    i + 1 <= j <= es.len(),
                    usable_position(es@[i as int].metadata.image_position),
                    best is None ==> forall|a: int, b: int| (a < i || (a == i && b < j)) ==> !distinct_pair(es@, a, b),
                    best is Some ==> best->0 < 1_200_000_000_000_000_000_000_000_001
                        && (exists|a: int, b: int| distinct_pair(es@, a, b) && sq_distance(position_of(es@[a]), position_of(es@[b])) == best->0)
                        && forall|a: int, b: int| (a < i || (a == i && b < j)) && distinct_pair(es@, a, b) ==> best->0 <= #[trigger] sq_distance(position_of(es@[a]), position_of(es@[b])),
                decreases es.len() - j,
            {
                if usable_position_exec(&es[j].metadata.image_position) {
                    match (&es[i].metadata.image_position, &es[j].metadata.image_position) {
                        (Some(p), Some(q)) => {
                            let d = sq_distance_exec(p, q);
                            assert(d as int == sq_distance(position_of(es@[i as int]), position_of(es@[j as int])));
                            if d > 0 {
                                let better = match best {
                                    Some(b) => d < b,
                                    None => true,
                                };
                                if better {
                                    best = Some(d);
                                    assert(distinct_pair(es@, i as int, j as int));
                                }
                            }
                        },
                        _ => {},
                    }
                }
                j = j + 1;
            }
        }
        i = i + 1;
    }
    best
}

/// The slice locations that entries have, in order.
pub open spec fn locations(es: Seq<DirectoryEntry>) -> Seq<Decimal>
    decreases es.len(),
{
    if es.len() == 0 {
        Seq::empty()
    } else {
        let prev = locations(es.drop_last());
        match es.last().metadata.slice_location {
            Some(d) => prev.push(d),
            None => prev,
        }
    }
}

/// Some two entries have distinct usable positions.
pub open spec fn has_distinct_pair(es: Seq<DirectoryEntry>) -> bool {
    exists|i: int, j: int| distinct_pair(es, i, j)
}

/// The difference of the first two slice locations, when it is positive
/// and within the decimal range.
pub open spec fn location_gap(es: Seq<DirectoryEntry>) -> Option<int> {
    let l = locations(es);
    if l.len() >= 2 {
        let d = l[0].micros - l[1].micros;
        let a = if d < 0 {
            -d
        } else {
            d
        };
        if 0 < a <= MAX_MICROS {
            Some(a)
        } else {
            None
        }
    } else {
        None
    }
}

/// The slice thickness of the first entry.
pub open spec fn first_thickness(es: Seq<DirectoryEntry>) -> Option<Decimal> {
    if es.len() > 0 {
        es[0].metadata.slice_thickness
    } else {
        None
    }
}

/// No slice spacing can be derived from `es`.
pub open spec fn spacing_fails(es: Seq<DirectoryEntry>) -> bool {
    !has_distinct_pair(es) && location_gap(es) is None && first_thickness(es) is None
}

/// `z` is the slice spacing of `es`.
pub open spec fn spacing_of(es: Seq<DirectoryEntry>, z: Decimal) -> bool {
    if has_distinct_pair(es) {
        exists|d: int| closest_sq_distance(es, d) && is_isqrt(z.micros as int, d)
    } else if location_gap(es) is Some {
        z.micros == location_gap(es)->0
    } else {
        Some(z) == first_thickness(es)
    }
}

/// The first two slice locations, in entry order.
fn first_two_locations(es: &Vec<DirectoryEntry>) -> (r: Option<(Decimal, Decimal)>)
    ensures
        r is Some <==> locations(es@).len() >= 2,
        r matches Some((a, b)) ==> a == locations(es@)[0] && b == locations(es@)[1],
{
    let mut first: Option<Decimal> = None;
    let mut i: usize = 0;
    assert(es@.take(0) =~= Seq::<DirectoryEntry>::empty());
    while i < es.len()
        invariant
            i <= es.len(),
            locations(es@.take(i as int)).len() <= 1,
            first is Some <==> locations(es@.take(i as int)).len() == 1,
            first is Some ==> first->0 == locations(es@.take(i as int))[0],
        decreases es.len() - i,
    {
        assert(es@.take(i + 1).drop_last() =~= es@.take(i as int));
        assert(es@.take(i + 1).last() == es@[i as int]);
        match es[i].metadata.slice_location {
            Some(d) => match first {
                Some(f) => {
                    proof {
                        lemma_locations_prefix(es@, i + 1);
                        let lt = locations(es@.take(i + 1));
                        assert(lt == locations(es@.take(i as int)).push(d));
                        assert(lt[0] == f && lt[1] == d);
                        assert(locations(es@).take(2)[0] == locations(es@)[0]);
                        assert(locations(es@).take(2)[1] == locations(es@)[1]);
                    }
                    return Some((f, d));
                },
                None => {
                    first = Some(d);
                },
            },
            None => {},
        }
        i = i + 1;
    }
    assert(es@.take(es@.len() as int) =~= es@);
    None
}

/// The locations of a prefix are a prefix of the locations.
proof fn lemma_locations_prefix(es: Seq<DirectoryEntry>, k: int)
    requires
        0 <= k <= es.len(),
    ensures
        locations(es.take(k)).len() <= locations(es).len(),
        locations(es.take(k)) =~= locations(es).take(locations(es.take(k)).len() as int),
    decreases es.len(),
{
    if k < es.len() {
        assert(es.drop_last().take(k) =~= es.take(k));
        lemma_locations_prefix(es.drop_last(), k);
    } else {
        assert(es.take(k) =~= es);
    }
}

/// The spacing between slices: the distance between the two closest
/// distinct positions (rounded down to a millionth); else the difference of
/// the first two slice locations, when they differ; else the slice
/// thickness of the first entry.
pub fn slice_spacing(es: &Vec<DirectoryEntry>) -> (r: Result<Decimal, DicomError>)
    ensures
        r is Err <==> spacing_fails(es@),
        r is Ok ==> spacing_of(es@, r->Ok_0),
        r is Err ==> r->Err_0 is MissingSliceSpacing,
{
    match closest_positions(es) {
        Some(d) => {
            assert(d < ROOT_BOUND * ROOT_BOUND);
            let root = isqrt(d);
            assert(root < ROOT_BOUND) by (nonlinear_arith)
                requires
                    (root as int) * (root as int) <= d as int,
                    d < ROOT_BOUND * ROOT_BOUND,
            ;
            return Ok(Decimal { micros: root as i64 });
        },
        None => {},
    }
    match first_two_locations(es) {
        Some((a, b)) => {
            let diff = (a.micros as i128) - (b.micros as i128);
            let abs = if diff < 0 {
                -diff
            } else {
                diff
            };
            if abs > 0 && abs <= MAX_MICROS as i128 {
                return Ok(Decimal { micros: abs as i64 });
            }
        },
        None => {},
    }
    if es.len() > 0 {
        match es[0].metadata.slice_thickness {
            Some(t) => {
                return Ok(t);
            },
            None => {},
        }
    }
    Err(DicomError::MissingSliceSpacing)
}

pub const UNSIGNED_CHAR: &'static str = "unsigned char";

pub const UNSIGNED_SHORT: &'static str = "unsigned short";

/// The sample type of a volume: bytes up to eight allocated bits, else
/// 16-bit words.
pub open spec fn data_type_text(bits_allocated: u16) -> Seq<char> {
    if bits_allocated <= 8 {
        UNSIGNED_CHAR@
    } else {
        UNSIGNED_SHORT@
    }
}

pub fn data_type_of(bits_allocated: u16) -> (r: &'static str)
    ensures
        r@ == data_type_text(bits_allocated),
{
    if bits_allocated <= 8 {
        UNSIGNED_CHAR
    } else {
        UNSIGNED_SHORT
    }
}

/// The in-plane spacing `(x, y)` from a pixel spacing `row\column`: x is
/// the column spacing (the row spacing when only one value is given), y is
/// the row spacing.
pub fn xy_spacing(m: &DicomMetadata) -> (r: Result<(Decimal, Decimal), DicomError>)
    ensures
        r is Ok <==> m.pixel_spacing is Some && m.pixel_spacing->0@.len() > 0,
        r matches Ok((x, y)) ==> y == m.pixel_spacing->0@[0] && x == (if m.pixel_spacing->0@.len() >= 2 {
            m.pixel_spacing->0@[1]
        } else {
            m.pixel_spacing->0@[0]
        }),
        r is Err ==> r->Err_0 is MissingPixelSpacing,
{
    match &m.pixel_spacing {
        Some(v) => if v.len() >= 2 {
            Ok((v[1], v[0]))
        } else if v.len() == 1 {
            Ok((v[0], v[0]))
        } else {
            Err(DicomError::MissingPixelSpacing)
        },
        None => Err(DicomError::MissingPixelSpacing),
    }
}

/// A volume: slices in spatial order, encoded as PNG, with their geometry.
#[derive(Clone, Debug)]
pub struct Volume {
    pub width: u32,
    pub height: u32,
    pub depth: usize,
    pub spacing_x: Decimal,
    pub spacing_y: Decimal,
    pub spacing_z: Decimal,
    pub bits_allocated: u16,
    pub data_type: &'static str,
    pub samples_per_pixel: u16,
    pub slices: Vec<Vec<u8>>,
    pub metadata: DicomMetadata,
}

/// The metadata has a pixel spacing with at least one value.
pub open spec fn has_pixel_spacing(m: DicomMetadata) -> bool {
    m.pixel_spacing is Some && m.pixel_spacing->0@.len() > 0
}

/// `i` carries the fields of `e` that order a volume.
pub open spec fn mirrors(i: Instance, e: DirectoryEntry) -> bool {
    &&& i.path@ == e.path@
    &&& i.instance_number == e.metadata.instance_number
    &&& i.slice_location == e.metadata.slice_location
    &&& decimals_view(i.image_position) == decimals_view(e.metadata.image_position)
    &&& decimals_view(i.image_orientation) == decimals_view(e.metadata.image_orientation)
}

/// `a` carries the fields of `b` that the spacing reads.
pub open spec fn same_geometry(a: DirectoryEntry, b: DirectoryEntry) -> bool {
    &&& decimals_view(a.metadata.image_position) == decimals_view(b.metadata.image_position)
    &&& a.metadata.slice_location == b.metadata.slice_location
    &&& a.metadata.slice_thickness == b.metadata.slice_thickness
}

pub open spec fn index_seq(n: nat) -> Seq<usize> {
    Seq::new(n, |i: int| i as usize)
}

pub open spec fn index_order(insts: Seq<Instance>) -> spec_fn(usize) -> (i128, i128) {
    |p: usize| volume_key(tier_of(insts), runs_descending(insts), insts[p as int])
}

/// How a volume is planned from `files`: `found` are the scan entries of
/// its DICOM files, `insts` carry their ordering fields, `order` lists the
/// entries in volume order, and `ordered` carries their geometry in it.
pub open spec fn volume_plan(
    found: Seq<DirectoryEntry>,
    insts: Seq<Instance>,
    order: Seq<usize>,
    ordered: Seq<DirectoryEntry>,
    files: Seq<(String, Vec<u8>)>,
) -> bool {
    &&& entries_for(found, files)
    &&& insts.len() == found.len()
    &&& forall|i: int| 0 <= i < found.len() ==> mirrors(#[trigger] insts[i], found[i])
    &&& order == sort_by(index_seq(found.len()), index_order(insts))
    &&& ordered.len() == order.len()
    &&& forall|i: int|
        0 <= i < order.len() ==> order[i] < found.len() && same_geometry(#[trigger] ordered[i], found[order[i] as int])
}

/// The bytes of the `i`-th slice in volume order.
pub open spec fn slice_bytes(files: Seq<(String, Vec<u8>)>, order: Seq<usize>, i: int) -> Seq<u8> {
    dicom_files(files)[order[i] as int].1@
}

/// `v` is the volume of the plan.
pub open spec fn volume_of(
    v: Volume,
    found: Seq<DirectoryEntry>,
    order: Seq<usize>,
    ordered: Seq<DirectoryEntry>,
    files: Seq<(String, Vec<u8>)>,
) -> bool {
    let m = found[order[0] as int].metadata;
    let fb = slice_bytes(files, order, 0);
    let f = first_frame_samples(fb)->Ok_0;
    let a = file_pixel_attributes(fb)->Ok_0;
    &&& v.depth == order.len()
    &&& v.slices@.len() == order.len()
    &&& forall|i: int| 0 <= i < order.len() ==> (#[trigger] v.slices@[i])@ == frame_png(slice_bytes(files, order, i), 0)->Ok_0
    &&& v.spacing_y == m.pixel_spacing->0@[0]
    &&& v.spacing_x == (if m.pixel_spacing->0@.len() >= 2 {
        m.pixel_spacing->0@[1]
    } else {
        m.pixel_spacing->0@[0]
    })
    &&& spacing_of(ordered, v.spacing_z)
    &&& v.width == f.columns && v.height == f.rows
    &&& file_pixel_attributes(fb) is Ok && v.bits_allocated == a.0 && v.samples_per_pixel == a.4
    &&& v.data_type@ == data_type_text(v.bits_allocated)
}

proof fn lemma_dicom_files_parse(files: Seq<(String, Vec<u8>)>)
    ensures
        forall|i: int| 0 <= i < dicom_files(files).len() ==> dicom_parses(#[trigger] dicom_files(files)[i].1@),
    decreases files.len(),
{
    if files.len() > 0 {
        lemma_dicom_files_parse(files.drop_last());
        let p = dicom_files(files.drop_last());
        assert forall|i: int| 0 <= i < dicom_files(files).len() implies dicom_parses(#[trigger] dicom_files(files)[i].1@) by {
            if i < p.len() {
                assert(dicom_files(files)[i] == p[i]);
            }
        }
    }
}

fn geometry_entry(e: &DirectoryEntry) -> (r: DirectoryEntry)
    ensures
        same_geometry(r, *e),
{
    let mut metadata = empty_metadata();
    metadata.image_position = clone_decimals(&e.metadata.image_position);
    metadata.slice_location = e.metadata.slice_location;
    metadata.slice_thickness = e.metadata.slice_thickness;
    DirectoryEntry { path: e.path.clone(), metadata, is_valid: e.is_valid }
}

/// Assembles the DICOM files among `files` into a volume: slices in
/// volume order (see `volume_sorted`), each encoded as PNG; the first slice
/// gives the image parameters and the in-plane spacing, and the slice
/// spacing comes from the positions, else the slice locations, else the
/// slice thickness. The checks come in that order: entries, pixel spacing,
/// slice spacing, the first slice's image, each slice's PNG.
pub fn assemble_volume(handler: &DicomHandler, files: &Vec<(String, Vec<u8>)>) -> (r: Result<
    Volume,
    DicomError,
>)
    ensures
        (r is Err && r->Err_0 is NoEntries) <==> dicom_files(files@).len() == 0,
        exists|found: Seq<DirectoryEntry>, insts: Seq<Instance>, order: Seq<usize>, ordered: Seq<DirectoryEntry>|
            #[trigger] volume_plan(found, insts, order, ordered, files@) && {
                let m = found[order[0] as int].metadata;
                let fb = slice_bytes(files@, order, 0);
                &&& found.len() > 0 ==> ((r is Err && r->Err_0 is MissingPixelSpacing) <==> !has_pixel_spacing(m))
                &&& found.len() > 0 && has_pixel_spacing(m) ==> ((r is Err && r->Err_0 is MissingSliceSpacing)
                    <==> spacing_fails(ordered))
                &&& found.len() > 0 && has_pixel_spacing(m) && !spacing_fails(ordered) && image_reads(fb) && (forall|i: int|
                    0 <= i < order.len() ==> #[trigger] frame_png(slice_bytes(files@, order, i), 0) is Ok) ==> r is Ok
                &&& r is Ok ==> volume_of(r->Ok_0, found, order, ordered, files@)
            },
{
    let ghost all = files@;
    let mut found: Vec<DirectoryEntry> = Vec::new();
    let mut fidx: Vec<usize> = Vec::new();
    let mut k: usize = 0;
    assert(all.take(0) =~= Seq::<(String, Vec<u8>)>::empty());
    while k < files.len()
        invariant
            k <= files.len(),
            all == files@,
            entries_for(found@, all.take(k as int)),
            fidx@.len() == found@.len(),
            forall|i: int| 0 <= i < fidx@.len() ==> #[trigger] fidx@[i] < k && all[fidx@[i] as int] == dicom_files(all.take(k as int))[i],
            k <= all.len(),
        decreases files.len() - k,
    {
        assert(all.take(k + 1).drop_last() =~= all.take(k as int));
        assert(all.take(k + 1).last() == all[k as int]);
        let ghost before = found@;
        let ghost fb = fidx@;
        let bytes = copy_bytes(&files[k].1);
        match handler.load_file(bytes) {
            Ok(file) => {
                found.push(DirectoryEntry { path: files[k].0.clone(), metadata: file.metadata, is_valid: true });
                fidx.push(k);
            },
            Err(DicomError::Open(_)) => {},
            Err(_) => {
                found.push(
                    DirectoryEntry { path: files[k].0.clone(), metadata: empty_metadata(), is_valid: false },
                );
                fidx.push(k);
            },
        }
        assert forall|j: int| 0 <= j < found@.len() implies entry_for(#[trigger] found@[j], dicom_files(all.take(k + 1))[j]) by {
            if j < before.len() {
                assert(found@[j] == before[j]);
            }
        }
        assert forall|i: int| 0 <= i < fidx@.len() implies #[trigger] fidx@[i] < k + 1 && all[fidx@[i] as int] == dicom_files(all.take(k + 1))[i] by {
            if i < fb.len() {
                assert(fidx@[i] == fb[i]);
            }
        }
        k = k + 1;
    }
    assert(all.take(all.len() as int) =~= all);
    proof {
        lemma_dicom_files_parse(all);
    }
    let n = found.len();
    let mut insts: Vec<Instance> = Vec::new();
    let mut i: usize = 0;
    while i < n
        invariant
            i <= n,
            n == found@.len(),
            insts@.len() == i,
            forall|j: int| 0 <= j < i ==> mirrors(#[trigger] insts@[j], found@[j]),
        decreases n - i,
    {
        insts.push(instance_of(&found[i]));
        i = i + 1;
    }
    let keys = volume_keys(&insts);
    let mut positions: Vec<usize> = Vec::new();
    let mut i: usize = 0;
    while i < n
        invariant
            i <= n,
            n == insts@.len(),
            positions@ == index_seq(i as nat),
        decreases n - i,
    {
        positions.push(i);
        i = i + 1;
        assert(positions@ =~= index_seq(i as nat));
    }
    let ghost key = index_order(insts@);
    proof {
        lemma_sort_by(positions@, key);
        assert forall|p: int| 0 <= p < positions@.len() implies keys@[p] == key(#[trigger] positions@[p]) by {}
    }
    let order = sort_by_keys(positions, keys, Ghost(key));
    proof {
        assert forall|p: int| 0 <= p < order@.len() implies #[trigger] order@[p] < n by {
            assert(order@.contains(order@[p]));
            assert(order@.to_multiset().count(order@[p]) > 0);
            assert(index_seq(n as nat).to_multiset().count(order@[p]) > 0);
            assert(index_seq(n as nat).contains(order@[p]));
        }
    }
    let mut ordered: Vec<DirectoryEntry> = Vec::new();
    let mut i: usize = 0;
    while i < n
        invariant
            i <= n,
            n == found@.len(),
            order@.len() == n,
            forall|p: int| 0 <= p < order@.len() ==> #[trigger] order@[p] < n,
            ordered@.len() == i,
            forall|j: int| 0 <= j < i ==> same_geometry(#[trigger] ordered@[j], found@[order@[j] as int]),
        decreases n - i,
    {
        ordered.push(geometry_entry(&found[order[i]]));
        i = i + 1;
    }
    assert(volume_plan(found@, insts@, order@, ordered@, files@));
    if n == 0 {
        return Err(DicomError::NoEntries);
    }
    let first = order[0];
    let ghost gf = found@;
    let ghost gi = insts@;
    let ghost go = order@;
    let ghost gd = ordered@;
    let (spacing_x, spacing_y) = match xy_spacing(&found[first].metadata) {
        Ok(xy) => xy,
        Err(e) => {
            assert(volume_plan(gf, gi, go, gd, files@));
            return Err(e);
        },
    };
    let spacing_z = match slice_spacing(&ordered) {
        Ok(z) => z,
        Err(e) => {
            assert(volume_plan(gf, gi, go, gd, files@));
            return Err(e);
        },
    };
    let ff = fidx[first];
    assert(files@[ff as int].1@ == slice_bytes(files@, go, 0));
    let image = match handler.extract_pixel_data(copy_bytes(&files[ff].1)) {
        Ok(img) => img,
        Err(e) => {
            assert(volume_plan(gf, gi, go, gd, files@));
            return Err(e);
        },
    };
    let mut slices: Vec<Vec<u8>> = Vec::new();
    let mut i: usize = 0;
    while i < n
        invariant
            i <= n,
            n == found@.len(),
            n == dicom_files(files@).len(),
            n > 0,
            found@ == gf,
            order@ == go,
            volume_plan(gf, gi, go, gd, files@),
            has_pixel_spacing(gf[go[0] as int].metadata),
            !spacing_fails(gd),
            order@.len() == n,
            forall|p: int| 0 <= p < order@.len() ==> #[trigger] order@[p] < n,
            fidx@.len() == n,
            forall|j: int| 0 <= j < n ==> #[trigger] fidx@[j] < files@.len() && files@[fidx@[j] as int] == dicom_files(files@)[j],
            forall|j: int| 0 <= j < n ==> dicom_parses(#[trigger] dicom_files(files@)[j].1@),
            slices@.len() == i,
            forall|j: int| 0 <= j < i ==> (#[trigger] slices@[j])@ == frame_png(slice_bytes(files@, order@, j), 0)->Ok_0
                && frame_png(slice_bytes(files@, order@, j), 0) is Ok,
        decreases n - i,
    {
        let f = fidx[order[i]];
        assert(files@[f as int].1@ == slice_bytes(files@, order@, i as int));
        let png = match handler.get_image_bytes(copy_bytes(&files[f].1)) {
            Ok(p) => p,
            Err(e) => {
                assert(!(forall|j: int| 0 <= j < go.len() ==> #[trigger] frame_png(slice_bytes(files@, go, j), 0) is Ok));
                return Err(e);
            },
        };
        slices.push(png);
        i = i + 1;
    }
    let data_type = data_type_of(image.bits_allocated);
    Ok(
        Volume {
            width: image.width,
            height: image.height,
            depth: n,
            spacing_x,
            spacing_y,
            spacing_z,
            bits_allocated: image.bits_allocated,
            data_type,
            samples_per_pixel: image.samples_per_pixel,
            slices,
            metadata: found[first].metadata.clone(),
        },
    )
}

} // verus!
