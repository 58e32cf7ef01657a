//! The DICOMDIR catalog: resolving the file references of its records.
use vstd::prelude::*;
use dicom::object::InMemDicomObject;
use crate::dataset::{ItemView, dataset_sequences, dataset_texts, dicom_parses, element_text, file_content, item_view, read_object,
    sequence_items};
use crate::element::{tag_string, tag_text};
use crate::error::DicomError;
use crate::text::{trim, trim_blanks};

verus! {

/// A catalog's file references separate their components with a backslash.
pub open spec fn host_char(c: char) -> char {
    if c == '\\' {
        '/'
    } else {
        c
    }
}

/// A referenced file ID with its separators written as `/`.
pub open spec fn host_path(id: Seq<char>) -> Seq<char> {
    id.map_values(|c: char| host_char(c))
}

/// The path of a referenced file ID under the catalog's directory.
pub open spec fn resolved_path(parent: Seq<char>, id: Seq<char>) -> Seq<char> {
    if parent.len() > 0 && parent.last() == '/' {
        parent + host_path(id)
    } else {
        parent + seq!['/'] + host_path(id)
    }
}

/// Resolves a referenced file ID such as `DICOM\001\IMG1` against the
/// directory that holds the catalog, translating its separators.
pub fn resolve_referenced_file(parent: &str, file_id: &str) -> (r: String)
    ensures
        r@ == resolved_path(parent@, file_id@),
{
    let mut out = String::from_str(parent);
    let pn = parent.unicode_len();
    if pn == 0 || parent.get_char(pn - 1) != '/' {
        proof {
            reveal_strlit("/");
        }
        out.append("/");
    }
    let ghost base = out@;
    assert(base == if parent@.len() > 0 && parent@.last() == '/' {
        parent@
    } else {
        parent@ + seq!['/']
    });
    let n = file_id.unicode_len();
    let mut start: usize = 0;
    let mut i: usize = 0;
    assert(host_path(file_id@.take(0)) =~= Seq::<char>::empty());
    while i < n
        invariant
            start <= i <= n,
            n == file_id@.len(),
            out@ == base + host_path(file_id@.take(start as int)),
            forall|k: int| start <= k < i ==> file_id@[k] != '\\',
        decreases n - i,
    {
        if file_id.get_char(i) == '\\' {
            let piece = file_id.substring_char(start, i);
            out.append(piece);
            proof {
                reveal_strlit("/");
            }
            out.append("/");
            assert(host_path(file_id@.take(i + 1)) =~= host_path(file_id@.take(start as int)) + piece@ + seq!['/']);
            start = i + 1;
        }
        i = i + 1;
    }
    let piece = file_id.substring_char(start, n);
    out.append(piece);
    assert(file_id@.take(n as int) =~= file_id@);
    assert(host_path(file_id@) =~= host_path(file_id@.take(start as int)) + piece@);
    out
}

/// The SOP class that marks a DICOMDIR catalog.
pub const CATALOG_CLASS_UID: &'static str = "1.2.840.10008.1.3.10";

/// Directory Record Sequence: the records of a catalog, and of a record
/// the records below it.
pub const RECORD_SEQUENCE: (u16, u16) = (0x0004, 0x1220);

/// Directory Record Type: PATIENT, STUDY, SERIES, IMAGE, ...
pub const RECORD_TYPE: (u16, u16) = (0x0004, 0x1430);

/// Referenced File ID: the path of an IMAGE record's file.
pub const REFERENCED_FILE_ID: (u16, u16) = (0x0004, 0x1500);

/// How deep records may nest below the root.
pub const MAX_CATALOG_DEPTH: usize = 16;

pub const IMAGE_RECORD: &'static str = "IMAGE";

/// A record of a catalog and the records below it.
#[derive(Debug)]
pub struct CatalogEntry {
    /// The resolved file path; IMAGE records only.
    pub path: Option<String>,
    pub record_type: String,
    /// Descriptive attributes of the record: tag, then value.
    pub metadata: Vec<(String, String)>,
    pub children: Vec<CatalogEntry>,
}

/// The descriptive attributes that a record keeps, in order.
pub open spec fn record_tag_list() -> Seq<(u16, u16)> {
    seq![
        (0x0010, 0x0010),
        (0x0010, 0x0020),
        (0x0008, 0x0020),
        (0x0008, 0x1030),
        (0x0020, 0x000D),
        (0x0020, 0x0010),
        (0x0008, 0x0060),
        (0x0020, 0x000E),
        (0x0020, 0x0011),
        (0x0008, 0x103E),
        (0x0020, 0x0013),
        (0x0004, 0x1511)
    ]
}

fn record_tags() -> (r: Vec<(u16, u16)>)
    ensures
        r@ == record_tag_list(),
{
    let mut v: Vec<(u16, u16)> = Vec::new();
    v.push((0x0010, 0x0010));  // patient's name
    v.push((0x0010, 0x0020));  // patient ID
    v.push((0x0008, 0x0020));  // study date
    v.push((0x0008, 0x1030));  // study description
    v.push((0x0020, 0x000D));  // study instance UID
    v.push((0x0020, 0x0010));  // study ID
    v.push((0x0008, 0x0060));  // modality
    v.push((0x0020, 0x000E));  // series instance UID
    v.push((0x0020, 0x0011));  // series number
    v.push((0x0008, 0x103E));  // series description
    v.push((0x0020, 0x0013));  // instance number
    v.push((0x0004, 0x1511));  // referenced SOP instance UID in file
    assert(v@ =~= record_tag_list());
    v
}

/// The kept attributes that a record has, in the order of `tags`: the tag
/// written in hexadecimal, then its text.
pub open spec fn record_metadata(texts: Map<(u16, u16), Seq<char>>, tags: Seq<(u16, u16)>) -> Seq<
    (Seq<char>, Seq<char>),
>
    decreases tags.len(),
{
    if tags.len() == 0 {
        Seq::empty()
    } else {
        let prev = record_metadata(texts, tags.drop_last());
        let t = tags.last();
        if texts.contains_key(t) {
            prev.push((tag_text(t.0, t.1), texts[t]))
        } else {
            prev
        }
    }
}

pub open spec fn metadata_views(m: Seq<(String, String)>) -> Seq<(Seq<char>, Seq<char>)> {
    m.map_values(|p: (String, String)| (p.0@, p.1@))
}

/// The type of a record whose texts are `texts`, blanks removed.
pub open spec fn record_type_in(texts: Map<(u16, u16), Seq<char>>) -> Seq<char> {
    if texts.contains_key(RECORD_TYPE) {
        trim(texts[RECORD_TYPE])
    } else {
        Seq::empty()
    }
}

/// `e` is the record `v` converted, with the records below it down to
/// `depth` levels; an IMAGE record's file is resolved under `parent`.
pub open spec fn built(e: CatalogEntry, v: ItemView, parent: Seq<char>, depth: nat) -> bool
    decreases depth,
{
    &&& e.record_type@ == record_type_in(v.texts)
    &&& e.path is Some <==> (record_type_in(v.texts) == IMAGE_RECORD@ && v.texts.contains_key(REFERENCED_FILE_ID))
    &&& e.path is Some ==> e.path->0@ == resolved_path(parent, trim(v.texts[REFERENCED_FILE_ID]))
    &&& metadata_views(e.metadata@) == record_metadata(v.texts, record_tag_list())
    &&& if depth == 0 || !v.sequences.contains_key(RECORD_SEQUENCE) {
        e.children@.len() == 0
    } else {
        &&& e.children@.len() == v.sequences[RECORD_SEQUENCE].len()
        &&& forall|i: int|
            0 <= i < e.children@.len() ==> built(
                #[trigger] e.children@[i],
                v.sequences[RECORD_SEQUENCE][i],
                parent,
                (depth - 1) as nat,
            )
    }
}

/// Whether a media storage SOP class marks a catalog.
pub fn is_catalog_class(uid: &str) -> (r: bool)
    ensures
        r == (uid@ == CATALOG_CLASS_UID@),
{
    String::from_str(uid) == String::from_str(CATALOG_CLASS_UID)
}

/// The file that `b` holds is a catalog.
pub open spec fn catalog_file(b: Seq<u8>) -> bool {
    dicom_parses(b) && file_content(b)->0.media_class == CATALOG_CLASS_UID@
}

/// Whether the bytes read as a DICOMDIR catalog: a DICOM file whose media
/// storage SOP class is the catalog's.
pub fn is_catalog_file(bytes: Vec<u8>) -> (r: bool)
    ensures
        r == catalog_file(bytes@),
{
    match read_object(bytes.as_slice()) {
        Ok(parsed) => is_catalog_class(parsed.media_class.as_str()),
        Err(_) => false,
    }
}

/// Converts one record, and the records below it down to `depth` levels.
/// An IMAGE record's referenced file ID is resolved under `parent`.
pub fn build_record(item: &InMemDicomObject, parent: &str, depth: usize) -> (r: CatalogEntry)
    ensures
        built(r, item_view(*item), parent@, depth as nat),
    decreases depth,
{
    let record_type = match element_text(item, RECORD_TYPE.0, RECORD_TYPE.1) {
        Some(t) => String::from_str(trim_blanks(t.as_str())),
        None => String::new(),
    };
    let tags = record_tags();
    let ghost texts = dataset_texts(*item);
    let mut metadata: Vec<(String, String)> = Vec::new();
    let mut i: usize = 0;
    assert(tags@.take(0) =~= Seq::<(u16, u16)>::empty());
    assert(metadata_views(metadata@) =~= Seq::<(Seq<char>, Seq<char>)>::empty());
    while i < tags.len()
        invariant
            i <= tags.len(),
            texts == dataset_texts(*item),
            metadata_views(metadata@) == record_metadata(texts, tags@.take(i as int)),
        decreases tags.len() - i,
    {
        let (g, e) = tags[i];
        assert(tags@.take(i + 1).drop_last() =~= tags@.take(i as int));
        assert(tags@.take(i + 1).last() == (g, e));
        let ghost before = metadata@;
        match element_text(item, g, e) {
            Some(v) => {
                metadata.push((tag_string(g, e), v));
                assert(metadata_views(metadata@) =~= metadata_views(before).push((tag_text(g, e), texts[(g, e)])));
            },
            None => {},
        }
        i = i + 1;
    }
    assert(tags@.take(tags@.len() as int) =~= tags@);
    let path = if record_type == String::from_str(IMAGE_RECORD) {
        match element_text(item, REFERENCED_FILE_ID.0, REFERENCED_FILE_ID.1) {
            Some(id) => Some(resolve_referenced_file(parent, trim_blanks(id.as_str()))),
            None => None,
        }
    } else {
        None
    };
    let mut children: Vec<CatalogEntry> = Vec::new();
    if depth > 0 {
        match sequence_items(item, RECORD_SEQUENCE.0, RECORD_SEQUENCE.1) {
            Some(items) => {
                let ghost recs = dataset_sequences(*item)[RECORD_SEQUENCE];
                let mut k: usize = 0;
                while k < items.len()
                    invariant
                        k <= items.len(),
                        depth > 0,
                        items@.len() == recs.len(),
                        forall|j: int| 0 <= j < items@.len() ==> item_view(#[trigger] items@[j]) == recs[j],
                        children@.len() == k,
                        forall|j: int|
                            0 <= j < k ==> built(#[trigger] children@[j], recs[j], parent@, (depth - 1) as nat),
                    decreases items.len() - k,
                {
                    let c = build_record(&items[k], parent, depth - 1);
                    children.push(c);
                    assert(children@[k as int] == c);
                    k = k + 1;
                }
            },
            None => {},
        }
    }
    CatalogEntry { path, record_type, metadata, children }
}

/// Reads a DICOMDIR catalog into a tree under a root entry, one child per
/// item of its record sequence; IMAGE records' files are resolved under
/// `parent`, the catalog's directory.
pub fn parse_catalog(bytes: Vec<u8>, parent: &str) -> (r: Result<CatalogEntry, DicomError>)
    ensures
        (r is Err && r->Err_0 is Open) <==> !dicom_parses(bytes@),
        dicom_parses(bytes@) ==> ((r is Err && r->Err_0 is NotCatalog) <==> !catalog_file(bytes@)),
        catalog_file(bytes@) ==> ((r is Err && r->Err_0 is MissingRecordSequence) <==> !file_content(
            bytes@,
        )->0.sequences.contains_key(RECORD_SEQUENCE)),
        r is Err ==> r->Err_0 is Open || r->Err_0 is NotCatalog || r->Err_0 is MissingRecordSequence,
        r is Ok ==> r->Ok_0.path is None,
        r is Ok ==> r->Ok_0.children@.len() == file_content(bytes@)->0.sequences[RECORD_SEQUENCE].len(),
        r is Ok ==> forall|i: int|
            0 <= i < r->Ok_0.children@.len() ==> built(
                #[trigger] r->Ok_0.children@[i],
                file_content(bytes@)->0.sequences[RECORD_SEQUENCE][i],
                parent@,
                MAX_CATALOG_DEPTH as nat,
            ),
{
    let parsed = match read_object(bytes.as_slice()) {
        Ok(o) => o,
        Err(e) => {
            return Err(DicomError::Open(e));
        },
    };
    if !is_catalog_class(parsed.media_class.as_str()) {
        return Err(DicomError::NotCatalog);
    }
    let items = match sequence_items(&parsed.dataset, RECORD_SEQUENCE.0, RECORD_SEQUENCE.1) {
        Some(items) => items,
        None => {
            return Err(DicomError::MissingRecordSequence);
        },
    };
    let ghost recs = file_content(bytes@)->0.sequences[RECORD_SEQUENCE];
    let mut children: Vec<CatalogEntry> = Vec::new();
    let mut k: usize = 0;
    while k < items.len()
        invariant
            k <= items.len(),
            items@.len() == recs.len(),
            forall|j: int| 0 <= j < items@.len() ==> item_view(#[trigger] items@[j]) == recs[j],
            children@.len() == k,
            forall|j: int| 0 <= j < k ==> built(#[trigger] children@[j], recs[j], parent@, MAX_CATALOG_DEPTH as nat),
        decreases items.len() - k,
    {
        let c = build_record(&items[k], parent, MAX_CATALOG_DEPTH);
        children.push(c);
        assert(children@[k as int] == c);
        k = k + 1;
    }
    Ok(CatalogEntry { path: None, record_type: String::from_str("ROOT"), metadata: Vec::new(), children })
}

/// The paths of the IMAGE records of a tree, depth first, down to `depth`
/// levels below `e`.
pub open spec fn image_paths_of(e: CatalogEntry, depth: nat) -> Seq<Seq<char>>
    decreases depth, e.children@.len() + 1,
{
    let own = if e.path is Some && e.record_type@ == IMAGE_RECORD@ {
        seq![e.path->0@]
    } else {
        Seq::empty()
    };
    own + children_paths(e.children@, depth)
}

pub open spec fn children_paths(cs: Seq<CatalogEntry>, depth: nat) -> Seq<Seq<char>>
    decreases depth, cs.len(),
{
    if depth == 0 || cs.len() == 0 {
        Seq::empty()
    } else {
        children_paths(cs.drop_last(), depth) + image_paths_of(cs.last(), (depth - 1) as nat)
    }
}

pub open spec fn path_views(v: Seq<String>) -> Seq<Seq<char>> {
    v.map_values(|s: String| s@)
}

fn collect_images(e: &CatalogEntry, depth: usize, out: &mut Vec<String>)
    ensures
        path_views(final(out)@) == path_views(old(out)@) + image_paths_of(*e, depth as nat),
    decreases depth,
{
    let ghost start = path_views(out@);
    if e.path.is_some() && e.record_type == String::from_str(IMAGE_RECORD) {
        match &e.path {
            Some(p) => out.push(p.clone()),
            None => {},
        }
    }
    let ghost own = path_views(out@);
    assert(own =~= start + (if e.path is Some && e.record_type@ == IMAGE_RECORD@ {
        seq![e.path->0@]
    } else {
        Seq::empty()
    }));
    if depth > 0 {
        let mut k: usize = 0;
        assert(e.children@.take(0) =~= Seq::<CatalogEntry>::empty());
        while k < e.children.len()
            invariant
                k <= e.children@.len(),
                depth > 0,
                path_views(out@) == own + children_paths(e.children@.take(k as int), depth as nat),
            decreases e.children.len() - k,
        {
            collect_images(&e.children[k], depth - 1, out);
            assert(e.children@.take(k + 1).drop_last() =~= e.children@.take(k as int));
            assert(path_views(out@) =~= own + children_paths(e.children@.take(k + 1), depth as nat));
            k = k + 1;
        }
        assert(e.children@.take(e.children@.len() as int) =~= e.children@);
    }
    assert(path_views(out@) =~= start + image_paths_of(*e, depth as nat));
}

/// The files that a catalog's IMAGE records reference, depth first.
pub fn image_paths(root: &CatalogEntry) -> (r: Vec<String>)
    ensures
        path_views(r@) == image_paths_of(*root, (MAX_CATALOG_DEPTH + 1) as nat),
{
    let mut out: Vec<String> = Vec::new();
    collect_images(root, MAX_CATALOG_DEPTH + 1, &mut out);
    assert(path_views(Seq::<String>::empty()) =~= Seq::<Seq<char>>::empty());
    out
}

} // verus!
