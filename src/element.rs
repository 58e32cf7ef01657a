//! Data elements in the uniform form `{tag, alias, vr, value}`, taken from
//! a parsed data set, and lookups among them.
use vstd::prelude::*;
use dicom::object::InMemDicomObject;
use crate::dataset::{ElementHeader, dataset_headers, dataset_texts, standard_alias, element_headers,
    element_text, dictionary_alias, tag_less, tags_ascending};
use crate::decimal::Decimal;
use crate::error::DicomError;

verus! {

/// The alias given to a tag that the standard dictionary does not know.
pub const UNKNOWN_ALIAS: &'static str = "\u{ab}unknown attribute\u{bb}";

/// The value that stands in for the bulk pixel data.
pub const PIXEL_DATA_TEXT: &'static str = "\u{ab}pixel data\u{bb}";

pub const PIXEL_DATA_GROUP: u16 = 0x7FE0;

pub const PIXEL_DATA_ELEMENT: u16 = 0x0010;

/// One upper-case hexadecimal digit.
pub open spec fn hex_char(v: int) -> char {
    if v == 0 {
        '0'
    } else if v == 1 {
        '1'
    } else if v == 2 {
        '2'
    } else if v == 3 {
        '3'
    } else if v == 4 {
        '4'
    } else if v == 5 {
        '5'
    } else if v == 6 {
        '6'
    } else if v == 7 {
        '7'
    } else if v == 8 {
        '8'
    } else if v == 9 {
        '9'
    } else if v == 10 {
        'A'
    } else if v == 11 {
        'B'
    } else if v == 12 {
        'C'
    } else if v == 13 {
        'D'
    } else if v == 14 {
        'E'
    } else {
        'F'
    }
}

/// Four upper-case hexadecimal digits, most significant first.
pub open spec fn hex4(v: u16) -> Seq<char> {
    let n = v as int;
    seq![hex_char(n / 4096), hex_char((n / 256) % 16), hex_char((n / 16) % 16), hex_char(n % 16)]
}

/// A tag written as eight hexadecimal digits: group, then element.
pub open spec fn tag_text(group: u16, element: u16) -> Seq<char> {
    hex4(group) + hex4(element)
}

fn hex_digit(v: u16) -> (r: &'static str)
    requires
        v < 16,
    ensures
        r@ == seq![hex_char(v as int)],
{
    if v == 0 {
        proof {
            reveal_strlit("0");
        }
        "0"
    } else if v == 1 {
        proof {
            reveal_strlit("1");
        }
        "1"
    } else if v == 2 {
        proof {
            reveal_strlit("2");
        }
        "2"
    } else if v == 3 {
        proof {
            reveal_strlit("3");
        }
        "3"
    } else if v == 4 {
        proof {
            reveal_strlit("4");
        }
        "4"
    } else if v == 5 {
        proof {
            reveal_strlit("5");
        }
        "5"
    } else if v == 6 {
        proof {
            reveal_strlit("6");
        }
        "6"
    } else if v == 7 {
        proof {
            reveal_strlit("7");
        }
        "7"
    } else if v == 8 {
        proof {
            reveal_strlit("8");
        }
        "8"
    } else if v == 9 {
        proof {
            reveal_strlit("9");
        }
        "9"
    } else if v == 10 {
        proof {
            reveal_strlit("A");
        }
        "A"
    } else if v == 11 {
        proof {
            reveal_strlit("B");
        }
        "B"
    } else if v == 12 {
        proof {
            reveal_strlit("C");
        }
        "C"
    } else if v == 13 {
        proof {
            reveal_strlit("D");
        }
        "D"
    } else if v == 14 {
        proof {
            reveal_strlit("E");
        }
        "E"
    } else {
        proof {
            reveal_strlit("F");
        }
        "F"
    }
}

/// The value of an upper-case hexadecimal digit.
pub open spec fn hex_value(c: char) -> int {
    if c == '0' {
        0
    } else if c == '1' {
        1
    } else if c == '2' {
        2
    } else if c == '3' {
        3
    } else if c == '4' {
        4
    } else if c == '5' {
        5
    } else if c == '6' {
        6
    } else if c == '7' {
        7
    } else if c == '8' {
        8
    } else if c == '9' {
        9
    } else if c == 'A' {
        10
    } else if c == 'B' {
        11
    } else if c == 'C' {
        12
    } else if c == 'D' {
        13
    } else if c == 'E' {
        14
    } else {
        15
    }
}

pub proof fn lemma_hex4_injective(a: u16, b: u16)
    requires
        hex4(a) == hex4(b),
    ensures
        a == b,
{
    let x = a as int;
    let y = b as int;
    assert(hex4(a)[0] == hex4(b)[0] && hex4(a)[1] == hex4(b)[1]);
    assert(hex4(a)[2] == hex4(b)[2] && hex4(a)[3] == hex4(b)[3]);
    assert(0 <= x / 4096 < 16 && 0 <= y / 4096 < 16);
    assert(hex_value(hex_char(x / 4096)) == x / 4096);
    assert(hex_value(hex_char(y / 4096)) == y / 4096);
    assert(hex_value(hex_char((x / 256) % 16)) == (x / 256) % 16);
    assert(hex_value(hex_char((y / 256) % 16)) == (y / 256) % 16);
    assert(hex_value(hex_char((x / 16) % 16)) == (x / 16) % 16);
    assert(hex_value(hex_char((y / 16) % 16)) == (y / 16) % 16);
    assert(hex_value(hex_char(x % 16)) == x % 16);
    assert(hex_value(hex_char(y % 16)) == y % 16);
    assert(a == (a / 4096) * 4096 + ((a / 256) % 16) * 256 + ((a / 16) % 16) * 16 + a % 16) by (bit_vector);
    assert(b == (b / 4096) * 4096 + ((b / 256) % 16) * 256 + ((b / 16) % 16) * 16 + b % 16) by (bit_vector);
}

/// Distinct tags are written differently.
pub proof fn lemma_tag_text_injective(g1: u16, e1: u16, g2: u16, e2: u16)
    requires
        tag_text(g1, e1) == tag_text(g2, e2),
    ensures
        g1 == g2 && e1 == e2,
{
    assert(tag_text(g1, e1).subrange(0, 4) =~= hex4(g1));
    assert(tag_text(g2, e2).subrange(0, 4) =~= hex4(g2));
    assert(tag_text(g1, e1).subrange(4, 8) =~= hex4(e1));
    assert(tag_text(g2, e2).subrange(4, 8) =~= hex4(e2));
    lemma_hex4_injective(g1, g2);
    lemma_hex4_injective(e1, e2);
}

/// Writes a tag as eight upper-case hexadecimal digits, e.g. `00100010`.
pub fn tag_string(group: u16, element: u16) -> (r: String)
    ensures
        r@ == tag_text(group, element),
{
    let mut s = String::new();
    s.append(hex_digit(group / 4096));
    s.append(hex_digit((group / 256) % 16));
    s.append(hex_digit((group / 16) % 16));
    s.append(hex_digit(group % 16));
    s.append(hex_digit(element / 4096));
    s.append(hex_digit((element / 256) % 16));
    s.append(hex_digit((element / 16) % 16));
    s.append(hex_digit(element % 16));
    assert(s@ =~= tag_text(group, element));
    s
}

/// A data element in uniform form: tag as eight hexadecimal digits, the
/// dictionary alias, the value representation and the value as text.
#[derive(Clone, Debug)]
pub struct DicomElement {
    pub tag: String,
    pub alias: &'static str,
    pub vr: String,
    pub value: String,
}

/// The uniform element under its short name.
pub type El = DicomElement;

/// A typed DICOM value.
#[derive(Clone, Debug)]
pub enum DicomValueType {
    Str(String),
    Int(i32),
    Float(Decimal),
    IntList(Vec<i32>),
    FloatList(Vec<Decimal>),
    StrList(Vec<String>),
    Unknown,
}

pub open spec fn is_pixel_data(h: ElementHeader) -> bool {
    h.group == PIXEL_DATA_GROUP && h.element == PIXEL_DATA_ELEMENT
}

/// Whether the element of header `h` has a text form: the pixel data
/// always has its placeholder, any other element needs a rendering.
pub open spec fn renders(texts: Map<(u16, u16), Seq<char>>, h: ElementHeader) -> bool {
    is_pixel_data(h) || texts.contains_key((h.group, h.element))
}

pub open spec fn alias_text(group: u16, element: u16) -> Seq<char> {
    match standard_alias(group, element) {
        Some(a) => a,
        None => UNKNOWN_ALIAS@,
    }
}

pub open spec fn value_text(texts: Map<(u16, u16), Seq<char>>, h: ElementHeader) -> Seq<char> {
    if is_pixel_data(h) {
        PIXEL_DATA_TEXT@
    } else {
        texts[(h.group, h.element)]
    }
}

/// `e` is the uniform form of the element of header `h` in `obj`.
pub open spec fn element_of(e: DicomElement, texts: Map<(u16, u16), Seq<char>>, h: ElementHeader) -> bool {
    &&& e.tag@ == tag_text(h.group, h.element)
    &&& e.alias@ == alias_text(h.group, h.element)
    &&& e.vr@ == h.vr@
    &&& e.value@ == value_text(texts, h)
}

/// The headers of primitive elements among `hs`, in order.
pub open spec fn primitive_headers(hs: Seq<ElementHeader>) -> Seq<ElementHeader>
    decreases hs.len(),
{
    if hs.len() == 0 {
        Seq::empty()
    } else {
        let p = primitive_headers(hs.drop_last());
        if hs.last().primitive {
            p.push(hs.last())
        } else {
            p
        }
    }
}

/// Converts the element of header `h` into uniform form; the pixel data's
/// value is replaced by a placeholder instead of being rendered.
pub fn to_element(obj: &InMemDicomObject, h: &ElementHeader) -> (r: Result<
    DicomElement,
    DicomError,
>)
    ensures
        r is Ok <==> renders(dataset_texts(*obj), *h),
        r is Ok ==> element_of(r->Ok_0, dataset_texts(*obj), *h),
        r is Err ==> r->Err_0 == (DicomError::Unrenderable { group: h.group, element: h.element }),
{
    let tag = tag_string(h.group, h.element);
    let alias = match dictionary_alias(h.group, h.element) {
        Some(a) => a,
        None => UNKNOWN_ALIAS,
    };
    let value = if h.group == PIXEL_DATA_GROUP && h.element == PIXEL_DATA_ELEMENT {
        String::from_str(PIXEL_DATA_TEXT)
    } else {
        match element_text(obj, h.group, h.element) {
            Some(v) => v,
            None => {
                return Err(DicomError::Unrenderable { group: h.group, element: h.element });
            },
        }
    };
    Ok(DicomElement { tag, alias, vr: h.vr.clone(), value })
}

/// Every primitive element of `obj` renders.
pub open spec fn all_render(texts: Map<(u16, u16), Seq<char>>, hs: Seq<ElementHeader>) -> bool {
    forall|i: int| 0 <= i < hs.len() ==> renders(texts, #[trigger] hs[i])
}

/// `els` is the uniform form of the elements of headers `hs`, one for one.
pub open spec fn elements_of(els: Seq<DicomElement>, texts: Map<(u16, u16), Seq<char>>, hs: Seq<ElementHeader>) -> bool {
    els.len() == hs.len() && forall|i: int| 0 <= i < hs.len() ==> element_of(#[trigger] els[i], texts, hs[i])
}

/// Converts every primitive element of the data set, in tag order; nested
/// sequences are skipped. Fails on the first element whose value has no
/// text form.
pub fn extract_elements(obj: &InMemDicomObject) -> (r: Result<Vec<DicomElement>, DicomError>)
    ensures
        ({
            let ph = primitive_headers(dataset_headers(*obj));
            &&& r is Ok <==> all_render(dataset_texts(*obj), ph)
            &&& r is Ok ==> elements_of(r->Ok_0@, dataset_texts(*obj), ph)
            &&& r is Ok ==> forall|i: int, j: int|
                0 <= i < j < r->Ok_0@.len() ==> (#[trigger] r->Ok_0@[i]).tag@ != (#[trigger] r->Ok_0@[j]).tag@
            &&& r is Err ==> exists|i: int|
                #![trigger ph[i]]
                0 <= i < ph.len() && !renders(dataset_texts(*obj), ph[i]) && all_render(dataset_texts(*obj), ph.take(i))
                    && r->Err_0 == (DicomError::Unrenderable { group: ph[i].group, element: ph[i].element })
        }),
{
    let hs = element_headers(obj);
    let ghost all = hs@;
    let mut out: Vec<DicomElement> = Vec::new();
    let mut i: usize = 0;
    assert(all.take(0) =~= Seq::<ElementHeader>::empty());
    while i < hs.len()
        invariant
            i <= hs.len(),
            all == hs@,
            all == dataset_headers(*obj),
            elements_of(out@, dataset_texts(*obj), primitive_headers(all.take(i as int))),
            all_render(dataset_texts(*obj), primitive_headers(all.take(i as int))),
        decreases hs.len() - i,
    {
        let ghost before = primitive_headers(all.take(i as int));
        assert(all.take(i + 1).drop_last() =~= all.take(i as int));
        if hs[i].primitive {
            match to_element(obj, &hs[i]) {
                Ok(e) => {
                    out.push(e);
                },
                Err(err) => {
                    proof {
                        let ph = primitive_headers(all);
                        lemma_primitive_prefix(all, i as int + 1);
                        let k = before.len() as int;
                        assert(primitive_headers(all.take(i + 1)) == before.push(all[i as int]));
                        let q = primitive_headers(all.take(i + 1));
                        assert(q.len() == k + 1);
                        assert(q[k] == all[i as int]);
                        assert(q =~= ph.take(k + 1));
                        assert(ph.take(k + 1)[k] == ph[k]);
                        assert(ph[k] == all[i as int]);
                        assert(ph.take(k) =~= before);
                    }
                    return Err(err);
                },
            }
        }
        i = i + 1;
    }
    assert(all.take(hs.len() as int) =~= all);
    proof {
        let ph = primitive_headers(all);
        lemma_primitive_ascending(all);
        assert forall|i: int, j: int| 0 <= i < j < out@.len() implies (#[trigger] out@[i]).tag@ != (#[trigger] out@[j]).tag@ by {
            assert(element_of(out@[i], dataset_texts(*obj), ph[i]));
            assert(element_of(out@[j], dataset_texts(*obj), ph[j]));
            assert(tag_less(ph[i], ph[j]));
            if out@[i].tag@ == out@[j].tag@ {
                lemma_tag_text_injective(ph[i].group, ph[i].element, ph[j].group, ph[j].element);
            }
        }
    }
    Ok(out)
}

/// The primitive headers of ascending headers are ascending, and each is
/// one of the headers.
pub proof fn lemma_primitive_ascending(hs: Seq<ElementHeader>)
    requires
        tags_ascending(hs),
    ensures
        tags_ascending(primitive_headers(hs)),
        forall|i: int|
            0 <= i < primitive_headers(hs).len() ==> exists|j: int|
                0 <= j < hs.len() && #[trigger] primitive_headers(hs)[i] == hs[j],
    decreases hs.len(),
{
    if hs.len() > 0 {
        let t = hs.drop_last();
        assert(tags_ascending(t)) by {
            assert forall|i: int, j: int| 0 <= i < j < t.len() implies tag_less(#[trigger] t[i], #[trigger] t[j]) by {
                assert(t[i] == hs[i] && t[j] == hs[j]);
            }
        }
        lemma_primitive_ascending(t);
        let p = primitive_headers(t);
        if hs.last().primitive {
            let q = p.push(hs.last());
            assert forall|i: int| 0 <= i < p.len() implies tag_less(#[trigger] p[i], hs.last()) by {
                let j = choose|j: int| 0 <= j < t.len() && p[i] == t[j];
                assert(t[j] == hs[j]);
                assert(tag_less(hs[j], hs[hs.len() - 1]));
            }
            assert forall|i: int, j: int| 0 <= i < j < q.len() implies tag_less(#[trigger] q[i], #[trigger] q[j]) by {
                if j < p.len() {
                    assert(q[i] == p[i] && q[j] == p[j]);
                } else {
                    assert(q[i] == p[i]);
                }
            }
            assert forall|i: int| 0 <= i < q.len() implies exists|j: int|
                0 <= j < hs.len() && #[trigger] q[i] == hs[j] by {
                if i < p.len() {
                    let j = choose|j: int| 0 <= j < t.len() && p[i] == t[j];
                    assert(t[j] == hs[j]);
                } else {
                    assert(q[i] == hs[hs.len() - 1]);
                }
            }
        } else {
            assert forall|i: int| 0 <= i < p.len() implies exists|j: int|
                0 <= j < hs.len() && #[trigger] p[i] == hs[j] by {
                let j = choose|j: int| 0 <= j < t.len() && p[i] == t[j];
                assert(t[j] == hs[j]);
            }
        }
    }
}

/// The primitive headers of a prefix are a prefix of the primitive headers.
pub proof fn lemma_primitive_prefix(hs: Seq<ElementHeader>, k: int)
    requires
        0 <= k <= hs.len(),
    ensures
        primitive_headers(hs.take(k)) =~= primitive_headers(hs).take(
            primitive_headers(hs.take(k)).len() as int,
        ),
        primitive_headers(hs.take(k)).len() <= primitive_headers(hs).len(),
    decreases hs.len(),
{
    if k < hs.len() {
        assert(hs.drop_last().take(k) =~= hs.take(k));
        lemma_primitive_prefix(hs.drop_last(), k);
    } else {
        assert(hs.take(k) =~= hs);
    }
}

/// The value of the first element of `els` with tag text `t`.
pub open spec fn value_for(els: Seq<DicomElement>, t: Seq<char>) -> Option<Seq<char>>
    decreases els.len(),
{
    if els.len() == 0 {
        None
    } else if els[0].tag@ == t {
        Some(els[0].value@)
    } else {
        value_for(els.drop_first(), t)
    }
}

/// Looks up the value of the element with the given tag.
pub fn get_element_value(elements: &Vec<DicomElement>, group: u16, element: u16) -> (r: Option<String>)
    ensures
        r is Some <==> value_for(elements@, tag_text(group, element)) is Some,
        r is Some ==> r->0@ == value_for(elements@, tag_text(group, element))->0,
{
    let t = tag_string(group, element);
    let mut i: usize = 0;
    assert(elements@.skip(0) =~= elements@);
    while i < elements.len()
        invariant
            i <= elements.len(),
            t@ == tag_text(group, element),
            value_for(elements@, t@) == value_for(elements@.skip(i as int), t@),
        decreases elements.len() - i,
    {
        assert(elements@.skip(i as int).drop_first() =~= elements@.skip(i + 1));
        if elements[i].tag == t {
            return Some(elements[i].value.clone());
        }
        i = i + 1;
    }
    None
}

/// The first element of `els` whose alias is `name`.
pub open spec fn element_named(els: Seq<DicomElement>, name: Seq<char>) -> Option<DicomElement>
    decreases els.len(),
{
    if els.len() == 0 {
        None
    } else if els[0].alias@ == name {
        Some(els[0])
    } else {
        element_named(els.drop_first(), name)
    }
}

/// Looks up an element by its dictionary alias, such as `PatientName`.
pub fn get_element_by_name(elements: &Vec<DicomElement>, name: &str) -> (r: Option<DicomElement>)
    ensures
        r is Some <==> element_named(elements@, name@) is Some,
        r is Some ==> ({
            let e = element_named(elements@, name@)->0;
            &&& r->0.tag@ == e.tag@
            &&& r->0.alias@ == e.alias@
            &&& r->0.vr@ == e.vr@
            &&& r->0.value@ == e.value@
        }),
{
    let mut i: usize = 0;
    let target = String::from_str(name);
    assert(elements@.skip(0) =~= elements@);
    while i < elements.len()
        invariant
            i <= elements.len(),
            target@ == name@,
            element_named(elements@, name@) == element_named(elements@.skip(i as int), name@),
        decreases elements.len() - i,
    {
        assert(elements@.skip(i as int).drop_first() =~= elements@.skip(i + 1));
        if String::from_str(elements[i].alias) == target {
            let e = &elements[i];
            return Some(
                DicomElement {
                    tag: e.tag.clone(),
                    alias: e.alias,
                    vr: e.vr.clone(),
                    value: e.value.clone(),
                },
            );
        }
        i = i + 1;
    }
    None
}

} // verus!
