//! Vertices of PLY files.
//!
//! Header and elements are parsed by ply-rs. The header is read once; after it come as many payload
//! elements as it declares vertices, of which x, y and z are kept, wherever the header puts them.

use ply_rs::parser::Parser;
use ply_rs::ply::{
    Addable, DefaultElement, ElementDef, Encoding, Property, PropertyDef, PropertyType, ScalarType,
};
use vstd::prelude::*;

verus! {

/// The element definition of ply-rs: an ordered map of named and typed properties, and how many such
/// elements the payload holds.
#[verifier::external_type_specification]
#[verifier::external_body]
pub struct ExElementDef(ply_rs::ply::ElementDef);

/// The error of std's readers.
#[verifier::external_type_specification]
#[verifier::external_body]
pub struct ExIoError(std::io::Error);

/// How the payload is encoded.
#[derive(Clone, Copy, Debug, PartialEq, Eq, Structural)]
pub enum PlyEncoding {
    Ascii,
    BinaryBigEndian,
    BinaryLittleEndian,
}

/// The value of a property, by its bit pattern.
#[derive(Clone, Copy, Debug, PartialEq, Eq, Structural)]
pub enum PlyNumber {
    /// A number of single precision.
    Single(u32),
    /// A number of double precision.
    Double(u64),
    /// An integer or a list.
    Other,
}

/// The place of a vertex.
#[derive(Clone, Copy, Debug, PartialEq, Eq, Structural)]
pub struct PlyVertex {
    pub x: PlyNumber,
    pub y: PlyNumber,
    pub z: PlyNumber,
}

/// Why vertices could not be read.
#[derive(Clone, Copy, Debug, PartialEq, Eq, Structural)]
pub enum PlyError {
    /// The header is malformed.
    Header,
    /// The header declares no vertex element.
    NoVertexElement,
    /// The payload ends before all vertices were read.
    UnexpectedEnd,
    /// A payload element is malformed.
    Payload,
}

/// What is read of a header: the encoding, the element that was asked for with its count, and where
/// the payload starts.
pub struct PlyHeader {
    pub encoding: PlyEncoding,
    pub element: Option<(usize, ElementDef)>,
    pub payload: usize,
}

/// The properties of an element definition in order: the name, the type of the length if it is a
/// list, and the type of the value or values. Types are numbered as ply-rs declares them: char,
/// uchar, short, ushort, int, uint, float and double are 0 to 7.
pub uninterp spec fn element_properties(def: ElementDef) -> Seq<(Seq<char>, Option<u8>, u8)>;

/// What ply-rs reads of the header that `bytes` starts with: the encoding, count and properties of
/// the element of the given name, and where the payload starts. Nothing if the header is malformed.
pub uninterp spec fn ply_header(bytes: Seq<u8>, element: Seq<char>) -> Option<
    (PlyEncoding, Option<(usize, Seq<(Seq<char>, Option<u8>, u8)>)>, usize),
>;

/// What ply-rs makes of a payload line of an element with the given properties, each value under its
/// name. Nothing if it cannot parse the line.
pub uninterp spec fn ply_ascii_element(
    line: Seq<char>,
    properties: Seq<(Seq<char>, Option<u8>, u8)>,
) -> Option<Seq<(Seq<char>, PlyNumber)>>;

/// What ply-rs makes of the little endian element that `bytes` starts with, and how many bytes it
/// takes. If it cannot be read, whether that is because the bytes end too early.
pub uninterp spec fn ply_little_endian_element(
    bytes: Seq<u8>,
    properties: Seq<(Seq<char>, Option<u8>, u8)>,
) -> Result<(Seq<(Seq<char>, PlyNumber)>, usize), bool>;

/// What ply-rs makes of the big endian element that `bytes` starts with, and how many bytes it takes.
/// If it cannot be read, whether that is because the bytes end too early.
pub uninterp spec fn ply_big_endian_element(
    bytes: Seq<u8>,
    properties: Seq<(Seq<char>, Option<u8>, u8)>,
) -> Result<(Seq<(Seq<char>, PlyNumber)>, usize), bool>;

/// The names as sequences of characters.
pub open spec fn named(values: Seq<(String, PlyNumber)>) -> Seq<(Seq<char>, PlyNumber)> {
    Seq::new(values.len(), |i: int| (values[i].0@, values[i].1))
}

/// The names of properties as sequences of characters.
pub open spec fn described(properties: Seq<(String, Option<u8>, u8)>) -> Seq<
    (Seq<char>, Option<u8>, u8),
> {
    Seq::new(properties.len(), |i: int| (properties[i].0@, properties[i].1, properties[i].2))
}

/// What was read of a header, with the properties of the element in place of its definition.
pub open spec fn header_model(h: &PlyHeader) -> (
    PlyEncoding,
    Option<(usize, Seq<(Seq<char>, Option<u8>, u8)>)>,
    usize,
) {
    (
        h.encoding,
        match h.element {
            Some((count, def)) => Some((count, element_properties(def))),
            None => None,
        },
        h.payload,
    )
}

/// Reads the header that `bytes` starts with, with ply-rs' `Parser::read_header`, and looks up one of
/// its elements. The result is what `ply_header` names; the payload starts within `bytes`. The parser
/// panics on a number beyond 64 bits, which `header_numbers_fit` leaves out.
#[verifier::external_body]
fn read_header(bytes: &[u8], element: &str) -> (r: Result<PlyHeader, std::io::Error>)
    requires
        header_numbers_fit(bytes@, 0),
    ensures
        r is Ok == ply_header(bytes@, element@) is Some,
        r matches Ok(h) ==> ply_header(bytes@, element@) == Some(header_model(&h)) && h.payload
            <= bytes@.len(),
{
    let mut cursor = std::io::Cursor::new(bytes);
    let header = Parser::<DefaultElement>::new().read_header(&mut cursor)?;
    let encoding = match header.encoding {
        Encoding::Ascii => PlyEncoding::Ascii,
        Encoding::BinaryBigEndian => PlyEncoding::BinaryBigEndian,
        Encoding::BinaryLittleEndian => PlyEncoding::BinaryLittleEndian,
    };
    let element = header.elements.get(element).map(|e| (e.count, e.clone()));
    Ok(PlyHeader { encoding, element, payload: cursor.position() as usize })
}

/// The properties of a definition in order, from the ordered map `ElementDef::properties` of ply-rs. It
/// holds one property under each name.
#[verifier::external_body]
fn property_list(def: &ElementDef) -> (r: Vec<(String, Option<u8>, u8)>)
    ensures
        described(r@) == element_properties(*def),
        forall|i: int, j: int| 0 <= i < j < r@.len() ==> (#[trigger] r@[i]).0@ != (#[trigger] r@[j]).0@,
{
    def.properties.iter().map(|(k, p)| match &p.data_type {
        PropertyType::Scalar(t) => (k.clone(), None, t.clone() as u8),
        PropertyType::List(n, t) => (k.clone(), Some(n.clone() as u8), t.clone() as u8),
    }).collect()
}

/// A definition without properties, with ply-rs' `ElementDef::new`.
#[verifier::external_body]
fn new_element(name: &str) -> (r: ElementDef)
    ensures
        element_properties(r) == Seq::<(Seq<char>, Option<u8>, u8)>::empty(),
{
    ElementDef::new(name.to_string())
}

/// Appends a property of a new name to a definition, with ply-rs' `Addable::add`: a number of single
/// precision.
#[verifier::external_body]
fn add_float(def: &mut ElementDef, name: &str)
    requires
        forall|i: int|
            0 <= i < element_properties(*old(def)).len() ==> (#[trigger] element_properties(
                *old(def),
            )[i]).0 != name@,
    ensures
        element_properties(*final(def)) == element_properties(*old(def)).push(
            (name@, None::<u8>, 6u8),
        ),
{
    let kind = PropertyType::Scalar(ScalarType::Float);
    def.properties.add(PropertyDef::new(name.to_string(), kind));
}

/// Appends a property of a new name to a definition, with ply-rs' `Addable::add`: a list of numbers of
/// single precision, with a length of type uchar.
#[verifier::external_body]
fn add_float_list(def: &mut ElementDef, name: &str)
    requires
        forall|i: int|
            0 <= i < element_properties(*old(def)).len() ==> (#[trigger] element_properties(
                *old(def),
            )[i]).0 != name@,
    ensures
        element_properties(*final(def)) == element_properties(*old(def)).push(
            (name@, Some(1u8), 6u8),
        ),
{
    let kind = PropertyType::List(ScalarType::UChar, ScalarType::Float);
    def.properties.add(PropertyDef::new(name.to_string(), kind));
}

/// Parses a payload line with ply-rs' `Parser::read_ascii_element`. The result is what
/// `ply_ascii_element` names.
#[verifier::external_body]
fn read_ascii_element(line: &str, def: &ElementDef) -> (r: Result<
    Vec<(String, PlyNumber)>,
    std::io::Error,
>)
    ensures
        r is Ok == ply_ascii_element(line@, element_properties(*def)) is Some,
        r matches Ok(v) ==> ply_ascii_element(line@, element_properties(*def)) == Some(named(v@)),
{
    let e: DefaultElement = Parser::new().read_ascii_element(line, def)?;
    Ok(e.into_iter().map(|(k, p)| match p {
        Property::Float(v) => (k, PlyNumber::Single(v.to_bits())),
        Property::Double(v) => (k, PlyNumber::Double(v.to_bits())),
        _ => (k, PlyNumber::Other),
    }).collect())
}

/// Reads the element that `bytes` starts with, with ply-rs' `Parser::read_little_endian_element`. The
/// result and the number of bytes that were taken are what `ply_little_endian_element` names; no more
/// are taken than there are. An error says whether its kind is the one of an unexpected end.
#[verifier::external_body]
fn read_little_endian_element(bytes: &[u8], def: &ElementDef) -> (r: Result<
    (Vec<(String, PlyNumber)>, usize),
    bool,
>)
    ensures
        ply_little_endian_element(bytes@, element_properties(*def)) == (match r {
            Ok(v) => Ok((named(v.0@), v.1)),
            Err(ended) => Err(ended),
        }),
        r matches Ok(v) ==> v.1 <= bytes@.len(),
{
    let mut cursor = std::io::Cursor::new(bytes);
    let e: DefaultElement = Parser::new().read_little_endian_element(&mut cursor, def).map_err(
        |e| e.kind() == std::io::ErrorKind::UnexpectedEof,
    )?;
    let values = e.into_iter().map(|(k, p)| match p {
        Property::Float(v) => (k, PlyNumber::Single(v.to_bits())),
        Property::Double(v) => (k, PlyNumber::Double(v.to_bits())),
        _ => (k, PlyNumber::Other),
    }).collect();
    Ok((values, cursor.position() as usize))
}

/// Reads the element that `bytes` starts with, with ply-rs' `Parser::read_big_endian_element`. The
/// result and the number of bytes that were taken are what `ply_big_endian_element` names; no more
/// are taken than there are. An error says whether its kind is the one of an unexpected end.
#[verifier::external_body]
fn read_big_endian_element(bytes: &[u8], def: &ElementDef) -> (r: Result<
    (Vec<(String, PlyNumber)>, usize),
    bool,
>)
    ensures
        ply_big_endian_element(bytes@, element_properties(*def)) == (match r {
            Ok(v) => Ok((named(v.0@), v.1)),
            Err(ended) => Err(ended),
        }),
        r matches Ok(v) ==> v.1 <= bytes@.len(),
{
    let mut cursor = std::io::Cursor::new(bytes);
    let e: DefaultElement = Parser::new().read_big_endian_element(&mut cursor, def).map_err(
        |e| e.kind() == std::io::ErrorKind::UnexpectedEof,
    )?;
    let values = e.into_iter().map(|(k, p)| match p {
        Property::Float(v) => (k, PlyNumber::Single(v.to_bits())),
        Property::Double(v) => (k, PlyNumber::Double(v.to_bits())),
        _ => (k, PlyNumber::Other),
    }).collect();
    Ok((values, cursor.position() as usize))
}

/// The text that `bytes` encode, with std's `str::from_utf8`: there is one exactly if they are valid
/// UTF-8, and then it is their decoding.
#[verifier::external_body]
fn utf8_text(bytes: &[u8]) -> (r: Option<&str>)
    ensures
        r is Some == vstd::utf8::valid_utf8(bytes@),
        r matches Some(s) ==> s@ == vstd::utf8::decode_utf8(bytes@),
{
    std::str::from_utf8(bytes).ok()
}

/// Classes of bytes that a header line is made of.
#[derive(Clone, Copy, Debug, PartialEq, Eq, Structural)]
pub enum ByteClass {
    /// A space or a tab.
    Space,
    /// A decimal digit.
    Digit,
    /// A byte that a name may start with.
    Name,
    /// A byte that a name may go on with.
    NameTail,
}

/// `c` is of the class.
pub open spec fn is_in(class: ByteClass, c: u8) -> bool {
    let digit = 48 <= c <= 57;
    let letter = 65 <= c <= 90 || 97 <= c <= 122 || c == 95;
    match class {
        ByteClass::Space => c == 32 || c == 9,
        ByteClass::Digit => digit,
        ByteClass::Name => letter,
        ByteClass::NameTail => letter || digit || c == 45,
    }
}

/// Where the run of bytes of the class that starts at `at` ends.
pub open spec fn run_end(b: Seq<u8>, at: int, class: ByteClass) -> int
    decreases b.len() - at,
{
    if 0 <= at < b.len() && is_in(class, b[at]) {
        run_end(b, at + 1, class)
    } else {
        at
    }
}

/// The number that the decimal digits from `at` to `end` write.
pub open spec fn decimal(b: Seq<u8>, at: int, end: int) -> int
    decreases end - at,
{
    if end <= at {
        0
    } else {
        10 * decimal(b, at, end - 1) + (b[end - 1] - 48)
    }
}

/// The run of digits at `at` writes a number of at most 64 bits.
pub open spec fn number_fits(b: Seq<u8>, at: int) -> bool {
    decimal(b, at, run_end(b, at, ByteClass::Digit)) <= u64::MAX
}

/// The bytes at `at` are those of `word`.
pub open spec fn has_word(b: Seq<u8>, at: int, word: Seq<char>) -> bool {
    &&& at + word.len() <= b.len()
    &&& forall|i: int| 0 <= i < word.len() ==> b[at + i] as u32 == #[trigger] word[i] as u32
}

/// Where the line that starts at `at` ends: behind its line feed, or with the bytes.
pub open spec fn line_end(b: Seq<u8>, at: int) -> int
    decreases b.len() - at,
{
    if at < 0 || at >= b.len() {
        b.len() as int
    } else if b[at] == 10 {
        at + 1
    } else {
        line_end(b, at + 1)
    }
}

/// The count of an `element` line whose word ends at `at` fits.
pub open spec fn element_count_fits(b: Seq<u8>, at: int) -> bool {
    let name = run_end(b, at, ByteClass::Space);
    at < name < b.len() && is_in(ByteClass::Name, b[name]) ==> {
        let tail = run_end(b, name, ByteClass::NameTail);
        let count = run_end(b, tail, ByteClass::Space);
        tail < count ==> number_fits(b, count)
    }
}

/// The version of a `format` line whose word ends at `at` fits, if the encoding of the given name
/// stands there.
pub open spec fn version_fits(b: Seq<u8>, at: int, encoding: Seq<char>) -> bool {
    let word = run_end(b, at, ByteClass::Space);
    at < word && has_word(b, word, encoding) ==> {
        let end = word + encoding.len();
        let major = run_end(b, end, ByteClass::Space);
        let dot = run_end(b, major, ByteClass::Digit);
        end < major ==> number_fits(b, major) && (major < dot < b.len() && b[dot] == 46
            ==> number_fits(b, dot + 1))
    }
}

/// The numbers of the header line that starts at `at` fit.
pub open spec fn line_numbers_fit(b: Seq<u8>, at: int) -> bool {
    &&& has_word(b, at, "element"@) ==> element_count_fits(b, at + 7)
    &&& has_word(b, at, "format"@) ==> {
        &&& version_fits(b, at + 6, "ascii"@)
        &&& version_fits(b, at + 6, "binary_big_endian"@)
        &&& version_fits(b, at + 6, "binary_little_endian"@)
    }
}

/// The numbers of all header lines from `at` on fit.
pub open spec fn header_numbers_fit(b: Seq<u8>, at: int) -> bool
    decreases b.len() - at,
{
    if at < 0 || at >= b.len() || has_word(b, at, "end_header"@) {
        true
    } else {
        proof {
            lemma_line_end(b, at);
        }
        line_numbers_fit(b, at) && header_numbers_fit(b, line_end(b, at))
    }
}

pub proof fn lemma_line_end(b: Seq<u8>, at: int)
    requires
        0 <= at <= b.len(),
    ensures
        at <= line_end(b, at) <= b.len(),
        at < b.len() ==> at < line_end(b, at),
    decreases b.len() - at,
{
    if at < b.len() && b[at] != 10 {
        lemma_line_end(b, at + 1);
    }
}

fn in_class(class: ByteClass, c: u8) -> (r: bool)
    ensures
        r == is_in(class, c),
{
    let digit: bool = 48 <= c && c <= 57;
    let letter: bool = (65 <= c && c <= 90) || (97 <= c && c <= 122) || c == 95;
    match class {
        ByteClass::Space => c == 32 || c == 9,
        ByteClass::Digit => digit,
        ByteClass::Name => letter,
        ByteClass::NameTail => letter || digit || c == 45,
    }
}

fn skip_run(b: &Vec<u8>, at: usize, class: ByteClass) -> (r: usize)
    requires
        at <= b@.len(),
    ensures
        r == run_end(b@, at as int, class),
        at <= r <= b@.len(),
{
    let mut i: usize = at;
    while i < b.len() && in_class(class, b[i])
        invariant
            at <= i <= b@.len(),
            run_end(b@, i as int, class) == run_end(b@, at as int, class),
        decreases b@.len() - i,
    {
        i = i + 1;
    }
    i
}

/// Whether the run of digits at `at` writes a number of at most 64 bits.
fn digits_fit(b: &Vec<u8>, at: usize) -> (r: bool)
    requires
        at <= b@.len(),
    ensures
        r == number_fits(b@, at as int),
{
    let end: usize = skip_run(b, at, ByteClass::Digit);
    proof {
        lemma_run_is_in(b@, at as int, ByteClass::Digit);
    }
    let mut value: u64 = 0;
    let mut i: usize = at;
    while i < end
        invariant
            at <= i <= end <= b@.len(),
            end == run_end(b@, at as int, ByteClass::Digit),
            forall|j: int| at <= j < end ==> is_in(ByteClass::Digit, #[trigger] b@[j]),
            value == decimal(b@, at as int, i as int),
        decreases end - i,
    {
        let d: u64 = (b[i] - 48) as u64;
        proof {
            lemma_decimal_grows(b@, at as int, i + 1, end as int);
        }
        if value > (u64::MAX - d) / 10 {
            return false;
        }
        value = 10 * value + d;
        i = i + 1;
    }
    true
}

proof fn lemma_run_is_in(b: Seq<u8>, at: int, class: ByteClass)
    requires
        0 <= at <= b.len(),
    ensures
        forall|j: int| at <= j < run_end(b, at, class) ==> is_in(class, #[trigger] b[j]),
        at <= run_end(b, at, class) <= b.len(),
    decreases b.len() - at,
{
    if at < b.len() && is_in(class, b[at]) {
        lemma_run_is_in(b, at + 1, class);
    }
}

proof fn lemma_decimal_grows(b: Seq<u8>, at: int, i: int, end: int)
    requires
        0 <= at <= i <= end <= b.len(),
        forall|j: int| at <= j < end ==> is_in(ByteClass::Digit, #[trigger] b[j]),
    ensures
        0 <= decimal(b, at, i) <= decimal(b, at, end),
    decreases end - at,
{
    if i < end {
        lemma_decimal_grows(b, at, i, end - 1);
        assert(is_in(ByteClass::Digit, b[end - 1]));
    } else if at < end {
        lemma_decimal_grows(b, at, i - 1, end - 1);
        assert(is_in(ByteClass::Digit, b[end - 1]));
    }
}

fn starts_with(b: &Vec<u8>, at: usize, word: &str) -> (r: bool)
    requires
        at <= b@.len(),
    ensures
        r == has_word(b@, at as int, word@),
{
    let n: usize = word.unicode_len();
    let len: usize = b.len();
    if len - at < n {
        return false;
    }
    let mut i: usize = 0;
    while i < n
        invariant
            i <= n,
            n == word@.len(),
            len == b@.len(),
            at + n <= len,
            forall|j: int| 0 <= j < i ==> b@[at + j] as u32 == #[trigger] word@[j] as u32,
        decreases n - i,
    {
        let c: char = word.get_char(i);
        if b[at + i] as u32 != c as u32 {
            assert(b@[at + i] as u32 != word@[i as int] as u32);
            return false;
        }
        i = i + 1;
    }
    true
}

fn next_line(b: &Vec<u8>, at: usize) -> (r: usize)
    requires
        at <= b@.len(),
    ensures
        r == line_end(b@, at as int),
        at <= r <= b@.len(),
        at < b@.len() ==> at < r,
{
    let mut i: usize = at;
    while i < b.len() && b[i] != 10
        invariant
            at <= i <= b@.len(),
            line_end(b@, i as int) == line_end(b@, at as int),
        decreases b@.len() - i,
    {
        i = i + 1;
    }
    if i < b.len() {
        i + 1
    } else {
        i
    }
}

fn element_fits(b: &Vec<u8>, at: usize) -> (r: bool)
    requires
        at <= b@.len(),
    ensures
        r == element_count_fits(b@, at as int),
{
    let name: usize = skip_run(b, at, ByteClass::Space);
    if at < name && name < b.len() && in_class(ByteClass::Name, b[name]) {
        let tail: usize = skip_run(b, name, ByteClass::NameTail);
        let count: usize = skip_run(b, tail, ByteClass::Space);
        if tail < count {
            return digits_fit(b, count);
        }
    }
    true
}

fn encoding_fits(b: &Vec<u8>, at: usize, encoding: &str) -> (r: bool)
    requires
        at <= b@.len(),
    ensures
        r == version_fits(b@, at as int, encoding@),
{
    let word: usize = skip_run(b, at, ByteClass::Space);
    let len: usize = b.len();
    if at < word && starts_with(b, word, encoding) {
        assert(word + encoding@.len() <= len);
        let end: usize = word + encoding.unicode_len();
        let major: usize = skip_run(b, end, ByteClass::Space);
        let dot: usize = skip_run(b, major, ByteClass::Digit);
        if end < major {
            if !digits_fit(b, major) {
                return false;
            }
            if major < dot && dot < len && b[dot] == 46 {
                return digits_fit(b, dot + 1);
            }
        }
    }
    true
}

/// Whether all numbers of the header that `bytes` starts with are of at most 64 bits.
pub fn numbers_fit(bytes: &Vec<u8>) -> (r: bool)
    ensures
        r == header_numbers_fit(bytes@, 0),
{
    proof {
        reveal_strlit("element");
        reveal_strlit("format");
    }
    let mut at: usize = 0;
    while at < bytes.len() && !starts_with(bytes, at, "end_header")
        invariant
            at <= bytes@.len(),
            "element"@.len() == 7,
            "format"@.len() == 6,
            header_numbers_fit(bytes@, at as int) == header_numbers_fit(bytes@, 0),
        decreases bytes@.len() - at,
    {
        if starts_with(bytes, at, "element") && !element_fits(bytes, at + 7) {
            return false;
        }
        if starts_with(bytes, at, "format") {
            if !encoding_fits(bytes, at + 6, "ascii") {
                return false;
            }
            if !encoding_fits(bytes, at + 6, "binary_big_endian") {
                return false;
            }
            if !encoding_fits(bytes, at + 6, "binary_little_endian") {
                return false;
            }
        }
        at = next_line(bytes, at);
    }
    true
}

/// The value under `name`: the last number of that name, and zero if there is none.
pub open spec fn coordinate(values: Seq<(Seq<char>, PlyNumber)>, name: Seq<char>) -> PlyNumber
    decreases values.len(),
{
    if values.len() == 0 {
        PlyNumber::Single(0)
    } else if values.last().0 == name && values.last().1 != PlyNumber::Other {
        values.last().1
    } else {
        coordinate(values.drop_last(), name)
    }
}

/// The place that the values of an element give.
pub open spec fn place_of(values: Seq<(Seq<char>, PlyNumber)>) -> PlyVertex {
    PlyVertex {
        x: coordinate(values, "x"@),
        y: coordinate(values, "y"@),
        z: coordinate(values, "z"@),
    }
}

fn pick(values: &Vec<(String, PlyNumber)>, name: &str) -> (r: PlyNumber)
    ensures
        r == coordinate(named(values@), name@),
{
    let name: String = name.to_string();
    let mut r: PlyNumber = PlyNumber::Single(0);
    let mut i: usize = 0;
    while i < values.len()
        invariant
            i <= values@.len(),
            r == coordinate(named(values@).take(i as int), name@),
        decreases values@.len() - i,
    {
        let (k, v): (&String, PlyNumber) = (&values[i].0, values[i].1);
        proof {
            let s = named(values@).take(i + 1);
            assert(s.drop_last() =~= named(values@).take(i as int));
            assert(s.last() == (values@[i as int].0@, values@[i as int].1));
        }
        if *k == name {
            match v {
                PlyNumber::Other => {},
                _ => {
                    r = v;
                },
            }
        }
        i = i + 1;
    }
    assert(named(values@).take(values@.len() as int) =~= named(values@));
    r
}

/// The place that the values of an element give: of each coordinate the number under its name, and
/// zero where there is none. All other values are ignored.
pub fn vertex_of(values: &Vec<(String, PlyNumber)>) -> (r: PlyVertex)
    ensures
        r == place_of(named(values@)),
{
    PlyVertex { x: pick(values, "x"), y: pick(values, "y"), z: pick(values, "z") }
}

/// The name is that of a coordinate.
pub open spec fn is_coordinate(name: Seq<char>) -> bool {
    name == "x"@ || name == "y"@ || name == "z"@
}

/// How many properties of a payload line are looked at: all up to the last coordinate.
pub open spec fn line_reach(properties: Seq<(Seq<char>, Option<u8>, u8)>) -> int
    decreases properties.len(),
{
    if properties.len() == 0 {
        0
    } else if is_coordinate(properties.last().0) {
        properties.len() as int
    } else {
        line_reach(properties.drop_last())
    }
}

/// The properties that are read of a payload line: those of the header up to the last coordinate, each
/// number in single precision whatever its type. The rest of the line is left alone.
pub open spec fn line_properties(properties: Seq<(Seq<char>, Option<u8>, u8)>) -> Seq<
    (Seq<char>, Option<u8>, u8),
> {
    Seq::new(
        line_reach(properties) as nat,
        |i: int|
            (
                properties[i].0,
                if properties[i].1 is Some {
                    Some(1u8)
                } else {
                    None
                },
                6u8,
            ),
    )
}

/// The definition by which payload lines are read.
fn line_definition(def: &ElementDef) -> (r: ElementDef)
    ensures
        element_properties(r) == line_properties(element_properties(*def)),
{
    let list: Vec<(String, Option<u8>, u8)> = property_list(def);
    let ghost props = element_properties(*def);
    let x: String = "x".to_string();
    let y: String = "y".to_string();
    let z: String = "z".to_string();
    let mut reach: usize = list.len();
    assert(props.take(props.len() as int) =~= props);
    while 0 < reach && !(list[reach - 1].0 == x || list[reach - 1].0 == y || list[reach - 1].0 == z)
        invariant
            reach <= list@.len(),
            props == described(list@),
            x@ == "x"@,
            y@ == "y"@,
            z@ == "z"@,
            line_reach(props.take(reach as int)) == line_reach(props),
        ensures
            reach <= list@.len(),
            reach == line_reach(props),
        decreases reach,
    {
        assert(props.take(reach as int).last() == props[reach - 1]);
        assert(props.take(reach as int).drop_last() =~= props.take(reach - 1));
        reach = reach - 1;
    }
    let mut r: ElementDef = new_element("vertex");
    let mut i: usize = 0;
    while i < reach
        invariant
            i <= reach <= list@.len(),
            props == described(list@),
            reach == line_reach(props),
            forall|a: int, b: int|
                0 <= a < b < list@.len() ==> (#[trigger] list@[a]).0@ != (#[trigger] list@[b]).0@,
            element_properties(r) == line_properties(props).take(i as int),
        decreases reach - i,
    {
        let name: &str = list[i].0.as_str();
        assert forall|a: int| 0 <= a < i implies (#[trigger] element_properties(r)[a]).0 != name@ by {
            assert(list@[a].0@ != list@[i as int].0@);
        }
        match list[i].1 {
            None => add_float(&mut r, name),
            Some(_) => add_float_list(&mut r, name),
        }
        assert(line_properties(props).take(i + 1) =~= line_properties(props).take(i as int).push(
            line_properties(props)[i as int],
        ));
        i = i + 1;
    }
    assert(line_properties(props).take(reach as int) =~= line_properties(props));
    r
}

/// Why a binary element could not be read.
pub open spec fn binary_error(ended: bool) -> PlyError {
    if ended {
        PlyError::UnexpectedEnd
    } else {
        PlyError::Payload
    }
}

fn error_of(ended: bool) -> (r: PlyError)
    ensures
        r == binary_error(ended),
{
    if ended {
        PlyError::UnexpectedEnd
    } else {
        PlyError::Payload
    }
}

/// The vertex at `at` and where the next one starts, or why there is none.
pub open spec fn next_vertex(
    b: Seq<u8>,
    encoding: PlyEncoding,
    properties: Seq<(Seq<char>, Option<u8>, u8)>,
    at: int,
) -> Result<(PlyVertex, int), PlyError> {
    match encoding {
        PlyEncoding::Ascii => {
            let line = b.subrange(at, line_end(b, at));
            if at >= b.len() {
                Err(PlyError::UnexpectedEnd)
            } else if !vstd::utf8::valid_utf8(line) {
                Err(PlyError::Payload)
            } else {
                match ply_ascii_element(
                    vstd::utf8::decode_utf8(line),
                    line_properties(properties),
                ) {
                    None => Err(PlyError::Payload),
                    Some(values) => Ok((place_of(values), line_end(b, at))),
                }
            }
        },
        PlyEncoding::BinaryBigEndian => match ply_big_endian_element(
            b.subrange(at, b.len() as int),
            properties,
        ) {
            Err(ended) => Err(binary_error(ended)),
            Ok((values, n)) => Ok((place_of(values), at + n)),
        },
        PlyEncoding::BinaryLittleEndian => match ply_little_endian_element(
            b.subrange(at, b.len() as int),
            properties,
        ) {
            Err(ended) => Err(binary_error(ended)),
            Ok((values, n)) => Ok((place_of(values), at + n)),
        },
    }
}

/// The first `n` vertices from `at` on and where the next one starts, or why one of them could not be
/// read.
pub open spec fn vertices(
    b: Seq<u8>,
    encoding: PlyEncoding,
    properties: Seq<(Seq<char>, Option<u8>, u8)>,
    at: int,
    n: int,
) -> Result<(Seq<PlyVertex>, int), PlyError>
    decreases n,
{
    if n <= 0 {
        Ok((Seq::empty(), at))
    } else {
        match vertices(b, encoding, properties, at, n - 1) {
            Err(e) => Err(e),
            Ok((s, next)) => match next_vertex(b, encoding, properties, next) {
                Err(e) => Err(e),
                Ok((v, end)) => Ok((s.push(v), end)),
            },
        }
    }
}

proof fn lemma_error_stays(
    b: Seq<u8>,
    encoding: PlyEncoding,
    properties: Seq<(Seq<char>, Option<u8>, u8)>,
    at: int,
    i: int,
    n: int,
)
    requires
        0 <= i <= n,
        vertices(b, encoding, properties, at, i) is Err,
    ensures
        vertices(b, encoding, properties, at, n) == vertices(b, encoding, properties, at, i),
    decreases n,
{
    if i < n {
        lemma_error_stays(b, encoding, properties, at, i, n - 1);
    }
}

/// Reads the vertex at `at`. `line_def` is the definition of a payload line, `def` the one of the
/// header.
fn read_vertex(
    bytes: &Vec<u8>,
    encoding: PlyEncoding,
    line_def: &ElementDef,
    def: &ElementDef,
    at: usize,
) -> (r: Result<(PlyVertex, usize), PlyError>)
    requires
        element_properties(*line_def) == line_properties(element_properties(*def)),
        at <= bytes@.len(),
    ensures
        match next_vertex(bytes@, encoding, element_properties(*def), at as int) {
            Ok((v, next)) => r matches Ok((w, m)) && w == v && m == next && m <= bytes@.len(),
            Err(e) => r == Err::<(PlyVertex, usize), PlyError>(e),
        },
{
    match encoding {
        PlyEncoding::Ascii => {
            if at >= bytes.len() {
                return Err(PlyError::UnexpectedEnd);
            }
            let end: usize = next_line(bytes, at);
            match utf8_text(vstd::slice::slice_subrange(bytes.as_slice(), at, end)) {
                None => Err(PlyError::Payload),
                Some(line) => match read_ascii_element(line, line_def) {
                    Err(_) => Err(PlyError::Payload),
                    Ok(values) => Ok((vertex_of(&values), end)),
                },
            }
        },
        PlyEncoding::BinaryBigEndian => {
            let rest: &[u8] = vstd::slice::slice_subrange(bytes.as_slice(), at, bytes.len());
            match read_big_endian_element(rest, def) {
                Err(ended) => Err(error_of(ended)),
                Ok((values, n)) => Ok((vertex_of(&values), at + n)),
            }
        },
        PlyEncoding::BinaryLittleEndian => {
            let rest: &[u8] = vstd::slice::slice_subrange(bytes.as_slice(), at, bytes.len());
            match read_little_endian_element(rest, def) {
                Err(ended) => Err(error_of(ended)),
                Ok((values, n)) => Ok((vertex_of(&values), at + n)),
            }
        },
    }
}

/// What a header asks for: all vertices that it declares, or why they could not be read.
pub open spec fn declared_vertices(
    b: Seq<u8>,
    header: (PlyEncoding, Option<(usize, Seq<(Seq<char>, Option<u8>, u8)>)>, usize),
) -> Result<Seq<PlyVertex>, PlyError> {
    match header.1 {
        None => Err(PlyError::NoVertexElement),
        Some((count, properties)) => match vertices(
            b,
            header.0,
            properties,
            header.2 as int,
            count as int,
        ) {
            Err(e) => Err(e),
            Ok((s, _)) => Ok(s),
        },
    }
}

/// Reads all vertices that a header declares.
pub fn read_vertices(bytes: &Vec<u8>, header: &PlyHeader) -> (r: Result<Vec<PlyVertex>, PlyError>)
    requires
        header.payload <= bytes@.len(),
    ensures
        match declared_vertices(bytes@, header_model(header)) {
            Ok(s) => r matches Ok(v) && v@ == s,
            Err(e) => r == Err::<Vec<PlyVertex>, PlyError>(e),
        },
{
    match &header.element {
        None => Err(PlyError::NoVertexElement),
        Some((count, def)) => {
            let line_def: ElementDef = line_definition(def);
            let ghost props = element_properties(*def);
            let ghost enc = header.encoding;
            let ghost start = header.payload as int;
            let mut found: Vec<PlyVertex> = Vec::new();
            let mut at: usize = header.payload;
            let mut i: usize = 0;
            while i < *count
                invariant
                    i <= *count,
                    at <= bytes@.len(),
                    element_properties(line_def) == line_properties(element_properties(*def)),
                    props == element_properties(*def),
                    enc == header.encoding,
                    start == header.payload,
                    header_model(header) == (enc, Some((*count, props)), header.payload),
                    vertices(bytes@, enc, props, start, i as int) == Ok::<
                        (Seq<PlyVertex>, int),
                        PlyError,
                    >((found@, at as int)),
                decreases *count - i,
            {
                match read_vertex(bytes, header.encoding, &line_def, def, at) {
                    Err(e) => {
                        proof {
                            lemma_error_stays(bytes@, enc, props, start, i + 1, *count as int);
                        }
                        return Err(e);
                    },
                    Ok((v, next)) => {
                        found.push(v);
                        at = next;
                    },
                }
                i = i + 1;
            }
            Ok(found)
        },
    }
}

/// The vertices of a file, or why there are none.
pub open spec fn loaded(bytes: Seq<u8>) -> Result<Seq<PlyVertex>, PlyError> {
    match ply_header(bytes, "vertex"@) {
        Some(header) if header_numbers_fit(bytes, 0) => declared_vertices(bytes, header),
        _ => Err(PlyError::Header),
    }
}

/// The vertices of a PLY file.
///
/// Fails for a malformed header, a missing vertex element, and a payload that is malformed or ends
/// too early. A vertex element that is empty gives no vertices.
pub fn load_vertices(bytes: &Vec<u8>) -> (r: Result<Vec<PlyVertex>, PlyError>)
    ensures
        match loaded(bytes@) {
            Ok(s) => r matches Ok(v) && v@ == s,
            Err(e) => r == Err::<Vec<PlyVertex>, PlyError>(e),
        },
{
    if !numbers_fit(bytes) {
        return Err(PlyError::Header);
    }
    match read_header(bytes.as_slice(), "vertex") {
        Err(_) => Err(PlyError::Header),
        Ok(header) => read_vertices(bytes, &header),
    }
}

/// Where vertices can be read, there are as many as the header declares.
pub proof fn law_vertex_count(
    b: Seq<u8>,
    encoding: PlyEncoding,
    properties: Seq<(Seq<char>, Option<u8>, u8)>,
    at: int,
    n: int,
)
    requires
        0 <= n,
        vertices(b, encoding, properties, at, n) is Ok,
    ensures
        vertices(b, encoding, properties, at, n).unwrap().0.len() == n,
    decreases n,
{
    if 0 < n {
        law_vertex_count(b, encoding, properties, at, n - 1);
    }
}

/// Reading goes vertex by vertex: the first `m` of `n` vertices are the ones that reading `m` gives.
pub proof fn law_vertices_prefix(
    b: Seq<u8>,
    encoding: PlyEncoding,
    properties: Seq<(Seq<char>, Option<u8>, u8)>,
    at: int,
    m: int,
    n: int,
)
    requires
        0 <= m <= n,
        vertices(b, encoding, properties, at, n) is Ok,
    ensures
        vertices(b, encoding, properties, at, m) is Ok,
        vertices(b, encoding, properties, at, n).unwrap().0.take(m) == vertices(
            b,
            encoding,
            properties,
            at,
            m,
        ).unwrap().0,
    decreases n,
{
    law_vertex_count(b, encoding, properties, at, n);
    if m < n {
        law_vertices_prefix(b, encoding, properties, at, m, n - 1);
        law_vertex_count(b, encoding, properties, at, n - 1);
        let s = vertices(b, encoding, properties, at, n).unwrap().0;
        let t = vertices(b, encoding, properties, at, n - 1).unwrap().0;
        assert(s.take(m) =~= t.take(m));
    } else {
        let s = vertices(b, encoding, properties, at, n).unwrap().0;
        assert(s.take(n) =~= s);
    }
}

/// What the header declares behind the last coordinate has no part in reading a payload line.
pub proof fn law_line_tail_ignored(
    properties: Seq<(Seq<char>, Option<u8>, u8)>,
    tail: Seq<(Seq<char>, Option<u8>, u8)>,
)
    requires
        forall|i: int| 0 <= i < tail.len() ==> !is_coordinate((#[trigger] tail[i]).0),
    ensures
        line_properties(properties + tail) == line_properties(properties),
    decreases tail.len(),
{
    if tail.len() == 0 {
        assert(properties + tail =~= properties);
    } else {
        let rest = tail.drop_last();
        assert((properties + tail).drop_last() =~= properties + rest);
        assert((properties + tail).last() == tail[tail.len() - 1]);
        law_line_tail_ignored(properties, rest);
        lemma_line_reach(properties + rest);
        assert(line_properties(properties + tail) =~= line_properties(properties + rest));
    }
}

proof fn lemma_line_reach(properties: Seq<(Seq<char>, Option<u8>, u8)>)
    ensures
        0 <= line_reach(properties) <= properties.len(),
    decreases properties.len(),
{
    if properties.len() > 0 {
        lemma_line_reach(properties.drop_last());
    }
}

/// The classes of bytes, by the characters: spaces and tabs; digits; letters and the underscore; and
/// these, digits and hyphens within a name.
pub proof fn law_byte_classes(c: u8)
    ensures
        is_in(ByteClass::Space, c) <==> c as char == ' ' || c as char == '\t',
        is_in(ByteClass::Digit, c) <==> '0' as u8 <= c <= '9' as u8,
        is_in(ByteClass::Name, c) <==> 'a' as u8 <= c <= 'z' as u8 || 'A' as u8 <= c <= 'Z' as u8 || c
            == '_' as u8,
        is_in(ByteClass::NameTail, c) <==> is_in(ByteClass::Name, c) || is_in(ByteClass::Digit, c) || c
            == '-' as u8,
{
}

/// A run is as long as it can be: all its bytes are of the class, and it ends with the text or
/// before a byte that is not.
pub proof fn law_run_is_longest(b: Seq<u8>, at: int, end: int, class: ByteClass)
    requires
        0 <= at <= end <= b.len(),
        forall|i: int| at <= i < end ==> is_in(class, #[trigger] b[i]),
        end == b.len() || !is_in(class, b[end]),
    ensures
        run_end(b, at, class) == end,
    decreases end - at,
{
    if at < end {
        assert(is_in(class, b[at]));
        law_run_is_longest(b, at + 1, end, class);
    }
}

/// The first digit of a number counts as many times as ten to the number of digits behind it.
pub proof fn law_decimal_places(b: Seq<u8>, at: int, end: int)
    requires
        at < end,
    ensures
        decimal(b, at, end) == (b[at] - 48) * vstd::arithmetic::power::pow(10, (end - at - 1) as nat)
            + decimal(b, at + 1, end),
        decimal(b, at, at) == 0,
    decreases end - at,
{
    let d = b[at] - 48;
    if end == at + 1 {
        vstd::arithmetic::power::lemma_pow0(10);
        assert(decimal(b, at, at) == 0);
        assert(decimal(b, at + 1, at + 1) == 0);
        vstd::arithmetic::mul::lemma_mul_basics(d);
    } else {
        law_decimal_places(b, at, end - 1);
        let p = vstd::arithmetic::power::pow(10, (end - at - 2) as nat);
        assert(vstd::arithmetic::power::pow(10, (end - at - 1) as nat) == 10 * p) by {
            reveal(vstd::arithmetic::power::pow);
        }
        assert(10 * (d * p) == d * (10 * p)) by (nonlinear_arith);
    }
}

/// A word stands in the text exactly if its two parts stand there one behind the other.
pub proof fn law_word_in_parts(b: Seq<u8>, at: int, u: Seq<char>, v: Seq<char>)
    ensures
        has_word(b, at, u + v) <==> has_word(b, at, u) && has_word(b, at + u.len(), v),
        has_word(b, at, seq![]) <==> at <= b.len(),
{
    let w = u + v;
    if has_word(b, at, w) {
        assert forall|i: int| 0 <= i < u.len() implies b[at + i] as u32 == #[trigger] u[i] as u32 by {
            assert(w[i] == u[i]);
        }
        assert forall|i: int| 0 <= i < v.len() implies b[at + u.len() + i] as u32
            == #[trigger] v[i] as u32 by {
            assert(w[u.len() + i] == v[i]);
        }
    }
    if has_word(b, at, u) && has_word(b, at + u.len(), v) {
        assert forall|i: int| 0 <= i < w.len() implies b[at + i] as u32 == #[trigger] w[i] as u32 by {
            if i < u.len() {
                assert(u[i] == w[i]);
            } else {
                assert(v[i - u.len()] == w[i]);
                assert(b[at + u.len() + (i - u.len())] as u32 == v[i - u.len()] as u32);
            }
        }
    }
}

/// A character of a word stands in the text as the byte with its code.
pub proof fn law_word_bytes(b: Seq<u8>, at: int, word: Seq<char>, i: int)
    requires
        has_word(b, at, word),
        0 <= i < word.len(),
    ensures
        at + i < b.len(),
        b[at + i] as u32 == word[i] as u32,
{
}

/// A line ends behind its first newline, or with the text.
pub proof fn law_line_ends(b: Seq<u8>, at: int)
    requires
        0 <= at < b.len(),
    ensures
        at < line_end(b, at) <= b.len(),
        line_end(b, at) == b.len() || b[line_end(b, at) - 1] == 10,
        forall|i: int| at <= i < line_end(b, at) - 1 ==> #[trigger] b[i] != 10,
    decreases b.len() - at,
{
    if b[at] != 10 {
        if at + 1 < b.len() {
            law_line_ends(b, at + 1);
        } else {
            assert(line_end(b, at + 1) == b.len());
        }
    }
}

/// Where the numbers of a header fit, so do those of every line before its end, and the count that a
/// line declares for an element is one of 64 bits.
pub proof fn law_declared_count_fits(
    b: Seq<u8>,
    at: int,
    name: int,
    tail: int,
    count: int,
    end: int,
)
    requires
        header_numbers_fit(b, at),
        0 <= at,
        at + 7 < name < tail < count <= end < b.len(),
        has_word(b, at, "element"@),
        forall|i: int| at + 7 <= i < name ==> is_in(ByteClass::Space, #[trigger] b[i]),
        is_in(ByteClass::Name, b[name]),
        forall|i: int| name <= i < tail ==> is_in(ByteClass::NameTail, #[trigger] b[i]),
        forall|i: int| tail <= i < count ==> is_in(ByteClass::Space, #[trigger] b[i]),
        forall|i: int| count <= i < end ==> is_in(ByteClass::Digit, #[trigger] b[i]),
        !is_in(ByteClass::Digit, b[end]),
        !is_in(ByteClass::Space, b[count]),
    ensures
        decimal(b, count, end) <= 0xffff_ffff_ffff_ffff,
        header_numbers_fit(b, line_end(b, at)),
{
    reveal_strlit("element");
    reveal_strlit("end_header");
    law_word_bytes(b, at, "element"@, 1);
    if has_word(b, at, "end_header"@) {
        law_word_bytes(b, at, "end_header"@, 1);
    }
    law_run_is_longest(b, at + 7, name, ByteClass::Space);
    assert(!is_in(ByteClass::NameTail, b[tail]));
    law_run_is_longest(b, name, tail, ByteClass::NameTail);
    law_run_is_longest(b, tail, count, ByteClass::Space);
    law_run_is_longest(b, count, end, ByteClass::Digit);
}

/// The coordinate is the last value under the name that is a floating point number, and zero if
/// there is none.
pub proof fn law_coordinate_is_last(values: Seq<(Seq<char>, PlyNumber)>, name: Seq<char>, i: int)
    ensures
        0 <= i < values.len() && values[i].0 == name && values[i].1 != PlyNumber::Other && (forall|
            j: int,
        |
            i < j < values.len() && (#[trigger] values[j]).0 == name ==> values[j].1
                == PlyNumber::Other) ==> coordinate(values, name) == values[i].1,
        (forall|j: int|
            0 <= j < values.len() && (#[trigger] values[j]).0 == name ==> values[j].1
                == PlyNumber::Other) ==> coordinate(values, name) == PlyNumber::Single(0),
    decreases values.len(),
{
    if values.len() > 0 {
        let rest = values.drop_last();
        law_coordinate_is_last(rest, name, i);
        assert(forall|j: int| 0 <= j < rest.len() ==> rest[j] == #[trigger] values[j]);
    }
}

/// The place of a vertex has under each axis the number with the name of that axis.
pub proof fn law_axes_by_name(a: PlyNumber, b: PlyNumber, c: PlyNumber)
    requires
        a != PlyNumber::Other,
        b != PlyNumber::Other,
        c != PlyNumber::Other,
    ensures
        place_of(seq![("x"@, a), ("y"@, b), ("z"@, c)]) == (PlyVertex { x: a, y: b, z: c }),
        place_of(seq![("z"@, c), ("x"@, a), ("y"@, b)]) == (PlyVertex { x: a, y: b, z: c }),
{
    reveal_strlit("x");
    reveal_strlit("y");
    reveal_strlit("z");
    assert("x"@[0] == 'x' && "y"@[0] == 'y' && "z"@[0] == 'z');
    let s = seq![("x"@, a), ("y"@, b), ("z"@, c)];
    law_coordinate_is_last(s, "x"@, 0);
    law_coordinate_is_last(s, "y"@, 1);
    law_coordinate_is_last(s, "z"@, 2);
    let t = seq![("z"@, c), ("x"@, a), ("y"@, b)];
    law_coordinate_is_last(t, "z"@, 0);
    law_coordinate_is_last(t, "x"@, 1);
    law_coordinate_is_last(t, "y"@, 2);
}

/// A payload line is read up to the last coordinate that the header declares, all properties under
/// their names.
pub proof fn law_line_reach(properties: Seq<(Seq<char>, Option<u8>, u8)>, i: int)
    ensures
        0 <= line_reach(properties) <= properties.len(),
        0 < line_reach(properties) ==> {
            let name = properties[line_reach(properties) - 1].0;
            name == "x"@ || name == "y"@ || name == "z"@
        },
        line_reach(properties) <= i < properties.len() ==> properties[i].0 != "x"@ && properties[i].0
            != "y"@ && properties[i].0 != "z"@,
        line_properties(properties).len() == line_reach(properties),
        0 <= i < line_reach(properties) ==> line_properties(properties)[i].0 == properties[i].0 && (
        line_properties(properties)[i].1 is Some <==> properties[i].1 is Some),
    decreases properties.len(),
{
    if properties.len() > 0 {
        law_line_reach(properties.drop_last(), i);
    }
    lemma_line_reach(properties);
}

/// A vertex is read from the rest of the text alone: what stands before it has no part in it, and
/// moves the place behind it along.
pub proof fn law_vertex_from_rest(
    b: Seq<u8>,
    encoding: PlyEncoding,
    properties: Seq<(Seq<char>, Option<u8>, u8)>,
    at: int,
)
    requires
        0 <= at <= b.len(),
    ensures
        next_vertex(b, encoding, properties, at) == (match next_vertex(
            b.subrange(at, b.len() as int),
            encoding,
            properties,
            0,
        ) {
            Ok((v, n)) => Ok((v, at + n)),
            Err(e) => Err(e),
        }),
{
    let rest = b.subrange(at, b.len() as int);
    assert(rest.subrange(0, rest.len() as int) =~= rest);
    lemma_line_of_rest(b, at, 0);
    lemma_line_end(b, at);
    if at < b.len() {
        assert(b.subrange(at, line_end(b, at)) =~= rest.subrange(0, line_end(rest, 0)));
    }
}

proof fn lemma_line_of_rest(b: Seq<u8>, at: int, i: int)
    requires
        0 <= at,
        0 <= i,
        at + i <= b.len(),
    ensures
        line_end(b, at + i) == at + line_end(b.subrange(at, b.len() as int), i),
    decreases b.len() - at - i,
{
    if at + i < b.len() {
        lemma_line_of_rest(b, at, i + 1);
    }
}

/// How the encodings read: a binary element by its own reader, which says how many bytes it takes,
/// and an error of which is that the bytes end too early or that they are no element; a line as one
/// element.
pub proof fn law_vertex_by_encoding(
    b: Seq<u8>,
    properties: Seq<(Seq<char>, Option<u8>, u8)>,
    line: int,
)
    requires
        0 < line <= b.len(),
        line == b.len() || b[line - 1] == 10,
        forall|i: int| 0 <= i < line - 1 ==> #[trigger] b[i] != 10,
    ensures
        ply_big_endian_element(b, properties) matches Ok((values, n)) ==> next_vertex(
            b,
            PlyEncoding::BinaryBigEndian,
            properties,
            0,
        ) == Ok::<(PlyVertex, int), PlyError>((place_of(values), n as int)),
        ply_little_endian_element(b, properties) matches Ok((values, n)) ==> next_vertex(
            b,
            PlyEncoding::BinaryLittleEndian,
            properties,
            0,
        ) == Ok::<(PlyVertex, int), PlyError>((place_of(values), n as int)),
        ply_big_endian_element(b, properties) matches Err(ended) ==> next_vertex(
            b,
            PlyEncoding::BinaryBigEndian,
            properties,
            0,
        ) == Err::<(PlyVertex, int), PlyError>(
            if ended { PlyError::UnexpectedEnd } else { PlyError::Payload },
        ),
        ply_little_endian_element(b, properties) matches Err(ended) ==> next_vertex(
            b,
            PlyEncoding::BinaryLittleEndian,
            properties,
            0,
        ) == Err::<(PlyVertex, int), PlyError>(
            if ended { PlyError::UnexpectedEnd } else { PlyError::Payload },
        ),
        vstd::utf8::valid_utf8(b.take(line)) ==> next_vertex(b, PlyEncoding::Ascii, properties, 0) == (
        match ply_ascii_element(
            vstd::utf8::decode_utf8(b.take(line)),
            line_properties(properties),
        ) {
            None => Err::<(PlyVertex, int), PlyError>(PlyError::Payload),
            Some(values) => Ok((place_of(values), line)),
        }),
        !vstd::utf8::valid_utf8(b.take(line)) ==> next_vertex(b, PlyEncoding::Ascii, properties, 0)
            == Err::<(PlyVertex, int), PlyError>(PlyError::Payload),
        next_vertex(seq![], PlyEncoding::Ascii, properties, 0) == Err::<(PlyVertex, int), PlyError>(
            PlyError::UnexpectedEnd,
        ),
{
    assert(b.subrange(0, b.len() as int) =~= b);
    law_line_ends(b, 0);
    if line < line_end(b, 0) {
        assert(b[line - 1] != 10);
    }
    if line_end(b, 0) < line {
        assert(b[line_end(b, 0) - 1] != 10);
    }
    assert(b.subrange(0, line) =~= b.take(line));
}

/// Reading goes on where it stopped: `m + n` vertices are the first `m` and the `n` behind them,
/// and an error among the first ends the reading.
pub proof fn law_vertices_go_on(
    b: Seq<u8>,
    encoding: PlyEncoding,
    properties: Seq<(Seq<char>, Option<u8>, u8)>,
    at: int,
    m: int,
    n: int,
)
    requires
        0 <= m,
        0 <= n,
    ensures
        vertices(b, encoding, properties, at, 1) == (match next_vertex(b, encoding, properties, at) {
            Ok((v, end)) => Ok::<(Seq<PlyVertex>, int), PlyError>((seq![v], end)),
            Err(e) => Err(e),
        }),
        vertices(b, encoding, properties, at, m + n) == (match vertices(b, encoding, properties, at, m) {
            Ok((s, mid)) => match vertices(b, encoding, properties, mid, n) {
                Ok((t, end)) => Ok::<(Seq<PlyVertex>, int), PlyError>((s + t, end)),
                Err(e) => Err(e),
            },
            Err(e) => Err(e),
        }),
    decreases n,
{
    reveal_with_fuel(vertices, 2);
    assert(forall|v: PlyVertex| #[trigger] Seq::<PlyVertex>::empty().push(v) =~= seq![v]);
    if n == 0 {
        if let Ok((s, mid)) = vertices(b, encoding, properties, at, m) {
            assert(s + Seq::<PlyVertex>::empty() =~= s);
        }
    } else {
        law_vertices_go_on(b, encoding, properties, at, m, n - 1);
        if let Ok((s, mid)) = vertices(b, encoding, properties, at, m) {
            if let Ok((t, end)) = vertices(b, encoding, properties, mid, n - 1) {
                assert(forall|v: PlyVertex| #[trigger] (s + t).push(v) =~= s + t.push(v));
            }
        }
    }
}

/// The vertices that a header declares are those from the payload on, as many as it says, and no
/// element of the name is an error of its own.
pub proof fn law_declared_vertices(
    b: Seq<u8>,
    encoding: PlyEncoding,
    properties: Seq<(Seq<char>, Option<u8>, u8)>,
    count: usize,
    payload: usize,
)
    ensures
        declared_vertices(b, (encoding, None, payload)) == Err::<Seq<PlyVertex>, PlyError>(
            PlyError::NoVertexElement,
        ),
        ({
            let declared = declared_vertices(b, (encoding, Some((count, properties)), payload));
            let read = vertices(b, encoding, properties, payload as int, count as int);
            &&& declared is Ok <==> read is Ok
            &&& declared matches Ok(s) ==> s.len() == count && s == read.unwrap().0
            &&& declared matches Err(e) ==> read == Err::<(Seq<PlyVertex>, int), PlyError>(e)
        }),
        declared_vertices(b, (encoding, Some((0, properties)), payload)) == Ok::<
            Seq<PlyVertex>,
            PlyError,
        >(seq![]),
{
    if vertices(b, encoding, properties, payload as int, count as int) is Ok {
        law_vertex_count(b, encoding, properties, payload as int, count as int);
    }
    assert(Seq::<PlyVertex>::empty() =~= seq![]);
}

/// Where the numbers of a header fit, so do both parts of the version that a format line declares.
pub proof fn law_declared_version_fits(
    b: Seq<u8>,
    at: int,
    encoding: Seq<char>,
    word: int,
    major: int,
    dot: int,
    end: int,
)
    requires
        header_numbers_fit(b, at),
        0 <= at,
        encoding == "ascii"@ || encoding == "binary_big_endian"@ || encoding
            == "binary_little_endian"@,
        at + 6 < word,
        word + encoding.len() < major < dot < end < b.len(),
        has_word(b, at, "format"@),
        forall|i: int| at + 6 <= i < word ==> is_in(ByteClass::Space, #[trigger] b[i]),
        !is_in(ByteClass::Space, b[word]),
        has_word(b, word, encoding),
        forall|i: int|
            word + encoding.len() <= i < major ==> is_in(ByteClass::Space, #[trigger] b[i]),
        forall|i: int| major <= i < dot ==> is_in(ByteClass::Digit, #[trigger] b[i]),
        b[dot] == '.' as u8,
        forall|i: int| dot + 1 <= i < end ==> is_in(ByteClass::Digit, #[trigger] b[i]),
        !is_in(ByteClass::Digit, b[end]),
    ensures
        decimal(b, major, dot) <= 0xffff_ffff_ffff_ffff,
        decimal(b, dot + 1, end) <= 0xffff_ffff_ffff_ffff,
{
    reveal_strlit("format");
    reveal_strlit("end_header");
    law_word_bytes(b, at, "format"@, 0);
    if has_word(b, at, "end_header"@) {
        law_word_bytes(b, at, "end_header"@, 0);
    }
    law_run_is_longest(b, at + 6, word, ByteClass::Space);
    assert(is_in(ByteClass::Digit, b[major]));
    law_run_is_longest(b, word + encoding.len(), major, ByteClass::Space);
    law_run_is_longest(b, major, dot, ByteClass::Digit);
    law_run_is_longest(b, dot + 1, end, ByteClass::Digit);
}

/// A file whose header cannot be read, or has numbers too large to read, has no vertices for that
/// reason alone; any other file has those its header declares.
pub proof fn law_loaded(bytes: Seq<u8>)
    ensures
        !header_numbers_fit(bytes, 0) ==> loaded(bytes) == Err::<Seq<PlyVertex>, PlyError>(
            PlyError::Header,
        ),
        ply_header(bytes, "vertex"@) is None ==> loaded(bytes) == Err::<Seq<PlyVertex>, PlyError>(
            PlyError::Header,
        ),
        header_numbers_fit(bytes, 0) ==> (ply_header(bytes, "vertex"@) matches Some(header) ==> loaded(
            bytes,
        ) == declared_vertices(bytes, header)),
{
}

} // verus!
