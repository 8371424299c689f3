//! Fully-qualified class names: a capitalised identifier, as in `Baz`, which
//! may stand behind a dotted lowercase package and a dot, as in
//! `foo.bar.Baz`.
use crate::text::{lemma_boundary_in_part, lemma_char_boundary, slice};
use std::ops::Range;
use vstd::prelude::*;
use vstd::string::*;
use vstd::utf8::*;

verus! {

/// The pattern of a fully-qualified class name. Its second group is the
/// package, which need not be there, its third the identifier.
pub const FQCN_PATTERN: &'static str = r"^(([a-z0-9][a-z0-9\.]+)+\.)?([A-Z][\w]*)?$";

/// `regex::Error`, which says why a pattern was not accepted.
#[verifier::external_type_specification]
#[verifier::external_body]
pub struct ExRegexError(regex::Error);

/// Whether `regex::Regex::new` accepts `pattern`.
pub uninterp spec fn regex_compiles(pattern: Seq<char>) -> bool;

/// What `regex::Regex::captures` finds of `pattern` in `text`: nothing, or
/// for each capture group of the leftmost match the byte range that it
/// matched, if it took part.
pub uninterp spec fn regex_captures(pattern: Seq<char>, text: Seq<char>) -> Option<
    Seq<Option<(int, int)>>,
>;

/// The byte ranges of the capture groups of a match.
pub open spec fn groups_view(groups: Seq<Option<Range<usize>>>) -> Seq<Option<(int, int)>> {
    Seq::new(
        groups.len(),
        |i: int|
            match groups[i] {
                Some(range) => Some((range.start as int, range.end as int)),
                None => None,
            },
    )
}

/// The capture groups of a search, if it matched.
pub open spec fn captures_view(found: Option<Vec<Option<Range<usize>>>>) -> Option<
    Seq<Option<(int, int)>>,
> {
    match found {
        Some(groups) => Some(groups_view(groups@)),
        None => None,
    }
}

/// Compiles `pattern` with `regex::Regex::new` and searches `text` with
/// `regex::Regex::captures`. The contract names the two results and says no
/// more: an error exactly where the pattern is not accepted, else the byte
/// range of each capture group of the leftmost match, or no match.
#[verifier::external_body]
fn captures(pattern: &str, text: &str) -> (found: Result<
    Option<Vec<Option<Range<usize>>>>,
    regex::Error,
>)
    ensures
        found is Ok <==> regex_compiles(pattern@),
        found matches Ok(groups) ==> captures_view(groups) == regex_captures(pattern@, text@),
{
    let re = regex::Regex::new(pattern)?;
    Ok(re.captures(text).map(|caps| caps.iter().map(|group| group.map(|m| m.range())).collect()))
}

/// A byte that a package may hold: a lowercase letter, a digit or a dot.
pub open spec fn is_package_byte(byte: u8) -> bool {
    0x61 <= byte <= 0x7a || 0x30 <= byte <= 0x39 || byte == 0x2e
}

/// A byte that an identifier may hold: a letter, a digit, an underscore, or
/// a byte of a character beyond ASCII.
pub open spec fn is_ident_byte(byte: u8) -> bool {
    0x41 <= byte <= 0x5a || 0x61 <= byte <= 0x7a || 0x30 <= byte <= 0x39 || byte == 0x5f || byte
        >= 0x80
}

/// The range is an identifier that runs to the end of `bytes`: it begins
/// with a capital letter and holds no dot nor any other ASCII character that
/// is not a letter, a digit or an underscore.
pub open spec fn ident_fits(bytes: Seq<u8>, ident: (int, int)) -> bool {
    &&& 0 <= ident.0 < ident.1
    &&& ident.1 == bytes.len()
    &&& 0x41 <= bytes[ident.0] <= 0x5a
    &&& forall|k: int| ident.0 <= k < ident.1 ==> is_ident_byte(#[trigger] bytes[k])
}

/// The range is a package at the start of `bytes` with a dot behind it: two
/// or more lowercase letters, digits and dots, the first of them no dot.
pub open spec fn package_fits(bytes: Seq<u8>, package: (int, int)) -> bool {
    &&& package.0 == 0
    &&& 2 <= package.1 < bytes.len()
    &&& bytes[0] != 0x2e
    &&& forall|k: int| 0 <= k < package.1 ==> is_package_byte(#[trigger] bytes[k])
    &&& bytes[package.1] == 0x2e
}

/// The two ranges split `bytes` into parts. Either there is no package: its
/// range is empty and the identifier is the whole text. Or the package
/// stands at the start, a dot follows it, and the identifier is the rest.
pub open spec fn parts_fit(bytes: Seq<u8>, package: (int, int), ident: (int, int)) -> bool {
    &&& ident_fits(bytes, ident)
    &&& if package == (0int, 0int) {
        ident.0 == 0
    } else {
        package_fits(bytes, package) && ident.0 == package.1 + 1
    }
}

/// The text is written as a name: it is an identifier, or at some dot it
/// splits into a package and an identifier, as [`parts_fit`] asks.
pub open spec fn written_as_fqcn(bytes: Seq<u8>) -> bool {
    ||| parts_fit(bytes, (0, 0), (0, bytes.len() as int))
    ||| exists|dot: int| #[trigger] parts_fit(bytes, (0, dot), (dot + 1, bytes.len() as int))
}

/// The range of the package in the groups of a match of [`FQCN_PATTERN`]:
/// that of the second group, or an empty one where that group took no part.
pub open spec fn package_of_groups(groups: Seq<Option<(int, int)>>) -> (int, int) {
    match groups[2] {
        Some(package) => package,
        None => (0, 0),
    }
}

/// The groups of a match of [`FQCN_PATTERN`] hold an identifier, and with
/// it a package or none, that fit the text.
pub open spec fn groups_fit(bytes: Seq<u8>, groups: Seq<Option<(int, int)>>) -> bool {
    &&& groups.len() > 3
    &&& groups[3] is Some
    &&& parts_fit(bytes, package_of_groups(groups), groups[3].unwrap())
}

/// What a name stands for: its text and the byte ranges of its two parts.
pub struct FqcnView {
    pub value: Seq<char>,
    pub package: (int, int),
    pub ident: (int, int),
}

impl FqcnView {
    /// The UTF-8 bytes of the whole name.
    pub open spec fn bytes(self) -> Seq<u8> {
        encode_utf8(self.value)
    }

    /// The parts fit the text.
    pub open spec fn wf(self) -> bool {
        parts_fit(self.bytes(), self.package, self.ident)
    }

    /// The name has a package.
    pub open spec fn has_package(self) -> bool {
        self.package.1 > 0
    }

    /// The bytes of the package, without the dot that ends it; none where
    /// the name has no package.
    pub open spec fn package_bytes(self) -> Seq<u8> {
        self.bytes().subrange(self.package.0, self.package.1)
    }

    /// The bytes of the package and the dot behind it; none where the name
    /// has no package.
    pub open spec fn package_with_trailing_bytes(self) -> Seq<u8> {
        if self.has_package() {
            self.bytes().subrange(self.package.0, self.package.1 + 1)
        } else {
            seq![]
        }
    }

    /// The bytes of the identifier.
    pub open spec fn ident_bytes(self) -> Seq<u8> {
        self.bytes().subrange(self.ident.0, self.ident.1)
    }
}

/// The name that the capture groups of a match of [`FQCN_PATTERN`] describe
/// in `value`: one only where the third group took part and the groups fit
/// the text. Where the second group took no part, the name has no package.
pub open spec fn fqcn_of_groups(value: Seq<char>, groups: Seq<Option<(int, int)>>) -> Option<
    FqcnView,
> {
    if groups_fit(encode_utf8(value), groups) {
        Some(FqcnView { value, package: package_of_groups(groups), ident: groups[3].unwrap() })
    } else {
        None
    }
}

/// The name that `value` is, if it is written as one: what
/// [`fqcn_of_groups`] makes of the match of [`FQCN_PATTERN`] in it.
pub open spec fn parsed_fqcn(value: Seq<char>) -> Option<FqcnView> {
    if regex_compiles(FQCN_PATTERN@) && regex_captures(FQCN_PATTERN@, value) is Some {
        fqcn_of_groups(value, regex_captures(FQCN_PATTERN@, value).unwrap())
    } else {
        None
    }
}

/// What an optional name stands for.
pub open spec fn fqcn_view(fqcn: Option<Fqcn>) -> Option<FqcnView> {
    match fqcn {
        Some(name) => Some(name@),
        None => None,
    }
}

/// A fully-qualified class name, split into package and identifier. The
/// package may be missing: its range is then empty.
#[derive(Debug, PartialEq, Eq)]
pub struct Fqcn {
    value: String,
    package_range: Range<usize>,
    ident_range: Range<usize>,
}

impl View for Fqcn {
    type V = FqcnView;

    closed spec fn view(&self) -> FqcnView {
        FqcnView {
            value: self.value@,
            package: (self.package_range.start as int, self.package_range.end as int),
            ident: (self.ident_range.start as int, self.ident_range.end as int),
        }
    }
}

impl Clone for Fqcn {
    fn clone(&self) -> (copy: Fqcn)
        ensures
            copy == *self,
    {
        Fqcn {
            value: self.value.clone(),
            package_range: self.package_range.start..self.package_range.end,
            ident_range: self.ident_range.start..self.ident_range.end,
        }
    }
}

/// A name with a package is its package, a dot and its identifier, and
/// nothing else; a name without a package is its identifier.
pub proof fn lemma_fqcn_is_its_parts(fqcn: FqcnView)
    requires
        fqcn.wf(),
    ensures
        fqcn.has_package() ==> fqcn.bytes() == fqcn.package_bytes() + seq![0x2eu8]
            + fqcn.ident_bytes(),
        !fqcn.has_package() ==> fqcn.bytes() == fqcn.ident_bytes() && fqcn.package_bytes().len()
            == 0,
        fqcn.bytes() == fqcn.package_with_trailing_bytes() + fqcn.ident_bytes(),
        fqcn.has_package() <==> fqcn.package_bytes().len() > 0,
        fqcn.ident_bytes().len() > 0,
{
    if fqcn.has_package() {
        assert(fqcn.bytes() =~= fqcn.package_bytes() + seq![0x2eu8] + fqcn.ident_bytes());
    } else {
        assert(fqcn.bytes() =~= fqcn.ident_bytes());
    }
    assert(fqcn.bytes() =~= fqcn.package_with_trailing_bytes() + fqcn.ident_bytes());
}

/// Only a text that is written as a name is read as one: a text whose last
/// segment does not begin with a capital letter, and one in which another
/// ASCII character than a letter, a digit or an underscore stands in or
/// behind the identifier, are no names.
pub proof fn lemma_only_names_parse(value: Seq<char>)
    ensures
        parsed_fqcn(value) is Some ==> written_as_fqcn(encode_utf8(value)),
        parsed_fqcn(value) matches Some(name) ==> name.wf() && name.value == value,
{
    if parsed_fqcn(value) is Some {
        let name = parsed_fqcn(value).unwrap();
        let bytes = encode_utf8(value);
        if name.has_package() {
            assert(parts_fit(bytes, (0, name.package.1), (name.package.1 + 1, bytes.len() as int)));
        } else {
            assert(parts_fit(bytes, (0, 0), (0, bytes.len() as int)));
        }
    }
}

/// Where the groups of a match are those of a text that is written as a
/// name, the name is read, with the package and the identifier of the
/// text: a package, a dot and an identifier give a name of these parts, and
/// an identifier alone gives a name without a package.
pub proof fn lemma_fitting_groups_give_name(
    value: Seq<char>,
    groups: Seq<Option<(int, int)>>,
    package: Seq<u8>,
    ident: Seq<u8>,
)
    requires
        ident.len() > 0,
        0x41 <= ident[0] <= 0x5a,
        forall|k: int| 0 <= k < ident.len() ==> is_ident_byte(#[trigger] ident[k]),
        package.len() == 0 || package.len() >= 2,
        package.len() > 0 ==> package[0] != 0x2e,
        forall|k: int| 0 <= k < package.len() ==> is_package_byte(#[trigger] package[k]),
        encode_utf8(value) == if package.len() == 0 {
            ident
        } else {
            package + seq![0x2eu8] + ident
        },
        groups.len() > 3,
        groups[2] == if package.len() == 0 {
            None::<(int, int)>
        } else {
            Some((0int, package.len() as int))
        },
        groups[3] == if package.len() == 0 {
            Some((0int, ident.len() as int))
        } else {
            Some(((package.len() + 1) as int, (package.len() + 1 + ident.len()) as int))
        },
    ensures
        fqcn_of_groups(value, groups) is Some,
        fqcn_of_groups(value, groups).unwrap().wf(),
        fqcn_of_groups(value, groups).unwrap().value == value,
        fqcn_of_groups(value, groups).unwrap().package_bytes() == package,
        fqcn_of_groups(value, groups).unwrap().ident_bytes() == ident,
{
    let bytes = encode_utf8(value);
    let found = groups[3].unwrap();
    assert(ident_fits(bytes, found)) by {
        assert forall|k: int| found.0 <= k < found.1 implies is_ident_byte(#[trigger] bytes[k]) by {
            assert(bytes[k] == ident[k - found.0]);
        }
        assert(bytes[found.0] == ident[0]);
    }
    if package.len() > 0 {
        let at = package_of_groups(groups);
        assert(package_fits(bytes, at)) by {
            assert forall|k: int| 0 <= k < at.1 implies is_package_byte(#[trigger] bytes[k]) by {
                assert(bytes[k] == package[k]);
            }
            assert(bytes[0] == package[0]);
        }
    }
    let name = fqcn_of_groups(value, groups).unwrap();
    assert(name.package_bytes() =~= package);
    assert(name.ident_bytes() =~= ident);
}

/// The two parts of a name start and end on character boundaries, and each
/// is text in its own right.
pub proof fn lemma_fqcn_parts_are_text(fqcn: FqcnView)
    requires
        fqcn.wf(),
    ensures
        is_char_boundary(fqcn.bytes(), fqcn.package.0),
        is_char_boundary(fqcn.bytes(), fqcn.package.1),
        is_char_boundary(fqcn.bytes(), fqcn.ident.0),
        is_char_boundary(fqcn.bytes(), fqcn.ident.1),
        valid_utf8(fqcn.bytes()),
        valid_utf8(fqcn.package_bytes()),
        valid_utf8(fqcn.ident_bytes()),
{
    let bytes = fqcn.bytes();
    encode_utf8_valid_utf8(fqcn.value);
    lemma_char_boundary(bytes, fqcn.package.0);
    lemma_char_boundary(bytes, fqcn.package.1);
    lemma_char_boundary(bytes, fqcn.ident.0);
    lemma_char_boundary(bytes, fqcn.ident.1);
    lemma_boundary_in_part(bytes, fqcn.package.0, fqcn.package.1, fqcn.package.0);
    lemma_boundary_in_part(bytes, fqcn.ident.0, fqcn.ident.1, fqcn.ident.0);
}

/// Whether every byte from `from` up to `to` is one that a package may
/// hold, or one that an identifier may hold.
fn all_bytes_fit(bytes: &[u8], from: usize, to: usize, of_ident: bool) -> (fit: bool)
    requires
        from <= to <= bytes@.len(),
    ensures
        fit == forall|k: int|
            from <= k < to ==> if of_ident {
                is_ident_byte(#[trigger] bytes@[k])
            } else {
                is_package_byte(bytes@[k])
            },
{
    let mut at = from;
    while at < to
        invariant
            from <= at <= to <= bytes@.len(),
            forall|k: int|
                from <= k < at ==> if of_ident {
                    is_ident_byte(#[trigger] bytes@[k])
                } else {
                    is_package_byte(bytes@[k])
                },
        decreases to - at,
    {
        let byte = bytes[at];
        let lower = 0x61 <= byte && byte <= 0x7a;
        let digit = 0x30 <= byte && byte <= 0x39;
        let fits = if of_ident {
            lower || digit || (0x41 <= byte && byte <= 0x5a) || byte == 0x5f || byte >= 0x80
        } else {
            lower || digit || byte == 0x2e
        };
        if !fits {
            return false;
        }
        at += 1;
    }
    true
}

/// Whether the two ranges split `value` into the parts of a name: see
/// [`parts_fit`].
pub fn parts_fit_text(value: &str, package: &Range<usize>, ident: &Range<usize>) -> (fit: bool)
    ensures
        fit == parts_fit(
            value.spec_bytes(),
            (package.start as int, package.end as int),
            (ident.start as int, ident.end as int),
        ),
{
    let bytes = value.as_bytes();
    let len = bytes.len();
    let ident_fits = ident.start < ident.end && ident.end == len && 0x41 <= bytes[ident.start]
        && bytes[ident.start] <= 0x5a && all_bytes_fit(bytes, ident.start, ident.end, true);
    if !ident_fits {
        return false;
    }
    if package.start == 0 && package.end == 0 {
        ident.start == 0
    } else {
        package.start == 0 && 2 <= package.end && package.end < len && bytes[0] != 0x2e
            && bytes[package.end] == 0x2e && ident.start == package.end + 1 && all_bytes_fit(
            bytes,
            0,
            package.end,
            false,
        )
    }
}

impl Fqcn {
    /// The parts of the name fit its text.
    pub open spec fn wf(&self) -> bool {
        self@.wf()
    }

    /// The name that `value` is, if it is written as one: see
    /// [`parsed_fqcn`].
    pub fn new(value: &str) -> (fqcn: Option<Fqcn>)
        ensures
            fqcn_view(fqcn) == parsed_fqcn(value@),
            fqcn matches Some(name) ==> name.wf(),
    {
        match captures(FQCN_PATTERN, value) {
            Ok(Some(groups)) => Fqcn::from_captures(value, &groups),
            Ok(None) => None,
            Err(_) => None,
        }
    }

    /// The name that the capture groups of a match of [`FQCN_PATTERN`]
    /// describe in `value`: see [`fqcn_of_groups`]. An identifier alone is
    /// a name without a package.
    pub fn from_captures(value: &str, groups: &Vec<Option<Range<usize>>>) -> (fqcn: Option<Fqcn>)
        ensures
            fqcn_view(fqcn) == fqcn_of_groups(value@, groups_view(groups@)),
            fqcn matches Some(name) ==> name.wf(),
    {
        if groups.len() <= 3 {
            return None;
        }
        let ident = match &groups[3] {
            Some(ident) => ident,
            None => {
                return None;
            },
        };
        let package = match &groups[2] {
            Some(package) => package.start..package.end,
            None => 0..0,
        };
        if parts_fit_text(value, &package, ident) {
            Some(
                Fqcn {
                    value: value.to_owned(),
                    package_range: package,
                    ident_range: ident.start..ident.end,
                },
            )
        } else {
            None
        }
    }

    /// The whole name.
    pub fn value(&self) -> (value: &str)
        ensures
            value@ == self@.value,
    {
        self.value.as_str()
    }

    /// Whether the name has a package.
    pub fn has_package(&self) -> (has: bool)
        ensures
            has == self@.has_package(),
    {
        self.package_range.end > 0
    }

    /// The package, without the dot that ends it; empty where the name has
    /// no package.
    pub fn package(&self) -> (package: &str)
        requires
            self.wf(),
        ensures
            package.spec_bytes() == self@.package_bytes(),
    {
        proof {
            lemma_fqcn_parts_are_text(self@);
        }
        slice(self.value.as_str(), self.package_range.start, self.package_range.end)
    }

    /// The package and the dot behind it; empty where the name has no
    /// package.
    pub fn package_with_trailing(&self) -> (package: &str)
        requires
            self.wf(),
        ensures
            package.spec_bytes() == self@.package_with_trailing_bytes(),
    {
        proof {
            lemma_fqcn_parts_are_text(self@);
            assert(self@.bytes().subrange(0, 0) =~= Seq::<u8>::empty());
        }
        if self.package_range.end > 0 {
            slice(self.value.as_str(), self.package_range.start, self.package_range.end + 1)
        } else {
            slice(self.value.as_str(), 0, 0)
        }
    }

    /// The identifier.
    pub fn ident(&self) -> (ident: &str)
        requires
            self.wf(),
        ensures
            ident.spec_bytes() == self@.ident_bytes(),
    {
        proof {
            lemma_fqcn_parts_are_text(self@);
        }
        slice(self.value.as_str(), self.ident_range.start, self.ident_range.end)
    }
}

} // verus!
