//! Tile-set index files: a small JSON object naming the prefix of a set's layer packs, the kind
//! of data the set holds and the coordinate system it is sampled in.
use vstd::prelude::*;
use vstd::string::StringSliceAdditionalSpecFns;
use crate::tile::{DataSetCoordinates, DataSetDataKind, coordinates_name, kind_name};

verus! {

/// What the JSON parser finds under `key` in `text`: `None` where `text` does not parse,
/// `Some(None)` where the value under `key` is missing or not a string, and `Some(Some(s))`
/// where it is the string `s`.
pub uninterp spec fn json_string_field(text: Seq<char>, key: Seq<char>) -> Option<
    Option<Seq<char>>,
>;

/// The most digits a number's fraction may have: the JSON parser counts them down in a 16-bit
/// exponent.
pub const MAX_FRACTION_DIGITS: usize = 32767;

/// An ASCII decimal digit.
pub open spec fn is_digit(b: u8) -> bool {
    48 <= b <= 57
}

/// Where a scan of JSON text stands: outside string literals, in the digits after a decimal
/// point, inside a string literal, or just after a backslash inside one.
#[derive(Copy, Clone, Debug, PartialEq, Eq, Structural)]
pub enum ScanMode {
    Outside,
    Fraction,
    InString,
    Escaped,
}

/// The scan state after byte `c` outside string literals.
pub open spec fn outside_step(c: u8) -> (ScanMode, int) {
    if c == 34 {
        (ScanMode::InString, 0)
    } else if c == 46 {
        (ScanMode::Fraction, 0)
    } else {
        (ScanMode::Outside, 0)
    }
}

/// The scan state after byte `c`; in a fraction, the state counts its digits so far.
pub open spec fn scan_step(s: (ScanMode, int), c: u8) -> (ScanMode, int) {
    match s.0 {
        ScanMode::InString => if c == 92 {
            (ScanMode::Escaped, 0)
        } else if c == 34 {
            (ScanMode::Outside, 0)
        } else {
            (ScanMode::InString, 0)
        },
        ScanMode::Escaped => (ScanMode::InString, 0),
        ScanMode::Fraction => if is_digit(c) {
            (ScanMode::Fraction, s.1 + 1)
        } else {
            outside_step(c)
        },
        ScanMode::Outside => outside_step(c),
    }
}

/// The scan state at the end of `b`.
pub open spec fn scan(b: Seq<u8>) -> (ScanMode, int)
    decreases b.len(),
{
    if b.len() == 0 {
        (ScanMode::Outside, 0)
    } else {
        scan_step(scan(b.drop_last()), b.last())
    }
}

/// No fraction outside string literals has more than `MAX_FRACTION_DIGITS` digits: no prefix of
/// `b` ends further into a fraction.
pub open spec fn fractions_short(b: Seq<u8>) -> bool {
    forall|k: int| 0 <= k <= b.len() ==> (#[trigger] scan(b.take(k))).1 <= MAX_FRACTION_DIGITS
}

/// Whether every fraction outside the string literals of the JSON text `b` has at most
/// `MAX_FRACTION_DIGITS` digits.
pub fn fractions_are_short(b: &[u8]) -> (r: bool)
    ensures
        r == fractions_short(b@),
{
    let mut mode = ScanMode::Outside;
    let mut run: usize = 0;
    let mut i: usize = 0;
    assert(b@.take(0) =~= Seq::<u8>::empty());
    while i < b.len()
        invariant
            0 <= i <= b@.len(),
            (mode, run as int) == scan(b@.take(i as int)),
            run <= MAX_FRACTION_DIGITS,
            forall|k: int| 0 <= k <= i ==> (#[trigger] scan(b@.take(k))).1 <= MAX_FRACTION_DIGITS,
        decreases b@.len() - i,
    {
        let c = b[i];
        assert(b@.take(i + 1).drop_last() =~= b@.take(i as int));
        assert(b@.take(i + 1).last() == c);
        let (next, count): (ScanMode, usize) = match mode {
            ScanMode::InString => if c == 92 {
                (ScanMode::Escaped, 0)
            } else if c == 34 {
                (ScanMode::Outside, 0)
            } else {
                (ScanMode::InString, 0)
            },
            ScanMode::Escaped => (ScanMode::InString, 0),
            _ => if mode == ScanMode::Fraction && 48 <= c && c <= 57 {
                if run == MAX_FRACTION_DIGITS {
                    assert(scan(b@.take(i + 1)).1 > MAX_FRACTION_DIGITS);
                    return false;
                }
                (ScanMode::Fraction, run + 1)
            } else if c == 34 {
                (ScanMode::InString, 0)
            } else if c == 46 {
                (ScanMode::Fraction, 0)
            } else {
                (ScanMode::Outside, 0)
            },
        };
        mode = next;
        run = count;
        i = i + 1;
    }
    assert(b@.take(b@.len() as int) =~= b@);
    true
}

/// Parse `text` with `json::parse`, look `key` up with `JsonValue`'s string index and read it
/// with `JsonValue::as_str`. The parser counts the digits of a number's fraction down in a 16-bit
/// exponent, which overflows past 32768 digits, so text with a longer fraction outside its
/// string literals is left out.
/// Trusted: the result is what these calls give back for these arguments, as owned strings.
#[verifier::external_body]
fn read_json_string_field(text: &str, key: &str) -> (r: Option<Option<String>>)
    requires
        fractions_short(text.spec_bytes()),
    ensures
        match r {
            None => json_string_field(text@, key@) is None,
            Some(None) => json_string_field(text@, key@) == Some(None::<Seq<char>>),
            Some(Some(s)) => json_string_field(text@, key@) == Some(Some(s@)),
        },
{
    match json::parse(text) {
        Ok(v) => Some(v[key].as_str().map(str::to_owned)),
        Err(_) => None,
    }
}

/// What an index file describes: where its layer packs are, what they hold and how they are
/// sampled.
#[derive(Clone, Debug)]
pub struct TileSetDescriptor {
    pub prefix: String,
    pub kind: DataSetDataKind,
    pub coordinates: DataSetCoordinates,
}

/// Why an index file was refused.
#[derive(Copy, Clone, Debug, PartialEq, Eq, Structural)]
pub enum TileIndexError {
    /// The file is not JSON.
    Malformed,
    /// No prefix string is listed.
    MissingPrefix,
    /// No kind string is listed.
    MissingKind,
    /// The kind is not one of the data kinds.
    UnknownKind,
    /// No coordinates string is listed.
    MissingCoordinates,
    /// The coordinates are not one of the coordinate systems.
    UnknownCoordinates,
    /// The tiles are in polar coordinates, which are not implemented.
    PolarUnsupported,
}

/// The data kind with this name, if any.
pub open spec fn kind_named(s: Seq<char>) -> Option<DataSetDataKind> {
    if s == kind_name(DataSetDataKind::Color) {
        Some(DataSetDataKind::Color)
    } else if s == kind_name(DataSetDataKind::Normal) {
        Some(DataSetDataKind::Normal)
    } else if s == kind_name(DataSetDataKind::Height) {
        Some(DataSetDataKind::Height)
    } else {
        None
    }
}

/// The coordinate system with this name, if any.
pub open spec fn coordinates_named(s: Seq<char>) -> Option<DataSetCoordinates> {
    if s == coordinates_name(DataSetCoordinates::Spherical) {
        Some(DataSetCoordinates::Spherical)
    } else if s == coordinates_name(DataSetCoordinates::CartesianPolar) {
        Some(DataSetCoordinates::CartesianPolar)
    } else {
        None
    }
}

/// The description given by the three fields of an index, or the first thing wrong with them:
/// the prefix, then the kind, then the coordinates.
pub open spec fn describe(
    prefix: Option<Seq<char>>,
    kind: Option<Seq<char>>,
    coordinates: Option<Seq<char>>,
) -> Result<(Seq<char>, DataSetDataKind, DataSetCoordinates), TileIndexError> {
    match prefix {
        None => Err(TileIndexError::MissingPrefix),
        Some(p) => match kind {
            None => Err(TileIndexError::MissingKind),
            Some(k) => match kind_named(k) {
                None => Err(TileIndexError::UnknownKind),
                Some(kk) => match coordinates {
                    None => Err(TileIndexError::MissingCoordinates),
                    Some(c) => match coordinates_named(c) {
                        None => Err(TileIndexError::UnknownCoordinates),
                        Some(cc) => Ok((p, kk, cc)),
                    },
                },
            },
        },
    }
}

/// The view of an optional string.
pub open spec fn opt_view(o: Option<String>) -> Option<Seq<char>> {
    match o {
        Some(s) => Some(s@),
        None => None,
    }
}

/// The outcome of reading an index file: `describe` of its three fields, once it parses.
pub open spec fn index_outcome(text: Seq<char>) -> Result<
    (Seq<char>, DataSetDataKind, DataSetCoordinates),
    TileIndexError,
> {
    match (
        json_string_field(text, "prefix"@),
        json_string_field(text, "kind"@),
        json_string_field(text, "coordinates"@),
    ) {
        (Some(p), Some(k), Some(c)) => describe(p, k, c),
        _ => Err(TileIndexError::Malformed),
    }
}

proof fn lemma_names_distinct()
    ensures
        kind_name(DataSetDataKind::Color) != kind_name(DataSetDataKind::Normal),
        kind_name(DataSetDataKind::Color) != kind_name(DataSetDataKind::Height),
        kind_name(DataSetDataKind::Normal) != kind_name(DataSetDataKind::Height),
        coordinates_name(DataSetCoordinates::Spherical) != coordinates_name(
            DataSetCoordinates::CartesianPolar,
        ),
{
    reveal_strlit("color");
    reveal_strlit("normal");
    reveal_strlit("height");
    reveal_strlit("spherical");
    reveal_strlit("cartesian_polar");
    assert(kind_name(DataSetDataKind::Color).len() != kind_name(DataSetDataKind::Normal).len());
    assert(kind_name(DataSetDataKind::Color)[0] != kind_name(DataSetDataKind::Height)[0]);
    assert(kind_name(DataSetDataKind::Normal)[0] != kind_name(DataSetDataKind::Height)[0]);
    assert(coordinates_name(DataSetCoordinates::Spherical)[0] != coordinates_name(
        DataSetCoordinates::CartesianPolar,
    )[0]);
}

impl TileSetDescriptor {
    /// Whether tiles of this set can be used: only spherical coordinates are implemented.
    pub fn check_supported(&self) -> (r: Result<(), TileIndexError>)
        ensures
            r is Ok <==> self.coordinates == DataSetCoordinates::Spherical,
            r is Err ==> r == Err::<(), TileIndexError>(TileIndexError::PolarUnsupported),
    {
        match self.coordinates {
            DataSetCoordinates::Spherical => Ok(()),
            DataSetCoordinates::CartesianPolar => Err(TileIndexError::PolarUnsupported),
        }
    }

    /// The description given by the three fields of an index.
    pub fn from_fields(
        prefix: Option<String>,
        kind: Option<String>,
        coordinates: Option<String>,
    ) -> (r: Result<TileSetDescriptor, TileIndexError>)
        ensures
            match r {
                Ok(d) => describe(opt_view(prefix), opt_view(kind), opt_view(coordinates)) == Ok::<
                    (Seq<char>, DataSetDataKind, DataSetCoordinates),
                    TileIndexError,
                >((d.prefix@, d.kind, d.coordinates)),
                Err(e) => describe(opt_view(prefix), opt_view(kind), opt_view(coordinates)) == Err::<
                    (Seq<char>, DataSetDataKind, DataSetCoordinates),
                    TileIndexError,
                >(e),
            },
    {
        proof {
            lemma_names_distinct();
        }
        let prefix = match prefix {
            Some(p) => p,
            None => return Err(TileIndexError::MissingPrefix),
        };
        let kind = match kind {
            Some(k) => match DataSetDataKind::from_name(k.as_str()) {
                Ok(k) => k,
                Err(_) => return Err(TileIndexError::UnknownKind),
            },
            None => return Err(TileIndexError::MissingKind),
        };
        let coordinates = match coordinates {
            Some(c) => match DataSetCoordinates::from_name(c.as_str()) {
                Ok(c) => c,
                Err(_) => return Err(TileIndexError::UnknownCoordinates),
            },
            None => return Err(TileIndexError::MissingCoordinates),
        };
        Ok(TileSetDescriptor { prefix, kind, coordinates })
    }

    /// Read the text of an index file. Text holding a number whose fraction has more than
    /// `MAX_FRACTION_DIGITS` digits is refused as malformed without being parsed.
    pub fn from_index(text: &str) -> (r: Result<TileSetDescriptor, TileIndexError>)
        ensures
            !fractions_short(text.spec_bytes()) ==> r == Err::<TileSetDescriptor, TileIndexError>(
                TileIndexError::Malformed,
            ),
            fractions_short(text.spec_bytes()) ==> match r {
                Ok(d) => index_outcome(text@) == Ok::<
                    (Seq<char>, DataSetDataKind, DataSetCoordinates),
                    TileIndexError,
                >((d.prefix@, d.kind, d.coordinates)),
                Err(e) => index_outcome(text@) == Err::<
                    (Seq<char>, DataSetDataKind, DataSetCoordinates),
                    TileIndexError,
                >(e),
            },
    {
        if !fractions_are_short(text.as_bytes()) {
            return Err(TileIndexError::Malformed);
        }
        let prefix = read_json_string_field(text, "prefix");
        let kind = read_json_string_field(text, "kind");
        let coordinates = read_json_string_field(text, "coordinates");
        match (prefix, kind, coordinates) {
            (Some(p), Some(k), Some(c)) => {
                assert(opt_view(p) == json_string_field(text@, "prefix"@)->Some_0);
                assert(opt_view(k) == json_string_field(text@, "kind"@)->Some_0);
                assert(opt_view(c) == json_string_field(text@, "coordinates"@)->Some_0);
                Self::from_fields(p, k, c)
            },
            _ => Err(TileIndexError::Malformed),
        }
    }
}

} // verus!
