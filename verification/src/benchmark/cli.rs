//! Reading the benchmark's `--dataset` and `--methods` arguments.
use vstd::prelude::*;

use crate::benchmark::datasets::Dataset;
use crate::benchmark::runner::{all_methods, Method};
use crate::text::{
    chars_of, decimal, parse_usize, parse_usize_range, push_decimal, range_is, ranges_spell,
    split_on, split_ranges, starts_with, trim, trim_range, NumberError,
};

verus! {

/// Why a command-line argument was refused.
#[derive(Debug, PartialEq, Eq)]
pub enum CliError {
    /// `--dataset` named no known dataset.
    UnknownDataset(String),
    /// A `random:N:D` field is not a `usize`.
    InvalidNumber(NumberError),
    /// A random dataset's dimension is not a multiple of 8.
    DimNotMultipleOf8(usize),
    /// A `--methods` entry (trimmed) names no known method.
    UnknownMethod(String),
}

/// [`CliError`] with its text as characters.
pub enum CliErrorView {
    UnknownDataset(Seq<char>),
    InvalidNumber(NumberError),
    DimNotMultipleOf8(usize),
    UnknownMethod(Seq<char>),
}

impl View for CliError {
    type V = CliErrorView;

    open spec fn view(&self) -> CliErrorView {
        match self {
            CliError::UnknownDataset(s) => CliErrorView::UnknownDataset(s@),
            CliError::InvalidNumber(e) => CliErrorView::InvalidNumber(*e),
            CliError::DimNotMultipleOf8(d) => CliErrorView::DimNotMultipleOf8(*d),
            CliError::UnknownMethod(s) => CliErrorView::UnknownMethod(s@),
        }
    }
}

/// The text a number error is reported with, as `ParseIntError` shows it.
pub open spec fn number_error_message(e: NumberError) -> Seq<char> {
    match e {
        NumberError::Empty => "cannot parse integer from empty string"@,
        NumberError::InvalidDigit => "invalid digit found in string"@,
        NumberError::PosOverflow => "number too large to fit in target type"@,
    }
}

/// The text an error is reported with.
pub open spec fn error_message(e: CliErrorView) -> Seq<char> {
    match e {
        CliErrorView::UnknownDataset(s) => "unknown dataset: "@ + s,
        CliErrorView::InvalidNumber(e) => number_error_message(e),
        CliErrorView::DimNotMultipleOf8(d) => "random dataset dim must be a multiple of 8 (got "@
            + decimal(d as nat) + ")"@,
        CliErrorView::UnknownMethod(s) => "unknown method: "@ + s,
    }
}

impl CliError {
    /// The error as a line of text.
    pub fn message(&self) -> (m: String)
        ensures
            m@ == error_message(self@),
    {
        match self {
            CliError::UnknownDataset(s) => {
                let mut m = String::from_str("unknown dataset: ");
                m.append(s.as_str());
                m
            },
            CliError::InvalidNumber(NumberError::Empty) => String::from_str(
                "cannot parse integer from empty string",
            ),
            CliError::InvalidNumber(NumberError::InvalidDigit) => String::from_str(
                "invalid digit found in string",
            ),
            CliError::InvalidNumber(NumberError::PosOverflow) => String::from_str(
                "number too large to fit in target type",
            ),
            CliError::DimNotMultipleOf8(d) => {
                let mut m = String::from_str("random dataset dim must be a multiple of 8 (got ");
                push_decimal(&mut m, *d);
                m.append(")");
                m
            },
            CliError::UnknownMethod(s) => {
                let mut m = String::from_str("unknown method: ");
                m.append(s.as_str());
                m
            },
        }
    }
}

/// Number of vectors of `random` when the argument gives none.
pub const DEFAULT_RANDOM_N: usize = 100_000;

/// Dimension of `random` when the argument gives none.
pub const DEFAULT_RANDOM_DIM: usize = 128;

/// Field `i` of a `random:N:D` argument read as a number, `Ok(default)`
/// when the field is absent.
pub open spec fn random_field(parts: Seq<Seq<char>>, i: int, default: usize) -> Result<
    usize,
    NumberError,
> {
    if parts.len() > i {
        parse_usize(parts[i])
    } else {
        Ok(default)
    }
}

/// `random`, `random:N` or `random:N:D` (anything after `random` up to
/// the first `:` is ignored, as are fields after the second).
pub open spec fn random_dataset(s: Seq<char>) -> Result<Dataset, CliErrorView> {
    let parts = split_on(s, ':');
    match random_field(parts, 1, DEFAULT_RANDOM_N) {
        Err(e) => Err(CliErrorView::InvalidNumber(e)),
        Ok(n) => match random_field(parts, 2, DEFAULT_RANDOM_DIM) {
            Err(e) => Err(CliErrorView::InvalidNumber(e)),
            Ok(dim) => if dim % 8 != 0 {
                Err(CliErrorView::DimNotMultipleOf8(dim))
            } else {
                Ok(Dataset::Random { n, dim })
            },
        },
    }
}

/// The dataset a `--dataset` argument names.
pub open spec fn dataset_of(s: Seq<char>) -> Result<Dataset, CliErrorView> {
    if s == "sift-1m"@ || s == "sift"@ || s == "sift-128"@ {
        Ok(Dataset::Sift1M)
    } else if s == "glove-100"@ || s == "glove"@ {
        Ok(Dataset::GloVe100)
    } else if "random"@.len() <= s.len() && s.subrange(0, "random"@.len() as int) == "random"@ {
        random_dataset(s)
    } else {
        Err(CliErrorView::UnknownDataset(s))
    }
}

fn text_of(spec: &str, lo: usize, hi: usize) -> (t: String)
    requires
        lo <= hi <= spec@.len(),
    ensures
        t@ == spec@.subrange(lo as int, hi as int),
{
    String::from_str(spec.substring_char(lo, hi))
}

/// Read field `i` of a `random:N:D` argument whose `:`-separated pieces
/// are `parts`.
fn read_random_field(
    c: &Vec<char>,
    parts: &Vec<(usize, usize)>,
    i: usize,
    default: usize,
) -> (r: Result<usize, NumberError>)
    requires
        ranges_spell(c@, parts@, split_on(c@, ':'), c@.len() as int),
    ensures
        r == random_field(split_on(c@, ':'), i as int, default),
{
    if parts.len() > i {
        let (lo, hi) = parts[i];
        assert(c@.subrange(lo as int, hi as int) == split_on(c@, ':')[i as int]);
        parse_usize_range(c, lo, hi)
    } else {
        Ok(default)
    }
}

/// Parse a `--dataset` argument: `sift-1m` (or `sift`, `sift-128`),
/// `glove-100` (or `glove`), or `random[:N[:D]]`.
pub fn parse_dataset(spec: &str) -> (r: Result<Dataset, CliError>)
    ensures
        match r {
            Ok(d) => dataset_of(spec@) == Ok::<Dataset, CliErrorView>(d),
            Err(e) => dataset_of(spec@) == Err::<Dataset, CliErrorView>(e@),
        },
{
    let c = chars_of(spec);
    let n = c.len();
    assert(c@.subrange(0, n as int) =~= c@);
    if range_is(&c, 0, n, "sift-1m") || range_is(&c, 0, n, "sift") || range_is(
        &c,
        0,
        n,
        "sift-128",
    ) {
        return Ok(Dataset::Sift1M);
    }
    if range_is(&c, 0, n, "glove-100") || range_is(&c, 0, n, "glove") {
        return Ok(Dataset::GloVe100);
    }
    if starts_with(&c, "random") {
        let parts = split_ranges(&c, ':');
        let nv = match read_random_field(&c, &parts, 1, DEFAULT_RANDOM_N) {
            Ok(v) => v,
            Err(e) => {
                return Err(CliError::InvalidNumber(e));
            },
        };
        let dim = match read_random_field(&c, &parts, 2, DEFAULT_RANDOM_DIM) {
            Ok(v) => v,
            Err(e) => {
                return Err(CliError::InvalidNumber(e));
            },
        };
        if dim % 8 != 0 {
            return Err(CliError::DimNotMultipleOf8(dim));
        }
        return Ok(Dataset::Random { n: nv, dim });
    }
    Err(CliError::UnknownDataset(String::from_str(spec)))
}

/// The method a trimmed `--methods` entry names.
pub open spec fn method_of(t: Seq<char>) -> Option<Method> {
    if t == "turbovec"@ || t == "tv"@ {
        Some(Method::TurboVec)
    } else if t == "planar"@ || t == "planar2"@ || t == "rv-planar"@ {
        Some(Method::RvPlanar2)
    } else if t == "rotor"@ || t == "rotor3"@ || t == "rv-rotor"@ {
        Some(Method::RvRotor3)
    } else if t == "iso"@ || t == "iso4"@ || t == "rv-iso"@ {
        Some(Method::RvIso4)
    } else {
        None
    }
}

/// Whether every entry names a method.
pub open spec fn all_known(pieces: Seq<Seq<char>>) -> bool {
    forall|k: int| 0 <= k < pieces.len() ==> #[trigger] method_of(trim(pieces[k])) is Some
}

/// Index of the first entry that names no method.
pub open spec fn first_unknown(pieces: Seq<Seq<char>>) -> int {
    choose|j: int|
        0 <= j < pieces.len() && method_of(trim(pieces[j])) is None && forall|k: int|
            0 <= k < j ==> #[trigger] method_of(trim(pieces[k])) is Some
}

/// The methods a `--methods` argument names: `all`, or a comma-separated
/// list whose entries are trimmed; the first unknown entry is the error.
pub open spec fn methods_of(s: Seq<char>) -> Result<Seq<Method>, CliErrorView> {
    if s == "all"@ {
        Ok(all_methods())
    } else {
        let pieces = split_on(s, ',');
        if all_known(pieces) {
            Ok(Seq::new(pieces.len(), |k: int| method_of(trim(pieces[k])).unwrap()))
        } else {
            Err(CliErrorView::UnknownMethod(trim(pieces[first_unknown(pieces)])))
        }
    }
}

fn method_at(c: &Vec<char>, a: usize, b: usize) -> (m: Option<Method>)
    requires
        a <= b <= c@.len(),
    ensures
        m == method_of(c@.subrange(a as int, b as int)),
{
    if range_is(c, a, b, "turbovec") || range_is(c, a, b, "tv") {
        Some(Method::TurboVec)
    } else if range_is(c, a, b, "planar") || range_is(c, a, b, "planar2") || range_is(
        c,
        a,
        b,
        "rv-planar",
    ) {
        Some(Method::RvPlanar2)
    } else if range_is(c, a, b, "rotor") || range_is(c, a, b, "rotor3") || range_is(
        c,
        a,
        b,
        "rv-rotor",
    ) {
        Some(Method::RvRotor3)
    } else if range_is(c, a, b, "iso") || range_is(c, a, b, "iso4") || range_is(c, a, b, "rv-iso") {
        Some(Method::RvIso4)
    } else {
        None
    }
}

/// Parse a `--methods` argument: `all`, or a comma-separated list of
/// `turbovec`/`tv`, `planar`/`planar2`/`rv-planar`, `rotor`/`rotor3`/`rv-rotor`,
/// `iso`/`iso4`/`rv-iso`, each possibly surrounded by whitespace.
pub fn parse_methods(spec: &str) -> (r: Result<Vec<Method>, CliError>)
    ensures
        match r {
            Ok(v) => methods_of(spec@) == Ok::<Seq<Method>, CliErrorView>(v@),
            Err(e) => methods_of(spec@) == Err::<Seq<Method>, CliErrorView>(e@),
        },
{
    let c = chars_of(spec);
    let n = c.len();
    assert(c@.subrange(0, n as int) =~= c@);
    if range_is(&c, 0, n, "all") {
        return Ok(vstd::slice::slice_to_vec(Method::all()));
    }
    let parts = split_ranges(&c, ',');
    let ghost pieces = split_on(c@, ',');
    let mut out: Vec<Method> = Vec::new();
    for k in 0..parts.len()
        invariant
            c@ == spec@,
            spec@ != "all"@,
            pieces == split_on(c@, ','),
            ranges_spell(c@, parts@, pieces, c@.len() as int),
            out@.len() == k,
            forall|j: int| 0 <= j < k ==> #[trigger] method_of(trim(pieces[j])) is Some,
            forall|j: int|
                0 <= j < k ==> out@[j] == #[trigger] method_of(trim(pieces[j])).unwrap(),
    {
        let (lo, hi) = parts[k];
        assert(c@.subrange(lo as int, hi as int) == pieces[k as int]);
        let (a, b) = trim_range(&c, lo, hi);
        match method_at(&c, a, b) {
            Some(m) => {
                out.push(m);
            },
            None => {
                proof {
                    let j = first_unknown(pieces);
                    assert(method_of(trim(pieces[k as int])) is None);
                    assert(!all_known(pieces));
                    assert(j == k as int) by {
                        assert(0 <= k < pieces.len() && method_of(trim(pieces[k as int])) is None
                            && forall|i: int|
                            0 <= i < k ==> #[trigger] method_of(trim(pieces[i])) is Some);
                        if j < k {
                            assert(method_of(trim(pieces[j])) is Some);
                        } else if j > k {
                            assert(method_of(trim(pieces[k as int])) is Some);
                        }
                    }
                }
                return Err(CliError::UnknownMethod(text_of(spec, a, b)));
            },
        }
    }
    assert(all_known(pieces));
    assert(out@ =~= Seq::new(pieces.len(), |j: int| method_of(trim(pieces[j])).unwrap()));
    Ok(out)
}

} // verus!
