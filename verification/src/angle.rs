//! Angles tagged with their unit: conversion between the units, the
//! degrees, minutes and seconds of an angle, and the text form that angles
//! are read from and written to.
//!
//! An [`Angle`] carries its magnitude in whatever representation the caller
//! works with, and everything here that depends on the unit alone works for
//! any of them. Where a magnitude has to be scaled or counted, the caller
//! hands in the function that does so; what is done with the result is
//! decided here. Degrees, minutes and seconds are split off whole
//! arc-seconds, exactly. The text form is a magnitude followed by a unit
//! mark: reading finds the unit and the text of the magnitude, writing puts
//! the unit's sign behind it.

use vstd::prelude::*;
use vstd::string::*;

verus! {

/// The mark that ends the text of an angle in degrees when it is read.
pub const DEGREE_MARK: char = '\u{ba}';

/// The sign that is written behind an angle in degrees.
pub const DEGREE_SIGN: char = '\u{b0}';

/// The arc-seconds in a degree.
pub const ARCSECONDS_PER_DEGREE: i64 = 3600;

/// The arc-seconds in a minute.
pub const ARCSECONDS_PER_MINUTE: i64 = 60;

/// An angle: a magnitude tagged with the unit it is measured in.
#[derive(Clone, Copy, Debug, PartialEq, Eq)]
pub enum Angle<T> {
    /// An angle in degrees, where one degree is 1/360 of a circle.
    Degrees(T),
    /// An angle in radians, where a full circle is 2 pi radians.
    Radians(T),
}

/// `std::num::ParseFloatError`, the error of parsing a floating-point
/// number. Nothing is known of what is inside: it is carried along.
#[verifier::external_type_specification]
#[verifier::external_body]
pub struct ExParseFloatError(std::num::ParseFloatError);

/// `Clone::clone` of `std::num::ParseFloatError`: the copy equals the error
/// it was made from.
pub assume_specification[ <std::num::ParseFloatError as Clone>::clone ](
    cause: &std::num::ParseFloatError,
) -> (copy: std::num::ParseFloatError)
    ensures
        copy == *cause,
;

/// Why a text could not be read as an angle.
#[derive(Debug, Clone, PartialEq, Eq)]
pub enum ParseAngleError {
    /// The text ends in neither unit mark.
    UnrecognizedUnit,
    /// The magnitude is not a number; the cause is kept.
    ParseFloatError(std::num::ParseFloatError),
}

/// The characters with the Unicode property White_Space.
pub open spec fn white_space(c: char) -> bool {
    let n = c as u32;
    ||| 0x09 <= n <= 0x0d
    ||| n == 0x20
    ||| n == 0x85
    ||| n == 0xa0
    ||| n == 0x1680
    ||| 0x2000 <= n <= 0x200a
    ||| n == 0x2028
    ||| n == 0x2029
    ||| n == 0x202f
    ||| n == 0x205f
    ||| n == 0x3000
}

/// The mark of degrees, as text.
pub open spec fn degree_mark() -> Seq<char> {
    seq![DEGREE_MARK]
}

/// The mark of radians, as text.
pub open spec fn radian_mark() -> Seq<char> {
    seq!['r', 'a', 'd', '.']
}

/// `text` ends with `mark`.
pub open spec fn ends_with(text: Seq<char>, mark: Seq<char>) -> bool {
    mark.len() <= text.len() && text.subrange(text.len() - mark.len(), text.len() as int) == mark
}

/// `text` without the white space that it ends with.
pub open spec fn trim_end(text: Seq<char>) -> Seq<char>
    decreases text.len(),
{
    if text.len() > 0 && white_space(text.last()) {
        trim_end(text.drop_last())
    } else {
        text
    }
}

/// The text of the magnitude in `text`, which ends with `mark`: what is
/// left when the one mark at the end and then the white space before it
/// are taken off.
pub open spec fn magnitude_text(text: Seq<char>, mark: Seq<char>) -> Seq<char> {
    trim_end(text.subrange(0, text.len() - mark.len()))
}

/// What `text` reads as: degrees if it ends with the degree mark, else
/// radians if it ends with the radian mark, else nothing.
pub open spec fn parse_spec(text: Seq<char>) -> Option<Angle<Seq<char>>> {
    if ends_with(text, degree_mark()) {
        Some(Angle::Degrees(magnitude_text(text, degree_mark())))
    } else if ends_with(text, radian_mark()) {
        Some(Angle::Radians(magnitude_text(text, radian_mark())))
    } else {
        None
    }
}

/// What an angle is written as: its magnitude and the degree sign, or its
/// magnitude, a space and the radian mark.
pub open spec fn format_spec(angle: Angle<Seq<char>>) -> Seq<char> {
    match angle {
        Angle::Degrees(magnitude) => magnitude.push(DEGREE_SIGN),
        Angle::Radians(magnitude) => magnitude.push(' ') + radian_mark(),
    }
}

/// `x`, or the nearest `i32` if `x` is none.
pub open spec fn saturate(x: int) -> i32 {
    if x < i32::MIN {
        i32::MIN
    } else if x > i32::MAX {
        i32::MAX
    } else {
        x as i32
    }
}

/// The whole degrees in `total` arc-seconds, cut off toward zero.
pub open spec fn whole_degrees(total: int) -> int {
    if total >= 0 {
        total / (ARCSECONDS_PER_DEGREE as int)
    } else {
        -((-total) / (ARCSECONDS_PER_DEGREE as int))
    }
}

/// The degrees, minutes and seconds of `total` arc-seconds: the whole
/// degrees, the whole minutes of what is left, and the seconds left after
/// those. Below zero only the whole degrees are kept: minutes and seconds
/// are never negative, and there they are 0.
pub open spec fn dms_of(total: int) -> (i32, u32, u32) {
    if total >= 0 {
        let rest = total % (ARCSECONDS_PER_DEGREE as int);
        (
            saturate(whole_degrees(total)),
            (rest / (ARCSECONDS_PER_MINUTE as int)) as u32,
            (rest % (ARCSECONDS_PER_MINUTE as int)) as u32,
        )
    } else {
        (saturate(whole_degrees(total)), 0u32, 0u32)
    }
}

/// The arc-seconds in `theta.0` degrees, `theta.1` minutes and `theta.2`
/// seconds.
pub open spec fn arcseconds_of(theta: (i32, u32, u32)) -> int {
    ARCSECONDS_PER_DEGREE * theta.0 + ARCSECONDS_PER_MINUTE * theta.1 + theta.2
}

impl<T> Angle<T> {
    /// The magnitude, whatever the unit.
    pub open spec fn magnitude(self) -> T {
        match self {
            Angle::Degrees(magnitude) => magnitude,
            Angle::Radians(magnitude) => magnitude,
        }
    }

    /// The magnitude that this angle wraps.
    pub fn unwrap(self) -> (magnitude: T)
        ensures
            magnitude == self.magnitude(),
    {
        match self {
            Angle::Degrees(magnitude) => magnitude,
            Angle::Radians(magnitude) => magnitude,
        }
    }

    /// Whether the angle is in degrees.
    pub fn is_degrees(&self) -> (degrees: bool)
        ensures
            degrees == (self is Degrees),
    {
        match self {
            Angle::Degrees(_) => true,
            Angle::Radians(_) => false,
        }
    }

    /// Whether the angle is in radians.
    pub fn is_radians(&self) -> (radians: bool)
        ensures
            radians == (self is Radians),
    {
        match self {
            Angle::Degrees(_) => false,
            Angle::Radians(_) => true,
        }
    }

    /// `deg` is the magnitude of this angle in degrees: the magnitude itself
    /// for an angle in degrees, else what `scale` makes of it.
    pub open spec fn in_degrees<F: FnOnce(T) -> T>(self, scale: F, deg: T) -> bool {
        match self {
            Angle::Degrees(magnitude) => deg == magnitude,
            Angle::Radians(magnitude) => call_ensures(scale, (magnitude,), deg),
        }
    }

    /// `rad` is the magnitude of this angle in radians: the magnitude itself
    /// for an angle in radians, else what `scale` makes of it.
    pub open spec fn in_radians<F: FnOnce(T) -> T>(self, scale: F, rad: T) -> bool {
        match self {
            Angle::Degrees(magnitude) => call_ensures(scale, (magnitude,), rad),
            Angle::Radians(magnitude) => rad == magnitude,
        }
    }

    /// The angle in degrees. An angle already in degrees is returned as it
    /// is; the magnitude of an angle in radians is converted by `scale`.
    pub fn to_degrees<F: FnOnce(T) -> T>(self, scale: F) -> (converted: Angle<T>)
        requires
            self matches Angle::Radians(rad) ==> call_requires(scale, (rad,)),
        ensures
            converted matches Angle::Degrees(deg) && self.in_degrees(scale, deg),
            self is Degrees ==> converted == self,
    {
        match self {
            Angle::Degrees(deg) => Angle::Degrees(deg),
            Angle::Radians(rad) => Angle::Degrees(scale(rad)),
        }
    }

    /// The angle in radians. An angle already in radians is returned as it
    /// is; the magnitude of an angle in degrees is converted by `scale`.
    pub fn to_radians<F: FnOnce(T) -> T>(self, scale: F) -> (converted: Angle<T>)
        requires
            self matches Angle::Degrees(deg) ==> call_requires(scale, (deg,)),
        ensures
            converted matches Angle::Radians(rad) && self.in_radians(scale, rad),
            self is Radians ==> converted == self,
    {
        match self {
            Angle::Degrees(deg) => Angle::Radians(scale(deg)),
            Angle::Radians(rad) => Angle::Radians(rad),
        }
    }

    /// The degrees, minutes and seconds of the angle. The angle is taken in
    /// degrees, as `scale` converts it; `whole_arcseconds` says how many
    /// whole arc-seconds that magnitude holds, and these are split.
    pub fn to_dms<F: FnOnce(T) -> T, W: FnOnce(T) -> i64>(
        self,
        scale: F,
        whole_arcseconds: W,
    ) -> (dms: (i32, u32, u32))
        requires
            self matches Angle::Radians(rad) ==> call_requires(scale, (rad,)),
            forall|deg: T| self.in_degrees(scale, deg) ==> call_requires(whole_arcseconds, (deg,)),
        ensures
            exists|deg: T, total: i64|
                self.in_degrees(scale, deg) && #[trigger] call_ensures(
                    whole_arcseconds,
                    (deg,),
                    total,
                ) && dms == dms_of(total as int),
            dms.1 < 60,
            dms.2 < 60,
    {
        let degrees = self.to_degrees(scale).unwrap();
        let total = whole_arcseconds(degrees);
        split_arcseconds(total)
    }

    /// The angle of `theta.0` degrees, `theta.1` minutes and `theta.2`
    /// seconds, in degrees: `degrees` turns the arc-seconds they add up to
    /// into a magnitude.
    pub fn from_dms<D: FnOnce(i64) -> T>(theta: (i32, u32, u32), degrees: D) -> (angle: Angle<T>)
        requires
            call_requires(degrees, (arcseconds_of(theta) as i64,)),
        ensures
            angle matches Angle::Degrees(deg) && call_ensures(
                degrees,
                (arcseconds_of(theta) as i64,),
                deg,
            ),
    {
        Angle::Degrees(degrees(join_arcseconds(theta)))
    }
}

impl Angle<String> {
    /// The angle with its magnitude as a sequence of characters.
    pub open spec fn text(self) -> Angle<Seq<char>> {
        match self {
            Angle::Degrees(magnitude) => Angle::Degrees(magnitude@),
            Angle::Radians(magnitude) => Angle::Radians(magnitude@),
        }
    }

    /// Reads the unit and the magnitude's text from `text`. The text must
    /// end with the degree mark or with the radian mark; that one mark, and
    /// the white space before it, are no part of the magnitude.
    pub fn parse(text: &str) -> (parsed: Result<Angle<String>, ParseAngleError>)
        ensures
            match parse_spec(text@) {
                Some(angle) => parsed matches Ok(read) && read.text() == angle,
                None => parsed matches Err(error) && error is UnrecognizedUnit,
            },
    {
        let len = text.unicode_len();
        assert(text@.subrange(0, len as int) =~= text@);
        if ends_with_degree_mark(text, len) {
            let end = trimmed_len(text, len - 1);
            Ok(Angle::Degrees(String::from_str(text.substring_char(0, end))))
        } else if ends_with_radian_mark(text, len) {
            let end = trimmed_len(text, len - 4);
            Ok(Angle::Radians(String::from_str(text.substring_char(0, end))))
        } else {
            Err(ParseAngleError::UnrecognizedUnit)
        }
    }

    /// The angle with the magnitude that its text was read as, or the error
    /// of reading it: `read` is what reading the magnitude's text as a
    /// number gave. The unit stays; a failure is kept as the cause.
    pub fn with_magnitude<T>(self, read: Result<T, std::num::ParseFloatError>) -> (angle: Result<
        Angle<T>,
        ParseAngleError,
    >)
        ensures
            match read {
                Ok(value) => angle matches Ok(made) && made.magnitude() == value && (made
                    is Degrees <==> self is Degrees),
                Err(cause) => angle matches Err(error) && error
                    == ParseAngleError::ParseFloatError(cause),
            },
    {
        match read {
            Ok(value) => match self {
                Angle::Degrees(_) => Ok(Angle::Degrees(value)),
                Angle::Radians(_) => Ok(Angle::Radians(value)),
            },
            Err(cause) => Err(ParseAngleError::ParseFloatError(cause)),
        }
    }

    /// Writes the angle: the magnitude and the sign of its unit.
    pub fn format(&self) -> (text: String)
        ensures
            text@ == format_spec(self.text()),
    {
        proof {
            reveal_strlit("\u{b0}");
            reveal_strlit(" rad.");
        }
        match self {
            Angle::Degrees(magnitude) => {
                let mut text = magnitude.clone();
                text.append("\u{b0}");
                assert(text@ =~= format_spec(self.text()));
                text
            },
            Angle::Radians(magnitude) => {
                let mut text = magnitude.clone();
                text.append(" rad.");
                assert(text@ =~= format_spec(self.text()));
                text
            },
        }
    }
}

impl ParseAngleError {
    /// What the error says: for an unrecognized unit a fixed sentence, for
    /// a magnitude that is no number what its cause says.
    pub fn message(&self) -> (text: String)
        ensures
            match self {
                ParseAngleError::UnrecognizedUnit => text@
                    == "Could not determine if the angle is in degrees or radians"@,
                ParseAngleError::ParseFloatError(cause) => to_string_from_display_ensures(
                    cause,
                    text,
                ),
            },
    {
        match self {
            ParseAngleError::UnrecognizedUnit => String::from_str(
                "Could not determine if the angle is in degrees or radians",
            ),
            ParseAngleError::ParseFloatError(cause) => cause.to_string(),
        }
    }

    /// The error that caused this one, if there is one.
    pub fn source(&self) -> (cause: Option<&std::num::ParseFloatError>)
        ensures
            match self {
                ParseAngleError::UnrecognizedUnit => cause is None,
                ParseAngleError::ParseFloatError(inner) => cause == Some(inner),
            },
    {
        match self {
            ParseAngleError::UnrecognizedUnit => None,
            ParseAngleError::ParseFloatError(inner) => Some(inner),
        }
    }
}

/// Splits `total` arc-seconds into degrees, minutes and seconds.
pub fn split_arcseconds(total: i64) -> (dms: (i32, u32, u32))
    ensures
        dms == dms_of(total as int),
        dms.1 < 60,
        dms.2 < 60,
{
    if total >= 0 {
        let whole: i64 = total / ARCSECONDS_PER_DEGREE;
        let rest: i64 = total % ARCSECONDS_PER_DEGREE;
        let degrees: i32 = if whole > i32::MAX as i64 {
            i32::MAX
        } else {
            whole as i32
        };
        (
            degrees,
            (rest / ARCSECONDS_PER_MINUTE) as u32,
            (rest % ARCSECONDS_PER_MINUTE) as u32,
        )
    } else {
        // -total, which an i64 cannot hold for the least total
        let below: u64 = (-(total + 1)) as u64 + 1;
        let whole: u64 = below / (ARCSECONDS_PER_DEGREE as u64);
        let degrees: i32 = if whole > 0x8000_0000 {
            i32::MIN
        } else {
            (-(whole as i64)) as i32
        };
        (degrees, 0, 0)
    }
}

/// Adds up degrees, minutes and seconds to arc-seconds.
pub fn join_arcseconds(theta: (i32, u32, u32)) -> (total: i64)
    ensures
        total == arcseconds_of(theta),
{
    ARCSECONDS_PER_DEGREE * (theta.0 as i64) + ARCSECONDS_PER_MINUTE * (theta.1 as i64) + (
    theta.2 as i64)
}

/// Whether `c` has the Unicode property White_Space.
pub fn is_white_space(c: char) -> (white: bool)
    ensures
        white == white_space(c),
{
    let n = c as u32;
    (0x09 <= n && n <= 0x0d) || n == 0x20 || n == 0x85 || n == 0xa0 || n == 0x1680 || (0x2000 <= n
        && n <= 0x200a) || n == 0x2028 || n == 0x2029 || n == 0x202f || n == 0x205f || n == 0x3000
}

/// Whether the first `end` characters of `text` end with the degree mark.
fn ends_with_degree_mark(text: &str, end: usize) -> (ends: bool)
    requires
        end <= text@.len(),
    ensures
        ends == ends_with(text@.subrange(0, end as int), degree_mark()),
{
    let ends = end >= 1 && text.get_char(end - 1) == DEGREE_MARK;
    proof {
        let prefix = text@.subrange(0, end as int);
        if end >= 1 {
            assert(prefix.subrange(prefix.len() - 1, prefix.len() as int)[0] == text@[end - 1]);
            if ends {
                assert(prefix.subrange(prefix.len() - 1, prefix.len() as int) =~= degree_mark());
            }
        }
    }
    ends
}

/// Whether the first `end` characters of `text` end with the radian mark.
fn ends_with_radian_mark(text: &str, end: usize) -> (ends: bool)
    requires
        end <= text@.len(),
    ensures
        ends == ends_with(text@.subrange(0, end as int), radian_mark()),
{
    let ends = end >= 4 && text.get_char(end - 4) == 'r' && text.get_char(end - 3) == 'a'
        && text.get_char(end - 2) == 'd' && text.get_char(end - 1) == '.';
    proof {
        let prefix = text@.subrange(0, end as int);
        if end >= 4 {
            let tail = prefix.subrange(prefix.len() - 4, prefix.len() as int);
            assert(tail[0] == text@[end - 4]);
            assert(tail[1] == text@[end - 3]);
            assert(tail[2] == text@[end - 2]);
            assert(tail[3] == text@[end - 1]);
            if ends {
                assert(tail =~= radian_mark());
            }
        }
    }
    ends
}

/// The length of the first `end` characters of `text` without the white
/// space that they end with.
fn trimmed_len(text: &str, end: usize) -> (trimmed: usize)
    requires
        end <= text@.len(),
    ensures
        trimmed <= end,
        text@.subrange(0, trimmed as int) == trim_end(text@.subrange(0, end as int)),
{
    let mut trimmed = end;
    while trimmed > 0 && is_white_space(text.get_char(trimmed - 1))
        invariant
            trimmed <= end <= text@.len(),
            trim_end(text@.subrange(0, end as int)) == trim_end(
                text@.subrange(0, trimmed as int),
            ),
        decreases trimmed,
    {
        proof {
            let prefix = text@.subrange(0, trimmed as int);
            assert(prefix.drop_last() =~= text@.subrange(0, trimmed - 1));
        }
        trimmed -= 1;
    }
    trimmed
}

/// An angle in radians that is written and read again is the same angle,
/// provided that its magnitude's text ends with no white space.
pub proof fn lemma_radians_round_trip(magnitude: Seq<char>)
    requires
        magnitude.len() > 0 ==> !white_space(magnitude.last()),
    ensures
        parse_spec(format_spec(Angle::Radians(magnitude))) == Some(Angle::Radians(magnitude)),
{
    let spaced = magnitude.push(' ');
    let written = format_spec(Angle::Radians(magnitude));
    assert(written.subrange(written.len() - 1, written.len() as int)[0] == '.');
    assert(written.subrange(written.len() - 4, written.len() as int) =~= radian_mark());
    assert(written.subrange(0, written.len() - 4) =~= spaced);
    assert(spaced.drop_last() =~= magnitude);
    assert(trim_end(spaced) == trim_end(magnitude));
}

/// An angle in degrees is written with the degree sign, which is not the
/// mark that reading asks for: what is written does not read back.
pub proof fn lemma_degrees_written_not_read(magnitude: Seq<char>)
    ensures
        parse_spec(format_spec(Angle::Degrees(magnitude))) is None,
{
    let written = format_spec(Angle::Degrees(magnitude));
    assert(written.subrange(written.len() - 1, written.len() as int)[0] == DEGREE_SIGN);
    if written.len() >= 4 {
        assert(written.subrange(written.len() - 4, written.len() as int)[3] == DEGREE_SIGN);
    }
}

/// Degrees, minutes and seconds that were split off an angle, added up and
/// split again, come out the same.
pub proof fn lemma_dms_round_trip(total: int)
    ensures
        dms_of(arcseconds_of(dms_of(total))) == dms_of(total),
{
    let dms = dms_of(total);
    let again = arcseconds_of(dms);
    if total >= 0 {
        assert(again == 3600 * dms.0 + 60 * dms.1 + dms.2);
        assert(0 <= 60 * dms.1 + dms.2 < 3600);
        assert(again / 3600 == dms.0 && again % 3600 == 60 * dms.1 + dms.2);
    } else {
        assert(again == 3600 * dms.0);
        assert((-again) / 3600 == -dms.0);
    }
}

/// On angles that are not below zero and whose degrees fit, adding up is
/// the inverse of splitting: the arc-seconds come back.
pub proof fn lemma_split_then_join(total: int)
    requires
        0 <= total,
        total / 3600 <= i32::MAX,
    ensures
        arcseconds_of(dms_of(total)) == total,
{
}

/// On degrees that are not below zero, with minutes and seconds below 60,
/// splitting is the inverse of adding up: the same three come back.
pub proof fn lemma_join_then_split(theta: (i32, u32, u32))
    requires
        theta.0 >= 0,
        theta.1 < 60,
        theta.2 < 60,
    ensures
        dms_of(arcseconds_of(theta)) == theta,
{
    let total = arcseconds_of(theta);
    assert(0 <= 60 * theta.1 + theta.2 < 3600);
    assert(total / 3600 == theta.0 && total % 3600 == 60 * theta.1 + theta.2);
}

/// Minutes and seconds are never negative and stay below 60, whatever the
/// angle.
pub proof fn lemma_dms_in_range(total: int)
    ensures
        0 <= dms_of(total).1 < 60,
        0 <= dms_of(total).2 < 60,
{
}

} // verus!
