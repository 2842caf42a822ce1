//! `__fish_render_man FILE`: show a manual page. Width comes from `$MANWIDTH`, else `$COLUMNS`,
//! else 80.

use crate::builtins::{path_message, Status};
use crate::number::{parse_usize, unsigned_value, within};
use crate::text::{chars_of, copy_text, maybe, trim, trimmed};
use vstd::prelude::*;

verus! {

/// The width to use when no variable gives one.
pub const DEFAULT_WIDTH: usize = 80;

/// The width that a variable gives: a positive number, white space around it aside.
pub open spec fn width_in(v: Option<Seq<char>>) -> Option<int> {
    match v {
        Some(s) => within(unsigned_value(trimmed(s)), 1, usize::MAX as int),
        None => None,
    }
}

/// The width of the page, given `$MANWIDTH` and `$COLUMNS`.
pub open spec fn page_width(manwidth: Option<Seq<char>>, columns: Option<Seq<char>>) -> int {
    match width_in(manwidth) {
        Some(w) => w,
        None => match width_in(columns) {
            Some(w) => w,
            None => DEFAULT_WIDTH as int,
        },
    }
}

/// The width that a variable gives.
fn read_width(v: &Option<Vec<char>>) -> (r: Option<usize>)
    ensures
        width_in(maybe(*v)) == (match r {
            Some(w) => Some(w as int),
            None => None,
        }),
{
    match v {
        Some(s) => match parse_usize(trim(s.as_slice())) {
            Some(w) => {
                if w > 0 {
                    Some(w)
                } else {
                    None
                }
            },
            None => None,
        },
        None => None,
    }
}

/// The width of the page, given `$MANWIDTH` and `$COLUMNS`.
pub fn width_from_vars(manwidth: &Option<Vec<char>>, columns: &Option<Vec<char>>) -> (r: usize)
    ensures
        r == page_width(maybe(*manwidth), maybe(*columns)),
{
    if let Some(w) = read_width(manwidth) {
        return w;
    }
    if let Some(w) = read_width(columns) {
        return w;
    }
    DEFAULT_WIDTH
}

/// Why no page is shown.
#[derive(Clone, Copy, Debug, PartialEq, Eq, Structural)]
pub enum RenderManError {
    /// There is not exactly one operand.
    ExpectedPath,
    /// The page cannot be read.
    Unreadable,
}

impl RenderManError {
    /// The status to return.
    pub fn status(self) -> (r: Status)
        ensures
            r == (match self {
                RenderManError::ExpectedPath => Status::InvalidArgs,
                RenderManError::Unreadable => Status::CmdError,
            }),
    {
        match self {
            RenderManError::ExpectedPath => Status::InvalidArgs,
            RenderManError::Unreadable => Status::CmdError,
        }
    }

    /// The text to report; `path` and `cause` tell what could not be read and why.
    pub fn message(self, path: &[char], cause: &str) -> (r: Vec<char>)
        ensures
            r@ == (match self {
                RenderManError::ExpectedPath => "expected a single man-page path"@,
                RenderManError::Unreadable => path@ + ": "@ + cause@,
            }),
    {
        match self {
            RenderManError::ExpectedPath => chars_of("expected a single man-page path"),
            RenderManError::Unreadable => path_message(path, cause),
        }
    }
}

/// The path of the page to show.
pub fn render_man(args: &[Vec<char>]) -> (r: Result<Vec<char>, RenderManError>)
    requires
        args@.len() > 0,
    ensures
        args@.len() == 2 <==> r is Ok,
        r matches Ok(path) ==> path@ == args@[1]@,
        r matches Err(e) ==> e == RenderManError::ExpectedPath,
{
    if args.len() != 2 {
        return Err(RenderManError::ExpectedPath);
    }
    Ok(copy_text(args[1].as_slice()))
}

/// `$COLUMNS` matters only where `$MANWIDTH` gives no width.
pub proof fn law_manwidth_wins(
    manwidth: Option<Seq<char>>,
    columns: Option<Seq<char>>,
    other: Option<Seq<char>>,
)
    requires
        width_in(manwidth) is Some,
    ensures
        page_width(manwidth, columns) == page_width(manwidth, other),
{
}

/// A page is never without width.
pub proof fn law_width_is_positive(manwidth: Option<Seq<char>>, columns: Option<Seq<char>>)
    ensures
        page_width(manwidth, columns) > 0,
{
}

/// The width is the positive number that the first variable writes, else the one that the
/// second writes, else 80.
pub proof fn law_width_sources(
    number: Seq<char>,
    n: int,
    manwidth: Option<Seq<char>>,
    columns: Option<Seq<char>>,
)
    requires
        unsigned_value(trimmed(number)) == Some(n),
        1 <= n <= usize::MAX,
        manwidth matches Some(s) ==> unsigned_value(trimmed(s)) is None || unsigned_value(
            trimmed(s),
        ) == Some(0int),
    ensures
        page_width(Some(number), columns) == n,
        page_width(manwidth, Some(number)) == n,
        page_width(manwidth, None) == 80,
        page_width(manwidth, manwidth) == 80,
{
}

} // verus!
