//! AS-path text and AS-path filters.
use vstd::prelude::*;
use crate::types::{QueryError, Route, RouteView};

verus! {

/// The decimal digit `d` as a character.
pub open spec fn digit_char(d: nat) -> char {
    if d == 0 { '0' } else if d == 1 { '1' } else if d == 2 { '2' } else if d == 3 { '3' }
    else if d == 4 { '4' } else if d == 5 { '5' } else if d == 6 { '6' } else if d == 7 { '7' }
    else if d == 8 { '8' } else { '9' }
}

/// `n` in decimal, without leading zeros.
pub open spec fn decimal(n: nat) -> Seq<char>
    decreases n,
{
    if n < 10 {
        seq![digit_char(n)]
    } else {
        decimal(n / 10).push(digit_char(n % 10))
    }
}

/// The AS numbers of a path in decimal, joined by single spaces.
pub open spec fn as_path_text(path: Seq<u32>) -> Seq<char>
    decreases path.len(),
{
    if path.len() == 0 {
        seq![]
    } else if path.len() == 1 {
        decimal(path[0] as nat)
    } else {
        as_path_text(path.drop_last()) + seq![' '] + decimal(path.last() as nat)
    }
}

/// Whether regex compiles a pattern.
pub uninterp spec fn pattern_compiles(pattern: Seq<char>) -> bool;

/// Whether the compiled pattern matches somewhere in a text.
pub uninterp spec fn pattern_matches(pattern: Seq<char>, text: Seq<char>) -> bool;

/// A route passes an optional AS-path filter: always without one; with one,
/// only if it has an AS path whose text the pattern matches.
pub open spec fn route_passes(filter: Option<Seq<char>>, r: RouteView) -> bool {
    match filter {
        None => true,
        Some(p) => match r.as_path {
            None => false,
            Some(path) => pattern_matches(p, as_path_text(path)),
        },
    }
}

/// regex's compiled pattern, carried as an opaque value.
#[verifier::external_type_specification]
#[verifier::external_body]
pub struct ExRegex(regex::Regex);

/// regex's compile error, mapped to `QueryError::InvalidAsPathPattern`.
#[verifier::external_type_specification]
#[verifier::external_body]
pub struct ExRegexError(regex::Error);

/// Relies on regex::Regex::new: it succeeds exactly on the patterns that
/// compile, which depends on the pattern alone.
#[verifier::external_body]
fn compile_regex(pattern: &str) -> (r: Result<regex::Regex, regex::Error>)
    ensures
        r.is_ok() == pattern_compiles(pattern@),
{
    regex::Regex::new(pattern)
}

/// Relies on regex::Regex::is_match: whether the filter's compiled pattern
/// matches the text. `AsPathFilter::new` is the only place that builds a
/// filter, and it compiles `regex` from `pattern`.
#[verifier::external_body]
fn regex_is_match(filter: &AsPathFilter, text: &Vec<char>) -> (r: bool)
    ensures
        r == pattern_matches(filter.pattern@, text@),
{
    let s: String = text.iter().collect();
    filter.regex.is_match(&s)
}

fn digit(d: u32) -> (c: char)
    requires
        d < 10,
    ensures
        c == digit_char(d as nat),
{
    if d == 0 { '0' } else if d == 1 { '1' } else if d == 2 { '2' } else if d == 3 { '3' }
    else if d == 4 { '4' } else if d == 5 { '5' } else if d == 6 { '6' } else if d == 7 { '7' }
    else if d == 8 { '8' } else { '9' }
}

/// Appends `n` in decimal.
pub fn push_decimal(n: u32, out: &mut Vec<char>)
    ensures
        final(out)@ == old(out)@ + decimal(n as nat),
    decreases n,
{
    if n >= 10 {
        push_decimal(n / 10, out);
    }
    let ghost mid = out@;
    out.push(digit(n % 10));
    assert(out@ =~= old(out)@ + decimal(n as nat)) by {
        if n >= 10 {
            assert(decimal(n as nat) == decimal((n / 10) as nat).push(digit_char((n % 10) as nat)));
        }
    }
}

/// The text that an AS-path filter is matched against.
pub fn as_path_to_text(path: &Vec<u32>) -> (r: Vec<char>)
    ensures
        r@ == as_path_text(path@),
{
    let mut out: Vec<char> = Vec::new();
    let mut i: usize = 0;
    while i < path.len()
        invariant
            i <= path.len(),
            out@ == as_path_text(path@.take(i as int)),
        decreases path.len() - i,
    {
        let ghost before = out@;
        if i > 0 {
            out.push(' ');
        }
        push_decimal(path[i], &mut out);
        proof {
            let t = path@.take(i as int + 1);
            assert(t.drop_last() =~= path@.take(i as int));
            assert(t.last() == path@[i as int]);
            if i == 0 {
                assert(path@.take(0) =~= Seq::<u32>::empty());
                assert(out@ =~= decimal(path@[0] as nat));
            } else {
                assert(out@ =~= before + seq![' '] + decimal(path@[i as int] as nat));
            }
        }
        i = i + 1;
    }
    assert(path@.take(path@.len() as int) =~= path@);
    out
}

/// A compiled AS-path pattern.
pub struct AsPathFilter {
    pattern: String,
    regex: regex::Regex,
}

impl AsPathFilter {
    /// The pattern that the filter was compiled from.
    pub closed spec fn pattern(&self) -> Seq<char> {
        self.pattern@
    }

    /// Compiles a pattern; fails exactly when regex refuses it.
    pub fn new(pattern: &String) -> (r: Result<AsPathFilter, QueryError>)
        ensures
            r.is_ok() == pattern_compiles(pattern@),
            r.is_err() ==> r == Err::<AsPathFilter, QueryError>(QueryError::InvalidAsPathPattern),
            r matches Ok(f) ==> f.pattern() == pattern@,
    {
        match compile_regex(pattern.as_str()) {
            Ok(regex) => Ok(AsPathFilter { pattern: pattern.clone(), regex }),
            Err(_) => Err(QueryError::InvalidAsPathPattern),
        }
    }

    /// Whether an AS path, as text, is matched by the pattern.
    pub fn matches_text(&self, text: &Vec<char>) -> (r: bool)
        ensures
            r == pattern_matches(self.pattern(), text@),
    {
        regex_is_match(self, text)
    }

    /// Whether a route passes the filter.
    pub fn matches(&self, route: &Route) -> (r: bool)
        ensures
            r == route_passes(Some(self.pattern()), route@),
    {
        match &route.as_path {
            None => false,
            Some(path) => {
                let text = as_path_to_text(path);
                self.matches_text(&text)
            },
        }
    }
}

/// Applies an optional filter to a route.
pub fn passes(filter: &Option<AsPathFilter>, route: &Route) -> (r: bool)
    ensures
        r == route_passes(filter_pattern(*filter), route@),
{
    match filter {
        None => true,
        Some(f) => f.matches(route),
    }
}

/// The pattern of an optional filter.
pub open spec fn filter_pattern(filter: Option<AsPathFilter>) -> Option<Seq<char>> {
    match filter {
        Some(f) => Some(f.pattern()),
        None => None,
    }
}

} // verus!
