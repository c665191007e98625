//! Resolution of the startup window geometry, in grid cells.
//!
//! A geometry is written `<width>x<height>`, both decimal and strictly
//! positive. It can come from a `--geometry=` command-line argument, from a
//! `window_dimensions=` line of the persisted settings file, or from the
//! built-in default, in that order of precedence.

use vstd::prelude::*;
use vstd::string::StrSliceExecFns;
use vstd::string::StringExecFns;

use crate::text::all_digits;
use crate::text::decimal_digits;
use crate::text::digit_char;
use crate::text::digit_value;
use crate::text::digits_value;
use crate::text::is_digit_char;
use crate::text::lemma_decimal_digits_correct;
use crate::text::lemma_digits_value_nonneg;
use crate::text::lemma_digits_value_take_le;
use crate::text::lemma_split_first_sep;
use crate::text::lemma_split_no_sep;
use crate::text::split_on_char;

verus! {

/// Why a geometry string was rejected.
#[derive(Clone, Copy, Debug, PartialEq, Eq, Structural)]
pub enum DimensionError {
    /// The string is not `<width>x<height>` with both components decimal
    /// numbers in range: wrong component count, a non-numeric component, or
    /// a component too large for `u64`.
    Invalid,
    /// A component is the number zero; window dimensions must be positive.
    NotPositive,
}

/// A component parses as a `u64`: nonempty, all digits, and in range.
pub open spec fn component_ok(s: Seq<char>) -> bool {
    s.len() > 0 && all_digits(s) && digits_value(s) <= u64::MAX
}

/// The first rejection among the components of a geometry string, scanned
/// left to right: a component that does not parse is `Invalid`, one that
/// parses to zero is `NotPositive`.
pub open spec fn scan_components(comps: Seq<Seq<char>>) -> Option<DimensionError>
    decreases comps.len(),
{
    if comps.len() == 0 {
        None
    } else if !component_ok(comps[0]) {
        Some(DimensionError::Invalid)
    } else if digits_value(comps[0]) == 0 {
        Some(DimensionError::NotPositive)
    } else {
        scan_components(comps.drop_first())
    }
}

/// What parsing a geometry string yields: the string is split on `x`, each
/// component is parsed left to right until the first rejection, and exactly
/// two components must remain.
pub open spec fn parse_dimensions_spec(s: Seq<char>) -> Result<(u64, u64), DimensionError> {
    let comps = split_on_char(s, 'x');
    match scan_components(comps) {
        Some(e) => Err(e),
        None => if comps.len() == 2 {
            Ok((digits_value(comps[0]) as u64, digits_value(comps[1]) as u64))
        } else {
            Err(DimensionError::Invalid)
        },
    }
}

/// The diagnostic for a malformed geometry string, naming the offending
/// input and the expected shape.
pub open spec fn invalid_message(s: Seq<char>) -> Seq<char> {
    "Invalid geometry: "@ + s + "\nValid format: <width>x<height>"@
}

/// The diagnostic for a zero dimension, naming the offending input and the
/// expected shape.
pub open spec fn not_positive_message(s: Seq<char>) -> Seq<char> {
    "Invalid geometry: "@ + s
        + "\nWindow dimensions should be greater than 0.\nValid format: <width>x<height>"@
}

/// The diagnostic carried by a rejection of the geometry string `s`.
pub open spec fn dimension_error_message(s: Seq<char>, e: DimensionError) -> Seq<char> {
    match e {
        DimensionError::Invalid => invalid_message(s),
        DimensionError::NotPositive => not_positive_message(s),
    }
}

fn invalid_message_of(dimension_str: &str) -> (r: String)
    ensures
        r@ == invalid_message(dimension_str@),
{
    let mut m = String::from_str("Invalid geometry: ");
    m.append(dimension_str);
    m.append("\nValid format: <width>x<height>");
    m
}

fn not_positive_message_of(dimension_str: &str) -> (r: String)
    ensures
        r@ == not_positive_message(dimension_str@),
{
    let mut m = String::from_str("Invalid geometry: ");
    m.append(dimension_str);
    m.append("\nWindow dimensions should be greater than 0.\nValid format: <width>x<height>");
    m
}

/// Parses the decimal component `s[start..end]`: `Some` of its value when it
/// is a nonempty digit string whose value fits in a `u64`, `None` otherwise.
fn parse_component(s: &str, start: usize, end: usize) -> (r: Option<u64>)
    requires
        start <= end <= s@.len(),
    ensures
        ({
            let comp = s@.subrange(start as int, end as int);
            match r {
                Some(v) => component_ok(comp) && v == digits_value(comp),
                None => !component_ok(comp),
            }
        }),
{
    let ghost comp = s@.subrange(start as int, end as int);
    if start == end {
        assert(comp.len() == 0);
        return None;
    }
    let mut acc: u64 = 0;
    let mut i: usize = start;
    proof {
        assert(s@.subrange(start as int, start as int) =~= Seq::<char>::empty());
    }
    while i < end
        invariant
            start <= i <= end <= s@.len(),
            all_digits(s@.subrange(start as int, i as int)),
            acc == digits_value(s@.subrange(start as int, i as int)),
        decreases end - i,
    {
        let ghost comp = s@.subrange(start as int, end as int);
        let ghost pre = s@.subrange(start as int, i as int);
        let ghost pre1 = s@.subrange(start as int, i as int + 1);
        proof {
            assert(pre1.drop_last() =~= pre);
            assert(pre1.last() == s@[i as int]);
        }
        let c = s.get_char(i);
        let u = c as u32;
        if u < 48 || u > 57 {
            proof {
                assert(!is_digit_char(s@[i as int]));
                assert(comp[i - start] == s@[i as int]);
                assert(!all_digits(comp));
            }
            return None;
        }
        let d: u64 = (u - 48) as u64;
        assert(d == digit_value(s@[i as int]));
        let overflowed: bool = match acc.checked_mul(10) {
            Some(m) => match m.checked_add(d) {
                Some(v) => {
                    acc = v;
                    false
                },
                None => true,
            },
            None => true,
        };
        if overflowed {
            proof {
                lemma_digits_value_nonneg(pre);
                assert(digits_value(pre1) > u64::MAX);
                if all_digits(comp) {
                    assert(pre1 =~= comp.take(i - start + 1));
                    lemma_digits_value_take_le(comp, i - start + 1);
                    assert(digits_value(comp) > u64::MAX);
                }
            }
            return None;
        }
        assert(acc == digits_value(pre1));
        i = i + 1;
    }
    assert(comp =~= s@.subrange(start as int, i as int));
    Some(acc)
}

/// Parses a `<width>x<height>` geometry string: the input is split on the
/// literal separator `x`, the components are read left to right, and exactly
/// two positive decimal numbers must remain. A component is a plain digit
/// string: a sign, even a leading `+`, is deliberately rejected. The error
/// string names the offending input and the expected shape, and says when a
/// dimension was zero.
pub fn parse_dimension_str(dimension_str: &str) -> (r: Result<(u64, u64), String>)
    ensures
        ({
            match parse_dimensions_spec(dimension_str@) {
                Ok(d) => r == Ok::<(u64, u64), String>(d),
                Err(e) => r matches Err(m) && m@ == dimension_error_message(dimension_str@, e),
            }
        }),
{
    let ghost s = dimension_str@;
    let ghost comps = split_on_char(s, 'x');
    let len = dimension_str.unicode_len();
    let mut start: usize = 0;
    let mut count: usize = 0;
    let ghost mut k: int = 0;
    let mut w: u64 = 0;
    let mut h: u64 = 0;
    proof {
        assert(comps.skip(0) =~= comps);
        assert(s.subrange(0, len as int) =~= s);
    }
    loop
        invariant_except_break
            comps.skip(k) == split_on_char(s.subrange(start as int, len as int), 'x'),
        invariant
            s == dimension_str@,
            comps == split_on_char(s, 'x'),
            len == s.len(),
            0 <= start <= len,
            0 <= k <= comps.len(),
            count as int == if k < 3 { k } else { 3int },
            scan_components(comps) == scan_components(comps.skip(k)),
            k >= 1 ==> w == digits_value(comps[0]) && component_ok(comps[0]) && digits_value(
                comps[0],
            ) > 0,
            k >= 2 ==> h == digits_value(comps[1]) && component_ok(comps[1]) && digits_value(
                comps[1],
            ) > 0,
        ensures
            comps == split_on_char(s, 'x'),
            scan_components(comps) is None,
            k == comps.len(),
            count as int == if k < 3 { k } else { 3int },
            k >= 1 ==> w == digits_value(comps[0]) && component_ok(comps[0]),
            k >= 2 ==> h == digits_value(comps[1]) && component_ok(comps[1]),
        decreases len - start,
    {
        let mut j: usize = start;
        while j < len && dimension_str.get_char(j) != 'x'
            invariant
                s == dimension_str@,
                len == s.len(),
                start <= j <= len,
                forall|m: int| start <= m < j ==> s[m] != 'x',
            decreases len - j,
        {
            j = j + 1;
        }
        let ghost tail = s.subrange(start as int, len as int);
        proof {
            assert(forall|m: int|
                0 <= m < j - start ==> tail[m] == s[start + m] && #[trigger] tail[m] != 'x');
            if j < len {
                assert(tail[j - start] == s[j as int]);
                lemma_split_first_sep(tail, 'x', j - start);
                assert(tail.take(j - start) =~= s.subrange(start as int, j as int));
                assert(tail.skip(j - start + 1) =~= s.subrange(j + 1, len as int));
            } else {
                lemma_split_no_sep(tail, 'x');
                assert(tail =~= s.subrange(start as int, j as int));
            }
            assert(comps.skip(k).len() >= 1);
            assert(comps.skip(k)[0] == s.subrange(start as int, j as int));
        }
        match parse_component(dimension_str, start, j) {
            None => {
                proof {
                    assert(scan_components(comps.skip(k)) == Some(DimensionError::Invalid));
                }
                return Err(invalid_message_of(dimension_str));
            },
            Some(v) => {
                if v == 0 {
                    proof {
                        assert(scan_components(comps.skip(k)) == Some(DimensionError::NotPositive));
                    }
                    return Err(not_positive_message_of(dimension_str));
                }
                if count == 0 {
                    w = v;
                } else if count == 1 {
                    h = v;
                }
                if count < 3 {
                    count = count + 1;
                }
                proof {
                    let cs = comps.skip(k);
                    assert(cs[0] == comps[k]);
                    assert(component_ok(comps[k]) && digits_value(comps[k]) == v);
                    assert(scan_components(cs) == scan_components(cs.drop_first()));
                    assert(cs.drop_first() =~= comps.skip(k + 1));
                    k = k + 1;
                }
                if j == len {
                    proof {
                        assert(comps.skip(k - 1).len() == 1);
                        assert(comps.skip(k) =~= Seq::<Seq<char>>::empty());
                        assert(scan_components(comps.skip(k)) is None);
                    }
                    break ;
                }
                start = j + 1;
            },
        }
    }
    if count == 2 {
        proof {
            assert(comps.len() == 2);
            assert(parse_dimensions_spec(s) == Ok::<(u64, u64), DimensionError>((w, h)));
        }
        Ok((w, h))
    } else {
        proof {
            assert(comps.len() != 2);
            assert(parse_dimensions_spec(s) == Err::<(u64, u64), DimensionError>(
                DimensionError::Invalid,
            ));
        }
        Err(invalid_message_of(dimension_str))
    }
}

/// Parsing a geometry string only ever succeeds with positive dimensions.
pub proof fn lemma_parse_dimensions_positive(s: Seq<char>)
    ensures
        parse_dimensions_spec(s) matches Ok(d) ==> d.0 > 0 && d.1 > 0,
{
    if parse_dimensions_spec(s) matches Ok(d) {
        let comps = split_on_char(s, 'x');
        assert(comps.len() == 2);
        assert(scan_components(comps) is None);
        assert(comps.drop_first()[0] == comps[1]);
        assert(scan_components(comps) == scan_components(comps.drop_first()));
        assert(scan_components(comps.drop_first()) == scan_components(
            comps.drop_first().drop_first(),
        ));
        lemma_digits_value_nonneg(comps[0]);
        lemma_digits_value_nonneg(comps[1]);
    }
}

/// Round trip: rendering positive dimensions as `<width>x<height>` and
/// parsing the rendering yields the same dimensions back.
pub proof fn lemma_parse_dimensions_round_trip(w: u64, h: u64)
    requires
        w > 0,
        h > 0,
    ensures
        parse_dimensions_spec(decimal_digits(w as int) + seq!['x'] + decimal_digits(h as int))
            == Ok::<(u64, u64), DimensionError>((w, h)),
{
    let d1 = decimal_digits(w as int);
    let d2 = decimal_digits(h as int);
    lemma_decimal_digits_correct(w as int);
    lemma_decimal_digits_correct(h as int);
    let s = d1 + seq!['x'] + d2;
    assert(s[d1.len() as int] == 'x');
    assert(forall|j: int| 0 <= j < d1.len() ==> #[trigger] s[j] == d1[j]);
    lemma_split_first_sep(s, 'x', d1.len() as int);
    assert(s.take(d1.len() as int) =~= d1);
    assert(s.skip(d1.len() as int + 1) =~= d2);
    lemma_split_no_sep(d2, 'x');
    let comps = split_on_char(s, 'x');
    assert(comps =~= seq![d1, d2]);
    assert(component_ok(d1) && component_ok(d2));
    assert(scan_components(comps) == scan_components(comps.drop_first()));
    assert(comps.drop_first() =~= seq![d2]);
    assert(comps.drop_first()[0] == d2);
    assert(scan_components(seq![d2]) == scan_components(seq![d2].drop_first()));
    assert(seq![d2].drop_first() =~= Seq::<Seq<char>>::empty());
    assert(scan_components(Seq::<Seq<char>>::empty()) is None);
}

fn decimal_digit_str(d: u64) -> (r: &'static str)
    requires
        d < 10,
    ensures
        r@ == seq![digit_char(d as int)],
{
    if d == 0 {
        proof {
            reveal_strlit("0");
            assert("0"@ =~= seq![digit_char(0)]);
        }
        "0"
    } else if d == 1 {
        proof {
            reveal_strlit("1");
            assert("1"@ =~= seq![digit_char(1)]);
        }
        "1"
    } else if d == 2 {
        proof {
            reveal_strlit("2");
            assert("2"@ =~= seq![digit_char(2)]);
        }
        "2"
    } else if d == 3 {
        proof {
            reveal_strlit("3");
            assert("3"@ =~= seq![digit_char(3)]);
        }
        "3"
    } else if d == 4 {
        proof {
            reveal_strlit("4");
            assert("4"@ =~= seq![digit_char(4)]);
        }
        "4"
    } else if d == 5 {
        proof {
            reveal_strlit("5");
            assert("5"@ =~= seq![digit_char(5)]);
        }
        "5"
    } else if d == 6 {
        proof {
            reveal_strlit("6");
            assert("6"@ =~= seq![digit_char(6)]);
        }
        "6"
    } else if d == 7 {
        proof {
            reveal_strlit("7");
            assert("7"@ =~= seq![digit_char(7)]);
        }
        "7"
    } else if d == 8 {
        proof {
            reveal_strlit("8");
            assert("8"@ =~= seq![digit_char(8)]);
        }
        "8"
    } else {
        proof {
            reveal_strlit("9");
            assert("9"@ =~= seq![digit_char(9)]);
        }
        "9"
    }
}

fn decimal_string(n: u64) -> (r: String)
    ensures
        r@ == decimal_digits(n as int),
    decreases n,
{
    let d = n % 10;
    let ds = decimal_digit_str(d);
    if n < 10 {
        String::from_str(ds)
    } else {
        let mut m = decimal_string(n / 10);
        m.append(ds);
        m
    }
}

/// Renders dimensions as a `<width>x<height>` geometry string, the shape
/// that `parse_dimension_str` reads back.
pub fn format_dimensions(width: u64, height: u64) -> (r: String)
    ensures
        r@ == decimal_digits(width as int) + seq!['x'] + decimal_digits(height as int),
{
    let mut m = decimal_string(width);
    proof {
        reveal_strlit("x");
        assert("x"@ =~= seq!['x']);
    }
    m.append("x");
    let hs = decimal_string(height);
    m.append(hs.as_str());
    proof {
        assert(m@ =~= decimal_digits(width as int) + seq!['x'] + decimal_digits(height as int));
    }
    m
}

/// `p` starts `s`.
pub open spec fn has_prefix(s: Seq<char>, p: Seq<char>) -> bool {
    s.len() >= p.len() && s.take(p.len() as int) == p
}

/// What follows the prefix in the first item that starts with it, scanning
/// left to right; `None` when no item does.
pub open spec fn first_prefixed_payload(items: Seq<Seq<char>>, p: Seq<char>) -> Option<Seq<char>>
    decreases items.len(),
{
    if items.len() == 0 {
        None
    } else if has_prefix(items[0], p) {
        Some(items[0].skip(p.len() as int))
    } else {
        first_prefixed_payload(items.drop_first(), p)
    }
}

/// The prefix marking a geometry command-line argument.
pub open spec fn geometry_prefix() -> Seq<char> {
    "--geometry="@
}

/// The prefix marking the geometry record in the persisted settings file.
pub open spec fn dimensions_prefix() -> Seq<char> {
    "window_dimensions="@
}

fn str_has_prefix(s: &str, prefix: &str) -> (r: bool)
    ensures
        r == has_prefix(s@, prefix@),
{
    let plen = prefix.unicode_len();
    let slen = s.unicode_len();
    if slen < plen {
        return false;
    }
    let mut i: usize = 0;
    while i < plen
        invariant
            s@.len() == slen,
            prefix@.len() == plen,
            plen <= slen,
            0 <= i <= plen,
            forall|m: int| 0 <= m < i ==> s@[m] == prefix@[m],
        decreases plen - i,
    {
        if s.get_char(i) != prefix.get_char(i) {
            proof {
                assert(s@.take(plen as int)[i as int] != prefix@[i as int]);
            }
            return false;
        }
        i = i + 1;
    }
    proof {
        assert(s@.take(plen as int) =~= prefix@);
    }
    true
}

/// Scans command-line arguments for the first `--geometry=` entry and parses
/// what follows the prefix; later entries are ignored. `None` when no such
/// argument exists.
pub fn window_geometry(args: &Vec<String>) -> (r: Option<Result<(u64, u64), String>>)
    ensures
        ({
            match first_prefixed_payload(args.deep_view(), geometry_prefix()) {
                None => r is None,
                Some(p) => match parse_dimensions_spec(p) {
                    Ok(d) => r == Some(Ok::<(u64, u64), String>(d)),
                    Err(e) => r matches Some(Err(m)) && m@ == dimension_error_message(p, e),
                },
            }
        }),
{
    let ghost dv = args.deep_view();
    let prefix = "--geometry=";
    let mut i: usize = 0;
    proof {
        assert(dv.skip(0) =~= dv);
    }
    while i < args.len()
        invariant
            dv == args.deep_view(),
            prefix@ == geometry_prefix(),
            dv.len() == args@.len(),
            0 <= i <= args@.len(),
            first_prefixed_payload(dv, geometry_prefix()) == first_prefixed_payload(
                dv.skip(i as int),
                geometry_prefix(),
            ),
        decreases args@.len() - i,
    {
        let arg: &String = &args[i];
        proof {
            assert(dv[i as int] == args@[i as int]@);
            assert(dv.skip(i as int)[0] == dv[i as int]);
        }
        if str_has_prefix(arg.as_str(), prefix) {
            let stripped = arg.as_str().substring_char(
                prefix.unicode_len(),
                arg.as_str().unicode_len(),
            );
            proof {
                assert(stripped@ =~= dv[i as int].skip(geometry_prefix().len() as int));
            }
            return Some(parse_dimension_str(stripped));
        }
        proof {
            assert(dv.skip(i as int).drop_first() =~= dv.skip(i as int + 1));
        }
        i = i + 1;
    }
    proof {
        assert(dv.skip(i as int) =~= Seq::<Seq<char>>::empty());
    }
    None
}

fn first_line_payload<'a>(content: &'a str, prefix: &str) -> (r: Option<&'a str>)
    ensures
        ({
            match first_prefixed_payload(split_on_char(content@, '\n'), prefix@) {
                None => r is None,
                Some(p) => r matches Some(t) && t@ == p,
            }
        }),
{
    let ghost s = content@;
    let ghost lines = split_on_char(s, '\n');
    let len = content.unicode_len();
    let mut start: usize = 0;
    let ghost mut k: int = 0;
    proof {
        assert(lines.skip(0) =~= lines);
        assert(s.subrange(0, len as int) =~= s);
    }
    loop
        invariant_except_break
            lines.skip(k) == split_on_char(s.subrange(start as int, len as int), '\n'),
        invariant
            s == content@,
            lines == split_on_char(s, '\n'),
            len == s.len(),
            0 <= start <= len,
            0 <= k <= lines.len(),
            first_prefixed_payload(lines, prefix@) == first_prefixed_payload(
                lines.skip(k),
                prefix@,
            ),
        ensures
            first_prefixed_payload(lines, prefix@) is None,
        decreases len - start,
    {
        let mut j: usize = start;
        while j < len && content.get_char(j) != '\n'
            invariant
                s == content@,
                len == s.len(),
                start <= j <= len,
                forall|m: int| start <= m < j ==> s[m] != '\n',
            decreases len - j,
        {
            j = j + 1;
        }
        let ghost tail = s.subrange(start as int, len as int);
        proof {
            assert(forall|m: int|
                0 <= m < j - start ==> tail[m] == s[start + m] && #[trigger] tail[m] != '\n');
            if j < len {
                assert(tail[j - start] == s[j as int]);
                lemma_split_first_sep(tail, '\n', j - start);
                assert(tail.take(j - start) =~= s.subrange(start as int, j as int));
                assert(tail.skip(j - start + 1) =~= s.subrange(j + 1, len as int));
            } else {
                lemma_split_no_sep(tail, '\n');
                assert(tail =~= s.subrange(start as int, j as int));
            }
            assert(lines.skip(k).len() >= 1);
            assert(lines.skip(k)[0] == s.subrange(start as int, j as int));
        }
        let line = content.substring_char(start, j);
        if str_has_prefix(line, prefix) {
            let payload = line.substring_char(prefix.unicode_len(), line.unicode_len());
            proof {
                assert(payload@ =~= lines.skip(k)[0].skip(prefix@.len() as int));
            }
            return Some(payload);
        }
        proof {
            assert(lines.skip(k).drop_first() =~= lines.skip(k + 1));
            k = k + 1;
        }
        if j == len {
            proof {
                assert(lines.skip(k - 1).len() == 1);
                assert(lines.skip(k) =~= Seq::<Seq<char>>::empty());
            }
            break ;
        }
        start = j + 1;
    }
    None
}

/// The diagnostic for a cache directory path that never became available.
pub open spec fn cache_unavailable_message() -> Seq<char> {
    "Cache directory path is not available"@
}

/// Resolves the geometry remembered in the persisted settings file, given
/// the outcome of reading that file.
///
/// When remembering is disabled the file is not consulted at all. Otherwise
/// `file_read` reports what the caller found: `None` when the cache
/// directory path never became available, `Some(Err(..))` when creating or
/// reading the file failed, and `Some(Ok(..))` with the file's text. The
/// first `window_dimensions=` line of the text decides the result; a file
/// without such a line yields `None`, which is distinct from a parse
/// failure.
pub fn window_geometry_saved(
    remember_dimensions: bool,
    file_read: &Option<Result<String, String>>,
) -> (r: Option<Result<(u64, u64), String>>)
    ensures
        !remember_dimensions ==> r is None,
        remember_dimensions ==> match file_read {
            None => r matches Some(Err(m)) && m@ == cache_unavailable_message(),
            Some(Err(e)) => r matches Some(Err(m)) && m@ == e@,
            Some(Ok(content)) => ({
                match first_prefixed_payload(split_on_char(content@, '\n'), dimensions_prefix()) {
                    None => r is None,
                    Some(p) => match parse_dimensions_spec(p) {
                        Ok(d) => r == Some(Ok::<(u64, u64), String>(d)),
                        Err(e) => r matches Some(Err(m)) && m@ == dimension_error_message(p, e),
                    },
                }
            }),
        },
{
    if !remember_dimensions {
        return None;
    }
    match file_read {
        None => Some(Err(String::from_str("Cache directory path is not available"))),
        Some(Err(e)) => Some(Err(e.clone())),
        Some(Ok(content)) => match first_line_payload(content.as_str(), "window_dimensions=") {
            None => None,
            Some(payload) => Some(parse_dimension_str(payload)),
        },
    }
}

/// Which source decided the startup geometry; used for diagnostic
/// reporting only.
#[derive(Clone, Copy, Debug, PartialEq, Eq, Structural)]
pub enum GeometrySource {
    CliArgument,
    PersistedFile,
    Default,
}

/// The outcome of geometry resolution: the grid size in cells, the source
/// that decided it, and the diagnostic of a recovered error, if resolution
/// fell back to the default because of one.
#[derive(Debug)]
pub struct ResolvedGeometry {
    pub width: u64,
    pub height: u64,
    pub source: GeometrySource,
    pub recovered_error: Option<String>,
}

/// The view of a persisted-file read outcome handed to resolution.
pub open spec fn read_outcome_view(file_read: Option<Result<String, String>>) -> Option<
    Result<Seq<char>, Seq<char>>,
> {
    match file_read {
        None => None,
        Some(Ok(c)) => Some(Ok(c@)),
        Some(Err(e)) => Some(Err(e@)),
    }
}

/// The full resolution cascade: a present `--geometry=` argument decides
/// the result when valid and falls back to the default when malformed,
/// without consulting the persisted state; otherwise the persisted file
/// decides when remembering is enabled and a valid record exists; every
/// failure falls back to the built-in default and carries its diagnostic.
pub open spec fn resolve_spec(
    args: Seq<Seq<char>>,
    remember: bool,
    file_read: Option<Result<Seq<char>, Seq<char>>>,
    default_width: u64,
    default_height: u64,
) -> (u64, u64, GeometrySource, Option<Seq<char>>) {
    match first_prefixed_payload(args, geometry_prefix()) {
        Some(p) => match parse_dimensions_spec(p) {
            Ok(d) => (d.0, d.1, GeometrySource::CliArgument, None::<Seq<char>>),
            Err(e) => (
                default_width,
                default_height,
                GeometrySource::Default,
                Some(dimension_error_message(p, e)),
            ),
        },
        None => if !remember {
            (default_width, default_height, GeometrySource::Default, None::<Seq<char>>)
        } else {
            match file_read {
                None => (
                    default_width,
                    default_height,
                    GeometrySource::Default,
                    Some(cache_unavailable_message()),
                ),
                Some(Err(e)) => (default_width, default_height, GeometrySource::Default, Some(e)),
                Some(Ok(content)) => match first_prefixed_payload(
                    split_on_char(content, '\n'),
                    dimensions_prefix(),
                ) {
                    None => (
                        default_width,
                        default_height,
                        GeometrySource::Default,
                        None::<Seq<char>>,
                    ),
                    Some(p) => match parse_dimensions_spec(p) {
                        Ok(d) => (d.0, d.1, GeometrySource::PersistedFile, None::<Seq<char>>),
                        Err(e) => (
                            default_width,
                            default_height,
                            GeometrySource::Default,
                            Some(dimension_error_message(p, e)),
                        ),
                    },
                },
            }
        },
    }
}

/// Resolves the effective startup geometry from all sources, never failing:
/// the result is always a positive grid size, and any recovered error is
/// reported alongside it for the caller to log.
pub fn window_geometry_or_default(
    args: &Vec<String>,
    remember_dimensions: bool,
    file_read: &Option<Result<String, String>>,
    default_width: u64,
    default_height: u64,
) -> (r: ResolvedGeometry)
    requires
        default_width > 0,
        default_height > 0,
    ensures
        ({
            let (w, h, src, err) = resolve_spec(
                args.deep_view(),
                remember_dimensions,
                read_outcome_view(*file_read),
                default_width,
                default_height,
            );
            r.width == w && r.height == h && r.source == src && (match err {
                None => r.recovered_error is None,
                Some(e) => r.recovered_error matches Some(m) && m@ == e,
            })
        }),
        r.width > 0 && r.height > 0,
{
    let ghost dv = args.deep_view();
    match window_geometry(args) {
        Some(Ok(d)) => {
            proof {
                let pp = first_prefixed_payload(dv, geometry_prefix());
                if pp is Some {
                    lemma_parse_dimensions_positive(pp->Some_0);
                }
            }
            ResolvedGeometry {
                width: d.0,
                height: d.1,
                source: GeometrySource::CliArgument,
                recovered_error: None,
            }
        },
        Some(Err(m)) => ResolvedGeometry {
            width: default_width,
            height: default_height,
            source: GeometrySource::Default,
            recovered_error: Some(m),
        },
        None => match window_geometry_saved(remember_dimensions, file_read) {
            Some(Ok(d)) => {
                proof {
                    let fr = *file_read;
                    if fr is Some && fr->Some_0 is Ok {
                        let pp = first_prefixed_payload(
                            split_on_char(fr->Some_0->Ok_0@, '\n'),
                            dimensions_prefix(),
                        );
                        if pp is Some {
                            lemma_parse_dimensions_positive(pp->Some_0);
                        }
                    }
                }
                ResolvedGeometry {
                    width: d.0,
                    height: d.1,
                    source: GeometrySource::PersistedFile,
                    recovered_error: None,
                }
            },
            Some(Err(m)) => ResolvedGeometry {
                width: default_width,
                height: default_height,
                source: GeometrySource::Default,
                recovered_error: Some(m),
            },
            None => ResolvedGeometry {
                width: default_width,
                height: default_height,
                source: GeometrySource::Default,
                recovered_error: None,
            },
        },
    }
}

/// Precedence: a present, valid `--geometry=` argument alone decides the
/// result; neither the remember flag nor any persisted state changes it.
pub proof fn lemma_cli_argument_precedence(
    args: Seq<Seq<char>>,
    remember_a: bool,
    remember_b: bool,
    file_read_a: Option<Result<Seq<char>, Seq<char>>>,
    file_read_b: Option<Result<Seq<char>, Seq<char>>>,
    default_width: u64,
    default_height: u64,
)
    requires
        first_prefixed_payload(args, geometry_prefix()) matches Some(p) && parse_dimensions_spec(
            p,
        ) is Ok,
    ensures
        ({
            let ra = resolve_spec(args, remember_a, file_read_a, default_width, default_height);
            let rb = resolve_spec(args, remember_b, file_read_b, default_width, default_height);
            ra == rb && ra.2 == GeometrySource::CliArgument
        }),
{
}

/// With no `--geometry=` argument and remembering disabled, resolution
/// yields the built-in default, whatever the persisted state holds.
pub proof fn lemma_remember_disabled_yields_default(
    args: Seq<Seq<char>>,
    file_read: Option<Result<Seq<char>, Seq<char>>>,
    default_width: u64,
    default_height: u64,
)
    requires
        first_prefixed_payload(args, geometry_prefix()) is None,
    ensures
        resolve_spec(args, false, file_read, default_width, default_height) == (
            default_width,
            default_height,
            GeometrySource::Default,
            None::<Seq<char>>,
        ),
{
}

} // verus!
