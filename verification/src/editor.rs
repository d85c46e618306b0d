use vstd::prelude::*;
use vstd::string::*;
use crate::idmap::IdMap;
use crate::numtext::{
    dec_digits, digit_val, digits_value, is_digit, lemma_dec_digits_len_monotone,
    lemma_dec_digits_value, usize_to_string,
};

verus! {

/// The whitespace characters that line trimming recognises.
pub open spec fn is_space(c: char) -> bool {
    c == ' ' || c == '\t' || c == '\n' || c == '\r' || c == '\u{b}' || c == '\u{c}' || c
        == '\u{85}' || c == '\u{a0}' || c == '\u{1680}' || ('\u{2000}' <= c && c <= '\u{200a}') || c
        == '\u{2028}' || c == '\u{2029}' || c == '\u{202f}' || c == '\u{205f}' || c == '\u{3000}'
}

/// First position at or after `i` whose character is not whitespace.
pub open spec fn skip_spaces(s: Seq<char>, i: int) -> int
    decreases s.len() - i
        when 0 <= i <= s.len()
{
    if i < s.len() && is_space(s[i]) {
        skip_spaces(s, i + 1)
    } else {
        i
    }
}

/// First position at or after `i` whose character is not a decimal digit.
pub open spec fn digits_end(s: Seq<char>, i: int) -> int
    decreases s.len() - i
        when 0 <= i <= s.len()
{
    if i < s.len() && is_digit(s[i]) {
        digits_end(s, i + 1)
    } else {
        i
    }
}

pub proof fn lemma_skip_spaces_props(s: Seq<char>, i: int)
    requires
        0 <= i <= s.len(),
    ensures
        i <= skip_spaces(s, i) <= s.len(),
        forall|k: int| i <= k < skip_spaces(s, i) ==> is_space(#[trigger] s[k]),
        skip_spaces(s, i) < s.len() ==> !is_space(s[skip_spaces(s, i)]),
    decreases s.len() - i,
{
    if i < s.len() && is_space(s[i]) {
        lemma_skip_spaces_props(s, i + 1);
    }
}

pub proof fn lemma_digits_end_props(s: Seq<char>, i: int)
    requires
        0 <= i <= s.len(),
    ensures
        i <= digits_end(s, i) <= s.len(),
        forall|k: int| i <= k < digits_end(s, i) ==> is_digit(#[trigger] s[k]),
        digits_end(s, i) < s.len() ==> !is_digit(s[digits_end(s, i)]),
    decreases s.len() - i,
{
    if i < s.len() && is_digit(s[i]) {
        lemma_digits_end_props(s, i + 1);
    }
}

/// One edited listing line, parsed: the item identifier and the (possibly
/// empty) requested target path.
#[derive(Debug, PartialEq)]
pub struct ParsedLine {
    pub num: usize,
    pub filename: String,
}

/// Why a listing line could not be parsed.
#[derive(Debug, PartialEq)]
pub enum ParseError {
    /// The line does not begin with a numeric identifier.
    NoNumber,
    /// The numeric identifier does not fit the identifier type.
    NumberTooLarge,
}

fn is_space_at(s: &str, i: usize) -> (r: bool)
    requires
        i < s@.len(),
    ensures
        r == is_space(s@[i as int]),
{
    let c = s.get_char(i);
    c == ' ' || c == '\t' || c == '\n' || c == '\r' || c == '\u{b}' || c == '\u{c}' || c
        == '\u{85}' || c == '\u{a0}' || c == '\u{1680}' || ('\u{2000}' <= c && c <= '\u{200a}') || c
        == '\u{2028}' || c == '\u{2029}' || c == '\u{202f}' || c == '\u{205f}' || c == '\u{3000}'
}

fn is_digit_at(s: &str, i: usize) -> (r: bool)
    requires
        i < s@.len(),
    ensures
        r == is_digit(s@[i as int]),
{
    let c = s.get_char(i);
    '0' <= c && c <= '9'
}

proof fn lemma_digits_value_mono(s: Seq<char>, b: int, i: int, e: int)
    requires
        0 <= b <= i <= e <= s.len(),
    ensures
        digits_value(s.subrange(b, e)) >= digits_value(s.subrange(b, i)),
    decreases e - i,
{
    if i < e {
        lemma_digits_value_mono(s, b, i, e - 1);
        assert(s.subrange(b, e).drop_last() =~= s.subrange(b, e - 1));
        let t = s.subrange(b, e);
        assert(digits_value(t) == digits_value(s.subrange(b, e - 1)) * 10 + digit_val(t.last()));
    }
}

/// Parses one line of the edited listing: `Ok(None)` for a blank line,
/// `Ok(Some(_))` for an identifier with its target path, `Err(_)` when no
/// leading number is found or the number is too large. Only the first
/// space after the digits is consumed; the rest of the line is the target
/// path, kept verbatim.
pub fn parse_line(input: &str) -> (r: Result<Option<ParsedLine>, ParseError>)
    ensures
        ({
            let s = input@;
            let b = skip_spaces(s, 0);
            let e = digits_end(s, b);
            let f = if e < s.len() && s[e] == ' ' {
                e + 1
            } else {
                e
            };
            &&& (b == s.len() ==> r == Ok::<Option<ParsedLine>, ParseError>(None))
            &&& (b < s.len() && e == b ==> r == Err::<Option<ParsedLine>, ParseError>(
                ParseError::NoNumber,
            ))
            &&& (b < s.len() && e > b && digits_value(s.subrange(b, e)) > usize::MAX ==> r
                == Err::<Option<ParsedLine>, ParseError>(ParseError::NumberTooLarge))
            &&& (b < s.len() && e > b && digits_value(s.subrange(b, e)) <= usize::MAX ==> (
            r matches Ok(Some(p)) && p.num == digits_value(s.subrange(b, e)) && p.filename@
                == s.subrange(f, s.len() as int)))
        }),
{
    let ghost s = input@;
    let n = input.unicode_len();
    let mut b: usize = 0;
    while b < n && is_space_at(input, b)
        invariant
            s == input@,
            0 <= b <= n,
            n == s.len(),
            skip_spaces(s, 0) == skip_spaces(s, b as int),
        decreases n - b,
    {
        b = b + 1;
    }
    proof {
        assert(skip_spaces(s, b as int) == b);
        assert(skip_spaces(s, 0) == b);
    }
    if b == n {
        return Ok(None);
    }
    let mut e: usize = b;
    while e < n && is_digit_at(input, e)
        invariant
            s == input@,
            b <= e <= n,
            n == s.len(),
            b == skip_spaces(s, 0),
            b < n,
            digits_end(s, b as int) == digits_end(s, e as int),
        decreases n - e,
    {
        e = e + 1;
    }
    proof {
        assert(digits_end(s, e as int) == e);
        assert(digits_end(s, b as int) == e);
        lemma_digits_end_props(s, b as int);
    }
    if e == b {
        return Err(ParseError::NoNumber);
    }
    let mut v: usize = 0;
    let mut i: usize = b;
    while i < e
        invariant
            s == input@,
            b <= i <= e <= n,
            n == s.len(),
            b == skip_spaces(s, 0),
            b < n,
            b < e,
            e == digits_end(s, b as int),
            forall|k: int| b <= k < e ==> is_digit(#[trigger] s[k]),
            v == digits_value(s.subrange(b as int, i as int)),
        decreases e - i,
    {
        let c = input.get_char(i);
        assert(is_digit(s[i as int]));
        let d: usize = (c as u32 as usize) - 48;
        assert(d == digit_val(s[i as int]));
        let overflowed: bool = match v.checked_mul(10) {
            Some(v10) => match v10.checked_add(d) {
                Some(nv) => {
                    v = nv;
                    false
                },
                None => true,
            },
            None => true,
        };
        proof {
            assert(s.subrange(b as int, i + 1).drop_last() =~= s.subrange(b as int, i as int));
            assert(digits_value(s.subrange(b as int, i + 1)) == digits_value(
                s.subrange(b as int, i as int),
            ) * 10 + digit_val(s[i as int]));
        }
        if overflowed {
            proof {
                lemma_digits_value_mono(s, b as int, i + 1, e as int);
            }
            return Err(ParseError::NumberTooLarge);
        }
        i = i + 1;
    }
    let f: usize = if e < n && input.get_char(e) == ' ' {
        e + 1
    } else {
        e
    };
    let filename = String::from_str(input.substring_char(f, n));
    proof {
        assert(filename@ =~= s.subrange(f as int, n as int));
    }
    Ok(Some(ParsedLine { num: v, filename }))
}

/// A run of `n` space characters.
pub open spec fn spaces(n: nat) -> Seq<char>
    decreases n,
{
    if n == 0 {
        Seq::empty()
    } else {
        spaces((n - 1) as nat).push(' ')
    }
}

/// One listing entry without its line break: the identifier, left
/// justified to `width` columns, a single separating space, and the path.
pub open spec fn render_entry(id: nat, path: Seq<char>, width: nat) -> Seq<char> {
    let ds = dec_digits(id);
    let pad = if ds.len() < width {
        spaces((width - ds.len()) as nat)
    } else {
        Seq::<char>::empty()
    };
    ds + pad + seq![' '] + path
}

/// The first `i` listing lines, each an entry followed by a line break.
pub open spec fn render_upto(sources: Seq<String>, i: int, width: nat) -> Seq<char>
    decreases i,
{
    if i <= 0 {
        Seq::empty()
    } else {
        render_upto(sources, i - 1, width) + render_entry(i as nat, sources[i - 1]@, width) + seq![
            '\n',
        ]
    }
}

/// The column width of a listing of `count` entries: wide enough for one
/// more identifier than the listing holds.
pub open spec fn listing_width(count: nat) -> nat {
    dec_digits(count + 1).len()
}

/// The identifier-to-path mapping a listing of these sources denotes.
pub open spec fn listing_map(sources: Seq<String>) -> Map<usize, Seq<char>> {
    Map::new(|k: usize| 1 <= k <= sources.len(), |k: usize| sources[k - 1]@)
}

fn append_spaces(s: &mut String, n: usize)
    ensures
        final(s)@ == old(s)@ + spaces(n as nat),
{
    let mut i: usize = 0;
    proof {
        assert(s@ =~= s@ + spaces(0));
    }
    while i < n
        invariant
            i <= n,
            s@ == old(s)@ + spaces(i as nat),
        decreases n - i,
    {
        proof {
            reveal_strlit(" ");
        }
        s.append(" ");
        proof {
            assert(s@ =~= old(s)@ + spaces((i + 1) as nat));
        }
        i = i + 1;
    }
}

/// Assigns 1-based identifiers to the given paths and renders the numbered
/// listing, one line per path. Returns the listing text together with the
/// identifier-to-path map.
pub fn write_with_ids(sources: &Vec<String>) -> (r: (String, IdMap))
    requires
        sources@.len() < usize::MAX,
    ensures
        r.0@ == render_upto(sources@, sources@.len() as int, listing_width(sources@.len() as nat)),
        r.1@ == listing_map(sources@),
{
    let count = sources.len();
    let width_str = usize_to_string(count + 1);
    let width = width_str.as_str().unicode_len();
    proof {
        assert(width == listing_width(count as nat));
    }
    let mut text = String::new();
    let mut items = IdMap::new();
    proof {
        assert(items@ =~= Map::new(|k: usize| 1 <= k <= 0, |k: usize| sources@[k - 1]@));
    }
    let mut i: usize = 0;
    while i < count
        invariant
            i <= count,
            count == sources@.len() < usize::MAX,
            width == listing_width(count as nat),
            text@ == render_upto(sources@, i as int, width as nat),
            items@ == Map::new(|k: usize| 1 <= k <= i, |k: usize| sources@[k - 1]@),
        decreases count - i,
    {
        let ghost text0 = text@;
        let id = i + 1;
        let id_str = usize_to_string(id);
        let l = id_str.as_str().unicode_len();
        proof {
            lemma_dec_digits_len_monotone(id as nat, (count + 1) as nat);
        }
        text.append(id_str.as_str());
        append_spaces(&mut text, width - l);
        proof {
            reveal_strlit(" ");
            reveal_strlit("\n");
        }
        text.append(" ");
        text.append(sources[i].as_str());
        text.append("\n");
        proof {
            assert(" "@ =~= seq![' ']);
            assert("\n"@ =~= seq!['\n']);
            if l < width {
                assert(text@ =~= text0 + render_entry(id as nat, sources@[i as int]@, width as nat)
                    + seq!['\n']);
            } else {
                assert(spaces(0) =~= Seq::<char>::empty());
                assert(text@ =~= text0 + render_entry(id as nat, sources@[i as int]@, width as nat)
                    + seq!['\n']);
            }
        }
        items.insert(id, sources[i].clone());
        proof {
            assert(items@ =~= Map::new(|k: usize| 1 <= k <= i + 1, |k: usize| sources@[k - 1]@));
        }
        i = i + 1;
    }
    proof {
        assert(items@ =~= listing_map(sources@));
    }
    (text, items)
}

/// Round trip: an unpadded rendered listing entry, parsed back, yields
/// exactly the identifier and path it was rendered from. A line is
/// unpadded when the listing's column width does not exceed the width of
/// the identifier's own digits, as is the case for every line of a listing
/// whose count stays within the identifier's digit count.
/// Round trip over a whole short listing: when one column is enough for
/// every identifier, each rendered line parses back to exactly the entry
/// of the identifier-to-path map it was rendered from.
pub proof fn lemma_listing_round_trip(sources: Seq<String>, k: int)
    requires
        0 <= k < sources.len(),
        sources.len() + 1 < 10,
    ensures
        ({
            let width = listing_width(sources.len() as nat);
            let s = render_entry((k + 1) as nat, sources[k]@, width);
            let b = skip_spaces(s, 0);
            let e = digits_end(s, b);
            &&& e < s.len() && s[e] == ' '
            &&& digits_value(s.subrange(b, e)) == k + 1
            &&& s.subrange(e + 1, s.len() as int) == listing_map(sources)[(k + 1) as usize]
        }),
{
    lemma_dec_digits_value((k + 1) as nat);
    lemma_dec_digits_value((sources.len() + 1) as nat);
    lemma_render_parse_round_trip((k + 1) as nat, sources[k]@, listing_width(
        sources.len() as nat,
    ));
}

pub proof fn lemma_render_parse_round_trip(id: nat, path: Seq<char>, width: nat)
    requires
        1 <= id <= usize::MAX,
        width <= dec_digits(id).len(),
    ensures
        ({
            let s = render_entry(id, path, width);
            let b = skip_spaces(s, 0);
            let e = digits_end(s, b);
            &&& b == 0
            &&& e == dec_digits(id).len()
            &&& e < s.len() && s[e] == ' '
            &&& digits_value(s.subrange(b, e)) == id
            &&& s.subrange(e + 1, s.len() as int) == path
        }),
{
    let ds = dec_digits(id);
    let s = render_entry(id, path, width);
    lemma_dec_digits_value(id);
    assert(s =~= ds + seq![' '] + path);
    assert(forall|k: int| 0 <= k < ds.len() ==> s[k] == ds[k]);
    assert(s[ds.len() as int] == ' ');
    assert(forall|c: char| is_digit(c) ==> !is_space(c));
    assert(forall|c: char| is_digit(c) ==> c != ' ');

    let b = skip_spaces(s, 0);
    lemma_skip_spaces_props(s, 0);
    assert(b == 0) by {
        if b > 0 {
            assert(is_space(s[0]));
            assert(is_digit(ds[0]));
        }
    }

    let e = digits_end(s, 0);
    lemma_digits_end_props(s, 0);
    assert(e == ds.len()) by {
        if e < ds.len() {
            assert(is_digit(s[e]));
        }
        if e > ds.len() {
            assert(is_digit(s[ds.len() as int]));
        }
    }

    assert(s.subrange(0, e) =~= ds);
    assert(s.subrange(e + 1, s.len() as int) =~= path);
}

} // verus!
