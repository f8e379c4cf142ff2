//! The metatile configuration: a small line-oriented text format.
//!
//! A line that holds `=` defines a sheet name: `name=path`. Any other line of three
//! bytes or more lists metatiles, separated by whitespace; each metatile is written
//! `bottomSheet,bottomIndex,topSheet,topIndex`. Shorter lines are skipped.

use crate::error::TilesetError;
use vstd::prelude::*;
use vstd::std_specs::iter::IteratorSpec;

verus! {

/// What is wrong with one metatile token.
pub enum TokenFault {
    /// A field is missing, or an index is not a number that fits.
    Malformed,
    /// The sheet name has no definition on an earlier line.
    Undefined { name: Seq<char> },
}

/// What is wrong with a configuration, and on which line (counted from zero).
pub struct ConfigFault {
    pub line: int,
    pub fault: TokenFault,
}

/// What the lines read so far have established.
pub struct ConfigState {
    /// The definitions in the order of their lines: name, then path.
    pub defs: Seq<(Seq<char>, Seq<char>)>,
    /// The metatile references in the order of their tokens: path, then index.
    pub refs: Seq<(Seq<char>, int)>,
}

/// The position of the first `c` at or after `from`, or the length of `s` if there is none.
pub open spec fn find(s: Seq<char>, c: char, from: int) -> int
    decreases s.len() - from,
{
    if from < 0 || from >= s.len() {
        s.len() as int
    } else if s[from] == c {
        from
    } else {
        find(s, c, from + 1)
    }
}

/// Where field `k` starts when `s` is split at every `sep`, if there are that many fields.
pub open spec fn field_start(s: Seq<char>, sep: char, k: nat) -> Option<int>
    decreases k,
{
    if k == 0 {
        Some(0)
    } else {
        match field_start(s, sep, (k - 1) as nat) {
            None => None,
            Some(a) => if find(s, sep, a) < s.len() {
                Some(find(s, sep, a) + 1)
            } else {
                None
            },
        }
    }
}

/// Field `k` of `s` split at every `sep`, if there are that many fields.
pub open spec fn field(s: Seq<char>, sep: char, k: nat) -> Option<Seq<char>> {
    match field_start(s, sep, k) {
        None => None,
        Some(a) => Some(s.subrange(a, find(s, sep, a))),
    }
}

/// Space, tab, line feed, form feed and carriage return separate tokens.
pub open spec fn is_space(c: char) -> bool {
    c == ' ' || c == '\t' || c == '\n' || c == '\x0c' || c == '\r'
}

/// The position of the first character at or after `from` that is no space.
pub open spec fn skip_spaces(s: Seq<char>, from: int) -> int
    decreases s.len() - from,
{
    if from < 0 || from >= s.len() {
        s.len() as int
    } else if !is_space(s[from]) {
        from
    } else {
        skip_spaces(s, from + 1)
    }
}

/// The position of the first space at or after `from`.
pub open spec fn token_end(s: Seq<char>, from: int) -> int
    decreases s.len() - from,
{
    if from < 0 || from >= s.len() {
        s.len() as int
    } else if is_space(s[from]) {
        from
    } else {
        token_end(s, from + 1)
    }
}

/// Whether `c` is a decimal digit.
pub open spec fn is_digit(c: char) -> bool {
    '0' <= c && c <= '9'
}

/// The number that a run of decimal digits writes.
pub open spec fn digits_value(s: Seq<char>) -> nat
    decreases s.len(),
{
    if s.len() == 0 {
        0
    } else {
        10 * digits_value(s.drop_last()) + ((s.last() as u32) - 48) as nat
    }
}

/// Whether `s` holds decimal digits only.
pub open spec fn all_digits(s: Seq<char>) -> bool {
    forall|i: int| 0 <= i < s.len() ==> is_digit(#[trigger] s[i])
}

/// The field without its optional leading `+`.
pub open spec fn unsigned(s: Seq<char>) -> Seq<char> {
    if s.len() > 0 && s[0] == '+' {
        s.skip(1)
    } else {
        s
    }
}

/// The index that a field writes: decimal digits, at least one, after an optional `+`,
/// with a value that fits in `usize`.
pub open spec fn index_of(s: Seq<char>) -> Option<nat> {
    let digits = unsigned(s);
    if digits.len() > 0 && all_digits(digits) && digits_value(digits) <= usize::MAX {
        Some(digits_value(digits))
    } else {
        None
    }
}

/// The path that `name` stands for: that of its latest definition.
pub open spec fn resolve(defs: Seq<(Seq<char>, Seq<char>)>, name: Seq<char>) -> Option<Seq<char>>
    decreases defs.len(),
{
    if defs.len() == 0 {
        None
    } else if defs.last().0 == name {
        Some(defs.last().1)
    } else {
        resolve(defs.drop_last(), name)
    }
}

/// The reference that fields `k` and `k + 1` of a token write: a sheet name, which must
/// be defined, and an index.
pub open spec fn sheet_ref(defs: Seq<(Seq<char>, Seq<char>)>, token: Seq<char>, k: nat) -> Result<
    (Seq<char>, int),
    TokenFault,
> {
    match field(token, ',', k) {
        None => Err(TokenFault::Malformed),
        Some(name) => match resolve(defs, name) {
            None => Err(TokenFault::Undefined { name }),
            Some(path) => match field(token, ',', k + 1) {
                None => Err(TokenFault::Malformed),
                Some(digits) => match index_of(digits) {
                    None => Err(TokenFault::Malformed),
                    Some(index) => Ok((path, index as int)),
                },
            },
        },
    }
}

/// The two references of a token: the bottom one, then the top one.
pub open spec fn token_refs(defs: Seq<(Seq<char>, Seq<char>)>, token: Seq<char>) -> Result<
    Seq<(Seq<char>, int)>,
    TokenFault,
> {
    match sheet_ref(defs, token, 0) {
        Err(f) => Err(f),
        Ok(bottom) => match sheet_ref(defs, token, 2) {
            Err(f) => Err(f),
            Ok(top) => Ok(seq![bottom, top]),
        },
    }
}

/// The references of the tokens of `s` that start at or after `from`, in order, or the
/// fault of the first token that has one.
pub open spec fn line_refs(defs: Seq<(Seq<char>, Seq<char>)>, s: Seq<char>, from: int) -> Result<
    Seq<(Seq<char>, int)>,
    TokenFault,
>
    decreases s.len() - from,
{
    let start = skip_spaces(s, from);
    let end = token_end(s, start);
    if from < 0 || start >= s.len() {
        Ok(Seq::empty())
    } else {
        proof {
            lemma_skip_spaces(s, from);
            lemma_token_end(s, start);
        }
        match token_refs(defs, s.subrange(start, end)) {
            Err(f) => Err(f),
            Ok(here) => match line_refs(defs, s, end) {
                Err(f) => Err(f),
                Ok(rest) => Ok(here + rest),
            },
        }
    }
}

/// The length of a line in bytes.
pub open spec fn byte_len(s: Seq<char>) -> nat {
    vstd::utf8::encode_utf8(s).len()
}

/// What line number `number` adds to what the lines before it established.
pub open spec fn line_effect(state: ConfigState, line: Seq<char>, number: int) -> Result<
    ConfigState,
    ConfigFault,
> {
    if line.contains('=') {
        Ok(
            ConfigState {
                defs: state.defs.push(
                    (field(line, '=', 0).unwrap(), field(line, '=', 1).unwrap()),
                ),
                refs: state.refs,
            },
        )
    } else if byte_len(line) < 3 {
        Ok(state)
    } else {
        match line_refs(state.defs, line, 0) {
            Err(fault) => Err(ConfigFault { line: number, fault }),
            Ok(refs) => Ok(ConfigState { defs: state.defs, refs: state.refs + refs }),
        }
    }
}

/// What the first `n` lines establish, or the fault of the first line that has one.
pub open spec fn config_after(lines: Seq<Seq<char>>, n: int) -> Result<ConfigState, ConfigFault>
    decreases n,
{
    if n <= 0 {
        Ok(ConfigState { defs: Seq::empty(), refs: Seq::empty() })
    } else {
        match config_after(lines, n - 1) {
            Err(f) => Err(f),
            Ok(state) => line_effect(state, lines[n - 1], n - 1),
        }
    }
}

/// Whether the error reports the fault.
pub open spec fn reports(e: TilesetError, f: ConfigFault) -> bool {
    match f.fault {
        TokenFault::Malformed => e matches TilesetError::Parse { line } && line == f.line,
        TokenFault::Undefined { name } => e matches TilesetError::UndefinedSymbol { line, name: n }
            && line == f.line && n@ == name,
    }
}

/// The lines as sequences of characters.
pub open spec fn lines_view(lines: Seq<String>) -> Seq<Seq<char>> {
    Seq::new(lines.len(), |i: int| lines[i]@)
}

/// The definitions as pairs of character sequences.
pub open spec fn defs_view(defs: Seq<(String, String)>) -> Seq<(Seq<char>, Seq<char>)> {
    Seq::new(defs.len(), |i: int| (defs[i].0@, defs[i].1@))
}

/// The references as pairs of a path and an index.
pub open spec fn refs_view(refs: Seq<(String, usize)>) -> Seq<(Seq<char>, int)> {
    Seq::new(refs.len(), |i: int| (refs[i].0@, refs[i].1 as int))
}

/// `find` stays inside the string and stops at the first hit.
pub proof fn lemma_find(s: Seq<char>, c: char, from: int)
    requires
        0 <= from <= s.len(),
    ensures
        from <= find(s, c, from) <= s.len(),
        find(s, c, from) < s.len() ==> s[find(s, c, from)] == c,
        forall|i: int| from <= i < find(s, c, from) ==> s[i] != c,
    decreases s.len() - from,
{
    if from < s.len() && s[from] != c {
        lemma_find(s, c, from + 1);
    }
}

/// `skip_spaces` stays inside the string and stops at the first character that is no space.
pub proof fn lemma_skip_spaces(s: Seq<char>, from: int)
    requires
        0 <= from,
    ensures
        from <= skip_spaces(s, from) || skip_spaces(s, from) == s.len(),
        skip_spaces(s, from) <= s.len(),
        skip_spaces(s, from) < s.len() ==> !is_space(s[skip_spaces(s, from)]),
    decreases s.len() - from,
{
    if from < s.len() && is_space(s[from]) {
        lemma_skip_spaces(s, from + 1);
    }
}

/// A token that starts on a character that is no space is not empty.
pub proof fn lemma_token_end(s: Seq<char>, from: int)
    requires
        0 <= from < s.len(),
        !is_space(s[from]),
    ensures
        from < token_end(s, from) <= s.len(),
    decreases s.len() - from,
{
    lemma_token_end_bounds(s, from + 1);
}

/// `token_end` stays inside the string.
pub proof fn lemma_token_end_bounds(s: Seq<char>, from: int)
    requires
        0 <= from,
    ensures
        from <= token_end(s, from) || token_end(s, from) == s.len(),
        token_end(s, from) <= s.len(),
    decreases s.len() - from,
{
    if from < s.len() && !is_space(s[from]) {
        lemma_token_end_bounds(s, from + 1);
    }
}

/// The characters of a string.
pub fn chars_of(text: &str) -> (chars: Vec<char>)
    ensures
        chars@ == text@,
{
    broadcast use {vstd::string::axiom_spec_iter, vstd::string::next_postcondition};

    let mut chars: Vec<char> = Vec::new();
    let mut rest = text.chars();
    loop
        invariant
            rest.obeys_prophetic_iter_laws(),
            rest.decrease() is Some,
            chars@ + rest.remaining() == text@,
        ensures
            chars@ == text@,
        decreases rest.decrease()->0,
    {
        let ghost before = rest;
        match rest.next() {
            Some(c) => {
                chars.push(c);
                proof {
                    assert(chars@ + rest.remaining() =~= text@);
                }
            },
            None => {
                proof {
                    assert(chars@ =~= text@);
                }
                break ;
            },
        }
    }
    chars
}

/// The position of the first `c` at or after `from`, or the length if there is none.
pub fn find_char(chars: &Vec<char>, c: char, from: usize) -> (at: usize)
    requires
        from <= chars@.len(),
    ensures
        at == find(chars@, c, from as int),
        from <= at <= chars@.len(),
{
    let mut i: usize = from;
    while i < chars.len() && chars[i] != c
        invariant
            from <= i <= chars@.len(),
            find(chars@, c, from as int) == find(chars@, c, i as int),
        decreases chars@.len() - i,
    {
        i += 1;
    }
    i
}

/// The bounds of field `k` when `chars` is split at every `sep`.
pub fn field_bounds(chars: &Vec<char>, sep: char, k: usize) -> (r: Option<(usize, usize)>)
    ensures
        match r {
            Some((start, end)) => {
                &&& field_start(chars@, sep, k as nat) == Some(start as int)
                &&& end == find(chars@, sep, start as int)
                &&& start <= end <= chars@.len()
            },
            None => field_start(chars@, sep, k as nat) is None,
        },
{
    let mut start: usize = 0;
    let mut done: usize = 0;
    while done < k
        invariant
            done <= k,
            start <= chars@.len(),
            field_start(chars@, sep, done as nat) == Some(start as int),
        decreases k - done,
    {
        let end = find_char(chars, sep, start);
        if end >= chars.len() {
            proof {
                lemma_no_more_fields(chars@, sep, done as nat + 1, k as nat);
            }
            return None;
        }
        start = end + 1;
        done += 1;
    }
    let end = find_char(chars, sep, start);
    Some((start, end))
}

/// Past the last field there are no fields.
proof fn lemma_no_more_fields(s: Seq<char>, sep: char, k: nat, m: nat)
    requires
        k <= m,
        field_start(s, sep, k) is None,
    ensures
        field_start(s, sep, m) is None,
    decreases m - k,
{
    if k < m {
        lemma_no_more_fields(s, sep, k, (m - 1) as nat);
    }
}

/// The value of a run of digits grows with the run.
proof fn lemma_digits_grow(s: Seq<char>, n: int)
    requires
        0 <= n <= s.len(),
    ensures
        digits_value(s.take(n)) <= digits_value(s),
    decreases s.len() - n,
{
    if n < s.len() {
        lemma_digits_grow(s, n + 1);
        assert(s.take(n + 1).drop_last() =~= s.take(n));
    } else {
        assert(s.take(n) =~= s);
    }
}

/// The index that the characters from `from` to `to` write.
pub fn parse_index(chars: &Vec<char>, from: usize, to: usize) -> (r: Option<usize>)
    requires
        from <= to <= chars@.len(),
    ensures
        match r {
            Some(n) => index_of(chars@.subrange(from as int, to as int)) == Some(n as nat),
            None => index_of(chars@.subrange(from as int, to as int)) is None,
        },
{
    let ghost whole = chars@.subrange(from as int, to as int);
    let first: usize = if from < to && chars[from] == '+' {
        from + 1
    } else {
        from
    };
    let ghost digits = chars@.subrange(first as int, to as int);
    proof {
        if first > from {
            assert(whole[0] == '+');
            assert(digits =~= whole.skip(1));
        } else {
            assert(digits =~= whole);
            if whole.len() > 0 {
                assert(whole[0] == chars@[from as int]);
            }
        }
    }
    if first == to {
        return None;
    }
    let mut value: usize = 0;
    let mut i: usize = first;
    proof {
        assert(digits.take(0) =~= Seq::<char>::empty());
    }
    while i < to
        invariant
            from <= first <= i <= to <= chars@.len(),
            first < to,
            whole == chars@.subrange(from as int, to as int),
            digits == unsigned(whole),
            digits == chars@.subrange(first as int, to as int),
            forall|j: int| 0 <= j < i - first ==> is_digit(#[trigger] digits[j]),
            value == digits_value(digits.take(i - first)),
        decreases to - i,
    {
        let c: char = chars[i];
        proof {
            assert(digits[i - first] == c);
            assert(digits.take(i - first + 1).drop_last() =~= digits.take(i - first));
        }
        if c < '0' || c > '9' {
            proof {
                assert(!is_digit(digits[i - first]));
            }
            return None;
        }
        let d: usize = (c as u32 - 48) as usize;
        proof {
            assert(digits.take(i - first + 1).last() == c);
            assert(digits_value(digits.take(i - first + 1)) == 10 * value + d);
        }
        if value > (usize::MAX - d) / 10 {
            proof {
                lemma_digits_grow(digits, i - first + 1);
            }
            return None;
        }
        value = 10 * value + d;
        i += 1;
    }
    proof {
        assert(digits.take(i - first) =~= digits);
    }
    Some(value)
}

/// The path of the latest definition of `name`.
pub fn lookup_sheet<'a>(defs: &'a Vec<(String, String)>, name: &String) -> (r: Option<
    &'a String,
>)
    ensures
        match r {
            Some(path) => resolve(defs_view(defs@), name@) == Some(path@),
            None => resolve(defs_view(defs@), name@) is None,
        },
{
    let ghost all = defs_view(defs@);
    let mut i: usize = defs.len();
    proof {
        assert(all.take(i as int) =~= all);
    }
    while i > 0
        invariant
            i <= defs@.len(),
            all == defs_view(defs@),
            resolve(all, name@) == resolve(all.take(i as int), name@),
        decreases i,
    {
        i -= 1;
        proof {
            assert(all.take(i + 1).drop_last() =~= all.take(i as int));
            assert(all.take(i + 1).last() == all[i as int]);
        }
        if defs[i].0 == *name {
            return Some(&defs[i].1);
        }
    }
    proof {
        assert(all.take(0) =~= Seq::<(Seq<char>, Seq<char>)>::empty());
    }
    None
}

/// Reads the reference that fields `k` and `k + 1` of a token write.
fn read_ref(
    defs: &Vec<(String, String)>,
    token: &str,
    chars: &Vec<char>,
    k: usize,
    line: usize,
) -> (r: Result<(String, usize), TilesetError>)
    requires
        chars@ == token@,
        k < usize::MAX,
    ensures
        match sheet_ref(defs_view(defs@), token@, k as nat) {
            Ok((path, index)) => r matches Ok((p, n)) && p@ == path && n == index,
            Err(fault) => r matches Err(e) && reports(e, ConfigFault { line: line as int, fault }),
        },
{
    let (start, end) = match field_bounds(chars, ',', k) {
        Some(bounds) => bounds,
        None => {
            return Err(TilesetError::Parse { line });
        },
    };
    let name: String = token.substring_char(start, end).to_owned();
    let path: &String = match lookup_sheet(defs, &name) {
        Some(path) => path,
        None => {
            return Err(TilesetError::UndefinedSymbol { line, name });
        },
    };
    let (start, end) = match field_bounds(chars, ',', k + 1) {
        Some(bounds) => bounds,
        None => {
            return Err(TilesetError::Parse { line });
        },
    };
    match parse_index(chars, start, end) {
        Some(index) => Ok((path.clone(), index)),
        None => Err(TilesetError::Parse { line }),
    }
}

/// Reads the references of the tokens of one line and appends them to `refs`.
fn read_line(
    defs: &Vec<(String, String)>,
    text: &str,
    line: usize,
    refs: &mut Vec<(String, usize)>,
) -> (r: Result<(), TilesetError>)
    ensures
        match line_refs(defs_view(defs@), text@, 0) {
            Ok(found) => r is Ok && refs_view(final(refs)@) == refs_view(old(refs)@) + found,
            Err(fault) => r matches Err(e) && reports(e, ConfigFault { line: line as int, fault }),
        },
{
    let chars = chars_of(text);
    let ghost dv = defs_view(defs@);
    let ghost base = refs_view(refs@);
    let ghost acc = Seq::<(Seq<char>, int)>::empty();
    let mut at: usize = 0;
    proof {
        assert(base + acc =~= base);
    }
    loop
        invariant
            chars@ == text@,
            dv == defs_view(defs@),
            base == refs_view(old(refs)@),
            at <= chars@.len(),
            refs_view(refs@) == base + acc,
            line_refs(dv, text@, 0) == match line_refs(dv, text@, at as int) {
                Ok(rest) => Ok::<Seq<(Seq<char>, int)>, TokenFault>(acc + rest),
                Err(f) => Err(f),
            },
        ensures
            line_refs(dv, text@, 0) == Ok::<Seq<(Seq<char>, int)>, TokenFault>(acc),
            refs_view(refs@) == base + acc,
        decreases chars@.len() - at,
    {
        let start = skip_blank(&chars, at);
        if start >= chars.len() {
            proof {
                assert(acc + Seq::<(Seq<char>, int)>::empty() =~= acc);
            }
            break ;
        }
        let end = token_limit(&chars, start);
        proof {
            lemma_skip_spaces(text@, at as int);
            lemma_token_end(text@, start as int);
        }
        let token: &str = text.substring_char(start, end);
        let token_chars = chars_of(token);
        let bottom = match read_ref(defs, token, &token_chars, 0, line) {
            Ok(found) => found,
            Err(e) => {
                return Err(e);
            },
        };
        let top = match read_ref(defs, token, &token_chars, 2, line) {
            Ok(found) => found,
            Err(e) => {
                return Err(e);
            },
        };
        let ghost here = seq![(bottom.0@, bottom.1 as int), (top.0@, top.1 as int)];
        let ghost before = refs_view(refs@);
        refs.push(bottom);
        refs.push(top);
        proof {
            assert(refs_view(refs@) =~= before + here);
            assert(base + (acc + here) =~= (base + acc) + here);
            match line_refs(dv, text@, end as int) {
                Ok(rest) => {
                    assert((acc + here) + rest =~= acc + (here + rest));
                },
                Err(f) => {},
            }
            acc = acc + here;
        }
        at = end;
    }
    Ok(())
}

/// The position of the first character at or after `from` that is no space.
pub fn skip_blank(chars: &Vec<char>, from: usize) -> (at: usize)
    requires
        from <= chars@.len(),
    ensures
        at == skip_spaces(chars@, from as int),
        from <= at <= chars@.len(),
{
    let mut i: usize = from;
    while i < chars.len() && is_blank_char(chars[i])
        invariant
            from <= i <= chars@.len(),
            skip_spaces(chars@, from as int) == skip_spaces(chars@, i as int),
        decreases chars@.len() - i,
    {
        i += 1;
    }
    i
}

/// The position of the first space at or after `from`.
pub fn token_limit(chars: &Vec<char>, from: usize) -> (at: usize)
    requires
        from <= chars@.len(),
    ensures
        at == token_end(chars@, from as int),
        from <= at <= chars@.len(),
{
    let mut i: usize = from;
    while i < chars.len() && !is_blank_char(chars[i])
        invariant
            from <= i <= chars@.len(),
            token_end(chars@, from as int) == token_end(chars@, i as int),
        decreases chars@.len() - i,
    {
        i += 1;
    }
    i
}

/// Whether `c` separates tokens.
pub fn is_blank_char(c: char) -> (b: bool)
    ensures
        b == is_space(c),
{
    c == ' ' || c == '\t' || c == '\n' || c == '\x0c' || c == '\r'
}

/// A fault found in the first lines is the fault of the whole configuration.
proof fn lemma_fault_stays(lines: Seq<Seq<char>>, n: int, m: int)
    requires
        n <= m,
        config_after(lines, n) is Err,
    ensures
        config_after(lines, m) == config_after(lines, n),
    decreases m - n,
{
    if n < m {
        lemma_fault_stays(lines, n, m - 1);
    }
}

/// Whether a line holds `c`.
proof fn lemma_contains(s: Seq<char>, c: char)
    ensures
        s.contains(c) <==> find(s, c, 0) < s.len(),
{
    lemma_find(s, c, 0);
    if s.contains(c) {
        let i = choose|i: int| 0 <= i < s.len() && s[i] == c;
        assert(s[i] == c);
    }
}

/// Parses a metatile configuration into its references, in the order of the text.
///
/// Every metatile token yields two references, the bottom one and then the top one;
/// each is the path that the sheet name stands for and the tile index. Parsing stops
/// at the first fault: `UndefinedSymbol` for a sheet name without an earlier
/// definition, `Parse` for a token with a missing field or an index that is no number.
pub fn parse_metatile_config(lines: Vec<String>) -> (r: Result<Vec<(String, usize)>, TilesetError>)
    ensures
        match config_after(lines_view(lines@), lines@.len() as int) {
            Ok(state) => r matches Ok(refs) && refs_view(refs@) == state.refs,
            Err(fault) => r matches Err(e) && reports(e, fault),
        },
{
    let ghost lv = lines_view(lines@);
    let mut defs: Vec<(String, String)> = Vec::new();
    let mut refs: Vec<(String, usize)> = Vec::new();
    let mut n: usize = 0;
    proof {
        assert(defs_view(defs@) =~= Seq::<(Seq<char>, Seq<char>)>::empty());
        assert(refs_view(refs@) =~= Seq::<(Seq<char>, int)>::empty());
    }
    while n < lines.len()
        invariant
            n <= lines@.len(),
            lv == lines_view(lines@),
            config_after(lv, n as int) == Ok::<ConfigState, ConfigFault>(
                ConfigState { defs: defs_view(defs@), refs: refs_view(refs@) },
            ),
        decreases lines@.len() - n,
    {
        let text: &str = lines[n].as_str();
        let chars = chars_of(text);
        let first = find_char(&chars, '=', 0);
        proof {
            assert(lv[n as int] == text@);
            lemma_contains(text@, '=');
        }
        if first < chars.len() {
            let second = find_char(&chars, '=', first + 1);
            let name: String = text.substring_char(0, first).to_owned();
            let path: String = text.substring_char(first + 1, second).to_owned();
            let ghost before = defs_view(defs@);
            defs.push((name, path));
            proof {
                reveal_with_fuel(field_start, 2);
                assert(field(text@, '=', 0) == Some(name@));
                assert(field(text@, '=', 1) == Some(path@));
                assert(defs_view(defs@) =~= before.push((name@, path@)));
                assert(config_after(lv, n + 1) == Ok::<ConfigState, ConfigFault>(
                    ConfigState { defs: defs_view(defs@), refs: refs_view(refs@) },
                ));
            }
        } else if text.as_bytes().len() >= 3 {
            proof {
                assert(byte_len(text@) >= 3);
            }
            match read_line(&defs, text, n, &mut refs) {
                Ok(()) => {
                    proof {
                        assert(config_after(lv, n + 1) == Ok::<ConfigState, ConfigFault>(
                            ConfigState { defs: defs_view(defs@), refs: refs_view(refs@) },
                        ));
                    }
                },
                Err(e) => {
                    proof {
                        lemma_fault_stays(lv, n as int + 1, lines@.len() as int);
                    }
                    return Err(e);
                },
            }
        } else {
            proof {
                assert(byte_len(text@) < 3);
            }
        }
        n += 1;
    }
    Ok(refs)
}

} // verus!
