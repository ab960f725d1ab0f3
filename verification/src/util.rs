//! Environment-variable names, `NAME=value` pairs, dotenv files and shell quoting.
use vstd::prelude::*;

use crate::text::{
    chars_of, copy_str, decimal, decimal_string, find_char, index_of_char, is_ascii_digit,
    line_windows, push_char, spec_lines, string_of, trim, trim_window, window_starts_with,
    is_ws, trim_start, trim_end, lemma_index_of_char,
};

verus! {

broadcast use vstd::string::group_string_axioms;

/// A stored secret's name and the name it is given in a child's environment.
#[derive(Clone, Debug, PartialEq, Eq)]
pub struct EnvMapping {
    pub source: String,
    pub target: String,
}

/// Why a name, a pair or a dotenv file was refused.
#[derive(Clone, Debug, PartialEq, Eq)]
pub enum EnvError {
    /// The name is empty.
    EmptyName,
    /// The name starts with a digit.
    LeadingDigit(String),
    /// The name holds a character other than `A-Z`, `a-z`, `0-9` and `_`.
    InvalidCharacter(String),
    /// The input has no `=`.
    MissingAssignment(String),
    /// A dotenv line (numbered from one, given as written) has no `=`.
    InvalidLine(usize, String),
}

/// [`EnvError`] with its text as character sequences.
pub enum EnvErrorView {
    EmptyName,
    LeadingDigit(Seq<char>),
    InvalidCharacter(Seq<char>),
    MissingAssignment(Seq<char>),
    InvalidLine(nat, Seq<char>),
}

impl View for EnvError {
    type V = EnvErrorView;

    open spec fn view(&self) -> EnvErrorView {
        match self {
            EnvError::EmptyName => EnvErrorView::EmptyName,
            EnvError::LeadingDigit(s) => EnvErrorView::LeadingDigit(s@),
            EnvError::InvalidCharacter(s) => EnvErrorView::InvalidCharacter(s@),
            EnvError::MissingAssignment(s) => EnvErrorView::MissingAssignment(s@),
            EnvError::InvalidLine(n, s) => EnvErrorView::InvalidLine(*n as nat, s@),
        }
    }
}

impl EnvMapping {
    /// The source and target names.
    pub open spec fn spec_pair(&self) -> (Seq<char>, Seq<char>) {
        (self.source@, self.target@)
    }
}

/// Whether `c` may stand in an environment-variable name.
pub open spec fn is_name_char(c: char) -> bool {
    let n = c as u32;
    (48 <= n && n <= 57) || (65 <= n && n <= 90) || (97 <= n && n <= 122) || c == '_'
}

/// When a name is accepted, and which error refuses it otherwise.
pub open spec fn check_env_name(name: Seq<char>) -> Result<(), EnvErrorView> {
    if name.len() == 0 {
        Err(EnvErrorView::EmptyName)
    } else if is_ascii_digit(name[0]) {
        Err(EnvErrorView::LeadingDigit(name))
    } else if exists|i: int| 0 <= i < name.len() && !is_name_char(#[trigger] name[i]) {
        Err(EnvErrorView::InvalidCharacter(name))
    } else {
        Ok(())
    }
}

/// Checks the name `v[lo..hi]`.
pub fn check_name_window(v: &Vec<char>, lo: usize, hi: usize) -> (r: Result<(), EnvError>)
    requires
        lo <= hi <= v.len(),
    ensures
        match r {
            Ok(_) => check_env_name(v@.subrange(lo as int, hi as int)) is Ok,
            Err(e) => check_env_name(v@.subrange(lo as int, hi as int)) == Err::<(), EnvErrorView>(e@),
        },
{
    let ghost w = v@.subrange(lo as int, hi as int);
    if lo == hi {
        return Err(EnvError::EmptyName);
    }
    let first = v[lo] as u32;
    assert(w[0] == v@[lo as int]);
    if 48 <= first && first <= 57 {
        return Err(EnvError::LeadingDigit(string_of(v, lo, hi)));
    }
    let mut i = lo;
    while i < hi
        invariant
            lo <= i <= hi <= v.len(),
            w == v@.subrange(lo as int, hi as int),
            lo < hi,
            !is_ascii_digit(w[0]),
            forall|j: int| 0 <= j < i - lo ==> is_name_char(#[trigger] w[j]),
        decreases hi - i,
    {
        let c = v[i];
        let n = c as u32;
        if !((48 <= n && n <= 57) || (65 <= n && n <= 90) || (97 <= n && n <= 122) || c == '_') {
            assert(!is_name_char(w[i - lo]));
            return Err(EnvError::InvalidCharacter(string_of(v, lo, hi)));
        }
        i = i + 1;
    }
    Ok(())
}

/// Checks that `name` may be used as an environment-variable name: it is not empty,
/// does not start with a digit, and holds only `A-Z`, `a-z`, `0-9` and `_`.
pub fn validate_env_name(name: &str) -> (r: Result<(), EnvError>)
    ensures
        match r {
            Ok(_) => check_env_name(name@) is Ok,
            Err(e) => check_env_name(name@) == Err::<(), EnvErrorView>(e@),
        },
{
    let v = chars_of(name);
    assert(v@.subrange(0, v@.len() as int) =~= name@);
    check_name_window(&v, 0, v.len())
}

/// What `parse_pair` gives for `input`.
pub open spec fn parse_pair_spec(input: Seq<char>) -> Result<(Seq<char>, Seq<char>), EnvErrorView> {
    let k = index_of_char(input, '=');
    if k >= input.len() {
        Err(EnvErrorView::MissingAssignment(input))
    } else {
        match check_env_name(input.take(k)) {
            Err(e) => Err(e),
            Ok(_) => Ok((input.take(k), input.skip(k + 1))),
        }
    }
}

/// Splits `NAME=value` at its first `=` and checks the name.
pub fn parse_pair(input: &str) -> (r: Result<(String, String), EnvError>)
    ensures
        match r {
            Ok(p) => parse_pair_spec(input@) == Ok::<(Seq<char>, Seq<char>), EnvErrorView>(
                (p.0@, p.1@),
            ),
            Err(e) => parse_pair_spec(input@) == Err::<(Seq<char>, Seq<char>), EnvErrorView>(e@),
        },
{
    let v = chars_of(input);
    let n = v.len();
    let eq = find_char(&v, 0, n, '=');
    assert(v@.subrange(0, n as int) =~= input@);
    if eq == n {
        return Err(EnvError::MissingAssignment(copy_str(input)));
    }
    assert(v@.subrange(0, eq as int) =~= input@.take(eq as int));
    assert(v@.subrange(eq + 1, n as int) =~= input@.skip(eq + 1));
    match check_name_window(&v, 0, eq) {
        Err(e) => Err(e),
        Ok(_) => Ok((string_of(&v, 0, eq), string_of(&v, eq + 1, n))),
    }
}

/// What `parse_env_mapping` gives for `input`: `SRC=DST`, or a single name for both.
pub open spec fn parse_env_mapping_spec(input: Seq<char>) -> Result<(Seq<char>, Seq<char>), EnvErrorView> {
    let k = index_of_char(input, '=');
    if k < input.len() {
        match check_env_name(input.take(k)) {
            Err(e) => Err(e),
            Ok(_) => match check_env_name(input.skip(k + 1)) {
                Err(e) => Err(e),
                Ok(_) => Ok((input.take(k), input.skip(k + 1))),
            },
        }
    } else {
        match check_env_name(input) {
            Err(e) => Err(e),
            Ok(_) => Ok((input, input)),
        }
    }
}

/// Reads `SRC=DST` or `NAME` (then both are `NAME`), checking both names.
pub fn parse_env_mapping(input: &str) -> (r: Result<EnvMapping, EnvError>)
    ensures
        match r {
            Ok(m) => parse_env_mapping_spec(input@) == Ok::<(Seq<char>, Seq<char>), EnvErrorView>(
                m.spec_pair(),
            ),
            Err(e) => parse_env_mapping_spec(input@) == Err::<(Seq<char>, Seq<char>), EnvErrorView>(
                e@,
            ),
        },
{
    let v = chars_of(input);
    let n = v.len();
    let eq = find_char(&v, 0, n, '=');
    assert(v@.subrange(0, n as int) =~= input@);
    if eq < n {
        assert(v@.subrange(0, eq as int) =~= input@.take(eq as int));
        assert(v@.subrange(eq + 1, n as int) =~= input@.skip(eq + 1));
        match check_name_window(&v, 0, eq) {
            Err(e) => Err(e),
            Ok(_) => match check_name_window(&v, eq + 1, n) {
                Err(e) => Err(e),
                Ok(_) => Ok(EnvMapping { source: string_of(&v, 0, eq), target: string_of(&v, eq + 1, n) }),
            },
        }
    } else {
        match check_name_window(&v, 0, n) {
            Err(e) => Err(e),
            Ok(_) => Ok(EnvMapping { source: copy_str(input), target: copy_str(input) }),
        }
    }
}

// ---------------------------------------------------------------------------
// Dotenv files
// ---------------------------------------------------------------------------
/// `value` without one pair of matching surrounding quotes (`"` or `'`).
pub open spec fn unquote_spec(value: Seq<char>) -> Seq<char> {
    if value.len() >= 2 && ((value[0] == '"' && value.last() == '"') || (value[0] == '\''
        && value.last() == '\'')) {
        value.subrange(1, value.len() - 1)
    } else {
        value
    }
}

/// The bounds of `v[lo..hi]` without one pair of surrounding quotes.
pub fn unquote_window(v: &Vec<char>, lo: usize, hi: usize) -> (r: (usize, usize))
    requires
        lo <= hi <= v.len(),
    ensures
        lo <= r.0 <= r.1 <= hi,
        v@.subrange(r.0 as int, r.1 as int) == unquote_spec(v@.subrange(lo as int, hi as int)),
{
    let ghost w = v@.subrange(lo as int, hi as int);
    if hi - lo >= 2 && ((v[lo] == '"' && v[hi - 1] == '"') || (v[lo] == '\'' && v[hi - 1]
        == '\'')) {
        assert(w[0] == v@[lo as int] && w.last() == v@[hi - 1]);
        assert(v@.subrange(lo + 1, hi - 1) =~= w.subrange(1, w.len() - 1));
        (lo + 1, hi - 1)
    } else {
        assert(w.len() >= 2 ==> w[0] == v@[lo as int] && w.last() == v@[hi - 1]);
        (lo, hi)
    }
}

/// `value` without one pair of matching surrounding quotes (`"` or `'`).
pub fn unquote(value: &str) -> (r: String)
    ensures
        r@ == unquote_spec(value@),
{
    let v = chars_of(value);
    assert(v@.subrange(0, v@.len() as int) =~= value@);
    let (a, b) = unquote_window(&v, 0, v.len());
    string_of(&v, a, b)
}

/// The prefix that a dotenv line may start with.
pub open spec fn export_prefix() -> Seq<char> {
    seq!['e', 'x', 'p', 'o', 'r', 't', ' ']
}

/// What one dotenv line contributes.
pub enum LineOutcome {
    /// A blank line or a comment.
    Skip,
    /// A `NAME=value` entry.
    Pair(Seq<char>, Seq<char>),
    /// A refused line.
    Fail(EnvErrorView),
}

/// How the dotenv line `raw`, at index `index`, is read: trimmed; blank lines and
/// comments skipped; an `export ` prefix dropped; split at the first `=`; the name
/// trimmed and checked; the value trimmed and unquoted.
pub open spec fn parse_env_line(raw: Seq<char>, index: nat) -> LineOutcome {
    let line = trim(raw);
    if line.len() == 0 || line[0] == '#' {
        LineOutcome::Skip
    } else {
        let body = if export_prefix().is_prefix_of(line) {
            line.skip(7)
        } else {
            line
        };
        let k = index_of_char(body, '=');
        if k >= body.len() {
            LineOutcome::Fail(EnvErrorView::InvalidLine(index + 1, raw))
        } else {
            let name = trim(body.take(k));
            match check_env_name(name) {
                Err(e) => LineOutcome::Fail(e),
                Ok(_) => LineOutcome::Pair(name, unquote_spec(trim(body.skip(k + 1)))),
            }
        }
    }
}

/// The entries of the lines `lines[i..]`, or the error of the first refused one.
pub open spec fn parse_env_lines(lines: Seq<Seq<char>>, i: nat) -> Result<
    Seq<(Seq<char>, Seq<char>)>,
    EnvErrorView,
>
    decreases lines.len() - i,
{
    if i >= lines.len() {
        Ok(seq![])
    } else {
        match parse_env_line(lines[i as int], i) {
            LineOutcome::Skip => parse_env_lines(lines, i + 1),
            LineOutcome::Fail(e) => Err(e),
            LineOutcome::Pair(n, v) => match parse_env_lines(lines, i + 1) {
                Ok(rest) => Ok(seq![(n, v)] + rest),
                Err(e) => Err(e),
            },
        }
    }
}

/// What `parse_env_file` gives for `contents`.
pub open spec fn parse_env_file_spec(contents: Seq<char>) -> Result<
    Seq<(Seq<char>, Seq<char>)>,
    EnvErrorView,
> {
    parse_env_lines(spec_lines(contents), 0)
}

/// The character sequences of a list of string pairs.
pub open spec fn pairs_view(v: Seq<(String, String)>) -> Seq<(Seq<char>, Seq<char>)> {
    v.map_values(|p: (String, String)| (p.0@, p.1@))
}

/// `prefix` followed by the result of the rest, or the rest's error.
pub open spec fn prepend_ok(prefix: Seq<(Seq<char>, Seq<char>)>, rest: Result<Seq<(Seq<char>, Seq<char>)>, EnvErrorView>) -> Result<Seq<(Seq<char>, Seq<char>)>, EnvErrorView> {
    match rest {
        Ok(r) => Ok(prefix + r),
        Err(e) => Err(e),
    }
}

/// Reads one line `v[lo..hi]` of a dotenv file.
fn parse_line_window(v: &Vec<char>, lo: usize, hi: usize, index: usize, export: &Vec<char>) -> (r: Result<Option<(String, String)>, EnvError>)
    requires
        lo <= hi <= v.len(),
        index < usize::MAX,
        export@ == export_prefix(),
    ensures
        match parse_env_line(v@.subrange(lo as int, hi as int), index as nat) {
            LineOutcome::Skip => r == Ok::<Option<(String, String)>, EnvError>(None),
            LineOutcome::Pair(n, x) => r matches Ok(Some(p)) && p.0@ == n && p.1@ == x,
            LineOutcome::Fail(e) => r matches Err(f) && f@ == e,
        },
{
    let ghost raw = v@.subrange(lo as int, hi as int);
    let (a, b) = trim_window(v, lo, hi);
    let ghost line = v@.subrange(a as int, b as int);
    if a == b || v[a] == '#' {
        assert(line.len() > 0 ==> line[0] == v@[a as int]);
        return Ok(None);
    }
    assert(line[0] == v@[a as int]);
    let mut start = a;
    if window_starts_with(v, a, b, export) {
        start = a + 7;
        assert(v@.subrange(start as int, b as int) =~= line.skip(7));
    }
    let ghost body = v@.subrange(start as int, b as int);
    let eq = find_char(v, start, b, '=');
    if eq == b {
        return Err(EnvError::InvalidLine(index + 1, string_of(v, lo, hi)));
    }
    let (na, nb) = trim_window(v, start, eq);
    assert(v@.subrange(start as int, eq as int) =~= body.take(eq - start));
    let checked = check_name_window(v, na, nb);
    match checked {
        Err(e) => Err(e),
        Ok(_) => {
            let (va, vb) = trim_window(v, eq + 1, b);
            assert(v@.subrange(eq + 1, b as int) =~= body.skip(eq - start + 1));
            let (qa, qb) = unquote_window(v, va, vb);
            Ok(Some((string_of(v, na, nb), string_of(v, qa, qb))))
        },
    }
}

/// Reads a dotenv file: one `NAME=value` per line, with blank lines and `#` comments
/// skipped, an optional `export ` prefix, surrounding whitespace trimmed and one pair
/// of surrounding quotes taken off the value. The first bad line refuses the file.
pub fn parse_env_file(contents: &str) -> (r: Result<Vec<(String, String)>, EnvError>)
    ensures
        match r {
            Ok(pairs) => parse_env_file_spec(contents@) == Ok::<
                Seq<(Seq<char>, Seq<char>)>,
                EnvErrorView,
            >(pairs_view(pairs@)),
            Err(e) => parse_env_file_spec(contents@) == Err::<
                Seq<(Seq<char>, Seq<char>)>,
                EnvErrorView,
            >(e@),
        },
{
    let v = chars_of(contents);
    let lines = line_windows(&v);
    let export = chars_of("export ");
    proof {
        reveal_strlit("export ");
        assert(export@ =~= export_prefix());
    }
    let ghost all = spec_lines(contents@);
    let mut parsed: Vec<(String, String)> = Vec::new();
    let mut i: usize = 0;
    while i < lines.len()
        invariant
            v@ == contents@,
            all == spec_lines(v@),
            lines@.len() == all.len(),
            forall|k: int|
                #![trigger lines@[k]]
                0 <= k < lines@.len() ==> lines@[k].0 <= lines@[k].1 && lines@[k].1 <= v@.len()
                    && v@.subrange(lines@[k].0 as int, lines@[k].1 as int) == all[k],
            export@ == export_prefix(),
            i <= lines.len(),
            parse_env_lines(all, 0) == prepend_ok(pairs_view(parsed@), parse_env_lines(all, i as nat)),
        decreases lines.len() - i,
    {
        let (lo, hi) = lines[i];
        assert(v@.subrange(lo as int, hi as int) == all[i as int]);
        match parse_line_window(&v, lo, hi, i, &export) {
            Err(e) => {
                return Err(e);
            },
            Ok(None) => {},
            Ok(Some(p)) => {
                let ghost before = parsed@;
                parsed.push(p);
                proof {
                    assert(pairs_view(parsed@) =~= pairs_view(before) + seq![(p.0@, p.1@)]);
                    assert(forall|x: Seq<(Seq<char>, Seq<char>)>|
                        (pairs_view(before) + seq![(p.0@, p.1@)]) + x =~= pairs_view(before) + (
                        seq![(p.0@, p.1@)] + x));
                }
            },
        }
        i = i + 1;
    }
    Ok(parsed)
}

// ---------------------------------------------------------------------------
// Shell quoting and timestamps
// ---------------------------------------------------------------------------
/// `s` with every `'` written as `'\''`.
pub open spec fn escape_single_quotes(s: Seq<char>) -> Seq<char>
    decreases s.len(),
{
    if s.len() == 0 {
        seq![]
    } else if s.last() == '\'' {
        escape_single_quotes(s.drop_last()) + seq!['\'', '\\', '\'', '\'']
    } else {
        escape_single_quotes(s.drop_last()).push(s.last())
    }
}

/// `value` in single quotes, each `'` inside written as `'\''`, so that a POSIX shell
/// reads it back as the same word.
pub fn shell_quote(value: &str) -> (r: String)
    ensures
        r@ == seq!['\''] + escape_single_quotes(value@) + seq!['\''],
{
    let v = chars_of(value);
    let mut out = String::new();
    push_char(&mut out, '\'');
    let mut i: usize = 0;
    while i < v.len()
        invariant
            v@ == value@,
            i <= v.len(),
            out@ == seq!['\''] + escape_single_quotes(v@.take(i as int)),
        decreases v.len() - i,
    {
        let c = v[i];
        assert(v@.take(i + 1).drop_last() =~= v@.take(i as int));
        if c == '\'' {
            push_char(&mut out, '\'');
            push_char(&mut out, '\\');
            push_char(&mut out, '\'');
            push_char(&mut out, '\'');
        } else {
            push_char(&mut out, c);
        }
        assert(out@ =~= seq!['\''] + escape_single_quotes(v@.take(i + 1)));
        i = i + 1;
    }
    push_char(&mut out, '\'');
    assert(v@.take(v.len() as int) =~= v@);
    assert(out@ =~= seq!['\''] + escape_single_quotes(value@) + seq!['\'']);
    out
}

/// The system clock's time type, carried through opaque.
#[verifier::external_type_specification]
#[verifier::external_body]
pub struct ExSystemTime(std::time::SystemTime);

/// The system clock's reading (std `SystemTime::now`); nothing is claimed of it.
#[verifier::external_body]
fn system_now() -> std::time::SystemTime {
    std::time::SystemTime::now()
}

/// How long after the Unix epoch `t` lies (std `SystemTime::duration_since` with
/// `UNIX_EPOCH`), or `None` when `t` is earlier; nothing more is claimed.
#[verifier::external_body]
fn since_unix_epoch(t: std::time::SystemTime) -> Option<std::time::Duration> {
    t.duration_since(std::time::UNIX_EPOCH).ok()
}

/// The whole seconds of `d` (std `Duration::as_secs`); nothing is claimed of them.
#[verifier::external_body]
fn whole_seconds(d: std::time::Duration) -> u64 {
    d.as_secs()
}

/// The text of a timestamp: the whole seconds since the Unix epoch in decimal, or `0`
/// when the clock read earlier than the epoch (`None`).
pub fn timestamp_text(secs: Option<u64>) -> (r: String)
    ensures
        r@ == decimal(match secs {
            Some(t) => t as nat,
            None => 0nat,
        }),
{
    let t = match secs {
        Some(t) => t,
        None => 0,
    };
    decimal_string(t)
}

/// The current time as whole seconds since the Unix epoch, in decimal; zero when the
/// clock reads earlier than the epoch.
pub fn iso_timestamp_now() -> (r: String)
    ensures
        exists|t: u64| r@ == decimal(t as nat),
{
    let secs = match since_unix_epoch(system_now()) {
        Some(d) => Some(whole_seconds(d)),
        None => None,
    };
    let r = timestamp_text(secs);
    proof {
        let t: u64 = match secs {
            Some(t) => t,
            None => 0,
        };
        assert(r@ == decimal(t as nat));
    }
    r
}

// ---------------------------------------------------------------------------
// Laws
// ---------------------------------------------------------------------------
/// Whether `c` is one of `A-Z`, `a-z`, `0-9` and `_`, by code point.
pub open spec fn allowed_in_name(c: char) -> bool {
    (65 <= (c as u32) && (c as u32) <= 90) || (97 <= (c as u32) && (c as u32) <= 122)
        || (48 <= (c as u32) && (c as u32) <= 57) || c == '_'
}

/// A name is accepted exactly when it is not empty, its first character is not an
/// ASCII digit, and every character is one of `A-Z`, `a-z`, `0-9` and `_`; an empty
/// name, a leading digit and any other character are each refused with their own
/// error, carrying the name.
pub proof fn law_env_name_rule(name: Seq<char>)
    ensures
        check_env_name(name) is Ok <==> (name.len() > 0 && !(48 <= (name[0] as u32) && (name[0] as u32) <= 57)
            && forall|i: int| 0 <= i < name.len() ==> #[trigger] allowed_in_name(name[i])),
        name.len() == 0 ==> check_env_name(name) == Err::<(), EnvErrorView>(EnvErrorView::EmptyName),
        name.len() > 0 && 48 <= (name[0] as u32) && (name[0] as u32) <= 57
            ==> check_env_name(name) == Err::<(), EnvErrorView>(EnvErrorView::LeadingDigit(name)),
        name.len() > 0 && !(48 <= (name[0] as u32) && (name[0] as u32) <= 57)
            && (exists|i: int| 0 <= i < name.len() && !(#[trigger] allowed_in_name(name[i])))
            ==> check_env_name(name) == Err::<(), EnvErrorView>(EnvErrorView::InvalidCharacter(name)),
{
    assert forall|i: int| 0 <= i < name.len() implies #[trigger] allowed_in_name(name[i]) == is_name_char(name[i]) by {}
    if name.len() > 0 && !is_ascii_digit(name[0]) {
        if exists|i: int| 0 <= i < name.len() && !is_name_char(#[trigger] name[i]) {
            let i = choose|i: int| 0 <= i < name.len() && !is_name_char(#[trigger] name[i]);
            assert(!allowed_in_name(name[i]));
        } else {
            assert forall|i: int| 0 <= i < name.len() implies #[trigger] allowed_in_name(name[i]) by {
                assert(is_name_char(name[i]));
            }
        }
        if exists|i: int| 0 <= i < name.len() && !(#[trigger] allowed_in_name(name[i])) {
            let i = choose|i: int| 0 <= i < name.len() && !(#[trigger] allowed_in_name(name[i]));
            assert(!is_name_char(name[i]));
        }
    }
}

/// What a POSIX shell reads from a word outside quotes: `\` takes the next character
/// literally, `'` opens a single quote, any other character stands for itself; `None`
/// when a quote is left open.
pub open spec fn shell_word(s: Seq<char>) -> Option<Seq<char>>
    decreases s.len(),
{
    if s.len() == 0 {
        Some(Seq::<char>::empty())
    } else if s[0] == '\'' {
        shell_quoted(s.drop_first())
    } else if s[0] == '\\' && s.len() >= 2 {
        prepend_text(seq![s[1]], shell_word(s.skip(2)))
    } else {
        prepend_text(seq![s[0]], shell_word(s.drop_first()))
    }
}

/// What a POSIX shell reads inside a single quote: every character up to the closing
/// `'` stands for itself, and the word goes on after it.
pub open spec fn shell_quoted(s: Seq<char>) -> Option<Seq<char>>
    decreases s.len(),
{
    if s.len() == 0 {
        None
    } else if s[0] == '\'' {
        shell_word(s.drop_first())
    } else {
        prepend_text(seq![s[0]], shell_quoted(s.drop_first()))
    }
}

/// `p` followed by the text in `o`, if there is one.
pub open spec fn prepend_text(p: Seq<char>, o: Option<Seq<char>>) -> Option<Seq<char>> {
    match o {
        Some(t) => Some(p + t),
        None => None,
    }
}

/// Inside a single quote, the escaped text reads back as the text, and the word goes on.
proof fn lemma_quoted_escape(v: Seq<char>, t: Seq<char>)
    ensures
        shell_quoted(escape_single_quotes(v) + t) == prepend_text(v, shell_quoted(t)),
    decreases v.len(),
{
    if v.len() == 0 {
        assert(escape_single_quotes(v) + t =~= t);
        match shell_quoted(t) {
            Some(x) => assert(v + x =~= x),
            None => {},
        }
    } else {
        let w = v.drop_last();
        let c = v.last();
        let piece: Seq<char> = if c == '\'' { seq!['\'', '\\', '\'', '\''] } else { seq![c] };
        assert(escape_single_quotes(v) == escape_single_quotes(w) + piece);
        assert(escape_single_quotes(v) + t =~= escape_single_quotes(w) + (piece + t));
        lemma_quoted_escape(w, piece + t);
        if c == '\'' {
            let a = piece + t;
            assert(a[0] == '\'');
            assert(a.drop_first() =~= seq!['\\', '\'', '\''] + t);
            let b = seq!['\\', '\'', '\''] + t;
            assert(b[0] == '\\' && b[1] == '\'');
            assert(b.skip(2) =~= seq!['\''] + t);
            let d = seq!['\''] + t;
            assert(d[0] == '\'');
            assert(d.drop_first() =~= t);
            assert(shell_word(d) == shell_quoted(t));
            assert(seq![b[1]] =~= seq!['\'']);
            assert(shell_word(b) == prepend_text(seq!['\''], shell_word(d)));
            assert(shell_quoted(a) == shell_word(b));
            assert(shell_quoted(a) == prepend_text(seq!['\''], shell_quoted(t)));
        } else {
            let a = piece + t;
            assert(a[0] == c);
            assert(a.drop_first() =~= t);
            assert(shell_quoted(a) == prepend_text(seq![c], shell_quoted(t)));
        }
        match shell_quoted(t) {
            Some(x) => {
                assert(w + (seq![c] + x) =~= v + x);
            },
            None => {},
        }
    }
}

/// A shell reads a quoted value back as exactly the value: whatever characters it holds
/// (`$`, `\`, spaces, quotes), wrapping it in single quotes with each `'` written as
/// `'\''` loses nothing and adds nothing.
pub proof fn law_shell_quote_round_trip(value: Seq<char>)
    ensures
        shell_word(seq!['\''] + escape_single_quotes(value) + seq!['\'']) == Some(value),
{
    let s = seq!['\''] + escape_single_quotes(value) + seq!['\''];
    assert(s[0] == '\'');
    assert(s.drop_first() =~= escape_single_quotes(value) + seq!['\'']);
    lemma_quoted_escape(value, seq!['\'']);
    let q = seq!['\''];
    assert(q[0] == '\'');
    assert(q.drop_first() =~= Seq::<char>::empty());
    assert(shell_word(Seq::<char>::empty()) == Some(Seq::<char>::empty()));
    assert(shell_quoted(q) == Some(Seq::<char>::empty()));
    assert(value + Seq::<char>::empty() =~= value);
    assert(shell_word(s) == shell_quoted(escape_single_quotes(value) + seq!['\'']));
}

/// Text without a single quote needs no escaping.
proof fn lemma_escape_plain(value: Seq<char>)
    requires
        !value.contains('\''),
    ensures
        escape_single_quotes(value) == value,
    decreases value.len(),
{
    if value.len() > 0 {
        let w = value.drop_last();
        assert(!w.contains('\'')) by {
            if w.contains('\'') {
                let i = choose|i: int| 0 <= i < w.len() && w[i] == '\'';
                assert(value[i] == '\'');
            }
        }
        lemma_escape_plain(w);
        assert(value[value.len() - 1] != '\'');
        assert(escape_single_quotes(value) =~= value);
    }
}

/// A value without a single quote is quoted by wrapping it in one pair of single quotes.
pub proof fn law_shell_quote_plain(value: Seq<char>)
    requires
        !value.contains('\''),
    ensures
        seq!['\''] + escape_single_quotes(value) + seq!['\''] == seq!['\''] + value + seq!['\''],
{
    lemma_escape_plain(value);
}

/// Where `c` first occurs in `a + [c] + b` when `a` does not hold it.
proof fn lemma_index_of_first(a: Seq<char>, c: char, b: Seq<char>)
    requires
        !a.contains(c),
    ensures
        index_of_char(a + seq![c] + b, c) == a.len(),
    decreases a.len(),
{
    let s = a + seq![c] + b;
    if a.len() == 0 {
        assert(s[0] == c);
    } else {
        assert(s[0] == a[0]);
        assert(a[0] != c);
        let a2 = a.drop_first();
        assert(!a2.contains(c)) by {
            if a2.contains(c) {
                let i = choose|i: int| 0 <= i < a2.len() && a2[i] == c;
                assert(a[i + 1] == c);
            }
        }
        assert(s.drop_first() =~= a2 + seq![c] + b);
        lemma_index_of_first(a2, c, b);
    }
}

/// Whether `rest` holds no surrounding whitespace and no pair of surrounding quotes.
pub open spec fn bare_value(rest: Seq<char>) -> bool {
    &&& rest.len() == 0 || (!is_ws(rest[0]) && !is_ws(rest.last()))
    &&& !(rest.len() >= 2 && ((rest[0] == '"' && rest.last() == '"') || (rest[0] == '\'' && rest.last() == '\'')))
}

/// The dotenv line `NAME=rest`, with a valid name and a bare value, gives exactly the
/// pair `(NAME, rest)`: the value is everything after the first `=`, further `=`
/// characters included.
pub proof fn law_env_line_value_after_first_equals(name: Seq<char>, rest: Seq<char>, index: nat)
    requires
        check_env_name(name) is Ok,
        bare_value(rest),
    ensures
        parse_env_line(name + seq!['='] + rest, index) == LineOutcome::Pair(name, rest),
{
    let raw = name + seq!['='] + rest;
    law_env_name_rule(name);
    assert(name.len() > 0);
    assert(forall|i: int| 0 <= i < name.len() ==> is_name_char(#[trigger] name[i]));
    assert(raw[0] == name[0]);
    assert(!is_ws(raw[0]));
    assert(!is_ws(raw.last())) by {
        if rest.len() == 0 {
            assert(raw.last() == '=');
        } else {
            assert(raw.last() == rest.last());
        }
    }
    assert(trim_start(raw) == raw);
    assert(trim_end(raw) == raw);
    assert(trim(raw) == raw);
    assert(raw[0] != '#');
    assert(!export_prefix().is_prefix_of(raw)) by {
        if export_prefix().is_prefix_of(raw) {
            assert(export_prefix()[6] == ' ');
            if name.len() >= 7 {
                assert(raw[6] == name[6]);
            } else {
                let k = name.len() as int;
                assert(raw[k] == '=');
                assert(export_prefix()[0] == 'e' && export_prefix()[1] == 'x' && export_prefix()[2] == 'p'
                    && export_prefix()[3] == 'o' && export_prefix()[4] == 'r' && export_prefix()[5] == 't');
                assert(export_prefix()[k] == raw[k]);
            }
        }
    }
    assert(!name.contains('=')) by {
        if name.contains('=') {
            let i = choose|i: int| 0 <= i < name.len() && name[i] == '=';
            assert(is_name_char(name[i]));
        }
    }
    lemma_index_of_first(name, '=', rest);
    let k = name.len() as int;
    assert(raw.take(k) =~= name);
    assert(raw.skip(k + 1) =~= rest);
    assert(trim_start(name) == name);
    assert(!is_ws(name.last()));
    assert(trim_end(name) == name);
    if rest.len() > 0 {
        assert(trim_start(rest) == rest);
        assert(trim_end(rest) == rest);
    }
    assert(trim(rest) == rest);
    assert(unquote_spec(rest) == rest);
}

/// A dotenv file of the one line `NAME=rest`, with a valid name and a bare value that
/// holds no line break, gives exactly the one pair `(NAME, rest)`.
pub proof fn law_env_file_value_after_first_equals(name: Seq<char>, rest: Seq<char>)
    requires
        check_env_name(name) is Ok,
        bare_value(rest),
        !rest.contains('\n'),
    ensures
        parse_env_file_spec(name + seq!['='] + rest) == Ok::<Seq<(Seq<char>, Seq<char>)>, EnvErrorView>(seq![(name, rest)]),
{
    let raw = name + seq!['='] + rest;
    law_env_line_value_after_first_equals(name, rest, 0);
    law_env_name_rule(name);
    assert(!raw.contains('\n')) by {
        if raw.contains('\n') {
            let i = choose|i: int| 0 <= i < raw.len() && raw[i] == '\n';
            if i < name.len() {
                assert(is_name_char(name[i]));
            } else if i > name.len() {
                assert(rest[i - name.len() - 1] == '\n');
            }
        }
    }
    lemma_index_of_char(raw, '\n');
    assert(index_of_char(raw, '\n') >= raw.len());
    assert(spec_lines(raw) == seq![raw]);
    let lines = seq![raw];
    assert(lines[0] == raw);
    assert(parse_env_lines(lines, 1) == Ok::<Seq<(Seq<char>, Seq<char>)>, EnvErrorView>(seq![]));
    assert(seq![(name, rest)] + Seq::<(Seq<char>, Seq<char>)>::empty() =~= seq![(name, rest)]);
}

} // verus!
