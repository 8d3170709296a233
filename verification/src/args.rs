//! Configuration resolution: turning the invocation's argument tokens into a
//! `Config`, or a `ParseError` when they are malformed.
//!
//! Recognized tokens, scanned left to right:
//! - `-n V`, `--lines V`, `-nV` and `--lines=V`: the line count;
//! - `-c V`, `--bytes V`, `-cV` and `--bytes=V`: the byte count;
//! - `-` and any token not starting with `-`: a source identifier.
//!
//! A count value must be a non-empty string of decimal digits that fits in
//! `usize`. Repeating an option is an error, reported as the scan meets the
//! second occurrence; giving both a line count and a byte count is an error,
//! reported once the scan ends. With no source identifiers the configuration
//! falls back to the single source `-`, and with no line count to 10 lines.

use vstd::prelude::*;
use vstd::string::StrSliceExecFns;
use vstd::string::StringExecFns;

verus! {

/// The resolved configuration: the sources to display, the line count, and
/// the byte count that overrides line mode when present.
#[derive(Debug)]
pub struct Config {
    pub files: Vec<String>,
    pub lines: usize,
    pub bytes: Option<usize>,
}

/// Why a command line was rejected.
#[derive(Debug, Clone, Copy, PartialEq, Eq, Structural)]
pub enum ParseError {
    /// An option that takes a value stood last on the line.
    MissingValue,
    /// A count value was empty, held a non-digit, or overflowed `usize`.
    InvalidCount,
    /// A token started with `-` without being a recognized option.
    UnknownOption,
    /// The same option was supplied twice.
    DuplicateOption,
    /// Both a line count and a byte count were supplied.
    ConflictingOptions,
}

/// A decimal digit.
pub open spec fn is_digit(c: char) -> bool {
    48 <= c as u32 <= 57
}

/// The numeric value of a digit; 0 for any other character.
pub open spec fn digit_val(c: char) -> nat {
    if is_digit(c) {
        (c as u32 - 48) as nat
    } else {
        0
    }
}

pub open spec fn all_digits(s: Seq<char>) -> bool {
    forall|i: int| 0 <= i < s.len() ==> is_digit(#[trigger] s[i])
}

/// The value of a string of decimal digits, most significant first.
pub open spec fn dec_val(s: Seq<char>) -> nat
    decreases s.len(),
{
    if s.len() == 0 {
        0
    } else {
        dec_val(s.drop_last()) * 10 + digit_val(s.last())
    }
}

/// The count a value token denotes: its decimal value, provided the token is
/// non-empty, all digits, and fits in `usize`; nothing otherwise.
pub open spec fn count_of(v: Seq<char>) -> Option<nat> {
    if v.len() > 0 && all_digits(v) && dec_val(v) <= usize::MAX {
        Some(dec_val(v))
    } else {
        None
    }
}

/// A positional source identifier: anything not starting with `-`, and the
/// lone `-` that denotes standard input.
pub open spec fn is_file_token(t: Seq<char>) -> bool {
    t.len() == 0 || t.len() == 1 || t[0] != '-'
}

/// A line-count option with its value in the following token.
pub open spec fn is_lines_flag(t: Seq<char>) -> bool {
    t == "-n"@ || t == "--lines"@
}

/// A byte-count option with its value in the following token.
pub open spec fn is_bytes_flag(t: Seq<char>) -> bool {
    t == "-c"@ || t == "--bytes"@
}

/// The value carried inside a token of the form `-nV` or `--lines=V` (and the
/// byte-count counterparts): the rest after the option prefix.
pub open spec fn inline_value(t: Seq<char>, short: Seq<char>, long_eq: Seq<char>) -> Option<
    Seq<char>,
> {
    if t.len() > short.len() && t.take(short.len() as int) == short {
        Some(t.skip(short.len() as int))
    } else if t.len() >= long_eq.len() && t.take(long_eq.len() as int) == long_eq {
        Some(t.skip(long_eq.len() as int))
    } else {
        None
    }
}

pub open spec fn lines_inline(t: Seq<char>) -> Option<Seq<char>> {
    inline_value(t, "-n"@, "--lines="@)
}

pub open spec fn bytes_inline(t: Seq<char>) -> Option<Seq<char>> {
    inline_value(t, "-c"@, "--bytes="@)
}

/// Any token that supplies a line count, in either form.
pub open spec fn is_lines_option(t: Seq<char>) -> bool {
    is_lines_flag(t) || lines_inline(t) is Some
}

/// Any token that supplies a byte count, in either form.
pub open spec fn is_bytes_option(t: Seq<char>) -> bool {
    is_bytes_flag(t) || bytes_inline(t) is Some
}

/// What parsing resolves to: the source identifiers, the line count, and the
/// optional byte count — or the first error the scan meets.
pub open spec fn parse_from(
    tokens: Seq<Seq<char>>,
    i: int,
    files: Seq<Seq<char>>,
    lines: Option<nat>,
    bytes: Option<nat>,
) -> Result<(Seq<Seq<char>>, nat, Option<nat>), ParseError>
    decreases tokens.len() - i,
{
    if i < 0 || i >= tokens.len() {
        if lines is Some && bytes is Some {
            Err(ParseError::ConflictingOptions)
        } else {
            Ok(
                (
                    if files.len() == 0 {
                        seq!["-"@]
                    } else {
                        files
                    },
                    match lines {
                        Some(n) => n,
                        None => 10 as nat,
                    },
                    bytes,
                ),
            )
        }
    } else {
        let t = tokens[i];
        if is_file_token(t) {
            parse_from(tokens, i + 1, files.push(t), lines, bytes)
        } else if is_lines_flag(t) {
            if lines is Some {
                Err(ParseError::DuplicateOption)
            } else if i + 1 >= tokens.len() {
                Err(ParseError::MissingValue)
            } else {
                match count_of(tokens[i + 1]) {
                    Some(v) => parse_from(tokens, i + 2, files, Some(v), bytes),
                    None => Err(ParseError::InvalidCount),
                }
            }
        } else if is_bytes_flag(t) {
            if bytes is Some {
                Err(ParseError::DuplicateOption)
            } else if i + 1 >= tokens.len() {
                Err(ParseError::MissingValue)
            } else {
                match count_of(tokens[i + 1]) {
                    Some(v) => parse_from(tokens, i + 2, files, lines, Some(v)),
                    None => Err(ParseError::InvalidCount),
                }
            }
        } else {
            match lines_inline(t) {
                Some(v) => if lines is Some {
                    Err(ParseError::DuplicateOption)
                } else {
                    match count_of(v) {
                        Some(n) => parse_from(tokens, i + 1, files, Some(n), bytes),
                        None => Err(ParseError::InvalidCount),
                    }
                },
                None => match bytes_inline(t) {
                    Some(v) => if bytes is Some {
                        Err(ParseError::DuplicateOption)
                    } else {
                        match count_of(v) {
                            Some(n) => parse_from(tokens, i + 1, files, lines, Some(n)),
                            None => Err(ParseError::InvalidCount),
                        }
                    },
                    None => Err(ParseError::UnknownOption),
                },
            }
        }
    }
}

/// The meaning of a whole command line.
pub open spec fn parse_args_spec(tokens: Seq<Seq<char>>) -> Result<
    (Seq<Seq<char>>, nat, Option<nat>),
    ParseError,
> {
    parse_from(tokens, 0, Seq::empty(), None, None)
}

/// The mathematical value of an optional machine count.
pub open spec fn opt_nat(o: Option<usize>) -> Option<nat> {
    match o {
        Some(v) => Some(v as nat),
        None => None,
    }
}

/// An option token, in any recognized form, starts with `-` and has at
/// least two characters.
proof fn lemma_option_shape(t: Seq<char>)
    requires
        is_lines_option(t) || is_bytes_option(t),
    ensures
        t.len() >= 2,
        t[0] == '-',
{
    reveal_strlit("-n");
    reveal_strlit("--lines");
    reveal_strlit("--lines=");
    reveal_strlit("-c");
    reveal_strlit("--bytes");
    reveal_strlit("--bytes=");
    if t.len() > "-n"@.len() && t.take("-n"@.len() as int) == "-n"@ {
        assert(t[0] == t.take(2)[0]);
    }
    if t.len() >= "--lines="@.len() && t.take("--lines="@.len() as int) == "--lines="@ {
        assert(t[0] == t.take(8)[0]);
    }
    if t.len() > "-c"@.len() && t.take("-c"@.len() as int) == "-c"@ {
        assert(t[0] == t.take(2)[0]);
    }
    if t.len() >= "--bytes="@.len() && t.take("--bytes="@.len() as int) == "--bytes="@ {
        assert(t[0] == t.take(8)[0]);
    }
}

/// An option token is not a source identifier.
proof fn lemma_option_not_file(t: Seq<char>)
    requires
        is_lines_option(t) || is_bytes_option(t),
    ensures
        !is_file_token(t),
{
    lemma_option_shape(t);
}

/// An option token never reads as a count value: its leading `-` is no
/// digit.
proof fn lemma_option_not_count(t: Seq<char>)
    requires
        is_lines_option(t) || is_bytes_option(t),
    ensures
        count_of(t) is None,
{
    lemma_option_shape(t);
    assert(!is_digit(t[0]));
}

/// Every line-count option has `n` as its second character, or `-` and `l`
/// as its second and third.
proof fn lemma_lines_option_shape(t: Seq<char>)
    requires
        is_lines_option(t),
    ensures
        t.len() >= 2 && (t[1] == 'n' || (t.len() >= 3 && t[1] == '-' && t[2] == 'l')),
{
    reveal_strlit("-n");
    reveal_strlit("--lines");
    reveal_strlit("--lines=");
    if t == "-n"@ {
        assert(t[1] == 'n');
    } else if t == "--lines"@ {
        assert(t[1] == '-' && t[2] == 'l');
    } else if t.len() > "-n"@.len() && t.take("-n"@.len() as int) == "-n"@ {
        assert(t[1] == t.take(2)[1]);
        assert(t[1] == 'n');
    } else {
        assert(t.len() >= "--lines="@.len() && t.take("--lines="@.len() as int) == "--lines="@);
        assert(t[1] == t.take(8)[1] && t[2] == t.take(8)[2]);
        assert(t[1] == '-' && t[2] == 'l');
    }
}

/// Every byte-count option has `c` as its second character, or `-` and `b`
/// as its second and third.
proof fn lemma_bytes_option_shape(t: Seq<char>)
    requires
        is_bytes_option(t),
    ensures
        t.len() >= 2 && (t[1] == 'c' || (t.len() >= 3 && t[1] == '-' && t[2] == 'b')),
{
    reveal_strlit("-c");
    reveal_strlit("--bytes");
    reveal_strlit("--bytes=");
    if t == "-c"@ {
        assert(t[1] == 'c');
    } else if t == "--bytes"@ {
        assert(t[1] == '-' && t[2] == 'b');
    } else if t.len() > "-c"@.len() && t.take("-c"@.len() as int) == "-c"@ {
        assert(t[1] == t.take(2)[1]);
        assert(t[1] == 'c');
    } else {
        assert(t.len() >= "--bytes="@.len() && t.take("--bytes="@.len() as int) == "--bytes="@);
        assert(t[1] == t.take(8)[1] && t[2] == t.take(8)[2]);
        assert(t[1] == '-' && t[2] == 'b');
    }
}

/// No token is both a line-count option and a byte-count option.
proof fn lemma_options_disjoint(t: Seq<char>)
    ensures
        !(is_lines_option(t) && is_bytes_option(t)),
{
    if is_lines_option(t) && is_bytes_option(t) {
        lemma_lines_option_shape(t);
        lemma_bytes_option_shape(t);
        assert(false);
    }
}

/// Once both a line count and a byte count are recorded, the scan can only
/// end in an error.
proof fn lemma_both_set_fails(
    tokens: Seq<Seq<char>>,
    k: int,
    files: Seq<Seq<char>>,
    lines: Option<nat>,
    bytes: Option<nat>,
)
    requires
        lines is Some,
        bytes is Some,
    ensures
        parse_from(tokens, k, files, lines, bytes) is Err,
    decreases tokens.len() - k,
{
    if 0 <= k < tokens.len() {
        let t = tokens[k];
        if is_file_token(t) {
            lemma_both_set_fails(tokens, k + 1, files.push(t), lines, bytes);
        }
    }
}

/// The scan fails whenever a line count and a byte count are both still to
/// come, or one is recorded and the other is still to come. `li` is the
/// position of a pending line-count option, or -1 when the line count is
/// already recorded; `bi` the same for the byte count.
proof fn lemma_conflict_scan(
    tokens: Seq<Seq<char>>,
    k: int,
    files: Seq<Seq<char>>,
    lines: Option<nat>,
    bytes: Option<nat>,
    li: int,
    bi: int,
)
    requires
        0 <= k,
        li >= -1,
        bi >= -1,
        li != bi,
        li == -1 ==> lines is Some,
        li >= 0 ==> k <= li < tokens.len() && is_lines_option(tokens[li]),
        bi == -1 ==> bytes is Some,
        bi >= 0 ==> k <= bi < tokens.len() && is_bytes_option(tokens[bi]),
    ensures
        parse_from(tokens, k, files, lines, bytes) is Err,
    decreases tokens.len() - k,
{
    if k >= tokens.len() {
        assert(li == -1 && bi == -1);
    } else {
        let t = tokens[k];
        if is_file_token(t) {
            if li == k || bi == k {
                lemma_option_not_file(t);
            }
            lemma_conflict_scan(tokens, k + 1, files.push(t), lines, bytes, li, bi);
        } else if is_lines_flag(t) {
            if lines is None && k + 1 < tokens.len() {
                match count_of(tokens[k + 1]) {
                    Some(n) => {
                        if li == k + 1 {
                            lemma_option_not_count(tokens[li]);
                        }
                        if bi == k + 1 {
                            lemma_option_not_count(tokens[bi]);
                        }
                        if bi == k {
                            lemma_options_disjoint(t);
                        }
                        if bi == -1 {
                            lemma_both_set_fails(tokens, k + 2, files, Some(n), bytes);
                        } else {
                            lemma_conflict_scan(tokens, k + 2, files, Some(n), bytes, -1, bi);
                        }
                    },
                    None => {},
                }
            }
        } else if is_bytes_flag(t) {
            if bytes is None && k + 1 < tokens.len() {
                match count_of(tokens[k + 1]) {
                    Some(n) => {
                        if li == k + 1 {
                            lemma_option_not_count(tokens[li]);
                        }
                        if bi == k + 1 {
                            lemma_option_not_count(tokens[bi]);
                        }
                        if li == k {
                            lemma_options_disjoint(t);
                        }
                        if li == -1 {
                            lemma_both_set_fails(tokens, k + 2, files, lines, Some(n));
                        } else {
                            lemma_conflict_scan(tokens, k + 2, files, lines, Some(n), li, -1);
                        }
                    },
                    None => {},
                }
            }
        } else {
            match lines_inline(t) {
                Some(v) => {
                    if lines is None {
                        match count_of(v) {
                            Some(n) => {
                                if bi == k {
                                    lemma_options_disjoint(t);
                                }
                                if bi == -1 {
                                    lemma_both_set_fails(tokens, k + 1, files, Some(n), bytes);
                                } else {
                                    lemma_conflict_scan(
                                        tokens,
                                        k + 1,
                                        files,
                                        Some(n),
                                        bytes,
                                        -1,
                                        bi,
                                    );
                                }
                            },
                            None => {},
                        }
                    }
                },
                None => {
                    match bytes_inline(t) {
                        Some(v) => {
                            if bytes is None {
                                match count_of(v) {
                                    Some(n) => {
                                        if li == k {
                                            lemma_options_disjoint(t);
                                        }
                                        if li == -1 {
                                            lemma_both_set_fails(
                                                tokens,
                                                k + 1,
                                                files,
                                                lines,
                                                Some(n),
                                            );
                                        } else {
                                            lemma_conflict_scan(
                                                tokens,
                                                k + 1,
                                                files,
                                                lines,
                                                Some(n),
                                                li,
                                                -1,
                                            );
                                        }
                                    },
                                    None => {},
                                }
                            }
                        },
                        None => {},
                    }
                },
            }
        }
    }
}

/// Supplying both a line count and a byte count on one command line always
/// fails: whatever else the line holds, parsing reports an error and no
/// configuration is produced.
pub proof fn lemma_conflicting_options_fail(tokens: Seq<Seq<char>>, li: int, bi: int)
    requires
        0 <= li < tokens.len(),
        0 <= bi < tokens.len(),
        li != bi,
        is_lines_option(tokens[li]),
        is_bytes_option(tokens[bi]),
    ensures
        parse_args_spec(tokens) is Err,
{
    lemma_conflict_scan(tokens, 0, Seq::empty(), None, None, li, bi);
}

/// Whether two string slices hold the same characters.
fn str_eq(a: &str, b: &str) -> (r: bool)
    ensures
        r == (a@ == b@),
{
    let n = a.unicode_len();
    if n != b.unicode_len() {
        return false;
    }
    let mut i: usize = 0;
    while i < n
        invariant
            i <= n,
            n == a@.len(),
            n == b@.len(),
            forall|j: int| 0 <= j < i ==> a@[j] == b@[j],
        decreases n - i,
    {
        if a.get_char(i) != b.get_char(i) {
            return false;
        }
        i = i + 1;
    }
    proof {
        assert(a@ =~= b@);
    }
    true
}

/// Whether `s` begins with the characters of `p`.
fn str_starts_with(s: &str, p: &str) -> (r: bool)
    ensures
        r == (s@.len() >= p@.len() && s@.take(p@.len() as int) == p@),
{
    let np = p.unicode_len();
    let ns = s.unicode_len();
    if ns < np {
        return false;
    }
    let mut i: usize = 0;
    while i < np
        invariant
            i <= np,
            np == p@.len(),
            ns == s@.len(),
            np <= ns,
            forall|j: int| 0 <= j < i ==> s@[j] == p@[j],
        decreases np - i,
    {
        if s.get_char(i) != p.get_char(i) {
            proof {
                assert(s@.take(np as int)[i as int] == s@[i as int]);
            }
            return false;
        }
        i = i + 1;
    }
    proof {
        assert(s@.take(np as int) =~= p@);
    }
    true
}

/// Every digit appended multiplies what was read before, so a prefix never
/// denotes more than the whole.
proof fn lemma_dec_val_prefix(v: Seq<char>, j: int)
    requires
        0 <= j <= v.len(),
    ensures
        dec_val(v.take(j)) <= dec_val(v),
    decreases v.len(),
{
    if j == v.len() {
        assert(v.take(j) =~= v);
    } else {
        let w = v.drop_last();
        assert(v.take(j) =~= w.take(j));
        lemma_dec_val_prefix(w, j);
    }
}

/// Reads the decimal count in `s` from position `from` to the end.
fn parse_count(s: &str, from: usize) -> (r: Option<usize>)
    requires
        from <= s@.len(),
    ensures
        opt_nat(r) == count_of(s@.skip(from as int)),
{
    let ghost v = s@.skip(from as int);
    let n = s.unicode_len();
    if from == n {
        return None;
    }
    let mut acc: usize = 0;
    let mut i: usize = from;
    proof {
        assert(v.take(0) =~= Seq::<char>::empty());
    }
    while i < n
        invariant
            from <= i <= n,
            n == s@.len(),
            all_digits(v.take(i - from)),
            acc == dec_val(v.take(i - from)),
        decreases n - i,
    {
        let c = s.get_char(i);
        let d = c as u32;
        proof {
            assert(v[i - from] == s@[i as int]);
        }
        if d < 48 || d > 57 {
            proof {
                assert(!is_digit(v[i - from]));
            }
            return None;
        }
        let dv: usize = (d - 48) as usize;
        proof {
            assert(digit_val(v[i - from]) == dv);
            assert(v.take(i - from + 1).drop_last() =~= v.take(i - from));
            assert(v.take(i - from + 1).last() == v[i - from]);
        }
        let m = match acc.checked_mul(10) {
            Some(m) => m,
            None => {
                proof {
                    lemma_dec_val_prefix(v, i - from + 1);
                }
                return None;
            },
        };
        acc = match m.checked_add(dv) {
            Some(a) => a,
            None => {
                proof {
                    lemma_dec_val_prefix(v, i - from + 1);
                }
                return None;
            },
        };
        i = i + 1;
    }
    proof {
        assert(v.take(n - from) =~= v);
    }
    Some(acc)
}

/// Resolves the invocation's argument tokens (the command line minus the
/// program name) into a configuration, or reports the first problem the
/// left-to-right scan meets; `parse_args_spec` states the outcome exactly.
pub fn get_args(args: &Vec<String>) -> (r: Result<Config, ParseError>)
    ensures
        match r {
            Ok(cfg) => parse_args_spec(args.deep_view()) == Ok::<
                (Seq<Seq<char>>, nat, Option<nat>),
                ParseError,
            >((cfg.files.deep_view(), cfg.lines as nat, opt_nat(cfg.bytes))),
            Err(e) => parse_args_spec(args.deep_view()) == Err::<
                (Seq<Seq<char>>, nat, Option<nat>),
                ParseError,
            >(e),
        },
{
    let ghost toks = args.deep_view();
    let mut files: Vec<String> = Vec::new();
    let mut lines: Option<usize> = None;
    let mut bytes: Option<usize> = None;
    let mut i: usize = 0;
    proof {
        assert(files.deep_view() =~= Seq::<Seq<char>>::empty());
    }
    while i < args.len()
        invariant
            i <= args.len(),
            toks == args.deep_view(),
            toks.len() == args.len(),
            parse_args_spec(toks) == parse_from(
                toks,
                i as int,
                files.deep_view(),
                opt_nat(lines),
                opt_nat(bytes),
            ),
        decreases args.len() - i,
    {
        let ghost fdv = files.deep_view();
        let t: &String = &args[i];
        proof {
            assert(toks[i as int] == t@);
        }
        let ts: &str = t.as_str();
        let tl = ts.unicode_len();
        if tl == 0 || tl == 1 || ts.get_char(0) != '-' {
            proof {
                assert(is_file_token(toks[i as int]));
            }
            files.push(t.clone());
            proof {
                assert(files.deep_view() =~= fdv.push(toks[i as int]));
            }
            i = i + 1;
        } else if str_eq(ts, "-n") || str_eq(ts, "--lines") {
            if lines.is_some() {
                return Err(ParseError::DuplicateOption);
            }
            if i + 1 >= args.len() {
                return Err(ParseError::MissingValue);
            }
            let val: &String = &args[i + 1];
            proof {
                assert(toks[i as int + 1] == val@);
                assert(val@.skip(0) =~= val@);
            }
            match parse_count(val.as_str(), 0) {
                Some(v) => {
                    lines = Some(v);
                    i = i + 2;
                },
                None => {
                    return Err(ParseError::InvalidCount);
                },
            }
        } else if str_eq(ts, "-c") || str_eq(ts, "--bytes") {
            if bytes.is_some() {
                return Err(ParseError::DuplicateOption);
            }
            if i + 1 >= args.len() {
                return Err(ParseError::MissingValue);
            }
            let val: &String = &args[i + 1];
            proof {
                assert(toks[i as int + 1] == val@);
                assert(val@.skip(0) =~= val@);
            }
            match parse_count(val.as_str(), 0) {
                Some(v) => {
                    bytes = Some(v);
                    i = i + 2;
                },
                None => {
                    return Err(ParseError::InvalidCount);
                },
            }
        } else {
            let short_lines = "-n";
            let long_lines = "--lines=";
            let short_bytes = "-c";
            let long_bytes = "--bytes=";
            let nsl = short_lines.unicode_len();
            let nll = long_lines.unicode_len();
            let nsb = short_bytes.unicode_len();
            let nlb = long_bytes.unicode_len();
            let from: usize;
            let is_lines: bool;
            if tl > nsl && str_starts_with(ts, short_lines) {
                from = nsl;
                is_lines = true;
            } else if tl >= nll && str_starts_with(ts, long_lines) {
                from = nll;
                is_lines = true;
            } else if tl > nsb && str_starts_with(ts, short_bytes) {
                from = nsb;
                is_lines = false;
            } else if tl >= nlb && str_starts_with(ts, long_bytes) {
                from = nlb;
                is_lines = false;
            } else {
                return Err(ParseError::UnknownOption);
            }
            proof {
                if is_lines {
                    assert(lines_inline(toks[i as int]) == Some(toks[i as int].skip(from as int)));
                } else {
                    assert(lines_inline(toks[i as int]) is None);
                    assert(bytes_inline(toks[i as int]) == Some(toks[i as int].skip(from as int)));
                }
            }
            if is_lines {
                if lines.is_some() {
                    return Err(ParseError::DuplicateOption);
                }
                match parse_count(ts, from) {
                    Some(v) => {
                        lines = Some(v);
                        i = i + 1;
                    },
                    None => {
                        return Err(ParseError::InvalidCount);
                    },
                }
            } else {
                if bytes.is_some() {
                    return Err(ParseError::DuplicateOption);
                }
                match parse_count(ts, from) {
                    Some(v) => {
                        bytes = Some(v);
                        i = i + 1;
                    },
                    None => {
                        return Err(ParseError::InvalidCount);
                    },
                }
            }
        }
    }
    if lines.is_some() && bytes.is_some() {
        return Err(ParseError::ConflictingOptions);
    }
    if files.len() == 0 {
        files.push(String::from_str("-"));
        proof {
            assert(files.deep_view() =~= seq!["-"@]);
        }
    }
    let lines_final: usize = match lines {
        Some(v) => v,
        None => 10,
    };
    Ok(Config { files, lines: lines_final, bytes })
}

} // verus!
