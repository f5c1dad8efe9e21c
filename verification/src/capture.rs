//! Build invocation capture: find, inside a build tool's verbose trace, the
//! one line describing how the compiler would be invoked, split it into its
//! environment prefix, compiler path and argument string, and normalize the
//! arguments.
//!
//! The trace is scanned line by line and the first matching line wins; all
//! later lines are ignored. A line matches when it reads
//! ``     Running `<env> <path ending in rustc> <args>` `` — five leading
//! spaces, the word `Running`, and a backtick-delimited command in which the
//! compiler path is located at the last occurrence of `rustc` followed by a
//! space, with the environment prefix ending at the last space before it.

use vstd::prelude::*;

use crate::scanner::EnvAssign;
use crate::scanner::EnvAssignView;
use crate::scanner::ScanError;
use crate::scanner::free_of;
use crate::scanner::parse_env;
use crate::scanner::scan_env_spec;
use crate::text::copy_range;

verus! {

broadcast use crate::text::lemma_vec_char_deep_view;

/// The fixed lead-in of an invocation line: five spaces, `Running`, a space
/// and the opening backtick.
pub open spec fn running_prefix() -> Seq<char> {
    seq![' ', ' ', ' ', ' ', ' ', 'R', 'u', 'n', 'n', 'i', 'n', 'g', ' ', '`']
}

/// The compiler binary's name, which the captured path must end in and which
/// replay puts first in the argument vector.
pub open spec fn compiler_name() -> Seq<char> {
    seq!['r', 'u', 's', 't', 'c']
}

/// Does `rustc ` (the compiler name followed by a space) stand at `p` in
/// `content`.
pub open spec fn is_rustc_at(content: Seq<char>, p: int) -> bool {
    0 <= p && p + 6 <= content.len() && content.subrange(p, p + 5) == compiler_name()
        && content[p + 5] == ' '
}

/// The largest `p <= i` with `rustc ` at `p`, or `-1` when there is none.
pub open spec fn last_rustc_from(content: Seq<char>, i: int) -> int
    decreases i + 1,
{
    if i < 0 {
        -1
    } else if is_rustc_at(content, i) {
        i
    } else {
        last_rustc_from(content, i - 1)
    }
}

/// The largest index `j <= i` with `s[j] == c`, or `-1` when there is none.
pub open spec fn last_char_from(s: Seq<char>, i: int, c: char) -> int
    decreases i + 1,
{
    if i < 0 || i >= s.len() {
        -1
    } else if s[i] == c {
        i
    } else {
        last_char_from(s, i - 1, c)
    }
}

/// The smallest index `j` with `i <= j < s.len()` and `s[j] == c`, or
/// `s.len()` when there is none.
pub open spec fn first_char_from(s: Seq<char>, i: int, c: char) -> int
    decreases s.len() - i,
{
    if i < 0 || i >= s.len() {
        s.len() as int
    } else if s[i] == c {
        i
    } else {
        first_char_from(s, i + 1, c)
    }
}

/// The command between the backticks of an invocation line.
pub open spec fn line_content(line: Seq<char>) -> Seq<char> {
    line.subrange(running_prefix().len() as int, line.len() - 1)
}

/// Does this trace line describe a compiler invocation: the fixed lead-in, a
/// closing backtick, a compiler path ending in `rustc` before its arguments,
/// and a space before that path where the environment prefix ends.
pub open spec fn is_running_line(line: Seq<char>) -> bool {
    let n = running_prefix().len() as int;
    &&& line.len() > n + 1
    &&& line.take(n) == running_prefix()
    &&& line.last() == '`'
    &&& last_rustc_from(line_content(line), line_content(line).len() - 6) >= 0
    &&& last_char_from(
        line_content(line),
        last_rustc_from(line_content(line), line_content(line).len() - 6) - 1,
        ' ',
    ) >= 0
}

/// The three parts of an invocation line.
#[verifier::ext_equal]
pub struct TracePartsView {
    /// The environment-assignment prefix, undecoded.
    pub env: Seq<char>,
    /// The compiler path, ending in the compiler's name.
    pub compiler: Seq<char>,
    /// The raw argument string.
    pub args: Seq<char>,
}

/// How a matching invocation line splits into environment prefix, compiler
/// path and argument string.
pub open spec fn running_line_parts(line: Seq<char>) -> TracePartsView
    recommends
        is_running_line(line),
{
    let content = line_content(line);
    let p = last_rustc_from(content, content.len() - 6);
    let k = last_char_from(content, p - 1, ' ');
    TracePartsView {
        env: content.take(k),
        compiler: content.subrange(k + 1, p + 5),
        args: content.skip(p + 6),
    }
}

/// Exec counterpart of [`TracePartsView`].
#[derive(Clone, Debug, PartialEq, Eq)]
pub struct TraceParts {
    pub env: Vec<char>,
    pub compiler: Vec<char>,
    pub args: Vec<char>,
}

impl View for TraceParts {
    type V = TracePartsView;

    open spec fn view(&self) -> TracePartsView {
        TracePartsView { env: self.env@, compiler: self.compiler@, args: self.args@ }
    }
}

/// Split one trace line, when it is an invocation line, into its environment
/// prefix, compiler path and argument string; recognize nothing else.
pub fn parse_running_line(line: &[char]) -> (r: Option<TraceParts>)
    ensures
        r is Some <==> is_running_line(line@),
        r matches Some(parts) ==> parts@ == running_line_parts(line@),
{
    let n: usize = 14;
    proof {
        assert(running_prefix().len() == 14);
    }
    if line.len() < n + 2 {
        return None;
    }
    let ok = line[0] == ' ' && line[1] == ' ' && line[2] == ' ' && line[3] == ' ' && line[4] == ' '
        && line[5] == 'R' && line[6] == 'u' && line[7] == 'n' && line[8] == 'n' && line[9] == 'i'
        && line[10] == 'n' && line[11] == 'g' && line[12] == ' ' && line[13] == '`';
    if !ok {
        proof {
            assert(line@.take(14) != running_prefix());
        }
        return None;
    }
    proof {
        assert(line@.take(14) =~= running_prefix());
    }
    if line[line.len() - 1] != '`' {
        return None;
    }
    let clen = line.len() - 1 - n;
    let ghost content = line_content(line@);
    proof {
        assert(content.len() == clen);
    }
    // Find the last occurrence of the compiler name followed by a space.
    if clen < 6 {
        proof {
            lemma_last_rustc_none(content, content.len() - 6);
        }
        return None;
    }
    let mut p: usize = clen - 6 + 1;
    let mut found_p: bool = false;
    while p > 0 && !found_p
        invariant
            n == 14,
            line@.len() <= usize::MAX,
            0 <= p <= clen - 5,
            clen == content.len(),
            content == line_content(line@),
            line@.len() == clen + 15,
            !found_p ==> last_rustc_from(content, content.len() - 6) == last_rustc_from(
                content,
                p as int - 1,
            ),
            found_p ==> last_rustc_from(content, content.len() - 6) == p as int,
            found_p ==> p as int <= content.len() - 6,
        decreases p,
    {
        let q = p - 1;
        let here = line[n + q] == 'r' && line[n + q + 1] == 'u' && line[n + q + 2] == 's' && line[n
            + q + 3] == 't' && line[n + q + 4] == 'c' && line[n + q + 5] == ' ';
        proof {
            assert(content[q as int] == line@[n + q]);
            assert(content[q + 1] == line@[n + q + 1]);
            assert(content[q + 2] == line@[n + q + 2]);
            assert(content[q + 3] == line@[n + q + 3]);
            assert(content[q + 4] == line@[n + q + 4]);
            assert(content[q + 5] == line@[n + q + 5]);
            if here {
                assert(content.subrange(q as int, q + 5) =~= compiler_name());
                assert(is_rustc_at(content, q as int));
            } else {
                if content.subrange(q as int, q + 5) == compiler_name() {
                    assert(content.subrange(q as int, q + 5)[0] == content[q as int]);
                    assert(content.subrange(q as int, q + 5)[1] == content[q + 1]);
                    assert(content.subrange(q as int, q + 5)[2] == content[q + 2]);
                    assert(content.subrange(q as int, q + 5)[3] == content[q + 3]);
                    assert(content.subrange(q as int, q + 5)[4] == content[q + 4]);
                }
                assert(!is_rustc_at(content, q as int));
            }
        }
        if here {
            found_p = true;
            p = q;
        } else {
            p = q;
        }
    }
    if !found_p {
        proof {
            assert(last_rustc_from(content, -1) == -1);
        }
        return None;
    }
    // Find the last space before the compiler path.
    let ghost gp = p as int;
    let mut k: usize = p;
    let mut found_k: bool = false;
    while k > 0 && !found_k
        invariant
            n == 14,
            line@.len() <= usize::MAX,
            0 <= k <= gp,
            gp <= content.len() - 6,
            clen == content.len(),
            content == line_content(line@),
            line@.len() == clen + 15,
            !found_k ==> last_char_from(content, gp - 1, ' ') == last_char_from(
                content,
                k as int - 1,
                ' ',
            ),
            found_k ==> last_char_from(content, gp - 1, ' ') == k as int,
            found_k ==> (k as int) < gp,
        decreases k,
    {
        let q = k - 1;
        proof {
            assert(content[q as int] == line@[n + q]);
        }
        if line[n + q] == ' ' {
            found_k = true;
            k = q;
        } else {
            k = q;
        }
    }
    if !found_k {
        proof {
            assert(last_char_from(content, -1, ' ') == -1);
        }
        return None;
    }
    proof {
        assert(is_running_line(line@));
    }
    let env = copy_range(line, n, n + k);
    let compiler = copy_range(line, n + k + 1, n + p + 5);
    let args = copy_range(line, n + p + 6, n + clen);
    let parts = TraceParts { env, compiler, args };
    proof {
        assert(env@ =~= content.take(k as int));
        assert(compiler@ =~= content.subrange(k as int + 1, gp + 5));
        assert(args@ =~= content.skip(gp + 6));
        assert(parts@ =~= running_line_parts(line@));
    }
    Some(parts)
}

/// Below any index, a content too short for the compiler name holds no
/// occurrence.
proof fn lemma_last_rustc_none(content: Seq<char>, i: int)
    requires
        content.len() < 6,
    ensures
        last_rustc_from(content, i) == -1,
    decreases i + 1,
{
    if i >= 0 {
        assert(!is_rustc_at(content, i));
        lemma_last_rustc_none(content, i - 1);
    }
}


/// The flag that forces machine-readable diagnostics, with its trailing
/// separator: `--error-format=json `.
pub open spec fn error_format_flag() -> Seq<char> {
    seq!['-', '-', 'e', 'r', 'r', 'o', 'r', '-', 'f', 'o', 'r', 'm', 'a', 't', '=', 'j', 's', 'o',
        'n', ' ']
}

/// The lead-in of the second diagnostics flag: `--json=`.
pub open spec fn json_prefix() -> Seq<char> {
    seq!['-', '-', 'j', 's', 'o', 'n', '=']
}

/// `s` with every occurrence of `pat` removed, scanning left to right over
/// non-overlapping occurrences.
pub open spec fn remove_all(s: Seq<char>, pat: Seq<char>) -> Seq<char>
    decreases s.len(),
{
    if s.len() == 0 {
        seq![]
    } else if pat.len() > 0 && s.len() >= pat.len() && s.take(pat.len() as int) == pat {
        remove_all(s.skip(pat.len() as int), pat)
    } else {
        seq![s.first()] + remove_all(s.drop_first(), pat)
    }
}

/// `s` with every `--json=<value> ` flag removed: at an occurrence of the
/// lead-in, the flag runs to the first following space, which is removed
/// with it; a flag that no space terminates is left alone.
pub open spec fn strip_json_spec(s: Seq<char>) -> Seq<char>
    decreases s.len(),
{
    if s.len() == 0 {
        seq![]
    } else if s.len() >= 7 && s.take(7) == json_prefix() && 7 <= first_char_from(s, 7, ' ')
        && first_char_from(s, 7, ' ') < s.len() {
        strip_json_spec(s.skip(first_char_from(s, 7, ' ') + 1))
    } else {
        seq![s.first()] + strip_json_spec(s.drop_first())
    }
}

/// `s` with every `, ` collapsed to `,`, scanning left to right.
pub open spec fn collapse_commas_spec(s: Seq<char>) -> Seq<char>
    decreases s.len(),
{
    if s.len() == 0 {
        seq![]
    } else if s.len() >= 2 && s.first() == ',' && s[1] == ' ' {
        seq![','] + collapse_commas_spec(s.skip(2))
    } else {
        seq![s.first()] + collapse_commas_spec(s.drop_first())
    }
}

/// `s` with every single-quote character removed.
pub open spec fn drop_quotes_spec(s: Seq<char>) -> Seq<char>
    decreases s.len(),
{
    if s.len() == 0 {
        seq![]
    } else if s.first() == '\'' {
        drop_quotes_spec(s.drop_first())
    } else {
        seq![s.first()] + drop_quotes_spec(s.drop_first())
    }
}

/// The normalized argument string: both machine-readable-diagnostics flags
/// stripped, `, ` collapsed to `,`, and stray quote characters dropped, in
/// that order.
pub open spec fn normalize_options_spec(s: Seq<char>) -> Seq<char> {
    drop_quotes_spec(collapse_commas_spec(strip_json_spec(remove_all(s, error_format_flag()))))
}

/// Does `pat` stand at position `i` of `s`.
fn matches_at(s: &[char], i: usize, pat: &Vec<char>) -> (r: bool)
    requires
        i <= s@.len(),
    ensures
        r == (i + pat@.len() <= s@.len() && s@.subrange(i as int, i + pat@.len()) == pat@),
{
    if pat.len() > s.len() - i {
        return false;
    }
    let mut j: usize = 0;
    while j < pat.len()
        invariant
            s@.len() <= usize::MAX,
            i + pat@.len() <= s@.len(),
            0 <= j <= pat@.len(),
            forall|m: int| 0 <= m < j ==> s@[i + m] == pat@[m],
        decreases pat@.len() - j,
    {
        if s[i + j] != pat[j] {
            proof {
                assert(s@.subrange(i as int, i + pat@.len())[j as int] == s@[i + j]);
            }
            return false;
        }
        j = j + 1;
    }
    proof {
        assert(s@.subrange(i as int, i + pat@.len()) =~= pat@);
    }
    true
}

/// The flag [`error_format_flag`] as a vector.
fn error_format_chars() -> (r: Vec<char>)
    ensures
        r@ == error_format_flag(),
{
    let mut r: Vec<char> = Vec::new();
    r.push('-');
    r.push('-');
    r.push('e');
    r.push('r');
    r.push('r');
    r.push('o');
    r.push('r');
    r.push('-');
    r.push('f');
    r.push('o');
    r.push('r');
    r.push('m');
    r.push('a');
    r.push('t');
    r.push('=');
    r.push('j');
    r.push('s');
    r.push('o');
    r.push('n');
    r.push(' ');
    proof {
        assert(r@ =~= error_format_flag());
    }
    r
}

/// The lead-in [`json_prefix`] as a vector.
fn json_prefix_chars() -> (r: Vec<char>)
    ensures
        r@ == json_prefix(),
{
    let mut r: Vec<char> = Vec::new();
    r.push('-');
    r.push('-');
    r.push('j');
    r.push('s');
    r.push('o');
    r.push('n');
    r.push('=');
    proof {
        assert(r@ =~= json_prefix());
    }
    r
}

/// Remove every occurrence of `pat` from `s`, per [`remove_all`].
fn remove_pattern(s: &[char], pat: &Vec<char>) -> (r: Vec<char>)
    requires
        pat@.len() > 0,
    ensures
        r@ == remove_all(s@, pat@),
{
    let mut out: Vec<char> = Vec::new();
    let mut i: usize = 0;
    proof {
        assert(s@.skip(0) =~= s@);
        assert(out@ + remove_all(s@, pat@) =~= remove_all(s@, pat@));
    }
    while i < s.len()
        invariant
            pat@.len() > 0,
            0 <= i <= s@.len(),
            remove_all(s@, pat@) == out@ + remove_all(s@.skip(i as int), pat@),
        decreases s@.len() - i,
    {
        let ghost rest = s@.skip(i as int);
        if matches_at(s, i, pat) {
            proof {
                assert(rest.take(pat@.len() as int) =~= s@.subrange(i as int, i + pat@.len()));
                assert(rest.skip(pat@.len() as int) =~= s@.skip(i + pat@.len()));
            }
            i = i + pat.len();
        } else {
            proof {
                if rest.len() >= pat@.len() {
                    assert(rest.take(pat@.len() as int) =~= s@.subrange(
                        i as int,
                        i + pat@.len(),
                    ));
                }
                assert(rest.first() == s@[i as int]);
                assert(rest.drop_first() =~= s@.skip(i + 1));
            }
            let ghost before = out@;
            out.push(s[i]);
            proof {
                assert(out@ + remove_all(s@.skip(i + 1), pat@) =~= before + remove_all(
                    rest,
                    pat@,
                ));
            }
            i = i + 1;
        }
    }
    proof {
        assert(s@.skip(s@.len() as int) =~= Seq::<char>::empty());
        assert(out@ + Seq::<char>::empty() =~= out@);
    }
    out
}

/// Remove every space-terminated `--json=<value> ` flag, per
/// [`strip_json_spec`].
fn strip_json_flags(s: &[char]) -> (r: Vec<char>)
    ensures
        r@ == strip_json_spec(s@),
{
    let pat = json_prefix_chars();
    let mut out: Vec<char> = Vec::new();
    let mut i: usize = 0;
    proof {
        assert(s@.skip(0) =~= s@);
        assert(out@ + strip_json_spec(s@) =~= strip_json_spec(s@));
    }
    while i < s.len()
        invariant
            pat@ == json_prefix(),
            0 <= i <= s@.len(),
            strip_json_spec(s@) == out@ + strip_json_spec(s@.skip(i as int)),
        decreases s@.len() - i,
    {
        let ghost rest = s@.skip(i as int);
        proof {
            assert(rest.first() == s@[i as int]);
            assert(rest.drop_first() =~= s@.skip(i + 1));
        }
        let mut consumed: bool = false;
        if matches_at(s, i, &pat) {
            proof {
                assert(rest.take(7) =~= s@.subrange(i as int, i + 7));
            }
            // Scan for the space that terminates the flag.
            let mut k: usize = i + 7;
            while k < s.len() && s[k] != ' '
                invariant
                    i + 7 <= k <= s@.len(),
                    rest == s@.skip(i as int),
                    rest.len() == s@.len() - i,
                    forall|m: int| i + 7 <= m < k ==> s@[m] != ' ',
                    first_char_from(rest, 7, ' ') == first_char_from(rest, k - i, ' '),
                decreases s@.len() - k,
            {
                proof {
                    assert(rest[k - i] == s@[k as int]);
                }
                k = k + 1;
            }
            if k < s.len() {
                proof {
                    assert(rest[k - i] == s@[k as int]);
                    assert(first_char_from(rest, k - i, ' ') == k - i);
                    assert(rest.skip((k - i) + 1) =~= s@.skip(k + 1));
                }
                i = k + 1;
                consumed = true;
            } else {
                proof {
                    assert(first_char_from(rest, k - i, ' ') == rest.len());
                }
            }
        }
        if !consumed {
            let ghost before = out@;
            out.push(s[i]);
            proof {
                if rest.len() >= 7 {
                    assert(rest.take(7) =~= s@.subrange(i as int, i + 7));
                }
                assert(out@ + strip_json_spec(s@.skip(i + 1)) =~= before + strip_json_spec(rest));
            }
            i = i + 1;
        }
    }
    proof {
        assert(s@.skip(s@.len() as int) =~= Seq::<char>::empty());
        assert(out@ + Seq::<char>::empty() =~= out@);
    }
    out
}

/// Collapse every `, ` to `,`, per [`collapse_commas_spec`].
fn collapse_commas(s: &[char]) -> (r: Vec<char>)
    ensures
        r@ == collapse_commas_spec(s@),
{
    let mut out: Vec<char> = Vec::new();
    let mut i: usize = 0;
    proof {
        assert(s@.skip(0) =~= s@);
        assert(out@ + collapse_commas_spec(s@) =~= collapse_commas_spec(s@));
    }
    while i < s.len()
        invariant
            0 <= i <= s@.len(),
            collapse_commas_spec(s@) == out@ + collapse_commas_spec(s@.skip(i as int)),
        decreases s@.len() - i,
    {
        let ghost rest = s@.skip(i as int);
        let ghost before = out@;
        proof {
            assert(rest.first() == s@[i as int]);
            assert(rest.drop_first() =~= s@.skip(i + 1));
        }
        if s[i] == ',' && i + 1 < s.len() && s[i + 1] == ' ' {
            proof {
                assert(rest[1] == s@[i + 1]);
                assert(rest.skip(2) =~= s@.skip(i + 2));
            }
            out.push(',');
            proof {
                assert(out@ + collapse_commas_spec(s@.skip(i + 2)) =~= before
                    + collapse_commas_spec(rest));
            }
            i = i + 2;
        } else {
            proof {
                if rest.len() >= 2 {
                    assert(rest[1] == s@[i + 1]);
                }
            }
            out.push(s[i]);
            proof {
                assert(out@ + collapse_commas_spec(s@.skip(i + 1)) =~= before
                    + collapse_commas_spec(rest));
            }
            i = i + 1;
        }
    }
    proof {
        assert(s@.skip(s@.len() as int) =~= Seq::<char>::empty());
        assert(out@ + Seq::<char>::empty() =~= out@);
    }
    out
}

/// Drop every single-quote character, per [`drop_quotes_spec`].
fn drop_quotes(s: &[char]) -> (r: Vec<char>)
    ensures
        r@ == drop_quotes_spec(s@),
{
    let mut out: Vec<char> = Vec::new();
    let mut i: usize = 0;
    proof {
        assert(s@.skip(0) =~= s@);
        assert(out@ + drop_quotes_spec(s@) =~= drop_quotes_spec(s@));
    }
    while i < s.len()
        invariant
            0 <= i <= s@.len(),
            drop_quotes_spec(s@) == out@ + drop_quotes_spec(s@.skip(i as int)),
        decreases s@.len() - i,
    {
        let ghost rest = s@.skip(i as int);
        let ghost before = out@;
        proof {
            assert(rest.first() == s@[i as int]);
            assert(rest.drop_first() =~= s@.skip(i + 1));
        }
        if s[i] != '\'' {
            out.push(s[i]);
        }
        proof {
            assert(out@ + drop_quotes_spec(s@.skip(i + 1)) =~= before + drop_quotes_spec(rest));
        }
        i = i + 1;
    }
    proof {
        assert(s@.skip(s@.len() as int) =~= Seq::<char>::empty());
        assert(out@ + Seq::<char>::empty() =~= out@);
    }
    out
}

/// Normalize a raw argument string, per [`normalize_options_spec`].
pub fn normalize_options(s: &[char]) -> (r: Vec<char>)
    ensures
        r@ == normalize_options_spec(s@),
{
    let flag = error_format_chars();
    let a = remove_pattern(s, &flag);
    let b = strip_json_flags(a.as_slice());
    let c = collapse_commas(b.as_slice());
    drop_quotes(c.as_slice())
}


/// The space-separated tokens of a string: maximal nonspace runs, in order.
pub open spec fn split_ws(s: Seq<char>) -> Seq<Seq<char>>
    decreases s.len(),
{
    if s.len() == 0 {
        seq![]
    } else if s.first() == ' ' {
        split_ws(s.drop_first())
    } else {
        let e = first_char_from(s, 0, ' ');
        if 1 <= e <= s.len() {
            seq![s.take(e)] + split_ws(s.skip(e))
        } else {
            seq![s]
        }
    }
}

/// Split a string into its space-separated tokens, per [`split_ws`].
pub fn split_tokens(s: &[char]) -> (r: Vec<Vec<char>>)
    ensures
        r.deep_view() == split_ws(s@),
{
    let mut out: Vec<Vec<char>> = Vec::new();
    let mut i: usize = 0;
    proof {
        assert(s@.skip(0) =~= s@);
        assert(out.deep_view() + split_ws(s@) =~~= split_ws(s@));
    }
    while i < s.len()
        invariant
            0 <= i <= s@.len(),
            split_ws(s@) =~~= out.deep_view() + split_ws(s@.skip(i as int)),
        decreases s@.len() - i,
    {
        let ghost rest = s@.skip(i as int);
        proof {
            assert(rest.first() == s@[i as int]);
            assert(rest.drop_first() =~= s@.skip(i + 1));
        }
        if s[i] == ' ' {
            i = i + 1;
        } else {
            // Scan to the end of the token.
            let start = i;
            let mut k: usize = i + 1;
            while k < s.len() && s[k] != ' '
                invariant
                    start + 1 <= k <= s@.len(),
                    start < s@.len(),
                    rest == s@.skip(start as int),
                    rest.len() == s@.len() - start,
                    s@[start as int] != ' ',
                    first_char_from(rest, 0, ' ') == first_char_from(rest, k - start, ' '),
                decreases s@.len() - k,
            {
                proof {
                    assert(rest[k - start] == s@[k as int]);
                }
                k = k + 1;
            }
            let ghost e = first_char_from(rest, 0, ' ');
            proof {
                if k < s@.len() {
                    assert(rest[k - start] == s@[k as int]);
                    assert(e == k - start);
                } else {
                    assert(e == rest.len());
                }
                assert(1 <= e <= rest.len());
                assert(rest.take(e) =~= s@.subrange(start as int, k as int));
                assert(rest.skip(e) =~= s@.skip(k as int));
            }
            let tok = copy_range(s, start, k);
            let ghost before = out.deep_view();
            out.push(tok);
            proof {
                assert(out.deep_view() =~~= before.push(tok@));
                assert(out.deep_view() + split_ws(s@.skip(k as int)) =~~= before + split_ws(
                    rest,
                ));
            }
            i = k;
        }
    }
    proof {
        assert(s@.skip(s@.len() as int) =~= Seq::<char>::empty());
        assert(out.deep_view() + Seq::<Seq<char>>::empty() =~~= out.deep_view());
    }
    out
}

/// Does this token name a Rust source file: it ends in `.rs`.
pub open spec fn is_rs_token(t: Seq<char>) -> bool {
    t.len() >= 3 && t.skip(t.len() - 3) == seq!['.', 'r', 's']
}

/// The first index at or after `i` whose token ends in `.rs`, or the length
/// when there is none.
pub open spec fn first_rs_from(tokens: Seq<Seq<char>>, i: int) -> int
    decreases tokens.len() - i,
{
    if i < 0 || i >= tokens.len() {
        tokens.len() as int
    } else if is_rs_token(tokens[i]) {
        i
    } else {
        first_rs_from(tokens, i + 1)
    }
}

/// One captured compiler invocation: the decoded environment assignments and
/// the normalized argument tokens, the captured source-file token removed.
#[derive(Clone, Debug, PartialEq, Eq)]
pub struct CapturedInvocation {
    pub assigns: Vec<EnvAssign>,
    pub tokens: Vec<Vec<char>>,
}

/// Mathematical content of a [`CapturedInvocation`].
#[verifier::ext_equal]
pub struct CapturedInvocationView {
    pub assigns: Seq<EnvAssignView>,
    pub tokens: Seq<Seq<char>>,
}

impl View for CapturedInvocation {
    type V = CapturedInvocationView;

    open spec fn view(&self) -> CapturedInvocationView {
        CapturedInvocationView {
            assigns: self.assigns.deep_view(),
            tokens: self.tokens.deep_view(),
        }
    }
}

/// Why a capture failed. Every failure is fatal: without a concrete compiler
/// invocation there is nothing to learn from.
#[derive(Clone, Copy, Debug, PartialEq, Eq, Structural)]
pub enum CaptureError {
    /// No line of the trace matches the invocation-line shape.
    NoInvocation,
    /// The environment prefix of the matched line failed shell-token
    /// decoding; a parsing desynchronization, since that prefix comes from
    /// the build tool's own output.
    EnvSyntax { err: ScanError },
    /// No argument token names a Rust source file, so replay could not put
    /// the caller's file in its place.
    NoSourceToken,
}

/// What capturing from one matching invocation line yields: its decoded
/// environment assignments and its normalized argument tokens with the first
/// `.rs` token (the captured source file) removed.
pub open spec fn capture_line_spec(line: Seq<char>) -> Result<
    CapturedInvocationView,
    CaptureError,
>
    recommends
        is_running_line(line),
{
    let parts = running_line_parts(line);
    match scan_env_spec(parts.env) {
        Err(e) => Err(CaptureError::EnvSyntax { err: e }),
        Ok(assigns) => {
            let toks = split_ws(normalize_options_spec(parts.args));
            let ri = first_rs_from(toks, 0);
            if ri < toks.len() {
                Ok(CapturedInvocationView { assigns, tokens: toks.remove(ri) })
            } else {
                Err(CaptureError::NoSourceToken)
            }
        },
    }
}

/// The first index at or after `i` whose line is an invocation line, or the
/// length when there is none.
pub open spec fn first_running_from(lines: Seq<Seq<char>>, i: int) -> int
    decreases lines.len() - i,
{
    if i < 0 || i >= lines.len() {
        lines.len() as int
    } else if is_running_line(lines[i]) {
        i
    } else {
        first_running_from(lines, i + 1)
    }
}

/// What capturing from a whole trace yields: the capture of the first
/// invocation line — every later line is ignored — or a fatal error when no
/// line matches.
pub open spec fn capture_spec(lines: Seq<Seq<char>>) -> Result<
    CapturedInvocationView,
    CaptureError,
> {
    let i = first_running_from(lines, 0);
    if i < lines.len() {
        capture_line_spec(lines[i])
    } else {
        Err(CaptureError::NoInvocation)
    }
}

/// Capture the compiler invocation from the lines of a build tool's verbose
/// trace, per [`capture_spec`]: scan line by line, take the first line that
/// matches, decode its environment prefix, normalize and tokenize its
/// arguments, and drop the captured source-file token.
pub fn capture_from_trace(lines: &Vec<Vec<char>>) -> (r: Result<
    CapturedInvocation,
    CaptureError,
>)
    ensures
        match r {
            Ok(inv) => capture_spec(lines.deep_view()) == Ok::<
                CapturedInvocationView,
                CaptureError,
            >(inv@),
            Err(e) => capture_spec(lines.deep_view()) == Err::<
                CapturedInvocationView,
                CaptureError,
            >(e),
        },
{
    let ghost dv = lines.deep_view();
    let mut i: usize = 0;
    while i < lines.len()
        invariant
            dv == lines.deep_view(),
            dv.len() == lines@.len(),
            0 <= i <= dv.len(),
            first_running_from(dv, 0) == first_running_from(dv, i as int),
        decreases dv.len() - i,
    {
        proof {
            assert(lines[i as int].deep_view() == dv[i as int]);
        }
        match parse_running_line(lines[i].as_slice()) {
            Some(parts) => {
                proof {
                    assert(is_running_line(dv[i as int]));
                    assert(first_running_from(dv, i as int) == i as int);
                }
                // First match wins; decode and normalize it.
                let assigns = match parse_env(parts.env.as_slice()) {
                    Ok(a) => a,
                    Err(e) => {
                        return Err(CaptureError::EnvSyntax { err: e });
                    },
                };
                let normalized = normalize_options(parts.args.as_slice());
                let mut toks = split_tokens(normalized.as_slice());
                let ghost tdv = toks.deep_view();
                // Find and remove the captured source-file token.
                let mut j: usize = 0;
                let mut found: bool = false;
                while j < toks.len() && !found
                    invariant
                        tdv == toks.deep_view(),
                        tdv.len() == toks@.len(),
                        0 <= j <= tdv.len(),
                        !found ==> first_rs_from(tdv, 0) == first_rs_from(tdv, j as int),
                        found ==> first_rs_from(tdv, 0) == j as int && (j as int) < tdv.len(),
                    decreases tdv.len() - j, (if found { 0int } else { 1int }),
                {
                    let t = &toks[j];
                    let n = t.len();
                    let e = n >= 3 && t[n - 3] == '.' && t[n - 2] == 'r' && t[n - 1] == 's';
                    proof {
                        assert(t@ == tdv[j as int]);
                        if e {
                            assert(t@.skip(n - 3) =~= seq!['.', 'r', 's']);
                            assert(is_rs_token(tdv[j as int]));
                        } else {
                            if n >= 3 && t@.skip(n - 3) == seq!['.', 'r', 's'] {
                                assert(t@.skip(n - 3)[0] == t@[n - 3]);
                                assert(t@.skip(n - 3)[1] == t@[n - 2]);
                                assert(t@.skip(n - 3)[2] == t@[n - 1]);
                            }
                            assert(!is_rs_token(tdv[j as int]));
                        }
                    }
                    if e {
                        found = true;
                    } else {
                        j = j + 1;
                    }
                }
                if !found {
                    return Err(CaptureError::NoSourceToken);
                }
                toks.remove(j);
                proof {
                    assert(toks.deep_view() =~~= tdv.remove(j as int));
                }
                return Ok(CapturedInvocation { assigns, tokens: toks });
            },
            None => {
                proof {
                    assert(!is_running_line(dv[i as int]));
                }
                i = i + 1;
            },
        }
    }
    proof {
        assert(first_running_from(dv, dv.len() as int) == dv.len());
    }
    Err(CaptureError::NoInvocation)
}

/// Law: a trace in which no line matches the invocation-line shape makes
/// capture fail, loudly, with the error that names that condition.
pub proof fn lemma_no_invocation_line_is_fatal(lines: Seq<Seq<char>>)
    requires
        forall|i: int| 0 <= i < lines.len() ==> !is_running_line(#[trigger] lines[i]),
    ensures
        capture_spec(lines) == Err::<CapturedInvocationView, CaptureError>(
            CaptureError::NoInvocation,
        ),
{
    lemma_first_running_none(lines, 0);
}

/// Below [`lemma_no_invocation_line_is_fatal`]: with no matching line, the
/// scan reaches the end of the trace.
proof fn lemma_first_running_none(lines: Seq<Seq<char>>, i: int)
    requires
        0 <= i <= lines.len(),
        forall|j: int| 0 <= j < lines.len() ==> !is_running_line(#[trigger] lines[j]),
    ensures
        first_running_from(lines, i) == lines.len(),
    decreases lines.len() - i,
{
    if i < lines.len() {
        lemma_first_running_none(lines, i + 1);
    }
}


/// Bounds and meaning of [`first_char_from`]: the result lies between `i`
/// and the length, nothing before it is `c`, and it holds `c` unless it is
/// the end.
pub proof fn lemma_first_char_props(s: Seq<char>, i: int, c: char)
    requires
        0 <= i <= s.len(),
    ensures
        i <= first_char_from(s, i, c) <= s.len(),
        forall|j: int| i <= j < first_char_from(s, i, c) ==> s[j] != c,
        first_char_from(s, i, c) < s.len() ==> s[first_char_from(s, i, c)] == c,
    decreases s.len() - i,
{
    if i < s.len() && s[i] != c {
        lemma_first_char_props(s, i + 1, c);
    }
}

/// Bounds and meaning of [`last_char_from`]: a nonnegative result lies at or
/// below `i` and holds `c`.
pub proof fn lemma_last_char_props(s: Seq<char>, i: int, c: char)
    ensures
        last_char_from(s, i, c) == -1 || (0 <= last_char_from(s, i, c) <= i && last_char_from(
            s,
            i,
            c,
        ) < s.len() && s[last_char_from(s, i, c)] == c),
    decreases i + 1,
{
    if !(i < 0 || i >= s.len()) && s[i] != c {
        lemma_last_char_props(s, i - 1, c);
    }
}

/// Bounds and meaning of [`last_rustc_from`]: a nonnegative result lies at
/// or below `i` and carries an occurrence.
pub proof fn lemma_last_rustc_props(content: Seq<char>, i: int)
    ensures
        last_rustc_from(content, i) == -1 || (0 <= last_rustc_from(content, i) <= i
            && is_rustc_at(content, last_rustc_from(content, i))),
    decreases i + 1,
{
    if i >= 0 && !is_rustc_at(content, i) {
        lemma_last_rustc_props(content, i - 1);
    }
}

/// Bounds and meaning of [`first_running_from`]: the result lies between
/// `i` and the length, and unless it is the end its line matches.
pub proof fn lemma_first_running_props(lines: Seq<Seq<char>>, i: int)
    requires
        0 <= i <= lines.len(),
    ensures
        i <= first_running_from(lines, i) <= lines.len(),
        first_running_from(lines, i) < lines.len() ==> is_running_line(
            lines[first_running_from(lines, i)],
        ),
    decreases lines.len() - i,
{
    if i < lines.len() && !is_running_line(lines[i]) {
        lemma_first_running_props(lines, i + 1);
    }
}

/// Every token of a split is nonempty and free of spaces, and free of any
/// further character the input is free of.
pub proof fn lemma_split_ws_tokens(s: Seq<char>, c: char)
    requires
        free_of(s, c),
        c != ' ',
    ensures
        forall|i: int|
            0 <= i < split_ws(s).len() ==> (#[trigger] split_ws(s)[i]).len() > 0 && free_of(
                split_ws(s)[i],
                ' ',
            ) && free_of(split_ws(s)[i], c),
    decreases s.len(),
{
    if s.len() == 0 {
    } else if s.first() == ' ' {
        assert(free_of(s.drop_first(), c)) by {
            assert(forall|j: int|
                0 <= j < s.drop_first().len() ==> s.drop_first()[j] == s[j + 1] && s.drop_first()[j]
                    != c);
        }
        lemma_split_ws_tokens(s.drop_first(), c);
        assert(split_ws(s) == split_ws(s.drop_first()));
        assert forall|i: int| 0 <= i < split_ws(s).len() implies (#[trigger] split_ws(s)[i]).len()
            > 0 && free_of(split_ws(s)[i], ' ') && free_of(split_ws(s)[i], c) by {
            assert(split_ws(s)[i] == split_ws(s.drop_first())[i]);
        }
    } else {
        lemma_first_char_props(s, 0, ' ');
        let e = first_char_from(s, 0, ' ');
        assert(e >= 1);
        if e <= s.len() {
            let t = s.take(e);
            assert(t.len() > 0);
            assert(free_of(t, ' ')) by {
                assert(forall|j: int| 0 <= j < t.len() ==> t[j] == s[j] && t[j] != ' ');
            }
            assert(free_of(t, c)) by {
                assert(forall|j: int| 0 <= j < t.len() ==> t[j] == s[j] && t[j] != c);
            }
            let rest = s.skip(e);
            assert(free_of(rest, c)) by {
                assert(forall|j: int|
                    0 <= j < rest.len() ==> rest[j] == s[j + e] && rest[j] != c);
            }
            lemma_split_ws_tokens(rest, c);
            assert(split_ws(s) == seq![t] + split_ws(rest));
            assert forall|i: int| 0 <= i < split_ws(s).len() implies (#[trigger] split_ws(
                s,
            )[i]).len() > 0 && free_of(split_ws(s)[i], ' ') && free_of(split_ws(s)[i], c) by {
                if i == 0 {
                    assert(split_ws(s)[i] == t);
                } else {
                    assert(split_ws(s)[i] == split_ws(rest)[i - 1]);
                }
            }
        }
    }
}

/// Removing a pattern keeps the output's characters among the input's.
proof fn lemma_remove_all_free(s: Seq<char>, pat: Seq<char>, c: char)
    requires
        free_of(s, c),
    ensures
        free_of(remove_all(s, pat), c),
    decreases s.len(),
{
    if s.len() == 0 {
    } else if pat.len() > 0 && s.len() >= pat.len() && s.take(pat.len() as int) == pat {
        assert(free_of(s.skip(pat.len() as int), c)) by {
            let r = s.skip(pat.len() as int);
            assert(forall|j: int| 0 <= j < r.len() ==> r[j] == s[j + pat.len()] && r[j] != c);
        }
        lemma_remove_all_free(s.skip(pat.len() as int), pat, c);
    } else {
        assert(free_of(s.drop_first(), c)) by {
            let r = s.drop_first();
            assert(forall|j: int| 0 <= j < r.len() ==> r[j] == s[j + 1] && r[j] != c);
        }
        lemma_remove_all_free(s.drop_first(), pat, c);
        assert(s.first() != c);
        assert(forall|j: int|
            1 <= j < remove_all(s, pat).len() ==> remove_all(s, pat)[j] == #[trigger] remove_all(
                s.drop_first(),
                pat,
            )[j - 1]);
    }
}

/// Stripping the second diagnostics flag keeps the output's characters among
/// the input's.
proof fn lemma_strip_json_free(s: Seq<char>, c: char)
    requires
        free_of(s, c),
    ensures
        free_of(strip_json_spec(s), c),
    decreases s.len(),
{
    if s.len() == 0 {
    } else if s.len() >= 7 && s.take(7) == json_prefix() && 7 <= first_char_from(s, 7, ' ')
        && first_char_from(s, 7, ' ') < s.len() {
        let e = first_char_from(s, 7, ' ');
        assert(free_of(s.skip(e + 1), c)) by {
            let r = s.skip(e + 1);
            assert(forall|j: int| 0 <= j < r.len() ==> r[j] == s[j + e + 1] && r[j] != c);
        }
        lemma_strip_json_free(s.skip(e + 1), c);
    } else {
        assert(free_of(s.drop_first(), c)) by {
            let r = s.drop_first();
            assert(forall|j: int| 0 <= j < r.len() ==> r[j] == s[j + 1] && r[j] != c);
        }
        lemma_strip_json_free(s.drop_first(), c);
        assert(s.first() != c);
        assert(forall|j: int|
            1 <= j < strip_json_spec(s).len() ==> strip_json_spec(s)[j]
                == #[trigger] strip_json_spec(s.drop_first())[j - 1]);
    }
}

/// Collapsing `, ` keeps the output's characters among the input's and the
/// comma.
proof fn lemma_collapse_free(s: Seq<char>, c: char)
    requires
        free_of(s, c),
        c != ',',
    ensures
        free_of(collapse_commas_spec(s), c),
    decreases s.len(),
{
    if s.len() == 0 {
    } else if s.len() >= 2 && s.first() == ',' && s[1] == ' ' {
        assert(free_of(s.skip(2), c)) by {
            let r = s.skip(2);
            assert(forall|j: int| 0 <= j < r.len() ==> r[j] == s[j + 2] && r[j] != c);
        }
        lemma_collapse_free(s.skip(2), c);
        assert(forall|j: int|
            1 <= j < collapse_commas_spec(s).len() ==> collapse_commas_spec(s)[j]
                == #[trigger] collapse_commas_spec(s.skip(2))[j - 1]);
    } else {
        assert(free_of(s.drop_first(), c)) by {
            let r = s.drop_first();
            assert(forall|j: int| 0 <= j < r.len() ==> r[j] == s[j + 1] && r[j] != c);
        }
        lemma_collapse_free(s.drop_first(), c);
        assert(s.first() != c);
        assert(forall|j: int|
            1 <= j < collapse_commas_spec(s).len() ==> collapse_commas_spec(s)[j]
                == #[trigger] collapse_commas_spec(s.drop_first())[j - 1]);
    }
}

/// Dropping quotes keeps the output's characters among the input's.
proof fn lemma_drop_quotes_free(s: Seq<char>, c: char)
    requires
        free_of(s, c),
    ensures
        free_of(drop_quotes_spec(s), c),
    decreases s.len(),
{
    if s.len() > 0 {
        assert(free_of(s.drop_first(), c)) by {
            let r = s.drop_first();
            assert(forall|j: int| 0 <= j < r.len() ==> r[j] == s[j + 1] && r[j] != c);
        }
        lemma_drop_quotes_free(s.drop_first(), c);
        if s.first() != '\'' {
            assert(s.first() != c);
            assert(forall|j: int|
                1 <= j < drop_quotes_spec(s).len() ==> drop_quotes_spec(s)[j]
                    == #[trigger] drop_quotes_spec(s.drop_first())[j - 1]);
        }
    }
}

/// Normalization keeps the output's characters among the input's and the
/// comma.
pub proof fn lemma_normalize_free(s: Seq<char>, c: char)
    requires
        free_of(s, c),
        c != ',',
    ensures
        free_of(normalize_options_spec(s), c),
{
    lemma_remove_all_free(s, error_format_flag(), c);
    lemma_strip_json_free(remove_all(s, error_format_flag()), c);
    lemma_collapse_free(strip_json_spec(remove_all(s, error_format_flag())), c);
    lemma_drop_quotes_free(
        collapse_commas_spec(strip_json_spec(remove_all(s, error_format_flag()))),
        c,
    );
}


/// Bounds and meaning of [`first_rs_from`]: the result lies between `i` and
/// the length, and unless it is the end its token ends in `.rs`.
pub proof fn lemma_first_rs_props(tokens: Seq<Seq<char>>, i: int)
    requires
        0 <= i <= tokens.len(),
    ensures
        i <= first_rs_from(tokens, i) <= tokens.len(),
        first_rs_from(tokens, i) < tokens.len() ==> is_rs_token(
            tokens[first_rs_from(tokens, i)],
        ),
    decreases tokens.len() - i,
{
    if i < tokens.len() && !is_rs_token(tokens[i]) {
        lemma_first_rs_props(tokens, i + 1);
    }
}

} // verus!
