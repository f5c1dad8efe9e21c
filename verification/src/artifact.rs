//! The persisted artifact that carries one captured invocation: one
//! `key = value` line per environment assignment, in encounter order, and a
//! final line holding the space-separated argument tokens.
//!
//! The token line terminates the artifact without a trailing newline; an
//! artifact that is empty or ends in a newline is missing its token line and
//! is treated as truncated.

use vstd::prelude::*;

use crate::capture::CapturedInvocation;
use crate::capture::CapturedInvocationView;
use crate::capture::capture_line_spec;
use crate::capture::capture_spec;
use crate::capture::first_char_from;
use crate::capture::first_running_from;
use crate::capture::is_running_line;
use crate::capture::is_rustc_at;
use crate::capture::last_char_from;
use crate::capture::last_rustc_from;
use crate::capture::lemma_first_running_props;
use crate::capture::lemma_last_char_props;
use crate::capture::lemma_last_rustc_props;
use crate::capture::lemma_normalize_free;
use crate::capture::lemma_split_ws_tokens;
use crate::capture::line_content;
use crate::capture::normalize_options_spec;
use crate::capture::running_line_parts;
use crate::capture::split_tokens;
use crate::capture::split_ws;
use crate::scanner::EnvAssign;
use crate::scanner::EnvAssignView;
use crate::scanner::free_of;
use crate::scanner::is_valid_key;
use crate::scanner::scan_env_spec;
use crate::text::copy_range;
use crate::text::push_chars;

verus! {

broadcast use crate::text::lemma_vec_char_deep_view;

/// One rendered assignment line: the key, ` = `, the value, and a newline.
pub open spec fn render_assign_line(p: EnvAssignView) -> Seq<char> {
    p.key + seq![' ', '=', ' '] + p.value + seq!['\n']
}

/// The rendered assignment section: one line per assignment, in order.
pub open spec fn render_assigns(assigns: Seq<EnvAssignView>) -> Seq<char>
    decreases assigns.len(),
{
    if assigns.len() == 0 {
        seq![]
    } else {
        render_assign_line(assigns.first()) + render_assigns(assigns.drop_first())
    }
}

/// The rendered token line: the tokens joined by single spaces.
pub open spec fn join_tokens(tokens: Seq<Seq<char>>) -> Seq<char>
    decreases tokens.len(),
{
    if tokens.len() == 0 {
        seq![]
    } else if tokens.len() == 1 {
        tokens.first()
    } else {
        tokens.first() + seq![' '] + join_tokens(tokens.drop_first())
    }
}

/// The whole rendered artifact: the assignment lines, then the token line.
pub open spec fn render_artifact_spec(inv: CapturedInvocationView) -> Seq<char> {
    render_assigns(inv.assigns) + join_tokens(inv.tokens)
}

/// Why a persisted artifact was rejected. Both conditions are fatal.
#[derive(Clone, Copy, Debug, PartialEq, Eq, Structural)]
pub enum ArtifactError {
    /// The artifact is empty or ends in a newline: its token line is
    /// missing, so it is truncated.
    Truncated,
    /// A line before the token line is not a well-formed `key = value`
    /// assignment.
    BadAssign,
}

/// What one artifact line before the token line decodes to: a key that is
/// nonempty and alphanumeric-or-underscore, the separator ` = `, and the
/// rest of the line as the value, which may be empty.
pub open spec fn parse_assign_line(line: Seq<char>) -> Option<EnvAssignView> {
    let k = first_char_from(line, 0, ' ');
    if 0 < k && k + 3 <= line.len() && line[k + 1] == '=' && line[k + 2] == ' ' && is_valid_key(
        line.take(k),
    ) {
        Some(EnvAssignView { key: line.take(k), value: line.skip(k + 3) })
    } else {
        None
    }
}

/// What the body of an artifact decodes to, scanning line by line: every
/// line before the last is an assignment, and the last line holds the
/// tokens.
pub open spec fn decode_body(s: Seq<char>) -> Result<CapturedInvocationView, ArtifactError>
    decreases s.len(),
{
    let e = first_char_from(s, 0, '\n');
    if 0 <= e < s.len() {
        match parse_assign_line(s.take(e)) {
            None => Err(ArtifactError::BadAssign),
            Some(p) => match decode_body(s.skip(e + 1)) {
                Ok(civ) => Ok(
                    CapturedInvocationView {
                        assigns: seq![p] + civ.assigns,
                        tokens: civ.tokens,
                    },
                ),
                Err(err) => Err(err),
            },
        }
    } else {
        Ok(CapturedInvocationView { assigns: seq![], tokens: split_ws(s) })
    }
}

/// What a whole persisted artifact decodes to: truncation is detected first,
/// then the body is decoded line by line.
pub open spec fn decode_artifact_spec(s: Seq<char>) -> Result<
    CapturedInvocationView,
    ArtifactError,
> {
    if s.len() == 0 || s.last() == '\n' {
        Err(ArtifactError::Truncated)
    } else {
        decode_body(s)
    }
}

/// Render a captured invocation as its persisted text, per
/// [`render_artifact_spec`].
pub fn render_artifact(inv: &CapturedInvocation) -> (r: Vec<char>)
    ensures
        r@ == render_artifact_spec(inv@),
{
    let ghost adv = inv.assigns.deep_view();
    let ghost tdv = inv.tokens.deep_view();
    let mut out: Vec<char> = Vec::new();
    let mut i: usize = 0;
    proof {
        assert(adv.skip(0) =~= adv);
        assert(out@ + render_assigns(adv) =~= render_assigns(adv));
    }
    while i < inv.assigns.len()
        invariant
            adv == inv.assigns.deep_view(),
            tdv == inv.tokens.deep_view(),
            adv.len() == inv.assigns@.len(),
            0 <= i <= adv.len(),
            out@ + render_assigns(adv.skip(i as int)) == render_assigns(adv),
        decreases adv.len() - i,
    {
        let ghost rest = adv.skip(i as int);
        let ghost before = out@;
        proof {
            assert(rest.first() == adv[i as int]);
            assert(rest.drop_first() =~= adv.skip(i + 1));
            assert(inv.assigns[i as int].deep_view() == adv[i as int]);
        }
        let a = &inv.assigns[i];
        push_chars(&mut out, &a.key);
        out.push(' ');
        out.push('=');
        out.push(' ');
        push_chars(&mut out, &a.value);
        out.push('\n');
        proof {
            assert(out@ =~= before + render_assign_line(adv[i as int]));
            assert(out@ + render_assigns(adv.skip(i + 1)) =~= before + render_assigns(rest));
        }
        i = i + 1;
    }
    proof {
        assert(adv.skip(adv.len() as int) =~= Seq::<EnvAssignView>::empty());
        assert(out@ + Seq::<char>::empty() =~= out@);
        assert(out@ == render_assigns(adv));
    }
    let ghost mid = out@;
    let mut j: usize = 0;
    proof {
        assert(tdv.skip(0) =~= tdv);
    }
    while j < inv.tokens.len()
        invariant
            tdv == inv.tokens.deep_view(),
            tdv.len() == inv.tokens@.len(),
            0 <= j <= tdv.len(),
            out@ + join_tokens(tdv.skip(j as int)) == mid + join_tokens(tdv),
        decreases tdv.len() - j,
    {
        let ghost rest = tdv.skip(j as int);
        let ghost before = out@;
        proof {
            assert(rest.first() == tdv[j as int]);
            assert(rest.drop_first() =~= tdv.skip(j + 1));
            assert(inv.tokens[j as int].deep_view() == tdv[j as int]);
        }
        push_chars(&mut out, &inv.tokens[j]);
        if j + 1 < inv.tokens.len() {
            out.push(' ');
            proof {
                assert(rest.len() > 1);
                assert(out@ + join_tokens(tdv.skip(j + 1)) =~= before + join_tokens(rest));
            }
        } else {
            proof {
                assert(rest.len() == 1);
                assert(tdv.skip(j + 1) =~= Seq::<Seq<char>>::empty());
                assert(out@ + join_tokens(tdv.skip(j + 1)) =~= before + join_tokens(rest));
            }
        }
        j = j + 1;
    }
    proof {
        assert(tdv.skip(tdv.len() as int) =~= Seq::<Seq<char>>::empty());
        assert(out@ + Seq::<char>::empty() =~= out@);
    }
    out
}

/// Decode one assignment line, per [`parse_assign_line`].
fn parse_assign(line: &[char]) -> (r: Option<EnvAssign>)
    ensures
        r is Some <==> parse_assign_line(line@) is Some,
        r matches Some(p) ==> parse_assign_line(line@) == Some(p@),
{
    // Find the first space, which ends the key.
    let mut k: usize = 0;
    while k < line.len() && line[k] != ' '
        invariant
            0 <= k <= line@.len(),
            forall|m: int| 0 <= m < k ==> line@[m] != ' ',
            first_char_from(line@, 0, ' ') == first_char_from(line@, k as int, ' '),
        decreases line@.len() - k,
    {
        k = k + 1;
    }
    let ghost e = first_char_from(line@, 0, ' ');
    proof {
        if k < line@.len() {
            assert(e == k as int);
        } else {
            assert(e == line@.len());
        }
    }
    if k == 0 || k >= line.len() {
        proof {
            if k >= line.len() {
                assert(!(e + 3 <= line@.len()));
            }
        }
        return None;
    }
    if k >= line.len() - 2 || line[k + 1] != '=' || line[k + 2] != ' ' {
        return None;
    }
    // Validate the key.
    let mut m: usize = 0;
    while m < k
        invariant
            0 <= m <= k < line@.len(),
            first_char_from(line@, 0, ' ') == k as int,
            k + 3 <= line@.len(),
            line@[k + 1] == '=',
            line@[k + 2] == ' ',
            forall|q: int| 0 <= q < m ==> crate::scanner::is_key_char(#[trigger] line@[q]),
        decreases k - m,
    {
        let c = line[m];
        let u = c as u32;
        let okc = (('a' as u32) <= u && u <= ('z' as u32)) || (('A' as u32) <= u && u <= ('Z'
            as u32)) || (('0' as u32) <= u && u <= ('9' as u32)) || c == '_';
        proof {
            assert(okc == crate::scanner::is_key_char(line@[m as int]));
        }
        if !okc {
            proof {
                assert(line@.take(k as int)[m as int] == line@[m as int]);
                assert(!is_valid_key(line@.take(k as int)));
            }
            return None;
        }
        m = m + 1;
    }
    proof {
        assert(forall|q: int|
            0 <= q < k ==> line@.take(k as int)[q] == line@[q] && crate::scanner::is_key_char(
                #[trigger] line@.take(k as int)[q],
            ));
        assert(is_valid_key(line@.take(k as int)));
    }
    let key = copy_range(line, 0, k);
    let value = copy_range(line, k + 3, line.len());
    proof {
        assert(key@ =~= line@.take(k as int));
        assert(value@ =~= line@.skip(k + 3));
    }
    Some(EnvAssign { key, value })
}

/// Loop relation for [`parse_artifact`]: decoding the whole body is decoding
/// the remaining suffix after the assignments already decoded into `acc`.
spec fn decode_loop_inv(s: Seq<char>, i: int, acc: Seq<EnvAssignView>) -> bool {
    decode_body(s) == (match decode_body(s.skip(i)) {
        Ok(civ) => Ok::<CapturedInvocationView, ArtifactError>(
            CapturedInvocationView { assigns: acc + civ.assigns, tokens: civ.tokens },
        ),
        Err(e) => Err::<CapturedInvocationView, ArtifactError>(e),
    })
}

/// Decode a persisted artifact, per [`decode_artifact_spec`]: its
/// `key = value` lines and its final token line, or the error naming what is
/// wrong with it.
pub fn parse_artifact(s: &[char]) -> (r: Result<CapturedInvocation, ArtifactError>)
    ensures
        match r {
            Ok(inv) => decode_artifact_spec(s@) == Ok::<CapturedInvocationView, ArtifactError>(
                inv@,
            ),
            Err(e) => decode_artifact_spec(s@) == Err::<CapturedInvocationView, ArtifactError>(
                e,
            ),
        },
{
    if s.len() == 0 {
        return Err(ArtifactError::Truncated);
    }
    if s[s.len() - 1] == '\n' {
        return Err(ArtifactError::Truncated);
    }
    let mut assigns: Vec<EnvAssign> = Vec::new();
    let mut i: usize = 0;
    proof {
        assert(s@.skip(0) =~= s@);
        match decode_body(s@) {
            Ok(civ) => {
                assert(assigns.deep_view() + civ.assigns =~= civ.assigns);
                assert((CapturedInvocationView {
                    assigns: assigns.deep_view() + civ.assigns,
                    tokens: civ.tokens,
                }) =~~= civ);
            },
            Err(e) => {},
        }
        assert(decode_loop_inv(s@, 0, assigns.deep_view()));
    }
    loop
        invariant
            0 < s@.len() <= usize::MAX,
            s@.last() != '\n',
            0 <= i <= s@.len(),
            decode_loop_inv(s@, i as int, assigns.deep_view()),
        decreases s@.len() - i,
    {
        let ghost rest = s@.skip(i as int);
        // Find the next newline; without one, the remainder is the token
        // line.
        let mut k: usize = i;
        while k < s.len() && s[k] != '\n'
            invariant
                i <= k <= s@.len(),
                s@.len() <= usize::MAX,
                rest == s@.skip(i as int),
                rest.len() == s@.len() - i,
                forall|m: int| i <= m < k ==> s@[m] != '\n',
                first_char_from(rest, 0, '\n') == first_char_from(rest, k - i, '\n'),
            decreases s@.len() - k,
        {
            proof {
                assert(rest[k - i] == s@[k as int]);
            }
            k = k + 1;
        }
        let ghost e = first_char_from(rest, 0, '\n');
        if k >= s.len() {
            proof {
                assert(e == rest.len());
            }
            let tokens = split_tokens(copy_range(s, i, s.len()).as_slice());
            proof {
                assert(s@.subrange(i as int, s@.len() as int) =~= rest);
            }
            let inv = CapturedInvocation { assigns, tokens };
            proof {
                assert(decode_body(rest) == Ok::<CapturedInvocationView, ArtifactError>(
                    CapturedInvocationView { assigns: seq![], tokens: split_ws(rest) },
                ));
                assert(inv@.assigns + Seq::<EnvAssignView>::empty() =~= inv@.assigns);
                assert(decode_body(s@) == Ok::<CapturedInvocationView, ArtifactError>(inv@));
            }
            return Ok(inv);
        }
        proof {
            assert(rest[k - i] == s@[k as int]);
            assert(e == k - i);
            assert(rest.take(e) =~= s@.subrange(i as int, k as int));
            assert(rest.skip(e + 1) =~= s@.skip(k + 1));
        }
        let line = copy_range(s, i, k);
        let ghost old_acc = assigns.deep_view();
        match parse_assign(line.as_slice()) {
            None => {
                return Err(ArtifactError::BadAssign);
            },
            Some(p) => {
                assigns.push(p);
                proof {
                    assert(assigns.deep_view() =~~= old_acc.push(p@));
                    match decode_body(s@.skip(k + 1)) {
                        Ok(civ) => {
                            assert(old_acc + (seq![p@] + civ.assigns) =~= assigns.deep_view()
                                + civ.assigns);
                        },
                        Err(err) => {},
                    }
                }
            },
        }
        i = k + 1;
    }
}


/// A well-formed assignment for persistence: a valid key and a value free of
/// newlines, so that it fits on one artifact line.
pub open spec fn wf_assign(p: EnvAssignView) -> bool {
    is_valid_key(p.key) && (forall|j: int| 0 <= j < p.value.len() ==> p.value[j] != '\n')
}

/// A well-formed argument token for persistence: nonempty and free of spaces
/// and newlines, as splitting on whitespace produces them.
pub open spec fn wf_token(t: Seq<char>) -> bool {
    t.len() > 0 && (forall|j: int| 0 <= j < t.len() ==> t[j] != ' ' && t[j] != '\n')
}

/// The invariant of a captured invocation as persisted: every assignment and
/// every token is well formed.
pub open spec fn wf_invocation(inv: CapturedInvocationView) -> bool {
    (forall|i: int| 0 <= i < inv.assigns.len() ==> wf_assign(#[trigger] inv.assigns[i]))
        && (forall|i: int| 0 <= i < inv.tokens.len() ==> wf_token(#[trigger] inv.tokens[i]))
}

/// A key character is not a space, a newline, or an equals sign.
proof fn lemma_key_char_plain(c: char)
    requires
        crate::scanner::is_key_char(c),
    ensures
        c != ' ' && c != '\n' && c != '=',
{
}

/// When everything before `m` differs from `c`, and `m` (unless it is the
/// end) holds `c`, the first occurrence from `i` is `m` (or the end).
proof fn lemma_first_char_spans(s: Seq<char>, i: int, c: char, m: int)
    requires
        0 <= i <= m <= s.len(),
        forall|j: int| i <= j < m ==> s[j] != c,
        m == s.len() || s[m] == c,
    ensures
        first_char_from(s, i, c) == (if m == s.len() {
            s.len() as int
        } else {
            m
        }),
    decreases m - i,
{
    if i < m {
        lemma_first_char_spans(s, i + 1, c, m);
    }
}

/// Rendering one well-formed assignment and parsing the line back yields the
/// assignment.
proof fn lemma_parse_rendered_assign(p: EnvAssignView)
    requires
        is_valid_key(p.key),
    ensures
        parse_assign_line(p.key + seq![' ', '=', ' '] + p.value) == Some(p),
{
    let line = p.key + seq![' ', '=', ' '] + p.value;
    let n = p.key.len() as int;
    assert forall|j: int| 0 <= j < n implies line[j] != ' ' by {
        assert(line[j] == p.key[j]);
        lemma_key_char_plain(p.key[j]);
    }
    assert(line[n] == ' ');
    lemma_first_char_spans(line, 0, ' ', n);
    assert(first_char_from(line, 0, ' ') == n);
    assert(line[n + 1] == '=');
    assert(line[n + 2] == ' ');
    assert(line.take(n) =~= p.key);
    assert(line.skip(n + 3) =~= p.value);
    assert((EnvAssignView { key: line.take(n), value: line.skip(n + 3) }) =~= p);
}

/// A joined token line holds only token characters and spaces, so it is free
/// of any character, other than the space, that no token holds.
proof fn lemma_join_free_of(tokens: Seq<Seq<char>>, c: char)
    requires
        c != ' ',
        forall|i: int| 0 <= i < tokens.len() ==> wf_token(#[trigger] tokens[i]),
        forall|i: int, j: int|
            0 <= i < tokens.len() && 0 <= j < tokens[i].len() ==> #[trigger] tokens[i][j] != c,
    ensures
        forall|j: int| 0 <= j < join_tokens(tokens).len() ==> #[trigger] join_tokens(tokens)[j]
            != c,
    decreases tokens.len(),
{
    if tokens.len() == 0 {
    } else if tokens.len() == 1 {
        assert(join_tokens(tokens) == tokens.first());
        assert(forall|j: int|
            0 <= j < tokens[0].len() ==> #[trigger] tokens[0][j] != c);
    } else {
        let rest = tokens.drop_first();
        assert(forall|i: int| 0 <= i < rest.len() ==> rest[i] == tokens[i + 1]
            && wf_token(#[trigger] rest[i]));
        assert(forall|i: int, j: int|
            0 <= i < rest.len() && 0 <= j < rest[i].len() ==> #[trigger] rest[i][j] == tokens[i
                + 1][j] && rest[i][j] != c);
        lemma_join_free_of(rest, c);
        let t0 = tokens.first();
        let joined = join_tokens(tokens);
        assert(joined == t0 + seq![' '] + join_tokens(rest));
        assert forall|j: int| 0 <= j < joined.len() implies #[trigger] joined[j] != c by {
            if j < t0.len() {
                assert(joined[j] == t0[j]);
                assert(tokens[0][j] != c);
            } else if j == t0.len() {
                assert(joined[j] == ' ');
            } else {
                assert(joined[j] == join_tokens(rest)[j - t0.len() - 1]);
            }
        }
    }
}

/// Splitting starts a new token at a nonspace character: one well-formed
/// token followed by the rest, which must begin with its separator.
proof fn lemma_split_ws_one(t: Seq<char>, tail: Seq<char>)
    requires
        wf_token(t),
        tail.len() == 0 || tail.first() == ' ',
    ensures
        split_ws(t + tail) == seq![t] + split_ws(tail),
{
    let s = t + tail;
    let n = t.len() as int;
    assert(s.first() == t[0]);
    assert(s.first() != ' ');
    assert forall|j: int| 0 <= j < n implies s[j] != ' ' by {
        assert(s[j] == t[j]);
    }
    if tail.len() == 0 {
        assert(n == s.len());
        lemma_first_char_spans(s, 0, ' ', n);
        assert(first_char_from(s, 0, ' ') == s.len());
        assert(s.take(s.len() as int) =~= t);
        assert(s.skip(s.len() as int) =~= Seq::<char>::empty());
        assert(split_ws(Seq::<char>::empty()) =~= Seq::<Seq<char>>::empty());
        assert(split_ws(tail) =~= Seq::<Seq<char>>::empty());
        assert(seq![s] =~~= seq![t] + split_ws(tail));
        if first_char_from(s, 0, ' ') == s.len() && s.len() >= 1 {
            assert(split_ws(s) == seq![s.take(s.len() as int)] + split_ws(
                s.skip(s.len() as int),
            ));
        }
        assert(split_ws(s) =~~= seq![t] + split_ws(tail));
    } else {
        assert(s[n] == tail.first());
        lemma_first_char_spans(s, 0, ' ', n);
        assert(first_char_from(s, 0, ' ') == n);
        assert(s.take(n) =~= t);
        assert(s.skip(n) =~= tail);
        assert(split_ws(s) =~~= seq![t] + split_ws(tail));
    }
}

/// Splitting a joined token line yields the tokens back.
proof fn lemma_split_of_join(tokens: Seq<Seq<char>>)
    requires
        forall|i: int| 0 <= i < tokens.len() ==> wf_token(#[trigger] tokens[i]),
    ensures
        split_ws(join_tokens(tokens)) == tokens,
    decreases tokens.len(),
{
    if tokens.len() == 0 {
        assert(split_ws(join_tokens(tokens)) =~~= tokens);
    } else if tokens.len() == 1 {
        lemma_split_ws_one(tokens.first(), Seq::<char>::empty());
        assert(tokens.first() + Seq::<char>::empty() =~= tokens.first());
        assert(seq![tokens.first()] + split_ws(Seq::<char>::empty()) =~~= tokens);
    } else {
        let t0 = tokens.first();
        let rest = tokens.drop_first();
        assert(forall|i: int| 0 <= i < rest.len() ==> rest[i] == tokens[i + 1]
            && wf_token(#[trigger] rest[i]));
        lemma_split_of_join(rest);
        let tail = seq![' '] + join_tokens(rest);
        assert(join_tokens(tokens) == t0 + tail);
        lemma_split_ws_one(t0, tail);
        assert(tail.drop_first() =~= join_tokens(rest));
        assert(split_ws(tail) == split_ws(join_tokens(rest)));
        assert(seq![t0] + rest =~~= tokens);
    }
}

/// Decoding the rendered body of a well-formed invocation yields it back.
proof fn lemma_decode_rendered_body(assigns: Seq<EnvAssignView>, tokens: Seq<Seq<char>>)
    requires
        forall|i: int| 0 <= i < assigns.len() ==> wf_assign(#[trigger] assigns[i]),
        forall|i: int| 0 <= i < tokens.len() ==> wf_token(#[trigger] tokens[i]),
        tokens.len() > 0,
    ensures
        decode_body(render_assigns(assigns) + join_tokens(tokens)) == Ok::<
            CapturedInvocationView,
            ArtifactError,
        >(CapturedInvocationView { assigns, tokens }),
    decreases assigns.len(),
{
    let joined = join_tokens(tokens);
    if assigns.len() == 0 {
        let s = render_assigns(assigns) + joined;
        assert(s =~= joined);
        lemma_join_free_of(tokens, '\n');
        lemma_first_char_spans(joined, 0, '\n', joined.len() as int);
        assert(first_char_from(joined, 0, '\n') == joined.len());
        lemma_split_of_join(tokens);
        assert((CapturedInvocationView { assigns: seq![], tokens: split_ws(joined) })
            =~~= (CapturedInvocationView { assigns, tokens }));
    } else {
        let p = assigns.first();
        let rest = assigns.drop_first();
        assert(wf_assign(assigns[0]));
        let line = p.key + seq![' ', '=', ' '] + p.value;
        let s = render_assigns(assigns) + joined;
        assert(render_assigns(assigns) == render_assign_line(p) + render_assigns(rest));
        let e = line.len() as int;
        assert(s =~= line + seq!['\n'] + (render_assigns(rest) + joined));
        assert forall|j: int| 0 <= j < e implies s[j] != '\n' by {
            assert(s[j] == line[j]);
            if j < p.key.len() {
                lemma_key_char_plain(p.key[j]);
            } else if j >= p.key.len() + 3 {
                assert(line[j] == p.value[j - p.key.len() - 3]);
            }
        }
        assert(s[e] == '\n');
        lemma_first_char_spans(s, 0, '\n', e);
        assert(first_char_from(s, 0, '\n') == e);
        assert(s.take(e) =~= line);
        lemma_parse_rendered_assign(p);
        assert(forall|i: int| 0 <= i < rest.len() ==> rest[i] == assigns[i + 1]
            && wf_assign(#[trigger] rest[i]));
        lemma_decode_rendered_body(rest, tokens);
        assert(s.skip(e + 1) =~= render_assigns(rest) + joined);
        assert(seq![p] + rest =~= assigns);
        assert((CapturedInvocationView { assigns: seq![p] + rest, tokens })
            =~~= (CapturedInvocationView { assigns, tokens }));
    }
}

/// Law: persistence round-trips. Rendering a well-formed captured invocation
/// — valid keys, no newline in a value, nonempty tokens free of spaces and
/// newlines, and at least one token for the final line — and decoding the
/// rendered text yields exactly the invocation again.
pub proof fn lemma_artifact_round_trip(inv: CapturedInvocationView)
    requires
        wf_invocation(inv),
        inv.tokens.len() > 0,
    ensures
        decode_artifact_spec(render_artifact_spec(inv)) == Ok::<
            CapturedInvocationView,
            ArtifactError,
        >(inv),
{
    let s = render_artifact_spec(inv);
    let joined = join_tokens(inv.tokens);
    assert(wf_token(inv.tokens[0]));
    assert(joined.len() >= inv.tokens.first().len());
    assert(s.len() > 0);
    lemma_join_free_of(inv.tokens, '\n');
    assert(s.last() == joined.last());
    assert(s.last() != '\n');
    lemma_decode_rendered_body(inv.assigns, inv.tokens);
    assert((CapturedInvocationView { assigns: inv.assigns, tokens: inv.tokens }) =~~= inv);
}


/// Law: what capture yields can be persisted. From a trace whose lines hold
/// no newline — as a line-oriented reader hands them over — a successful
/// capture satisfies the persistence invariant: every key is nonempty and
/// alphanumeric-or-underscore, no value holds a newline, and every token is
/// nonempty and free of spaces and newlines.
pub proof fn lemma_capture_is_persistable(lines: Seq<Seq<char>>, inv: CapturedInvocationView)
    requires
        forall|i: int| 0 <= i < lines.len() ==> free_of(#[trigger] lines[i], '\n'),
        capture_spec(lines) == Ok::<CapturedInvocationView, crate::capture::CaptureError>(inv),
    ensures
        wf_invocation(inv),
{
    lemma_first_running_props(lines, 0);
    let li = first_running_from(lines, 0);
    assert(li < lines.len());
    let line = lines[li];
    assert(free_of(line, '\n'));
    assert(is_running_line(line));
    assert(capture_line_spec(line) == Ok::<
        CapturedInvocationView,
        crate::capture::CaptureError,
    >(inv));
    let content = line_content(line);
    assert(free_of(content, '\n')) by {
        assert(forall|j: int|
            0 <= j < content.len() ==> content[j] == line[j + 14] && content[j] != '\n');
    }
    let p = last_rustc_from(content, content.len() - 6);
    lemma_last_rustc_props(content, content.len() - 6);
    assert(p >= 0);
    assert(is_rustc_at(content, p));
    let k = last_char_from(content, p - 1, ' ');
    lemma_last_char_props(content, p - 1, ' ');
    assert(0 <= k < content.len());
    let parts = running_line_parts(line);
    assert(free_of(parts.env, '\n')) by {
        assert(forall|j: int|
            0 <= j < parts.env.len() ==> parts.env[j] == content[j] && parts.env[j] != '\n');
    }
    assert(free_of(parts.args, '\n')) by {
        assert(forall|j: int|
            0 <= j < parts.args.len() ==> parts.args[j] == content[j + p + 6] && parts.args[j]
                != '\n');
    }
    let assigns = scan_env_spec(parts.env)->Ok_0;
    assert(scan_env_spec(parts.env) == Ok::<_, crate::scanner::ScanError>(assigns));
    crate::scanner::lemma_scanned_keys_valid(parts.env, assigns);
    crate::scanner::lemma_scanned_values_free(parts.env, assigns, '\n');
    assert(inv.assigns == assigns);
    assert forall|i: int| 0 <= i < inv.assigns.len() implies wf_assign(
        #[trigger] inv.assigns[i],
    ) by {
        assert(is_valid_key(assigns[i].key));
        assert(free_of(assigns[i].value, '\n'));
    }
    let normalized = normalize_options_spec(parts.args);
    lemma_normalize_free(parts.args, '\n');
    lemma_split_ws_tokens(normalized, '\n');
    let toks = split_ws(normalized);
    let ri = crate::capture::first_rs_from(toks, 0);
    crate::capture::lemma_first_rs_props(toks, 0);
    assert(ri < toks.len());
    assert(inv.tokens == toks.remove(ri));
    toks.remove_ensures(ri);
    assert forall|i: int| 0 <= i < inv.tokens.len() implies wf_token(
        #[trigger] inv.tokens[i],
    ) by {
        if i < ri {
            assert(inv.tokens[i] == toks[i]);
        } else {
            assert(inv.tokens[i] == toks[i + 1]);
        }
    }
}

} // verus!
