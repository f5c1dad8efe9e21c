//! Shell-token scanner: decodes one line of shell-quoted `key=value`
//! assignments, honoring single-quote escaping, and encodes such a line back.
//!
//! A value is either unquoted (it then runs to the next space) or single
//! quoted; inside a quoted value an embedded literal quote is written as a
//! closing quote followed by the three characters `\''` (the quote ends, a literal
//! `'` continues the same token, and the quote reopens).

use vstd::prelude::*;

verus! {

/// One decoded `key=value` environment assignment.
#[derive(Clone, Debug, PartialEq, Eq)]
pub struct EnvAssign {
    /// Variable name; nonempty, characters alphanumeric or `_`.
    pub key: Vec<char>,
    /// Decoded value; may be empty, may hold any character.
    pub value: Vec<char>,
}

/// Mathematical content of an [`EnvAssign`].
#[verifier::ext_equal]
pub struct EnvAssignView {
    pub key: Seq<char>,
    pub value: Seq<char>,
}

impl View for EnvAssign {
    type V = EnvAssignView;

    open spec fn view(&self) -> EnvAssignView {
        EnvAssignView { key: self.key@, value: self.value@ }
    }
}

impl DeepView for EnvAssign {
    type V = EnvAssignView;

    open spec fn deep_view(&self) -> EnvAssignView {
        self@
    }
}

/// Why a line failed to decode.
#[derive(Clone, Copy, Debug, PartialEq, Eq, Structural)]
pub enum ScanError {
    /// A (further) assignment was expected but no `=` terminates a key.
    MissingEq,
    /// A key is empty or holds a character that is not alphanumeric or `_`.
    BadKey,
    /// A quoted value is never closed.
    UnclosedQuote,
    /// After a closing quote, neither a space, end of input, nor the
    /// escape `\''` follows.
    BadSeparator,
}

/// May this character appear in a key: ASCII alphanumeric or `_`.
pub open spec fn is_key_char(b: char) -> bool {
    (('a' as u32) <= (b as u32) && (b as u32) <= ('z' as u32)) || (('A' as u32) <= (b as u32)
        && (b as u32) <= ('Z' as u32)) || (('0' as u32) <= (b as u32) && (b as u32) <= ('9'
        as u32)) || b == '_'
}

/// A well-formed key: nonempty, every character alphanumeric or `_`.
pub open spec fn is_valid_key(k: Seq<char>) -> bool {
    k.len() > 0 && (forall|i: int| 0 <= i < k.len() ==> is_key_char(#[trigger] k[i]))
}

/// State of the scanner between two input characters.
#[verifier::ext_equal]
pub enum ScanState {
    /// Before a key (at the very start, or right after a separating space).
    Start { pairs: Seq<EnvAssignView> },
    /// Inside a key.
    InKey { pairs: Seq<EnvAssignView>, key: Seq<char> },
    /// Right after the `=` of an assignment.
    ValStart { pairs: Seq<EnvAssignView>, key: Seq<char> },
    /// Inside an unquoted value.
    Unquoted { pairs: Seq<EnvAssignView>, key: Seq<char>, value: Seq<char> },
    /// Inside a quoted value.
    Quoted { pairs: Seq<EnvAssignView>, key: Seq<char>, value: Seq<char> },
    /// Right after the closing quote of a quoted value.
    Closed { pairs: Seq<EnvAssignView>, key: Seq<char>, value: Seq<char> },
    /// After a closing quote, seen `\` of a possible `\''` escape.
    ClosedEsc1 { pairs: Seq<EnvAssignView>, key: Seq<char>, value: Seq<char> },
    /// After a closing quote, seen `\'` of a possible `\''` escape.
    ClosedEsc2 { pairs: Seq<EnvAssignView>, key: Seq<char>, value: Seq<char> },
    /// Decoding has failed; further input is ignored.
    Failed { err: ScanError },
}

/// One step of the scanner: the state after reading character `b` in state `st`.
pub open spec fn scan_step(st: ScanState, b: char) -> ScanState {
    match st {
        ScanState::Start { pairs } => {
            if b == '=' {
                ScanState::Failed { err: ScanError::BadKey }
            } else {
                ScanState::InKey { pairs, key: seq![b] }
            }
        },
        ScanState::InKey { pairs, key } => {
            if b == '=' {
                if is_valid_key(key) {
                    ScanState::ValStart { pairs, key }
                } else {
                    ScanState::Failed { err: ScanError::BadKey }
                }
            } else {
                ScanState::InKey { pairs, key: key.push(b) }
            }
        },
        ScanState::ValStart { pairs, key } => {
            if b == '\'' {
                ScanState::Quoted { pairs, key, value: seq![] }
            } else if b == ' ' {
                ScanState::Start { pairs: pairs.push(EnvAssignView { key, value: seq![] }) }
            } else {
                ScanState::Unquoted { pairs, key, value: seq![b] }
            }
        },
        ScanState::Unquoted { pairs, key, value } => {
            if b == ' ' {
                ScanState::Start { pairs: pairs.push(EnvAssignView { key, value }) }
            } else {
                ScanState::Unquoted { pairs, key, value: value.push(b) }
            }
        },
        ScanState::Quoted { pairs, key, value } => {
            if b == '\'' {
                ScanState::Closed { pairs, key, value }
            } else {
                ScanState::Quoted { pairs, key, value: value.push(b) }
            }
        },
        ScanState::Closed { pairs, key, value } => {
            if b == ' ' {
                ScanState::Start { pairs: pairs.push(EnvAssignView { key, value }) }
            } else if b == '\\' {
                ScanState::ClosedEsc1 { pairs, key, value }
            } else {
                ScanState::Failed { err: ScanError::BadSeparator }
            }
        },
        ScanState::ClosedEsc1 { pairs, key, value } => {
            if b == '\'' {
                ScanState::ClosedEsc2 { pairs, key, value }
            } else {
                ScanState::Failed { err: ScanError::BadSeparator }
            }
        },
        ScanState::ClosedEsc2 { pairs, key, value } => {
            if b == '\'' {
                ScanState::Quoted { pairs, key, value: value.push('\'') }
            } else {
                ScanState::Failed { err: ScanError::BadSeparator }
            }
        },
        ScanState::Failed { err } => ScanState::Failed { err },
    }
}

/// The scanner state after reading all of `s`, starting from `st`.
pub open spec fn scan_fold(st: ScanState, s: Seq<char>) -> ScanState
    decreases s.len(),
{
    if s.len() == 0 {
        st
    } else {
        scan_step(scan_fold(st, s.drop_last()), s.last())
    }
}

/// What a scan that ends in state `st` yields: the decoded assignments, or
/// the error. Input may end after a complete value; inside or right after a
/// key, inside a quote, or inside an escape it is malformed.
pub open spec fn scan_finish(st: ScanState) -> Result<Seq<EnvAssignView>, ScanError> {
    match st {
        ScanState::Start { pairs } => {
            if pairs.len() == 0 {
                Ok(pairs)
            } else {
                // A separating space promised one more assignment.
                Err(ScanError::MissingEq)
            }
        },
        ScanState::InKey { pairs, key } => Err(ScanError::MissingEq),
        ScanState::ValStart { pairs, key } => Ok(
            pairs.push(EnvAssignView { key, value: seq![] }),
        ),
        ScanState::Unquoted { pairs, key, value } => Ok(
            pairs.push(EnvAssignView { key, value }),
        ),
        ScanState::Quoted { pairs, key, value } => Err(ScanError::UnclosedQuote),
        ScanState::Closed { pairs, key, value } => Ok(pairs.push(EnvAssignView { key, value })),
        ScanState::ClosedEsc1 { pairs, key, value } => Err(ScanError::BadSeparator),
        ScanState::ClosedEsc2 { pairs, key, value } => Err(ScanError::BadSeparator),
        ScanState::Failed { err } => Err(err),
    }
}

/// The scanner's initial state.
pub open spec fn scan_init() -> ScanState {
    ScanState::Start { pairs: seq![] }
}

/// What decoding a whole line yields: the empty line decodes to no
/// assignments; otherwise the line must be a space-separated sequence of
/// `key=value` assignments.
pub open spec fn scan_env_spec(s: Seq<char>) -> Result<Seq<EnvAssignView>, ScanError> {
    scan_finish(scan_fold(scan_init(), s))
}

/// Folding distributes over concatenation of input.
proof fn lemma_scan_fold_app(st: ScanState, a: Seq<char>, b: Seq<char>)
    ensures
        scan_fold(st, a + b) == scan_fold(scan_fold(st, a), b),
    decreases b.len(),
{
    if b.len() == 0 {
        assert(a + b =~= a);
    } else {
        lemma_scan_fold_app(st, a, b.drop_last());
        assert((a + b).drop_last() =~= a + b.drop_last());
        assert((a + b).last() == b.last());
    }
}

/// Reading one character then a rest is one step then the rest.
proof fn lemma_scan_fold_cons(st: ScanState, c: char, rest: Seq<char>)
    ensures
        scan_fold(st, seq![c] + rest) == scan_fold(scan_step(st, c), rest),
{
    lemma_scan_fold_app(st, seq![c], rest);
    assert(seq![c].drop_last() =~= Seq::<char>::empty());
    assert(scan_fold(st, Seq::<char>::empty()) == st);
    assert(seq![c].last() == c);
    assert(scan_fold(st, seq![c]) == scan_step(st, c));
}

/// A failed scan stays failed whatever else is read.
proof fn lemma_scan_fold_failed(err: ScanError, s: Seq<char>)
    ensures
        scan_fold((ScanState::Failed { err }), s) == (ScanState::Failed { err }),
    decreases s.len(),
{
    if s.len() > 0 {
        lemma_scan_fold_failed(err, s.drop_last());
    }
}

/// Exec-side scanner mode; the data of the state lives in separate locals.
enum Mode {
    Start,
    InKey,
    ValStart,
    Unquoted,
    Quoted,
    Closed,
    ClosedEsc1,
    ClosedEsc2,
}

/// The abstract state that exec locals stand for.
spec fn abs_state(mode: Mode, pairs: Seq<EnvAssignView>, key: Seq<char>, value: Seq<char>) -> ScanState {
    match mode {
        Mode::Start => ScanState::Start { pairs },
        Mode::InKey => ScanState::InKey { pairs, key },
        Mode::ValStart => ScanState::ValStart { pairs, key },
        Mode::Unquoted => ScanState::Unquoted { pairs, key, value },
        Mode::Quoted => ScanState::Quoted { pairs, key, value },
        Mode::Closed => ScanState::Closed { pairs, key, value },
        Mode::ClosedEsc1 => ScanState::ClosedEsc1 { pairs, key, value },
        Mode::ClosedEsc2 => ScanState::ClosedEsc2 { pairs, key, value },
    }
}

/// While inside a key, the `valid` flag tracks well-formedness of the key
/// read so far; in every other mode it is idle.
spec fn valid_tracks_key(mode: Mode, key: Seq<char>, valid: bool) -> bool {
    match mode {
        Mode::InKey => (valid == is_valid_key(key)) && key.len() > 0,
        _ => valid == true,
    }
}

/// Is this character allowed in a key (exec form of [`is_key_char`]).
fn key_byte(b: char) -> (r: bool)
    ensures
        r == is_key_char(b),
{
    let c = b as u32;
    (('a' as u32) <= c && c <= ('z' as u32)) || (('A' as u32) <= c && c <= ('Z' as u32)) || (('0'
        as u32) <= c && c <= ('9' as u32)) || b == '_'
}

/// Decode a whole line of space-separated `key=value` assignments.
///
/// Returns the assignments in encounter order, or the error that
/// [`scan_env_spec`] assigns to the line.
pub fn parse_env(line: &[char]) -> (r: Result<Vec<EnvAssign>, ScanError>)
    ensures
        match r {
            Ok(pairs) => scan_env_spec(line@) == Ok::<Seq<EnvAssignView>, ScanError>(
                pairs.deep_view(),
            ),
            Err(e) => scan_env_spec(line@) == Err::<Seq<EnvAssignView>, ScanError>(e),
        },
{
    let mut pairs: Vec<EnvAssign> = Vec::new();
    let mut key: Vec<char> = Vec::new();
    let mut value: Vec<char> = Vec::new();
    let mut mode: Mode = Mode::Start;
    let mut valid: bool = true;
    let mut i: usize = 0;
    while i < line.len()
        invariant
            i <= line@.len(),
            valid_tracks_key(mode, key@, valid),
            abs_state(mode, pairs.deep_view(), key@, value@) == scan_fold(scan_init(), line@.take(i as int)),
        decreases line@.len() - i,
    {
        let b = line[i];
        let ghost prev = abs_state(mode, pairs.deep_view(), key@, value@);
        proof {
            assert(line@.take(i + 1).drop_last() =~= line@.take(i as int));
            assert(line@.take(i + 1).last() == line@[i as int]);
        }
        match mode {
            Mode::Start => {
                if b == '=' {
                    proof {
                        lemma_scan_fold_app(scan_init(), line@.take(i + 1), line@.skip(i + 1));
                        assert(line@.take(i + 1) + line@.skip(i + 1) =~= line@);
                        lemma_scan_fold_failed(ScanError::BadKey, line@.skip(i + 1));
                    }
                    return Err(ScanError::BadKey);
                }
                key = Vec::new();
                key.push(b);
                valid = key_byte(b);
                mode = Mode::InKey;
                proof {
                    assert(key@ =~= seq![b]);
                    assert(key@[0] == b);
                    if is_key_char(b) {
                        assert forall|j: int| 0 <= j < key@.len() implies is_key_char(
                            #[trigger] key@[j],
                        ) by {
                            assert(key@[j] == b);
                        }
                    }
                    assert(is_valid_key(key@) == is_key_char(b));
                }
            },
            Mode::InKey => {
                if b == '=' {
                    if valid {
                        mode = Mode::ValStart;
                    } else {
                        proof {
                            lemma_scan_fold_app(scan_init(), line@.take(i + 1), line@.skip(i + 1));
                            assert(line@.take(i + 1) + line@.skip(i + 1) =~= line@);
                            lemma_scan_fold_failed(ScanError::BadKey, line@.skip(i + 1));
                        }
                        return Err(ScanError::BadKey);
                    }
                } else {
                    let ghost old_key = key@;
                    let kb = key_byte(b);
                    key.push(b);
                    valid = valid && kb;
                    proof {
                        assert(key@ == old_key.push(b));
                        if is_valid_key(old_key) && is_key_char(b) {
                            assert forall|j: int| 0 <= j < key@.len() implies is_key_char(
                                #[trigger] key@[j],
                            ) by {
                                if j < old_key.len() {
                                    assert(key@[j] == old_key[j]);
                                } else {
                                    assert(key@[j] == b);
                                }
                            }
                            assert(is_valid_key(key@));
                        }
                        if is_valid_key(key@) {
                            assert forall|j: int| 0 <= j < old_key.len() implies is_key_char(
                                #[trigger] old_key[j],
                            ) by {
                                assert(old_key[j] == key@[j]);
                                assert(is_key_char(key@[j]));
                            }
                            assert(key@[key@.len() - 1] == b);
                            assert(is_key_char(b));
                            assert(is_valid_key(old_key));
                        }
                        assert(is_valid_key(key@) == (is_valid_key(old_key) && is_key_char(b)));
                    }
                }
            },
            Mode::ValStart => {
                if b == '\'' {
                    value = Vec::new();
                    mode = Mode::Quoted;
                    proof {
                        assert(value@ =~= Seq::<char>::empty());
                    }
                } else if b == ' ' {
                    let ghost old_dv = pairs.deep_view();
                    let k = key;
                    key = Vec::new();
                    pairs.push(EnvAssign { key: k, value: Vec::new() });
                    mode = Mode::Start;
                    proof {
                        assert(pairs.deep_view() =~~= old_dv.push(
                            EnvAssignView { key: prev->ValStart_key, value: seq![] },
                        ));
                    }
                } else {
                    value = Vec::new();
                    value.push(b);
                    mode = Mode::Unquoted;
                    proof {
                        assert(value@ =~= seq![b]);
                    }
                }
            },
            Mode::Unquoted => {
                if b == ' ' {
                    let ghost old_dv = pairs.deep_view();
                    let k = key;
                    let v = value;
                    key = Vec::new();
                    value = Vec::new();
                    pairs.push(EnvAssign { key: k, value: v });
                    mode = Mode::Start;
                    proof {
                        assert(pairs.deep_view() =~~= old_dv.push(
                            EnvAssignView { key: prev->Unquoted_key, value: prev->Unquoted_value },
                        ));
                    }
                } else {
                    value.push(b);
                }
            },
            Mode::Quoted => {
                if b == '\'' {
                    mode = Mode::Closed;
                } else {
                    value.push(b);
                }
            },
            Mode::Closed => {
                if b == ' ' {
                    let ghost old_dv = pairs.deep_view();
                    let k = key;
                    let v = value;
                    key = Vec::new();
                    value = Vec::new();
                    pairs.push(EnvAssign { key: k, value: v });
                    mode = Mode::Start;
                    proof {
                        assert(pairs.deep_view() =~~= old_dv.push(
                            EnvAssignView { key: prev->Closed_key, value: prev->Closed_value },
                        ));
                    }
                } else if b == '\\' {
                    mode = Mode::ClosedEsc1;
                } else {
                    proof {
                        lemma_scan_fold_app(scan_init(), line@.take(i + 1), line@.skip(i + 1));
                        assert(line@.take(i + 1) + line@.skip(i + 1) =~= line@);
                        lemma_scan_fold_failed(ScanError::BadSeparator, line@.skip(i + 1));
                    }
                    return Err(ScanError::BadSeparator);
                }
            },
            Mode::ClosedEsc1 => {
                if b == '\'' {
                    mode = Mode::ClosedEsc2;
                } else {
                    proof {
                        lemma_scan_fold_app(scan_init(), line@.take(i + 1), line@.skip(i + 1));
                        assert(line@.take(i + 1) + line@.skip(i + 1) =~= line@);
                        lemma_scan_fold_failed(ScanError::BadSeparator, line@.skip(i + 1));
                    }
                    return Err(ScanError::BadSeparator);
                }
            },
            Mode::ClosedEsc2 => {
                if b == '\'' {
                    value.push('\'');
                    mode = Mode::Quoted;
                } else {
                    proof {
                        lemma_scan_fold_app(scan_init(), line@.take(i + 1), line@.skip(i + 1));
                        assert(line@.take(i + 1) + line@.skip(i + 1) =~= line@);
                        lemma_scan_fold_failed(ScanError::BadSeparator, line@.skip(i + 1));
                    }
                    return Err(ScanError::BadSeparator);
                }
            },
        }
        i = i + 1;
    }
    proof {
        assert(line@.take(i as int) =~= line@);
    }
    match mode {
        Mode::Start => {
            if pairs.len() == 0 {
                proof {
                    assert(pairs.deep_view() =~= Seq::<EnvAssignView>::empty());
                }
                Ok(pairs)
            } else {
                Err(ScanError::MissingEq)
            }
        },
        Mode::InKey => Err(ScanError::MissingEq),
        Mode::ValStart => {
            let ghost old_dv = pairs.deep_view();
            let ghost st = abs_state(Mode::ValStart, pairs.deep_view(), key@, value@);
            pairs.push(EnvAssign { key, value: Vec::new() });
            proof {
                assert(pairs.deep_view() =~~= old_dv.push(
                    EnvAssignView { key: st->ValStart_key, value: seq![] },
                ));
            }
            Ok(pairs)
        },
        Mode::Unquoted => {
            let ghost old_dv = pairs.deep_view();
            let ghost st = abs_state(Mode::Unquoted, pairs.deep_view(), key@, value@);
            pairs.push(EnvAssign { key, value });
            proof {
                assert(pairs.deep_view() =~~= old_dv.push(
                    EnvAssignView { key: st->Unquoted_key, value: st->Unquoted_value },
                ));
            }
            Ok(pairs)
        },
        Mode::Quoted => Err(ScanError::UnclosedQuote),
        Mode::Closed => {
            let ghost old_dv = pairs.deep_view();
            let ghost st = abs_state(Mode::Closed, pairs.deep_view(), key@, value@);
            pairs.push(EnvAssign { key, value });
            proof {
                assert(pairs.deep_view() =~~= old_dv.push(
                    EnvAssignView { key: st->Closed_key, value: st->Closed_value },
                ));
            }
            Ok(pairs)
        },
        Mode::ClosedEsc1 => Err(ScanError::BadSeparator),
        Mode::ClosedEsc2 => Err(ScanError::BadSeparator),
    }
}


/// Shell encoding of one value character: a literal quote is written as the
/// closing quote plus the escape `\\''`; any other character stands for
/// itself.
pub open spec fn encode_char_spec(c: char) -> Seq<char> {
    if c == '\'' {
        seq!['\'', '\\', '\'', '\'']
    } else {
        seq![c]
    }
}

/// Shell encoding of a value's characters, without the enclosing quotes.
pub open spec fn encode_value_spec(v: Seq<char>) -> Seq<char>
    decreases v.len(),
{
    if v.len() == 0 {
        seq![]
    } else {
        encode_char_spec(v.first()) + encode_value_spec(v.drop_first())
    }
}

/// Shell encoding of one assignment: the key, `=`, and the value in quotes.
pub open spec fn encode_assign_spec(p: EnvAssignView) -> Seq<char> {
    p.key + seq!['=', '\''] + encode_value_spec(p.value) + seq!['\'']
}

/// Shell encoding of a whole assignment line, space separated.
pub open spec fn encode_env_spec(pairs: Seq<EnvAssignView>) -> Seq<char>
    decreases pairs.len(),
{
    if pairs.len() == 0 {
        seq![]
    } else if pairs.len() == 1 {
        encode_assign_spec(pairs.first())
    } else {
        encode_assign_spec(pairs.first()) + seq![' '] + encode_env_spec(pairs.drop_first())
    }
}

/// Append the shell encoding of one assignment to `out`.
fn push_assign(out: &mut Vec<char>, p: &EnvAssign)
    ensures
        final(out)@ == old(out)@ + encode_assign_spec(p@),
{
    let ghost start = out@;
    let mut i: usize = 0;
    while i < p.key.len()
        invariant
            i <= p.key@.len(),
            out@ == start + p.key@.take(i as int),
        decreases p.key@.len() - i,
    {
        out.push(p.key[i]);
        proof {
            assert(p.key@.take(i + 1) =~= p.key@.take(i as int).push(p.key@[i as int]));
            assert(out@ =~= start + p.key@.take(i + 1));
        }
        i = i + 1;
    }
    proof {
        assert(p.key@.take(p.key@.len() as int) =~= p.key@);
    }
    out.push('=');
    out.push('\'');
    let ghost mid = out@;
    proof {
        assert(p.value@.skip(0) =~= p.value@);
    }
    let mut j: usize = 0;
    while j < p.value.len()
        invariant
            j <= p.value@.len(),
            mid == start + p.key@ + seq!['=', '\''],
            out@ + encode_value_spec(p.value@.skip(j as int)) == mid + encode_value_spec(p.value@),
        decreases p.value@.len() - j,
    {
        let c = p.value[j];
        let ghost rest = p.value@.skip(j as int);
        proof {
            assert(rest.len() > 0);
            assert(rest.first() == p.value@[j as int]);
            assert(rest.drop_first() =~= p.value@.skip(j + 1));
        }
        let ghost before = out@;
        if c == '\'' {
            out.push('\'');
            out.push('\\');
            out.push('\'');
            out.push('\'');
        } else {
            out.push(c);
        }
        proof {
            assert(out@ =~= before + encode_char_spec(c));
            assert(encode_value_spec(rest) == encode_char_spec(c) + encode_value_spec(
                p.value@.skip(j + 1),
            ));
            assert(out@ + encode_value_spec(p.value@.skip(j + 1)) =~= before + encode_value_spec(
                rest,
            ));
        }
        j = j + 1;
    }
    proof {
        assert(p.value@.skip(p.value@.len() as int) =~= Seq::<char>::empty());
        assert(out@ + Seq::<char>::empty() =~= out@);
    }
    out.push('\'');
    proof {
        assert(out@ =~= start + encode_assign_spec(p@));
    }
}

/// Encode assignments as one shell-quoted line, with every value quoted.
pub fn encode_env(pairs: &Vec<EnvAssign>) -> (r: Vec<char>)
    ensures
        r@ == encode_env_spec(pairs.deep_view()),
{
    let ghost dv = pairs.deep_view();
    let mut out: Vec<char> = Vec::new();
    proof {
        assert(dv.skip(0) =~= dv);
        assert(out@ + encode_env_spec(dv) =~= encode_env_spec(dv));
    }
    let mut i: usize = 0;
    while i < pairs.len()
        invariant
            i <= pairs@.len(),
            dv == pairs.deep_view(),
            dv.len() == pairs@.len(),
            out@ + encode_env_spec(dv.skip(i as int)) == encode_env_spec(dv),
        decreases pairs@.len() - i,
    {
        let ghost rest = dv.skip(i as int);
        proof {
            assert(rest.len() == dv.len() - i);
            assert(rest.first() == dv[i as int]);
            assert(rest.drop_first() =~= dv.skip(i + 1));
        }
        let ghost before = out@;
        push_assign(&mut out, &pairs[i]);
        proof {
            assert(pairs[i as int].deep_view() == dv[i as int]);
        }
        if i + 1 < pairs.len() {
            out.push(' ');
            proof {
                assert(rest.len() > 1);
                assert(encode_env_spec(rest) == encode_assign_spec(dv[i as int]) + seq![' ']
                    + encode_env_spec(dv.skip(i + 1)));
                assert(out@ + encode_env_spec(dv.skip(i + 1)) =~= before + encode_env_spec(rest));
            }
        } else {
            proof {
                assert(rest.len() == 1);
                assert(encode_env_spec(rest) == encode_assign_spec(dv[i as int]));
                assert(dv.skip(i + 1) =~= Seq::<EnvAssignView>::empty());
                assert(out@ + encode_env_spec(dv.skip(i + 1)) =~= before + encode_env_spec(rest));
            }
        }
        i = i + 1;
    }
    proof {
        assert(dv.skip(dv.len() as int) =~= Seq::<EnvAssignView>::empty());
        assert(out@ + Seq::<char>::empty() =~= out@);
    }
    out
}


/// Scanning an encoded value inside quotes accumulates exactly that value and
/// ends at the closing quote.
proof fn lemma_scan_encoded_value(
    ps: Seq<EnvAssignView>,
    key: Seq<char>,
    acc: Seq<char>,
    v: Seq<char>,
    tail: Seq<char>,
)
    ensures
        scan_fold(
            (ScanState::Quoted { pairs: ps, key, value: acc }),
            encode_value_spec(v) + seq!['\''] + tail,
        ) == scan_fold((ScanState::Closed { pairs: ps, key, value: acc + v }), tail),
    decreases v.len(),
{
    let q = ScanState::Quoted { pairs: ps, key, value: acc };
    if v.len() == 0 {
        assert(encode_value_spec(v) + seq!['\''] + tail =~= seq!['\''] + tail);
        lemma_scan_fold_cons(q, '\'', tail);
        assert(scan_step(q, '\'') == (ScanState::Closed { pairs: ps, key, value: acc }));
        assert(acc + v =~= acc);
    } else {
        let c = v.first();
        let rest = v.drop_first();
        if c == '\'' {
            let s1 = ScanState::Closed { pairs: ps, key, value: acc };
            let s2 = ScanState::ClosedEsc1 { pairs: ps, key, value: acc };
            let s3 = ScanState::ClosedEsc2 { pairs: ps, key, value: acc };
            let s4 = ScanState::Quoted { pairs: ps, key, value: acc.push('\'') };
            let t1 = seq!['\\', '\'', '\''] + encode_value_spec(rest) + seq!['\''] + tail;
            let t2 = seq!['\'', '\''] + encode_value_spec(rest) + seq!['\''] + tail;
            let t3 = seq!['\''] + encode_value_spec(rest) + seq!['\''] + tail;
            let t4 = encode_value_spec(rest) + seq!['\''] + tail;
            assert(encode_value_spec(v) + seq!['\''] + tail =~= seq!['\''] + t1);
            lemma_scan_fold_cons(q, '\'', t1);
            assert(t1 =~= seq!['\\'] + t2);
            lemma_scan_fold_cons(s1, '\\', t2);
            assert(t2 =~= seq!['\''] + t3);
            lemma_scan_fold_cons(s2, '\'', t3);
            assert(t3 =~= seq!['\''] + t4);
            lemma_scan_fold_cons(s3, '\'', t4);
            lemma_scan_encoded_value(ps, key, acc.push('\''), rest, tail);
            assert(acc.push('\'') + rest =~= acc + v);
        } else {
            let t4 = encode_value_spec(rest) + seq!['\''] + tail;
            assert(encode_value_spec(v) + seq!['\''] + tail =~= seq![c] + t4);
            lemma_scan_fold_cons(q, c, t4);
            assert(scan_step(q, c) == (ScanState::Quoted {
                pairs: ps,
                key,
                value: acc.push(c),
            }));
            lemma_scan_encoded_value(ps, key, acc.push(c), rest, tail);
            assert(acc.push(c) + rest =~= acc + v);
        }
    }
}

/// Scanning the remaining characters of a well-formed key, then `=`, reaches
/// the start of the value with the whole key recorded.
proof fn lemma_scan_key_chars(
    ps: Seq<EnvAssignView>,
    kacc: Seq<char>,
    krest: Seq<char>,
    tail: Seq<char>,
)
    requires
        is_valid_key(kacc + krest),
        kacc.len() > 0,
    ensures
        scan_fold((ScanState::InKey { pairs: ps, key: kacc }), krest + seq!['='] + tail)
            == scan_fold((ScanState::ValStart { pairs: ps, key: kacc + krest }), tail),
    decreases krest.len(),
{
    let st = ScanState::InKey { pairs: ps, key: kacc };
    if krest.len() == 0 {
        assert(kacc + krest =~= kacc);
        assert(krest + seq!['='] + tail =~= seq!['='] + tail);
        lemma_scan_fold_cons(st, '=', tail);
        assert(scan_step(st, '=') == (ScanState::ValStart { pairs: ps, key: kacc }));
    } else {
        let c = krest.first();
        assert((kacc + krest)[kacc.len() as int] == c);
        assert(is_key_char(c));
        assert(c != '=');
        let t = krest.drop_first() + seq!['='] + tail;
        assert(krest + seq!['='] + tail =~= seq![c] + t);
        lemma_scan_fold_cons(st, c, t);
        assert(scan_step(st, c) == (ScanState::InKey { pairs: ps, key: kacc.push(c) }));
        assert(kacc.push(c) + krest.drop_first() =~= kacc + krest);
        lemma_scan_key_chars(ps, kacc.push(c), krest.drop_first(), tail);
    }
}

/// Scanning one encoded assignment from between-assignment position records
/// exactly that assignment and ends right after its closing quote.
proof fn lemma_scan_encoded_assign(ps: Seq<EnvAssignView>, p: EnvAssignView, tail: Seq<char>)
    requires
        is_valid_key(p.key),
    ensures
        scan_fold((ScanState::Start { pairs: ps }), encode_assign_spec(p) + tail) == scan_fold(
            (ScanState::Closed { pairs: ps, key: p.key, value: p.value }),
            tail,
        ),
{
    let st = ScanState::Start { pairs: ps };
    let k0 = p.key.first();
    assert(is_key_char(k0));
    assert(k0 != '=');
    let t1 = p.key.drop_first() + seq!['='] + (seq!['\''] + (encode_value_spec(p.value)
        + seq!['\''] + tail));
    assert(encode_assign_spec(p) + tail =~= seq![k0] + t1);
    lemma_scan_fold_cons(st, k0, t1);
    assert(scan_step(st, k0) == (ScanState::InKey { pairs: ps, key: seq![k0] }));
    assert(seq![k0] + p.key.drop_first() =~= p.key);
    lemma_scan_key_chars(
        ps,
        seq![k0],
        p.key.drop_first(),
        seq!['\''] + (encode_value_spec(p.value) + seq!['\''] + tail),
    );
    let vs = ScanState::ValStart { pairs: ps, key: p.key };
    lemma_scan_fold_cons(vs, '\'', encode_value_spec(p.value) + seq!['\''] + tail);
    assert(scan_step(vs, '\'') == (ScanState::Quoted { pairs: ps, key: p.key, value: seq![] }));
    assert(encode_value_spec(p.value) + seq!['\''] + tail =~= encode_value_spec(p.value)
        + seq!['\''] + tail);
    lemma_scan_encoded_value(ps, p.key, seq![], p.value, tail);
    assert(seq![] + p.value =~= p.value);
}

/// Scanning a nonempty encoded assignment line records every assignment and
/// ends right after the last closing quote.
proof fn lemma_scan_encoded_line(ps: Seq<EnvAssignView>, pairs: Seq<EnvAssignView>)
    requires
        pairs.len() > 0,
        forall|i: int| 0 <= i < pairs.len() ==> is_valid_key(#[trigger] pairs[i].key),
    ensures
        scan_fold((ScanState::Start { pairs: ps }), encode_env_spec(pairs)) == (ScanState::Closed {
            pairs: ps + pairs.drop_last(),
            key: pairs.last().key,
            value: pairs.last().value,
        }),
    decreases pairs.len(),
{
    let p0 = pairs.first();
    if pairs.len() == 1 {
        lemma_scan_encoded_assign(ps, p0, seq![]);
        assert(encode_env_spec(pairs) + Seq::<char>::empty() =~= encode_env_spec(pairs));
        assert(ps + pairs.drop_last() =~= ps);
        assert(pairs.last() == p0);
    } else {
        let rest = pairs.drop_first();
        assert(encode_env_spec(pairs) == encode_assign_spec(p0) + seq![' '] + encode_env_spec(
            rest,
        ));
        assert(encode_env_spec(pairs) =~= encode_assign_spec(p0) + (seq![' ']
            + encode_env_spec(rest)));
        lemma_scan_encoded_assign(ps, p0, seq![' '] + encode_env_spec(rest));
        let cl = ScanState::Closed { pairs: ps, key: p0.key, value: p0.value };
        lemma_scan_fold_cons(cl, ' ', encode_env_spec(rest));
        assert(scan_step(cl, ' ') == (ScanState::Start { pairs: ps.push(p0) }));
        assert(forall|i: int|
            0 <= i < rest.len() ==> is_valid_key(#[trigger] rest[i].key)) by {
            assert(forall|i: int|
                0 <= i < rest.len() ==> rest[i] == pairs[i + 1] && is_valid_key(
                    #[trigger] rest[i].key,
                ));
        }
        lemma_scan_encoded_line(ps.push(p0), rest);
        assert(ps.push(p0) + rest.drop_last() =~= ps + pairs.drop_last());
        assert(rest.last() == pairs.last());
    }
}

/// Law: shell-token decoding round-trips. Encoding any assignments whose keys
/// are well formed, then decoding the resulting line, yields exactly the
/// assignments again.
pub proof fn lemma_env_round_trip(pairs: Seq<EnvAssignView>)
    requires
        forall|i: int| 0 <= i < pairs.len() ==> is_valid_key(#[trigger] pairs[i].key),
    ensures
        scan_env_spec(encode_env_spec(pairs)) == Ok::<Seq<EnvAssignView>, ScanError>(pairs),
{
    if pairs.len() == 0 {
        assert(encode_env_spec(pairs).len() == 0);
        assert(scan_fold(scan_init(), encode_env_spec(pairs)) == scan_init());
        assert(pairs =~= seq![]);
    } else {
        lemma_scan_encoded_line(seq![], pairs);
        assert(seq![] + pairs.drop_last() =~= pairs.drop_last());
        assert((EnvAssignView { key: pairs.last().key, value: pairs.last().value })
            =~= pairs.last());
        assert(pairs.drop_last().push(pairs.last()) =~= pairs);
        assert((seq![] + pairs.drop_last()).push(
            EnvAssignView { key: pairs.last().key, value: pairs.last().value },
        ) =~= pairs);
    }
}


/// Every recorded assignment has a well-formed key.
pub open spec fn pairs_keys_ok(pairs: Seq<EnvAssignView>) -> bool {
    forall|i: int| 0 <= i < pairs.len() ==> is_valid_key(#[trigger] pairs[i].key)
}

/// The scanner's key invariant: recorded keys are well formed, and so is the
/// key of the assignment being read once its `=` has been passed.
spec fn keys_ok_state(st: ScanState) -> bool {
    match st {
        ScanState::Start { pairs } => pairs_keys_ok(pairs),
        ScanState::InKey { pairs, key } => pairs_keys_ok(pairs),
        ScanState::ValStart { pairs, key } => pairs_keys_ok(pairs) && is_valid_key(key),
        ScanState::Unquoted { pairs, key, value } => pairs_keys_ok(pairs) && is_valid_key(key),
        ScanState::Quoted { pairs, key, value } => pairs_keys_ok(pairs) && is_valid_key(key),
        ScanState::Closed { pairs, key, value } => pairs_keys_ok(pairs) && is_valid_key(key),
        ScanState::ClosedEsc1 { pairs, key, value } => pairs_keys_ok(pairs) && is_valid_key(key),
        ScanState::ClosedEsc2 { pairs, key, value } => pairs_keys_ok(pairs) && is_valid_key(key),
        ScanState::Failed { err } => true,
    }
}

/// One step keeps the key invariant.
proof fn lemma_step_keeps_keys(st: ScanState, b: char)
    requires
        keys_ok_state(st),
    ensures
        keys_ok_state(scan_step(st, b)),
{
    match st {
        ScanState::ValStart { pairs, key } => {
            if b == ' ' {
                let pushed = pairs.push(EnvAssignView { key, value: seq![] });
                assert forall|i: int| 0 <= i < pushed.len() implies is_valid_key(
                    #[trigger] pushed[i].key,
                ) by {
                    if i < pairs.len() {
                        assert(pushed[i] == pairs[i]);
                    }
                }
            }
        },
        ScanState::Unquoted { pairs, key, value } => {
            if b == ' ' {
                let pushed = pairs.push(EnvAssignView { key, value });
                assert forall|i: int| 0 <= i < pushed.len() implies is_valid_key(
                    #[trigger] pushed[i].key,
                ) by {
                    if i < pairs.len() {
                        assert(pushed[i] == pairs[i]);
                    }
                }
            }
        },
        ScanState::Closed { pairs, key, value } => {
            if b == ' ' {
                let pushed = pairs.push(EnvAssignView { key, value });
                assert forall|i: int| 0 <= i < pushed.len() implies is_valid_key(
                    #[trigger] pushed[i].key,
                ) by {
                    if i < pairs.len() {
                        assert(pushed[i] == pairs[i]);
                    }
                }
            }
        },
        _ => {},
    }
}

/// A whole scan keeps the key invariant.
proof fn lemma_fold_keeps_keys(st: ScanState, s: Seq<char>)
    requires
        keys_ok_state(st),
    ensures
        keys_ok_state(scan_fold(st, s)),
    decreases s.len(),
{
    if s.len() > 0 {
        lemma_fold_keeps_keys(st, s.drop_last());
        lemma_step_keeps_keys(scan_fold(st, s.drop_last()), s.last());
    }
}

/// Law: whatever line decodes successfully, every decoded key is nonempty
/// and made of alphanumerics and underscores alone.
pub proof fn lemma_scanned_keys_valid(s: Seq<char>, pairs: Seq<EnvAssignView>)
    requires
        scan_env_spec(s) == Ok::<Seq<EnvAssignView>, ScanError>(pairs),
    ensures
        pairs_keys_ok(pairs),
{
    lemma_fold_keeps_keys(scan_init(), s);
    let st = scan_fold(scan_init(), s);
    match st {
        ScanState::ValStart { pairs: ps, key } => {
            let pushed = ps.push(EnvAssignView { key, value: seq![] });
            assert forall|i: int| 0 <= i < pushed.len() implies is_valid_key(
                #[trigger] pushed[i].key,
            ) by {
                if i < ps.len() {
                    assert(pushed[i] == ps[i]);
                }
            }
        },
        ScanState::Unquoted { pairs: ps, key, value } => {
            let pushed = ps.push(EnvAssignView { key, value });
            assert forall|i: int| 0 <= i < pushed.len() implies is_valid_key(
                #[trigger] pushed[i].key,
            ) by {
                if i < ps.len() {
                    assert(pushed[i] == ps[i]);
                }
            }
        },
        ScanState::Closed { pairs: ps, key, value } => {
            let pushed = ps.push(EnvAssignView { key, value });
            assert forall|i: int| 0 <= i < pushed.len() implies is_valid_key(
                #[trigger] pushed[i].key,
            ) by {
                if i < ps.len() {
                    assert(pushed[i] == ps[i]);
                }
            }
        },
        _ => {},
    }
}


/// No character of `v` is `c`.
pub open spec fn free_of(v: Seq<char>, c: char) -> bool {
    forall|j: int| 0 <= j < v.len() ==> v[j] != c
}

/// The scanner's value invariant for a character `c` that is neither read
/// from the input nor the quote itself: no recorded or pending value holds
/// it.
spec fn values_free_state(st: ScanState, c: char) -> bool {
    match st {
        ScanState::Start { pairs } => pairs_values_free(pairs, c),
        ScanState::InKey { pairs, key } => pairs_values_free(pairs, c),
        ScanState::ValStart { pairs, key } => pairs_values_free(pairs, c),
        ScanState::Unquoted { pairs, key, value } => pairs_values_free(pairs, c) && free_of(
            value,
            c,
        ),
        ScanState::Quoted { pairs, key, value } => pairs_values_free(pairs, c) && free_of(
            value,
            c,
        ),
        ScanState::Closed { pairs, key, value } => pairs_values_free(pairs, c) && free_of(
            value,
            c,
        ),
        ScanState::ClosedEsc1 { pairs, key, value } => pairs_values_free(pairs, c) && free_of(
            value,
            c,
        ),
        ScanState::ClosedEsc2 { pairs, key, value } => pairs_values_free(pairs, c) && free_of(
            value,
            c,
        ),
        ScanState::Failed { err } => true,
    }
}

/// No value recorded so far holds `c`.
pub open spec fn pairs_values_free(pairs: Seq<EnvAssignView>, c: char) -> bool {
    forall|i: int| 0 <= i < pairs.len() ==> free_of(#[trigger] pairs[i].value, c)
}

/// One step on a character other than `c` keeps the value invariant, for
/// any `c` that is not the quote.
proof fn lemma_step_keeps_values(st: ScanState, b: char, c: char)
    requires
        values_free_state(st, c),
        b != c,
        c != '\'',
    ensures
        values_free_state(scan_step(st, b), c),
{
    match scan_step(st, b) {
        ScanState::Start { pairs } => {
            match st {
                ScanState::ValStart { pairs: ps, key } => {
                    assert forall|i: int| 0 <= i < pairs.len() implies free_of(
                        #[trigger] pairs[i].value,
                        c,
                    ) by {
                        if i < ps.len() {
                            assert(pairs[i] == ps[i]);
                        } else {
                            assert(pairs[i].value =~= seq![]);
                        }
                    }
                },
                ScanState::Unquoted { pairs: ps, key, value } => {
                    assert forall|i: int| 0 <= i < pairs.len() implies free_of(
                        #[trigger] pairs[i].value,
                        c,
                    ) by {
                        if i < ps.len() {
                            assert(pairs[i] == ps[i]);
                        }
                    }
                },
                ScanState::Closed { pairs: ps, key, value } => {
                    assert forall|i: int| 0 <= i < pairs.len() implies free_of(
                        #[trigger] pairs[i].value,
                        c,
                    ) by {
                        if i < ps.len() {
                            assert(pairs[i] == ps[i]);
                        }
                    }
                },
                _ => {},
            }
        },
        _ => {},
    }
}

/// A whole scan of input free of `c` keeps the value invariant.
proof fn lemma_fold_keeps_values(st: ScanState, s: Seq<char>, c: char)
    requires
        values_free_state(st, c),
        free_of(s, c),
        c != '\'',
    ensures
        values_free_state(scan_fold(st, s), c),
    decreases s.len(),
{
    if s.len() > 0 {
        assert(free_of(s.drop_last(), c));
        lemma_fold_keeps_values(st, s.drop_last(), c);
        assert(s.last() != c);
        lemma_step_keeps_values(scan_fold(st, s.drop_last()), s.last(), c);
    }
}

/// Law: decoding reads values from the line alone — apart from the quotes it
/// decodes — so a character absent from the line, other than the quote, is
/// absent from every decoded value.
pub proof fn lemma_scanned_values_free(s: Seq<char>, pairs: Seq<EnvAssignView>, c: char)
    requires
        scan_env_spec(s) == Ok::<Seq<EnvAssignView>, ScanError>(pairs),
        free_of(s, c),
        c != '\'',
    ensures
        pairs_values_free(pairs, c),
{
    lemma_fold_keeps_values(scan_init(), s, c);
    let st = scan_fold(scan_init(), s);
    match st {
        ScanState::ValStart { pairs: ps, key } => {
            let pushed = ps.push(EnvAssignView { key, value: seq![] });
            assert forall|i: int| 0 <= i < pushed.len() implies free_of(
                #[trigger] pushed[i].value,
                c,
            ) by {
                if i < ps.len() {
                    assert(pushed[i] == ps[i]);
                } else {
                    assert(pushed[i].value =~= seq![]);
                }
            }
        },
        ScanState::Unquoted { pairs: ps, key, value } => {
            let pushed = ps.push(EnvAssignView { key, value });
            assert forall|i: int| 0 <= i < pushed.len() implies free_of(
                #[trigger] pushed[i].value,
                c,
            ) by {
                if i < ps.len() {
                    assert(pushed[i] == ps[i]);
                }
            }
        },
        ScanState::Closed { pairs: ps, key, value } => {
            let pushed = ps.push(EnvAssignView { key, value });
            assert forall|i: int| 0 <= i < pushed.len() implies free_of(
                #[trigger] pushed[i].value,
                c,
            ) by {
                if i < ps.len() {
                    assert(pushed[i] == ps[i]);
                }
            }
        },
        _ => {},
    }
}

} // verus!
