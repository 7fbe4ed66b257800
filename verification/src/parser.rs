use vstd::prelude::*;

use crate::watch::{Command, CommandV, ParseWatchError};

verus! {

// ---------------------------------------------------------------------
// Character utilities
// ---------------------------------------------------------------------
/// The characters of `s`, one per element.
pub fn to_chars(s: &str) -> (r: Vec<char>)
    ensures
        r@ == s@,
{
    let n = s.unicode_len();
    let mut r: Vec<char> = Vec::new();
    let mut i: usize = 0;
    while i < n
        invariant
            n == s@.len(),
            i <= n,
            r@ =~= s@.subrange(0, i as int),
        decreases n - i,
    {
        r.push(s.get_char(i));
        assert(r@ =~= s@.subrange(0, i + 1));
        i = i + 1;
    }
    proof {
        assert(r@ =~= s@);
    }
    r
}

/// Relies on String's FromIterator over char (std): collecting characters
/// yields the string holding exactly those characters in order.
#[verifier::external_body]
pub fn chars_to_string(v: &Vec<char>) -> (r: String)
    ensures
        r@ == v@,
{
    v.iter().collect()
}

/// Append every character of `s` to `out`.
pub fn push_chars(out: &mut Vec<char>, s: &str)
    ensures
        final(out)@ == old(out)@ + s@,
{
    let n = s.unicode_len();
    let mut i: usize = 0;
    while i < n
        invariant
            n == s@.len(),
            i <= n,
            out@ =~= old(out)@ + s@.subrange(0, i as int),
        decreases n - i,
    {
        out.push(s.get_char(i));
        assert(out@ =~= old(out)@ + s@.subrange(0, i + 1));
        i = i + 1;
    }
    proof {
        assert(out@ =~= old(out)@ + s@);
    }
}

/// The characters of `v` between `from` and `to`.
pub fn subvec(v: &Vec<char>, from: usize, to: usize) -> (r: Vec<char>)
    requires
        from <= to <= v@.len(),
    ensures
        r@ == v@.subrange(from as int, to as int),
{
    let mut r: Vec<char> = Vec::new();
    let mut i: usize = from;
    while i < to
        invariant
            from <= i <= to <= v@.len(),
            r@ =~= v@.subrange(from as int, i as int),
        decreases to - i,
    {
        r.push(v[i]);
        assert(r@ =~= v@.subrange(from as int, i + 1));
        i = i + 1;
    }
    r
}

/// Compare a character vector against a string slice.
pub fn chars_eq_str(v: &Vec<char>, s: &str) -> (r: bool)
    ensures
        r == (v@ == s@),
{
    let n = s.unicode_len();
    if v.len() != n {
        assert(v@.len() != s@.len());
        return false;
    }
    let mut i: usize = 0;
    while i < n
        invariant
            n == s@.len(),
            n == v@.len(),
            i <= n,
            forall|j: int| 0 <= j < i ==> v@[j] == s@[j],
        decreases n - i,
    {
        if v[i] != s.get_char(i) {
            return false;
        }
        i = i + 1;
    }
    proof {
        assert(v@ =~= s@);
    }
    true
}

// ---------------------------------------------------------------------
// Token scanning
// ---------------------------------------------------------------------
/// The field separators of a table line.
pub open spec fn is_space_char(c: char) -> bool {
    c == ' ' || c == '\t'
}

/// The first position at or after `i` holding a non-space, or the end.
pub open spec fn skip_spaces(s: Seq<char>, i: int) -> int
    decreases s.len() - i,
{
    if 0 <= i && i < s.len() && is_space_char(s[i]) {
        skip_spaces(s, i + 1)
    } else {
        i
    }
}

/// The first position at or after `i` holding a space, or the end.
pub open spec fn scan_token(s: Seq<char>, i: int) -> int
    decreases s.len() - i,
{
    if 0 <= i && i < s.len() && !is_space_char(s[i]) {
        scan_token(s, i + 1)
    } else {
        i
    }
}

pub proof fn lemma_skip_spaces(s: Seq<char>, i: int)
    requires
        0 <= i <= s.len(),
    ensures
        i <= skip_spaces(s, i) <= s.len(),
        forall|j: int| i <= j < skip_spaces(s, i) ==> is_space_char(s[j]),
        skip_spaces(s, i) < s.len() ==> !is_space_char(s[skip_spaces(s, i)]),
    decreases s.len() - i,
{
    if i < s.len() && is_space_char(s[i]) {
        lemma_skip_spaces(s, i + 1);
    }
}

pub proof fn lemma_scan_token(s: Seq<char>, i: int)
    requires
        0 <= i <= s.len(),
    ensures
        i <= scan_token(s, i) <= s.len(),
        forall|j: int| i <= j < scan_token(s, i) ==> !is_space_char(s[j]),
        scan_token(s, i) < s.len() ==> is_space_char(s[scan_token(s, i)]),
    decreases s.len() - i,
{
    if i < s.len() && !is_space_char(s[i]) {
        lemma_scan_token(s, i + 1);
    }
}

pub fn skip_spaces_exec(v: &Vec<char>, from: usize) -> (r: usize)
    requires
        from <= v@.len(),
    ensures
        r as int == skip_spaces(v@, from as int),
        from <= r <= v@.len(),
{
    let mut i: usize = from;
    while i < v.len() && (v[i] == ' ' || v[i] == '\t')
        invariant
            from <= i <= v@.len(),
            skip_spaces(v@, from as int) == skip_spaces(v@, i as int),
        decreases v@.len() - i,
    {
        i = i + 1;
    }
    i
}

pub fn scan_token_exec(v: &Vec<char>, from: usize) -> (r: usize)
    requires
        from <= v@.len(),
    ensures
        r as int == scan_token(v@, from as int),
        from <= r <= v@.len(),
{
    let mut i: usize = from;
    while i < v.len() && !(v[i] == ' ' || v[i] == '\t')
        invariant
            from <= i <= v@.len(),
            scan_token(v@, from as int) == scan_token(v@, i as int),
        decreases v@.len() - i,
    {
        i = i + 1;
    }
    i
}

// ---------------------------------------------------------------------
// Watch options
// ---------------------------------------------------------------------
/// One element of a line's options field: a mask name, or a `name=value`
/// attribute with a boolean value.
#[derive(Debug, Clone, PartialEq, Eq)]
pub enum WatchOption {
    Mask(String),
    Attribute(String, bool),
}

pub enum WatchOptionV {
    Mask(Seq<char>),
    Attribute(Seq<char>, bool),
}

impl View for WatchOption {
    type V = WatchOptionV;

    open spec fn view(&self) -> WatchOptionV {
        match self {
            WatchOption::Mask(s) => WatchOptionV::Mask(s@),
            WatchOption::Attribute(s, b) => WatchOptionV::Attribute(s@, *b),
        }
    }
}

impl DeepView for WatchOption {
    type V = WatchOptionV;

    open spec fn deep_view(&self) -> WatchOptionV {
        self.view()
    }
}

impl core::str::FromStr for WatchOption {
    type Err = ParseWatchError;

    fn from_str(s: &str) -> Result<WatchOption, ParseWatchError> {
        parse_elem(&to_chars(s))
    }
}

/// The pieces of `s` between occurrences of `sep`, in order; `n`
/// separators give `n + 1` pieces.
pub open spec fn split_sep_acc(s: Seq<char>, sep: char, cur: Seq<char>, acc: Seq<Seq<char>>) -> Seq<
    Seq<char>,
>
    decreases s.len(),
{
    if s.len() == 0 {
        acc.push(cur)
    } else if s[0] == sep {
        split_sep_acc(s.drop_first(), sep, Seq::empty(), acc.push(cur))
    } else {
        split_sep_acc(s.drop_first(), sep, cur.push(s[0]), acc)
    }
}

pub open spec fn split_sep(s: Seq<char>, sep: char) -> Seq<Seq<char>> {
    split_sep_acc(s, sep, Seq::empty(), Seq::empty())
}

pub open spec fn split_commas(s: Seq<char>) -> Seq<Seq<char>> {
    split_sep(s, ',')
}

pub fn split_sep_exec(v: &Vec<char>, sep: char) -> (r: Vec<Vec<char>>)
    ensures
        r.deep_view() == split_sep(v@, sep),
{
    let mut acc: Vec<Vec<char>> = Vec::new();
    let mut cur: Vec<char> = Vec::new();
    proof {
        assert(v@.subrange(0, v@.len() as int) =~= v@);
        assert(acc.deep_view() =~~= Seq::<Seq<char>>::empty());
    }
    let mut i: usize = 0;
    while i < v.len()
        invariant
            i <= v@.len(),
            split_sep(v@, sep) == split_sep_acc(
                v@.subrange(i as int, v@.len() as int),
                sep,
                cur@,
                acc.deep_view(),
            ),
        decreases v@.len() - i,
    {
        let ghost pre = v@.subrange(i as int, v@.len() as int);
        let ghost acc0 = acc.deep_view();
        let ghost cur0 = cur@;
        proof {
            assert(pre[0] == v@[i as int]);
            assert(pre.drop_first() =~= v@.subrange(i as int + 1, v@.len() as int));
        }
        if v[i] == sep {
            acc.push(cur);
            cur = Vec::new();
            proof {
                assert(acc.deep_view() =~~= acc0.push(cur0));
            }
        } else {
            cur.push(v[i]);
        }
        i = i + 1;
    }
    proof {
        assert(v@.subrange(v@.len() as int, v@.len() as int).len() == 0);
    }
    let ghost acc0 = acc.deep_view();
    let ghost cur0 = cur@;
    acc.push(cur);
    proof {
        assert(acc.deep_view() =~~= acc0.push(cur0));
    }
    acc
}

/// The first position at or after `i` holding `t`, or the end.
pub open spec fn scan_to_char(s: Seq<char>, i: int, t: char) -> int
    decreases s.len() - i,
{
    if 0 <= i && i < s.len() && s[i] != t {
        scan_to_char(s, i + 1, t)
    } else {
        i
    }
}

pub proof fn lemma_scan_to_char(s: Seq<char>, i: int, t: char)
    requires
        0 <= i <= s.len(),
    ensures
        i <= scan_to_char(s, i, t) <= s.len(),
        forall|j: int| i <= j < scan_to_char(s, i, t) ==> s[j] != t,
        scan_to_char(s, i, t) < s.len() ==> s[scan_to_char(s, i, t)] == t,
    decreases s.len() - i,
{
    if i < s.len() && s[i] != t {
        lemma_scan_to_char(s, i + 1, t);
    }
}

fn scan_to_char_exec(v: &Vec<char>, from: usize, t: char) -> (r: usize)
    requires
        from <= v@.len(),
    ensures
        r as int == scan_to_char(v@, from as int, t),
        from <= r <= v@.len(),
{
    let mut i: usize = from;
    while i < v.len() && v[i] != t
        invariant
            from <= i <= v@.len(),
            scan_to_char(v@, from as int, t) == scan_to_char(v@, i as int, t),
        decreases v@.len() - i,
    {
        i = i + 1;
    }
    i
}

/// Parse one element of the options field.  An element holding `=` is an
/// attribute whose value must be `true` or `false`; any other element is
/// read as a mask name, to be looked up later.
pub open spec fn spec_parse_elem(e: Seq<char>) -> Result<WatchOptionV, ParseWatchError> {
    let k = scan_to_char(e, 0, '=');
    if k < e.len() {
        let aname = e.subrange(0, k);
        let value = e.subrange(k + 1, e.len() as int);
        if value == "true"@ {
            Ok(WatchOptionV::Attribute(aname, true))
        } else if value == "false"@ {
            Ok(WatchOptionV::Attribute(aname, false))
        } else {
            Err(ParseWatchError::InvalidAttribute)
        }
    } else {
        Ok(WatchOptionV::Mask(e))
    }
}

pub fn parse_elem(e: &Vec<char>) -> (r: Result<WatchOption, ParseWatchError>)
    ensures
        match r {
            Ok(o) => spec_parse_elem(e@) == Ok::<WatchOptionV, ParseWatchError>(o@),
            Err(err) => spec_parse_elem(e@) == Err::<WatchOptionV, ParseWatchError>(err),
        },
{
    proof {
        lemma_scan_to_char(e@, 0, '=');
    }
    let k = scan_to_char_exec(e, 0, '=');
    if k < e.len() {
        let aname = chars_to_string(&subvec(e, 0, k));
        let value = subvec(e, k + 1, e.len());
        if chars_eq_str(&value, "true") {
            Ok(WatchOption::Attribute(aname, true))
        } else if chars_eq_str(&value, "false") {
            Ok(WatchOption::Attribute(aname, false))
        } else {
            Err(ParseWatchError::InvalidAttribute)
        }
    } else {
        Ok(WatchOption::Mask(chars_to_string(e)))
    }
}

/// Parse the elements from index `i` on, stopping at the first bad one.
pub open spec fn spec_parse_elems(elems: Seq<Seq<char>>, i: int) -> Result<
    Seq<WatchOptionV>,
    ParseWatchError,
>
    decreases elems.len() - i,
{
    if i < 0 || i >= elems.len() {
        Ok(Seq::empty())
    } else {
        match spec_parse_elem(elems[i]) {
            Err(e) => Err(e),
            Ok(o) => match spec_parse_elems(elems, i + 1) {
                Err(e) => Err(e),
                Ok(rest) => Ok(seq![o] + rest),
            },
        }
    }
}

/// Parse a whole options token: its comma-separated elements, in order.
pub open spec fn spec_parse_options(tok: Seq<char>) -> Result<Seq<WatchOptionV>, ParseWatchError> {
    spec_parse_elems(split_commas(tok), 0)
}

fn parse_options(tok: &Vec<char>) -> (r: Result<Vec<WatchOption>, ParseWatchError>)
    ensures
        match r {
            Ok(v) => spec_parse_options(tok@) == Ok::<Seq<WatchOptionV>, ParseWatchError>(
                v.deep_view(),
            ),
            Err(err) => spec_parse_options(tok@) == Err::<Seq<WatchOptionV>, ParseWatchError>(err),
        },
{
    let elems = split_sep_exec(tok, ',');
    let ghost dv = elems.deep_view();
    let mut out: Vec<WatchOption> = Vec::new();
    let mut i: usize = 0;
    while i < elems.len()
        invariant
            i <= elems@.len(),
            dv == elems.deep_view(),
            dv == split_commas(tok@),
            dv.len() == elems@.len(),
            out@.len() == i,
            spec_parse_elems(dv, 0) == match spec_parse_elems(dv, i as int) {
                Ok(rest) => Ok::<Seq<WatchOptionV>, ParseWatchError>(out.deep_view() + rest),
                Err(e) => Err::<Seq<WatchOptionV>, ParseWatchError>(e),
            },
        decreases elems@.len() - i,
    {
        proof {
            assert(elems@[i as int].deep_view() == dv[i as int]);
            assert(dv[i as int] =~= elems@[i as int]@);
        }
        let ghost out0 = out.deep_view();
        match parse_elem(&elems[i]) {
            Ok(o) => {
                out.push(o);
                proof {
                    assert(out.deep_view() =~~= out0.push(o@));
                    match spec_parse_elems(dv, i + 1) {
                        Ok(rest) => {
                            assert(out0.push(o@) + rest =~~= out0 + (seq![o@] + rest));
                        },
                        Err(e) => {},
                    }
                }
            },
            Err(err) => {
                return Err(err);
            },
        }
        i = i + 1;
    }
    proof {
        assert(spec_parse_elems(dv, elems@.len() as int) == Ok::<Seq<WatchOptionV>, ParseWatchError>(
            Seq::empty(),
        ));
        assert(out.deep_view() + Seq::<WatchOptionV>::empty() =~~= out.deep_view());
    }
    Ok(out)
}

// ---------------------------------------------------------------------
// Shell-style word splitting
// ---------------------------------------------------------------------
/// Where the word scanner stands: between words, after a bare backslash,
/// inside a plain word, after a backslash in a word, inside single or
/// double quotes, after a backslash inside double quotes, or inside a
/// word-starting comment.
#[derive(Debug, Clone, Copy, PartialEq, Eq, Structural)]
pub enum SplitMode {
    Delim,
    Bslash,
    Word,
    WordBslash,
    Single,
    Double,
    DoubleBslash,
    Remark,
}

/// The words finished so far, the word being built, and the scanner mode.
pub struct SplitAcc {
    pub words: Seq<Seq<char>>,
    pub cur: Seq<char>,
    pub mode: SplitMode,
}

/// One character of the shell-style word scan: whitespace separates
/// words, single quotes take text verbatim, double quotes let backslash
/// escape `$`, backquote, `"` and `\`, a bare backslash escapes the next
/// character, and `#` starting a word begins a comment.
pub open spec fn split_step(st: SplitAcc, c: char) -> SplitAcc {
    match st.mode {
        SplitMode::Delim => {
            if c == '\'' {
                SplitAcc { mode: SplitMode::Single, ..st }
            } else if c == '"' {
                SplitAcc { mode: SplitMode::Double, ..st }
            } else if c == '\\' {
                SplitAcc { mode: SplitMode::Bslash, ..st }
            } else if c == ' ' || c == '\t' || c == '\n' {
                st
            } else if c == '#' {
                SplitAcc { mode: SplitMode::Remark, ..st }
            } else {
                SplitAcc { cur: st.cur.push(c), mode: SplitMode::Word, ..st }
            }
        },
        SplitMode::Bslash => {
            if c == '\n' {
                SplitAcc { mode: SplitMode::Delim, ..st }
            } else {
                SplitAcc { cur: st.cur.push(c), mode: SplitMode::Word, ..st }
            }
        },
        SplitMode::Word => {
            if c == '\'' {
                SplitAcc { mode: SplitMode::Single, ..st }
            } else if c == '"' {
                SplitAcc { mode: SplitMode::Double, ..st }
            } else if c == '\\' {
                SplitAcc { mode: SplitMode::WordBslash, ..st }
            } else if c == ' ' || c == '\t' || c == '\n' {
                SplitAcc {
                    words: st.words.push(st.cur),
                    cur: Seq::empty(),
                    mode: SplitMode::Delim,
                }
            } else {
                SplitAcc { cur: st.cur.push(c), ..st }
            }
        },
        SplitMode::WordBslash => {
            if c == '\n' {
                SplitAcc { mode: SplitMode::Word, ..st }
            } else {
                SplitAcc { cur: st.cur.push(c), mode: SplitMode::Word, ..st }
            }
        },
        SplitMode::Single => {
            if c == '\'' {
                SplitAcc { mode: SplitMode::Word, ..st }
            } else {
                SplitAcc { cur: st.cur.push(c), ..st }
            }
        },
        SplitMode::Double => {
            if c == '"' {
                SplitAcc { mode: SplitMode::Word, ..st }
            } else if c == '\\' {
                SplitAcc { mode: SplitMode::DoubleBslash, ..st }
            } else {
                SplitAcc { cur: st.cur.push(c), ..st }
            }
        },
        SplitMode::DoubleBslash => {
            if c == '\n' {
                SplitAcc { mode: SplitMode::Double, ..st }
            } else if c == '$' || c == '`' || c == '"' || c == '\\' {
                SplitAcc { cur: st.cur.push(c), mode: SplitMode::Double, ..st }
            } else {
                SplitAcc { cur: st.cur.push('\\').push(c), mode: SplitMode::Double, ..st }
            }
        },
        SplitMode::Remark => {
            if c == '\n' {
                SplitAcc { mode: SplitMode::Delim, ..st }
            } else {
                st
            }
        },
    }
}

/// The scanner state after the first `i` characters of `s`.
pub open spec fn split_run(s: Seq<char>, i: int) -> SplitAcc
    decreases i,
{
    if i <= 0 {
        SplitAcc { words: Seq::empty(), cur: Seq::empty(), mode: SplitMode::Delim }
    } else {
        split_step(split_run(s, i - 1), s[i - 1])
    }
}

/// Split `s` into shell-style words.  An unclosed quote yields `None`; a
/// trailing backslash stays literal.
pub open spec fn spec_shell_split(s: Seq<char>) -> Option<Seq<Seq<char>>> {
    let st = split_run(s, s.len() as int);
    match st.mode {
        SplitMode::Single => None,
        SplitMode::Double => None,
        SplitMode::DoubleBslash => None,
        SplitMode::Delim => Some(st.words),
        SplitMode::Remark => Some(st.words),
        SplitMode::Word => Some(st.words.push(st.cur)),
        SplitMode::Bslash => Some(st.words.push(st.cur.push('\\'))),
        SplitMode::WordBslash => Some(st.words.push(st.cur.push('\\'))),
    }
}

/// Split a character vector into shell-style words.
pub fn shell_split(v: &Vec<char>) -> (r: Option<Vec<String>>)
    ensures
        match r {
            Some(ws) => spec_shell_split(v@) == Some(ws.deep_view()),
            None => spec_shell_split(v@) is None,
        },
{
    let mut words: Vec<String> = Vec::new();
    let mut cur: Vec<char> = Vec::new();
    let mut mode = SplitMode::Delim;
    let mut i: usize = 0;
    while i < v.len()
        invariant
            i <= v@.len(),
            words.deep_view() == split_run(v@, i as int).words,
            cur@ == split_run(v@, i as int).cur,
            mode == split_run(v@, i as int).mode,
        decreases v@.len() - i,
    {
        let ghost st = split_run(v@, i as int);
        let ghost w0 = words.deep_view();
        let c = v[i];
        match mode {
            SplitMode::Delim => {
                if c == '\'' {
                    mode = SplitMode::Single;
                } else if c == '"' {
                    mode = SplitMode::Double;
                } else if c == '\\' {
                    mode = SplitMode::Bslash;
                } else if c == ' ' || c == '\t' || c == '\n' {
                } else if c == '#' {
                    mode = SplitMode::Remark;
                } else {
                    cur.push(c);
                    mode = SplitMode::Word;
                }
            },
            SplitMode::Bslash => {
                if c == '\n' {
                    mode = SplitMode::Delim;
                } else {
                    cur.push(c);
                    mode = SplitMode::Word;
                }
            },
            SplitMode::Word => {
                if c == '\'' {
                    mode = SplitMode::Single;
                } else if c == '"' {
                    mode = SplitMode::Double;
                } else if c == '\\' {
                    mode = SplitMode::WordBslash;
                } else if c == ' ' || c == '\t' || c == '\n' {
                    let w = chars_to_string(&cur);
                    words.push(w);
                    cur = Vec::new();
                    mode = SplitMode::Delim;
                    proof {
                        assert(words.deep_view() =~~= w0.push(st.cur));
                    }
                } else {
                    cur.push(c);
                }
            },
            SplitMode::WordBslash => {
                if c == '\n' {
                    mode = SplitMode::Word;
                } else {
                    cur.push(c);
                    mode = SplitMode::Word;
                }
            },
            SplitMode::Single => {
                if c == '\'' {
                    mode = SplitMode::Word;
                } else {
                    cur.push(c);
                }
            },
            SplitMode::Double => {
                if c == '"' {
                    mode = SplitMode::Word;
                } else if c == '\\' {
                    mode = SplitMode::DoubleBslash;
                } else {
                    cur.push(c);
                }
            },
            SplitMode::DoubleBslash => {
                if c == '\n' {
                    mode = SplitMode::Double;
                } else if c == '$' || c == '`' || c == '"' || c == '\\' {
                    cur.push(c);
                    mode = SplitMode::Double;
                } else {
                    cur.push('\\');
                    cur.push(c);
                    mode = SplitMode::Double;
                }
            },
            SplitMode::Remark => {
                if c == '\n' {
                    mode = SplitMode::Delim;
                }
            },
        }
        i = i + 1;
    }
    let ghost st = split_run(v@, v@.len() as int);
    let ghost w0 = words.deep_view();
    match mode {
        SplitMode::Single => None,
        SplitMode::Double => None,
        SplitMode::DoubleBslash => None,
        SplitMode::Delim => Some(words),
        SplitMode::Remark => Some(words),
        SplitMode::Word => {
            let w = chars_to_string(&cur);
            words.push(w);
            proof {
                assert(words.deep_view() =~~= w0.push(st.cur));
            }
            Some(words)
        },
        SplitMode::Bslash => {
            cur.push('\\');
            let w = chars_to_string(&cur);
            words.push(w);
            proof {
                assert(words.deep_view() =~~= w0.push(st.cur.push('\\')));
            }
            Some(words)
        },
        SplitMode::WordBslash => {
            cur.push('\\');
            let w = chars_to_string(&cur);
            words.push(w);
            proof {
                assert(words.deep_view() =~~= w0.push(st.cur.push('\\')));
            }
            Some(words)
        },
    }
}

// ---------------------------------------------------------------------
// The three field parsers
// ---------------------------------------------------------------------
/// The path field starting at `from`: the first token after any spaces,
/// and the position just past the spaces that follow it.
pub open spec fn spec_parse_path_at(s: Seq<char>, from: int) -> (Seq<char>, int) {
    let a = skip_spaces(s, from);
    let b = scan_token(s, a);
    (s.subrange(a, b), skip_spaces(s, b))
}

/// Read the path field of a line, from position `from`.
pub fn parse_path(input: &str, from: usize) -> (r: (String, usize))
    requires
        from <= input@.len(),
    ensures
        r.0@ == spec_parse_path_at(input@, from as int).0,
        r.1 as int == spec_parse_path_at(input@, from as int).1,
        from <= r.1 <= input@.len(),
{
    let chars = to_chars(input);
    let a = skip_spaces_exec(&chars, from);
    let b = scan_token_exec(&chars, a);
    proof {
        lemma_scan_token(chars@, a as int);
    }
    let tok = subvec(&chars, a, b);
    let pos = skip_spaces_exec(&chars, b);
    (chars_to_string(&tok), pos)
}

/// The options field starting at `from`: its parsed elements, or the
/// error that stops them, and the position just past the field.  An
/// absent field is a missing one.
pub open spec fn spec_parse_masks_at(s: Seq<char>, from: int) -> (Result<
    Seq<WatchOptionV>,
    ParseWatchError,
>, int) {
    let a = skip_spaces(s, from);
    let b = scan_token(s, a);
    let pos = skip_spaces(s, b);
    if a == b {
        (Err(ParseWatchError::MissingField), pos)
    } else {
        (spec_parse_options(s.subrange(a, b)), pos)
    }
}

/// Read the options field of a line, from position `from`.
pub fn parse_masks(input: &str, from: usize) -> (r: (Result<Vec<WatchOption>, ParseWatchError>, usize))
    requires
        from <= input@.len(),
    ensures
        match r.0 {
            Ok(v) => spec_parse_masks_at(input@, from as int).0 == Ok::<
                Seq<WatchOptionV>,
                ParseWatchError,
            >(v.deep_view()),
            Err(err) => spec_parse_masks_at(input@, from as int).0 == Err::<
                Seq<WatchOptionV>,
                ParseWatchError,
            >(err),
        },
        r.1 as int == spec_parse_masks_at(input@, from as int).1,
        from <= r.1 <= input@.len(),
{
    let chars = to_chars(input);
    let a = skip_spaces_exec(&chars, from);
    let b = scan_token_exec(&chars, a);
    proof {
        lemma_scan_token(chars@, a as int);
    }
    let tok = subvec(&chars, a, b);
    let pos = skip_spaces_exec(&chars, b);
    if a == b {
        (Err(ParseWatchError::MissingField), pos)
    } else {
        (parse_options(&tok), pos)
    }
}

/// The command field: the rest of the line, shell-split; the first word
/// is the program, the rest its arguments.  A split failure or an empty
/// word list is corrupt input.
pub open spec fn spec_parse_command(s: Seq<char>) -> Result<CommandV, ParseWatchError> {
    match spec_shell_split(s) {
        None => Err(ParseWatchError::CorruptInput),
        Some(ws) => if ws.len() == 0 {
            Err(ParseWatchError::CorruptInput)
        } else {
            Ok(CommandV { program: ws[0], argv: ws.drop_first() })
        },
    }
}

/// Read the command field of a line, from position `from` to its end.
pub fn parse_command(input: &str, from: usize) -> (r: Result<Command, ParseWatchError>)
    requires
        from <= input@.len(),
    ensures
        match r {
            Ok(c) => spec_parse_command(input@.subrange(from as int, input@.len() as int)) == Ok::<
                CommandV,
                ParseWatchError,
            >(c@),
            Err(err) => spec_parse_command(input@.subrange(from as int, input@.len() as int))
                == Err::<CommandV, ParseWatchError>(err),
        },
{
    let chars = to_chars(input);
    let rest = subvec(&chars, from, chars.len());
    match shell_split(&rest) {
        None => Err(ParseWatchError::CorruptInput),
        Some(ws) => {
            if ws.len() == 0 {
                Err(ParseWatchError::CorruptInput)
            } else {
                let ghost wsdv = ws.deep_view();
                let program = ws[0].clone();
                let mut argv: Vec<String> = Vec::new();
                let mut i: usize = 1;
                while i < ws.len()
                    invariant
                        1 <= i <= ws@.len(),
                        argv@.len() == i - 1,
                        forall|k: int| 0 <= k < i - 1 ==> argv@[k]@ == ws@[k + 1]@,
                    decreases ws@.len() - i,
                {
                    argv.push(ws[i].clone());
                    i = i + 1;
                }
                let c = Command { program, argv };
                proof {
                    assert(c@.argv =~= wsdv.drop_first());
                }
                Ok(c)
            }
        },
    }
}

} // verus!

// The items below support the serializer: they say how a line that the
// library itself renders splits back into its parts.
verus! {

/// Whether `s` is free of the separator `sep`.
pub open spec fn no_sep(s: Seq<char>, sep: char) -> bool {
    forall|j: int| 0 <= j < s.len() ==> s[j] != sep
}

proof fn lemma_split_acc_nosep(a: Seq<char>, t: Seq<char>, sep: char, cur: Seq<char>, acc: Seq<Seq<char>>)
    requires
        no_sep(a, sep),
    ensures
        split_sep_acc(a + t, sep, cur, acc) == split_sep_acc(t, sep, cur + a, acc),
    decreases a.len(),
{
    if a.len() == 0 {
        assert(a + t =~= t);
        assert(cur + a =~= cur);
    } else {
        assert((a + t)[0] == a[0]);
        assert((a + t).drop_first() =~= a.drop_first() + t);
        assert(cur.push(a[0]) + a.drop_first() =~= cur + a);
        lemma_split_acc_nosep(a.drop_first(), t, sep, cur.push(a[0]), acc);
    }
}

proof fn lemma_split_acc_prefix(s: Seq<char>, sep: char, cur: Seq<char>, acc: Seq<Seq<char>>)
    ensures
        split_sep_acc(s, sep, cur, acc) == acc + split_sep_acc(s, sep, cur, Seq::empty()),
    decreases s.len(),
{
    if s.len() == 0 {
        assert(acc.push(cur) =~= acc + Seq::<Seq<char>>::empty().push(cur));
    } else if s[0] == sep {
        lemma_split_acc_prefix(s.drop_first(), sep, Seq::empty(), acc.push(cur));
        lemma_split_acc_prefix(s.drop_first(), sep, Seq::empty(), Seq::<Seq<char>>::empty().push(cur));
        assert(acc.push(cur) + split_sep_acc(s.drop_first(), sep, Seq::empty(), Seq::empty())
            =~= acc + (Seq::<Seq<char>>::empty().push(cur) + split_sep_acc(
            s.drop_first(),
            sep,
            Seq::empty(),
            Seq::empty(),
        )));
    } else {
        lemma_split_acc_prefix(s.drop_first(), sep, cur.push(s[0]), acc);
    }
}

/// Law: splitting `a sep b`, where `a` is free of `sep`, yields `a`
/// followed by the pieces of `b`.
pub proof fn lemma_split_sep_of_concat(a: Seq<char>, b: Seq<char>, sep: char)
    requires
        no_sep(a, sep),
    ensures
        split_sep(a + seq![sep] + b, sep) == seq![a] + split_sep(b, sep),
{
    assert(a + seq![sep] + b =~= a + (seq![sep] + b));
    lemma_split_acc_nosep(a, seq![sep] + b, sep, Seq::empty(), Seq::empty());
    assert(Seq::empty() + a =~= a);
    assert((seq![sep] + b)[0] == sep);
    assert((seq![sep] + b).drop_first() =~= b);
    lemma_split_acc_prefix(b, sep, Seq::empty(), Seq::<Seq<char>>::empty().push(a));
    assert(Seq::<Seq<char>>::empty().push(a) =~= seq![a]);
}

/// Law: a piece free of the separator splits to itself alone.
pub proof fn lemma_split_sep_whole(a: Seq<char>, sep: char)
    requires
        no_sep(a, sep),
    ensures
        split_sep(a, sep) == seq![a],
{
    assert(a =~= a + Seq::<char>::empty());
    lemma_split_acc_nosep(a, Seq::empty(), sep, Seq::empty(), Seq::empty());
    assert(Seq::empty() + a =~= a);
    assert(Seq::<Seq<char>>::empty().push(a) =~= seq![a]);
}

pub proof fn lemma_skip_spaces_value(s: Seq<char>, i: int, e: int)
    requires
        0 <= i <= e <= s.len(),
        forall|j: int| i <= j < e ==> is_space_char(s[j]),
        e < s.len() ==> !is_space_char(s[e]),
    ensures
        skip_spaces(s, i) == e,
    decreases e - i,
{
    if i < e {
        lemma_skip_spaces_value(s, i + 1, e);
    }
}

pub proof fn lemma_scan_token_value(s: Seq<char>, i: int, e: int)
    requires
        0 <= i <= e <= s.len(),
        forall|j: int| i <= j < e ==> !is_space_char(s[j]),
        e < s.len() ==> is_space_char(s[e]),
    ensures
        scan_token(s, i) == e,
    decreases e - i,
{
    if i < e {
        lemma_scan_token_value(s, i + 1, e);
    }
}

pub proof fn lemma_scan_to_char_value(s: Seq<char>, i: int, e: int, t: char)
    requires
        0 <= i <= e <= s.len(),
        forall|j: int| i <= j < e ==> s[j] != t,
        e < s.len() ==> s[e] == t,
    ensures
        scan_to_char(s, i, t) == e,
    decreases e - i,
{
    if i < e {
        lemma_scan_to_char_value(s, i + 1, e, t);
    }
}

// ---------------------------------------------------------------------
// Shell-style word joining, the splitter's inverse
// ---------------------------------------------------------------------
/// A character that needs no quoting: it neither separates words nor
/// carries meaning for the splitter.
pub open spec fn plain_char(c: char) -> bool {
    !(c == ' ' || c == '\t' || c == '\n' || c == '\'' || c == '"' || c == '\\' || c == '#')
}

/// A word the joiner may emit bare.
pub open spec fn is_plain_word(w: Seq<char>) -> bool {
    w.len() > 0 && forall|j: int| 0 <= j < w.len() ==> plain_char(#[trigger] w[j])
}

/// How one character is written inside single quotes: a single quote
/// closes the quotes, escapes itself and reopens them.
pub open spec fn escape_head(c: char) -> Seq<char> {
    if c == '\'' {
        seq!['\'', '\\', '\'', '\'']
    } else {
        seq![c]
    }
}

/// A word's text as it stands between single quotes.
pub open spec fn escape_sq(w: Seq<char>) -> Seq<char>
    decreases w.len(),
{
    if w.len() == 0 {
        Seq::empty()
    } else {
        escape_sq(w.drop_last()) + escape_head(w.last())
    }
}

/// A word as the joiner writes it: bare when it can stand bare, single
/// quoted otherwise.
pub open spec fn quote_word(w: Seq<char>) -> Seq<char> {
    if is_plain_word(w) {
        w
    } else {
        seq!['\''] + escape_sq(w) + seq!['\'']
    }
}

/// Words joined by single spaces, each quoted as needed.
pub open spec fn join_words(ws: Seq<Seq<char>>) -> Seq<char>
    decreases ws.len(),
{
    if ws.len() == 0 {
        Seq::empty()
    } else if ws.len() == 1 {
        quote_word(ws[0])
    } else {
        join_words(ws.drop_last()) + seq![' '] + quote_word(ws.last())
    }
}

proof fn lemma_escape_sq_front(w: Seq<char>)
    requires
        w.len() > 0,
    ensures
        escape_sq(w) == escape_head(w[0]) + escape_sq(w.drop_first()),
    decreases w.len(),
{
    if w.len() == 1 {
        assert(w.drop_last() =~= Seq::<char>::empty());
        assert(w.drop_first() =~= Seq::<char>::empty());
        assert(escape_sq(w) =~= escape_head(w[0]) + escape_sq(w.drop_first()));
    } else {
        lemma_escape_sq_front(w.drop_last());
        assert(w.drop_last()[0] == w[0]);
        assert(w.drop_last().drop_first() =~= w.drop_first().drop_last());
        assert(w.drop_first().last() == w.last());
        assert(escape_head(w[0]) + escape_sq(w.drop_last().drop_first()) + escape_head(w.last())
            =~= escape_head(w[0]) + (escape_sq(w.drop_first().drop_last()) + escape_head(
            w.drop_first().last(),
        )));
    }
}

proof fn lemma_join_words_front(ws: Seq<Seq<char>>)
    requires
        ws.len() >= 2,
    ensures
        join_words(ws) == quote_word(ws[0]) + seq![' '] + join_words(ws.drop_first()),
    decreases ws.len(),
{
    if ws.len() == 2 {
        assert(ws.drop_last()[0] == ws[0]);
        assert(join_words(ws.drop_last()) == quote_word(ws[0]));
        assert(ws.drop_first().len() == 1);
        assert(ws.drop_first()[0] == ws[1]);
        assert(join_words(ws) =~= quote_word(ws[0]) + seq![' '] + join_words(ws.drop_first()));
    } else {
        lemma_join_words_front(ws.drop_last());
        assert(ws.drop_last()[0] == ws[0]);
        assert(ws.drop_last().drop_first() =~= ws.drop_first().drop_last());
        assert(ws.drop_first().last() == ws.last());
        assert(ws.drop_first().len() >= 2);
        assert((quote_word(ws[0]) + seq![' '] + join_words(ws.drop_first().drop_last())) + seq![' ']
            + quote_word(ws.last()) =~= quote_word(ws[0]) + seq![' '] + (join_words(
            ws.drop_first().drop_last(),
        ) + seq![' '] + quote_word(ws.drop_first().last())));
    }
}

/// The splitter's starting state.
pub open spec fn split_init() -> SplitAcc {
    SplitAcc { words: Seq::empty(), cur: Seq::empty(), mode: SplitMode::Delim }
}

/// The splitter run over a whole character sequence from a given state.
pub open spec fn split_fold(st: SplitAcc, s: Seq<char>) -> SplitAcc
    decreases s.len(),
{
    if s.len() == 0 {
        st
    } else {
        split_fold(split_step(st, s[0]), s.drop_first())
    }
}

proof fn lemma_split_fold_single(st: SplitAcc, c: char)
    ensures
        split_fold(st, seq![c]) == split_step(st, c),
{
    let q = seq![c];
    assert(q.drop_first() =~= Seq::<char>::empty());
    assert(split_fold(split_step(st, c), q.drop_first()) == split_step(st, c));
}

proof fn lemma_split_fold_concat(st: SplitAcc, a: Seq<char>, b: Seq<char>)
    ensures
        split_fold(st, a + b) == split_fold(split_fold(st, a), b),
    decreases a.len(),
{
    if a.len() == 0 {
        assert(a + b =~= b);
    } else {
        assert((a + b)[0] == a[0]);
        assert((a + b).drop_first() =~= a.drop_first() + b);
        lemma_split_fold_concat(split_step(st, a[0]), a.drop_first(), b);
    }
}

proof fn lemma_split_run_fold(s: Seq<char>, i: int)
    requires
        0 <= i <= s.len(),
    ensures
        split_run(s, i) == split_fold(split_init(), s.subrange(0, i)),
    decreases i,
{
    if i == 0 {
        assert(s.subrange(0, 0) =~= Seq::<char>::empty());
    } else {
        lemma_split_run_fold(s, i - 1);
        assert(s.subrange(0, i) =~= s.subrange(0, i - 1) + seq![s[i - 1]]);
        lemma_split_fold_concat(split_init(), s.subrange(0, i - 1), seq![s[i - 1]]);
        lemma_split_fold_single(split_fold(split_init(), s.subrange(0, i - 1)), s[i - 1]);
    }
}

proof fn lemma_fold_escape(w: Seq<char>, ws: Seq<Seq<char>>, cur: Seq<char>)
    ensures
        split_fold(SplitAcc { words: ws, cur, mode: SplitMode::Single }, escape_sq(w)) == (SplitAcc {
            words: ws,
            cur: cur + w,
            mode: SplitMode::Single,
        }),
    decreases w.len(),
{
    let st = SplitAcc { words: ws, cur, mode: SplitMode::Single };
    if w.len() == 0 {
        assert(escape_sq(w) =~= Seq::<char>::empty());
        assert(cur + w =~= cur);
    } else {
        lemma_escape_sq_front(w);
        lemma_split_fold_concat(st, escape_head(w[0]), escape_sq(w.drop_first()));
        let c = w[0];
        if c == '\'' {
            let h = escape_head(c);
            let q1 = seq!['\''];
            let q2 = seq!['\\'];
            assert(h =~= q1 + (q2 + (q1 + q1)));
            lemma_split_fold_concat(st, q1, q2 + (q1 + q1));
            lemma_split_fold_single(st, '\'');
            let st_a = split_step(st, '\'');
            lemma_split_fold_concat(st_a, q2, q1 + q1);
            lemma_split_fold_single(st_a, '\\');
            let st_b = split_step(st_a, '\\');
            lemma_split_fold_concat(st_b, q1, q1);
            lemma_split_fold_single(st_b, '\'');
            let st_c = split_step(st_b, '\'');
            lemma_split_fold_single(st_c, '\'');
            assert(split_fold(st, h) == (SplitAcc {
                words: ws,
                cur: cur.push(c),
                mode: SplitMode::Single,
            }));
        } else {
            assert(escape_head(c) =~= seq![c]);
            lemma_split_fold_single(st, c);
        }
        lemma_fold_escape(w.drop_first(), ws, cur.push(c));
        assert(cur.push(c) + w.drop_first() =~= cur + w);
    }
}

proof fn lemma_fold_plain_tail(w: Seq<char>, ws: Seq<Seq<char>>, cur: Seq<char>)
    requires
        forall|j: int| 0 <= j < w.len() ==> plain_char(#[trigger] w[j]),
    ensures
        split_fold(SplitAcc { words: ws, cur, mode: SplitMode::Word }, w) == (SplitAcc {
            words: ws,
            cur: cur + w,
            mode: SplitMode::Word,
        }),
    decreases w.len(),
{
    if w.len() == 0 {
        assert(cur + w =~= cur);
    } else {
        lemma_fold_plain_tail(w.drop_first(), ws, cur.push(w[0]));
        assert(cur.push(w[0]) + w.drop_first() =~= cur + w);
    }
}

proof fn lemma_fold_quote_word(w: Seq<char>, ws: Seq<Seq<char>>)
    ensures
        split_fold(SplitAcc { words: ws, cur: Seq::empty(), mode: SplitMode::Delim }, quote_word(w))
            == (SplitAcc { words: ws, cur: w, mode: SplitMode::Word }),
{
    let st = SplitAcc { words: ws, cur: Seq::empty(), mode: SplitMode::Delim };
    if is_plain_word(w) {
        assert(split_step(st, w[0]) == (SplitAcc {
            words: ws,
            cur: Seq::<char>::empty().push(w[0]),
            mode: SplitMode::Word,
        }));
        lemma_fold_plain_tail(
            w.drop_first(),
            ws,
            Seq::<char>::empty().push(w[0]),
        );
        assert(Seq::<char>::empty().push(w[0]) + w.drop_first() =~= w);
    } else {
        let q = seq!['\''];
        assert(quote_word(w) == q + escape_sq(w) + q);
        assert(q + escape_sq(w) + q =~= q + (escape_sq(w) + q));
        lemma_split_fold_concat(st, q, escape_sq(w) + q);
        lemma_split_fold_single(st, '\'');
        let st1 = SplitAcc { words: ws, cur: Seq::empty(), mode: SplitMode::Single };
        assert(split_fold(st, q) == st1);
        lemma_split_fold_concat(st1, escape_sq(w), q);
        lemma_fold_escape(w, ws, Seq::empty());
        assert(Seq::<char>::empty() + w =~= w);
        let st2 = SplitAcc { words: ws, cur: w, mode: SplitMode::Single };
        lemma_split_fold_single(st2, '\'');
        assert(split_fold(st2, q) == (SplitAcc { words: ws, cur: w, mode: SplitMode::Word }));
    }
}

proof fn lemma_fold_join(ws: Seq<Seq<char>>, words0: Seq<Seq<char>>)
    requires
        ws.len() > 0,
    ensures
        split_fold(
            SplitAcc { words: words0, cur: Seq::empty(), mode: SplitMode::Delim },
            join_words(ws),
        ) == (SplitAcc { words: words0 + ws.drop_last(), cur: ws.last(), mode: SplitMode::Word }),
    decreases ws.len(),
{
    let st = SplitAcc { words: words0, cur: Seq::empty(), mode: SplitMode::Delim };
    if ws.len() == 1 {
        lemma_fold_quote_word(ws[0], words0);
        assert(words0 + ws.drop_last() =~= words0);
    } else {
        lemma_join_words_front(ws);
        assert(quote_word(ws[0]) + seq![' '] + join_words(ws.drop_first()) =~= quote_word(ws[0]) + (
        seq![' '] + join_words(ws.drop_first())));
        lemma_split_fold_concat(st, quote_word(ws[0]), seq![' '] + join_words(ws.drop_first()));
        lemma_fold_quote_word(ws[0], words0);
        let st1 = SplitAcc { words: words0, cur: ws[0], mode: SplitMode::Word };
        lemma_split_fold_concat(st1, seq![' '], join_words(ws.drop_first()));
        lemma_split_fold_single(st1, ' ');
        let st2 = SplitAcc {
            words: words0.push(ws[0]),
            cur: Seq::empty(),
            mode: SplitMode::Delim,
        };
        assert(split_fold(st1, seq![' ']) == st2);
        lemma_fold_join(ws.drop_first(), words0.push(ws[0]));
        assert(words0.push(ws[0]) + ws.drop_first().drop_last() =~= words0 + ws.drop_last());
        assert(ws.drop_first().last() == ws.last());
    }
}

/// Law: splitting what the joiner wrote yields the words back.
pub proof fn lemma_shell_split_join(ws: Seq<Seq<char>>)
    requires
        ws.len() > 0,
    ensures
        spec_shell_split(join_words(ws)) == Some(ws),
{
    let s = join_words(ws);
    lemma_split_run_fold(s, s.len() as int);
    assert(s.subrange(0, s.len() as int) =~= s);
    lemma_fold_join(ws, Seq::empty());
    assert((Seq::<Seq<char>>::empty() + ws.drop_last()).push(ws.last()) =~= ws);
}

pub proof fn lemma_parse_elems_tail(x: Seq<char>, rest: Seq<Seq<char>>, k: int)
    requires
        0 <= k,
    ensures
        spec_parse_elems(seq![x] + rest, k + 1) == spec_parse_elems(rest, k),
    decreases rest.len() - k,
{
    let es = seq![x] + rest;
    if k < rest.len() {
        assert(es[k + 1] == rest[k]);
        lemma_parse_elems_tail(x, rest, k + 1);
    }
}

/// Law: parsing a nonempty element list starts with its first element.
pub proof fn lemma_parse_elems_cons(x: Seq<char>, rest: Seq<Seq<char>>)
    ensures
        spec_parse_elems(seq![x] + rest, 0) == (match spec_parse_elem(x) {
            Err(e) => Err::<Seq<WatchOptionV>, ParseWatchError>(e),
            Ok(o) => match spec_parse_elems(rest, 0) {
                Err(e) => Err(e),
                Ok(os) => Ok(seq![o] + os),
            },
        }),
{
    let es = seq![x] + rest;
    assert(es[0] == x);
    lemma_parse_elems_tail(x, rest, 0);
}

/// Law: an element without separators or an equals sign parses as a
/// mask name.
pub proof fn lemma_parse_elem_plain(nm: Seq<char>)
    requires
        crate::events::plain_name(nm),
    ensures
        spec_parse_elem(nm) == Ok::<WatchOptionV, ParseWatchError>(WatchOptionV::Mask(nm)),
{
    lemma_scan_to_char_value(nm, 0, nm.len() as int, '=');
}

/// The first character the joiner writes is never a separator.
pub proof fn lemma_quote_word_head(w: Seq<char>)
    ensures
        quote_word(w).len() > 0,
        !is_space_char(quote_word(w)[0]),
        quote_word(w)[0] != '#',
{
    if is_plain_word(w) {
    } else {
        assert(quote_word(w)[0] == '\'');
    }
}

/// The joined command of at least one word starts with a non-separator.
pub proof fn lemma_join_words_head(ws: Seq<Seq<char>>)
    requires
        ws.len() > 0,
    ensures
        join_words(ws).len() > 0,
        !is_space_char(join_words(ws)[0]),
    decreases ws.len(),
{
    lemma_quote_word_head(ws[0]);
    if ws.len() == 1 {
    } else {
        lemma_join_words_front(ws);
        assert(join_words(ws)[0] == quote_word(ws[0])[0]);
    }
}

} // verus!

// Executable counterparts of the joiner.
verus! {

/// Append every character of `v` to `out`.
pub fn push_all(out: &mut Vec<char>, v: &Vec<char>)
    ensures
        final(out)@ == old(out)@ + v@,
{
    let mut i: usize = 0;
    while i < v.len()
        invariant
            i <= v@.len(),
            out@ =~= old(out)@ + v@.subrange(0, i as int),
        decreases v@.len() - i,
    {
        out.push(v[i]);
        assert(out@ =~= old(out)@ + v@.subrange(0, i as int + 1));
        i = i + 1;
    }
    proof {
        assert(out@ =~= old(out)@ + v@);
    }
}

/// Write one word as the joiner does: bare when plain, single quoted
/// otherwise.
pub fn quote_word_exec(w: &str) -> (r: Vec<char>)
    ensures
        r@ == quote_word(w@),
{
    let chars = to_chars(w);
    let n = chars.len();
    let mut plain = n > 0;
    let mut i: usize = 0;
    while i < n
        invariant
            chars@ == w@,
            n == chars@.len(),
            i <= n,
            plain == (n > 0 && forall|j: int| 0 <= j < i ==> plain_char(#[trigger] chars@[j])),
        decreases n - i,
    {
        let c = chars[i];
        let pc = !(c == ' ' || c == '\t' || c == '\n' || c == '\'' || c == '"' || c == '\\' || c
            == '#');
        plain = plain && pc;
        i = i + 1;
    }
    if plain {
        proof {
            assert(is_plain_word(w@));
        }
        return chars;
    }
    proof {
        assert(!is_plain_word(w@));
    }
    let mut out: Vec<char> = Vec::new();
    out.push('\'');
    proof {
        assert(w@.subrange(0, 0) =~= Seq::<char>::empty());
        assert(out@ =~= seq!['\''] + escape_sq(w@.subrange(0, 0)));
    }
    let mut k: usize = 0;
    while k < n
        invariant
            chars@ == w@,
            n == chars@.len(),
            k <= n,
            out@ == seq!['\''] + escape_sq(w@.subrange(0, k as int)),
        decreases n - k,
    {
        let c = chars[k];
        let ghost pre = w@.subrange(0, k as int);
        if c == '\'' {
            out.push('\'');
            out.push('\\');
            out.push('\'');
            out.push('\'');
        } else {
            out.push(c);
        }
        proof {
            assert(w@.subrange(0, k as int + 1).drop_last() =~= pre);
            assert(w@.subrange(0, k as int + 1).last() == w@[k as int]);
            assert(out@ =~= seq!['\''] + (escape_sq(pre) + escape_head(w@[k as int])));
        }
        k = k + 1;
    }
    out.push('\'');
    proof {
        assert(w@.subrange(0, n as int) =~= w@);
        assert(out@ =~= seq!['\''] + escape_sq(w@) + seq!['\'']);
    }
    out
}

/// Join words with single spaces, each quoted as needed.
pub fn join_words_exec(ws: &Vec<String>) -> (r: Vec<char>)
    ensures
        r@ == join_words(ws.deep_view()),
{
    let ghost dv = ws.deep_view();
    let mut out: Vec<char> = Vec::new();
    proof {
        assert(dv.subrange(0, 0) =~= Seq::<Seq<char>>::empty());
    }
    let mut k: usize = 0;
    while k < ws.len()
        invariant
            dv == ws.deep_view(),
            dv.len() == ws@.len(),
            k <= ws@.len(),
            out@ == join_words(dv.subrange(0, k as int)),
        decreases ws@.len() - k,
    {
        proof {
            assert(dv[k as int] =~= ws@[k as int]@);
        }
        let q = quote_word_exec(ws[k].as_str());
        let ghost pre = dv.subrange(0, k as int);
        if k > 0 {
            out.push(' ');
        }
        push_all(&mut out, &q);
        proof {
            let cur = dv.subrange(0, k as int + 1);
            assert(cur.drop_last() =~= pre);
            assert(cur.last() == dv[k as int]);
            if k == 0 {
                assert(cur.len() == 1);
                assert(cur[0] == dv[0]);
                assert(out@ =~= quote_word(dv[0]));
            } else {
                assert(out@ =~= join_words(pre) + seq![' '] + quote_word(dv[k as int]));
            }
        }
        k = k + 1;
    }
    proof {
        assert(dv.subrange(0, dv.len() as int) =~= dv);
    }
    out
}

} // verus!
