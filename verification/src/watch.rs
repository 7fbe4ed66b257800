use vstd::prelude::*;

use crate::events::{format_mask, push_decimal, spec_dec, spec_format_mask, EventInfo};
use crate::parser::{chars_to_string, push_chars, to_chars};

verus! {

/// The program and arguments a watch runs when an event arrives.
#[derive(Debug, Clone, PartialEq, Eq)]
pub struct Command {
    pub program: String,
    pub argv: Vec<String>,
}

pub struct CommandV {
    pub program: Seq<char>,
    pub argv: Seq<Seq<char>>,
}

impl View for Command {
    type V = CommandV;

    open spec fn view(&self) -> CommandV {
        CommandV { program: self.program@, argv: self.argv.deep_view() }
    }
}

/// Why a table line was rejected.
#[derive(Debug, Clone, Copy, PartialEq, Eq, Structural)]
pub enum ParseWatchError {
    IsComment,
    MissingField,
    InvalidMask,
    InvalidAttribute,
    CorruptInput,
}

/// How a watch entry came to be and how it spreads.
#[derive(Debug, Clone, Copy, PartialEq, Eq, Structural)]
pub struct WatchDataAttributes {
    pub starting: bool,
    pub recursive: bool,
}

impl Default for WatchDataAttributes {
    /// A fresh entry stems from a table line and does not recurse.
    fn default() -> (r: Self)
        ensures
            r == (WatchDataAttributes { starting: true, recursive: false }),
    {
        Self { starting: true, recursive: false }
    }
}

/// One watch entry: a path, the event kinds to watch it for, the command
/// to run, and how the entry came to be.
#[derive(Debug, Clone, PartialEq, Eq)]
pub struct WatchData {
    pub path: String,
    pub masks: u32,
    pub command: Command,
    pub attributes: WatchDataAttributes,
}

pub struct WatchDataV {
    pub path: Seq<char>,
    pub masks: u32,
    pub command: CommandV,
    pub attributes: WatchDataAttributes,
}

impl View for WatchData {
    type V = WatchDataV;

    open spec fn view(&self) -> WatchDataV {
        WatchDataV {
            path: self.path@,
            masks: self.masks,
            command: self.command@,
            attributes: self.attributes,
        }
    }
}

impl DeepView for WatchData {
    type V = WatchDataV;

    open spec fn deep_view(&self) -> WatchDataV {
        self.view()
    }
}

impl Command {
    /// A copy whose view equals this one's.
    pub fn duplicate(&self) -> (r: Command)
        ensures
            r@ == self@,
    {
        let mut argv: Vec<String> = Vec::new();
        let mut i: usize = 0;
        while i < self.argv.len()
            invariant
                i <= self.argv@.len(),
                argv@.len() == i,
                forall|k: int| 0 <= k < i ==> argv@[k]@ == self.argv@[k]@,
            decreases self.argv@.len() - i,
        {
            argv.push(self.argv[i].clone());
            i = i + 1;
        }
        assert(argv.deep_view() =~= self.argv.deep_view());
        let r = Command { program: self.program.clone(), argv };
        r
    }
}

impl WatchData {
    /// A copy whose view equals this one's.
    pub fn duplicate(&self) -> (r: WatchData)
        ensures
            r@ == self@,
    {
        WatchData {
            path: self.path.clone(),
            masks: self.masks,
            command: self.command.duplicate(),
            attributes: self.attributes,
        }
    }
}

/// Fold the parsed options into mask bits and the recursive flag, left
/// to right: mask names are looked up and unioned, duplicates are
/// harmless; `recursive` may be set several times, the last value wins;
/// an unknown mask or attribute name stops the fold with its error.
pub open spec fn spec_apply_options(
    opts: Seq<crate::parser::WatchOptionV>,
    i: int,
    m: u32,
    rec: bool,
) -> Result<(u32, bool), ParseWatchError>
    decreases opts.len() - i,
{
    if i < 0 || i >= opts.len() {
        Ok((m, rec))
    } else {
        match opts[i] {
            crate::parser::WatchOptionV::Mask(nm) => match crate::events::spec_mask_of_name(nm) {
                None => Err(ParseWatchError::InvalidMask),
                Some(bits) => spec_apply_options(opts, i + 1, m | bits, rec),
            },
            crate::parser::WatchOptionV::Attribute(nm, v) => if nm == "recursive"@ {
                spec_apply_options(opts, i + 1, m, v)
            } else {
                Err(ParseWatchError::InvalidAttribute)
            },
        }
    }
}

fn apply_options(opts: &Vec<crate::parser::WatchOption>) -> (r: Result<
    (u32, bool),
    ParseWatchError,
>)
    ensures
        match r {
            Ok(p) => spec_apply_options(opts.deep_view(), 0, 0, false) == Ok::<
                (u32, bool),
                ParseWatchError,
            >(p),
            Err(e) => spec_apply_options(opts.deep_view(), 0, 0, false) == Err::<
                (u32, bool),
                ParseWatchError,
            >(e),
        },
{
    let ghost dv = opts.deep_view();
    let mut m: u32 = 0;
    let mut rec = false;
    let mut i: usize = 0;
    while i < opts.len()
        invariant
            i <= opts@.len(),
            dv == opts.deep_view(),
            dv.len() == opts@.len(),
            spec_apply_options(dv, 0, 0, false) == spec_apply_options(dv, i as int, m, rec),
        decreases opts@.len() - i,
    {
        proof {
            assert(dv[i as int] == opts@[i as int].deep_view());
        }
        match &opts[i] {
            crate::parser::WatchOption::Mask(nm) => {
                match crate::events::parse_name(nm.as_str()) {
                    Some(w) => {
                        m = m | w.0;
                    },
                    None => {
                        return Err(ParseWatchError::InvalidMask);
                    },
                }
            },
            crate::parser::WatchOption::Attribute(nm, v) => {
                if crate::events::str_eq_str(nm.as_str(), "recursive") {
                    rec = *v;
                } else {
                    return Err(ParseWatchError::InvalidAttribute);
                }
            },
        }
        i = i + 1;
    }
    Ok((m, rec))
}

/// Parse one table line.  After any leading spaces, a `#` marks a
/// comment; otherwise the line carries a path token, an options token,
/// and a shell-split command, each separated by spaces; a line missing
/// one of the three is rejected, and so is an options field that names
/// no event kind, since an entry's mask set may not be empty.  Entries
/// born here are starting entries.
pub open spec fn spec_parse_line(s: Seq<char>) -> Result<WatchDataV, ParseWatchError> {
    let lo = crate::parser::skip_spaces(s, 0);
    if lo >= s.len() {
        Err(ParseWatchError::MissingField)
    } else if s[lo] == '#' {
        Err(ParseWatchError::IsComment)
    } else {
        let pr = crate::parser::spec_parse_path_at(s, 0);
        let mr = crate::parser::spec_parse_masks_at(s, pr.1);
        match mr.0 {
            Err(e) => Err(e),
            Ok(opts) => match spec_apply_options(opts, 0, 0, false) {
                Err(e) => Err(e),
                Ok(p) => if p.0 == 0 {
                    Err(ParseWatchError::InvalidMask)
                } else if mr.1 >= s.len() {
                    Err(ParseWatchError::MissingField)
                } else {
                    match crate::parser::spec_parse_command(s.subrange(mr.1, s.len() as int)) {
                        Err(e) => Err(e),
                        Ok(cmd) => Ok(
                            WatchDataV {
                                path: pr.0,
                                masks: p.0,
                                command: cmd,
                                attributes: WatchDataAttributes { starting: true, recursive: p.1 },
                            },
                        ),
                    }
                },
            },
        }
    }
}

impl WatchData {
    /// Parse one table line into a watch entry.
    pub fn parse_line(input: &str) -> (r: Result<WatchData, ParseWatchError>)
        ensures
            match r {
                Ok(w) => spec_parse_line(input@) == Ok::<WatchDataV, ParseWatchError>(w@),
                Err(e) => spec_parse_line(input@) == Err::<WatchDataV, ParseWatchError>(e),
            },
    {
        let chars = to_chars(input);
        let lo = crate::parser::skip_spaces_exec(&chars, 0);
        if lo >= chars.len() {
            return Err(ParseWatchError::MissingField);
        }
        if chars[lo] == '#' {
            return Err(ParseWatchError::IsComment);
        }
        let (path, p1) = crate::parser::parse_path(input, 0);
        let (mres, p2) = crate::parser::parse_masks(input, p1);
        let opts = match mres {
            Ok(o) => o,
            Err(e) => {
                return Err(e);
            },
        };
        let p = match apply_options(&opts) {
            Ok(p) => p,
            Err(e) => {
                return Err(e);
            },
        };
        if p.0 == 0 {
            return Err(ParseWatchError::InvalidMask);
        }
        if p2 >= input.unicode_len() {
            return Err(ParseWatchError::MissingField);
        }
        match crate::parser::parse_command(input, p2) {
            Err(e) => Err(e),
            Ok(cmd) => Ok(
                WatchData {
                    path,
                    masks: p.0,
                    command: cmd,
                    attributes: WatchDataAttributes { starting: true, recursive: p.1 },
                },
            ),
        }
    }
}

impl core::str::FromStr for WatchData {
    type Err = ParseWatchError;

    fn from_str(s: &str) -> Result<WatchData, ParseWatchError> {
        WatchData::parse_line(s)
    }
}

/// One step of the template scan: the text produced by the first `i`
/// characters of `arg`, and whether a lone `$` is pending.
pub open spec fn spec_expand_upto(
    arg: Seq<char>,
    i: int,
    path: Seq<char>,
    name: Seq<char>,
    mask: u32,
) -> (Seq<char>, bool)
    decreases i,
{
    if i <= 0 {
        (Seq::empty(), false)
    } else {
        let prev = spec_expand_upto(arg, i - 1, path, name, mask);
        let acc = prev.0;
        let dol = prev.1;
        let c = arg[i - 1];
        if c == '$' {
            if dol {
                (acc.push('$'), false)
            } else {
                (acc, true)
            }
        } else if dol {
            if c == '#' {
                (acc + name, false)
            } else if c == '@' {
                (acc + path, false)
            } else if c == '%' {
                (acc.push('"') + spec_format_mask(mask) + seq!['"'], false)
            } else if c == '&' {
                (acc + spec_dec(mask as nat), false)
            } else {
                (acc.push(c), false)
            }
        } else {
            (acc.push(c), false)
        }
    }
}

/// The template substitution of `$@ $# $% $& $$` in one argument.  A `$`
/// left pending at the end of the argument is dropped.
pub open spec fn spec_expand_arg(
    arg: Seq<char>,
    path: Seq<char>,
    name: Seq<char>,
    mask: u32,
) -> Seq<char> {
    spec_expand_upto(arg, arg.len() as int, path, name, mask).0
}

/// Substitute event metadata into one command argument.
pub fn expand_arg(arg: &str, path: &str, ev: &EventInfo) -> (r: String)
    ensures
        r@ == spec_expand_arg(arg@, path@, ev.name_chars(), ev.mask),
{
    let chars = to_chars(arg);
    let n = chars.len();
    let mut out: Vec<char> = Vec::new();
    let mut dol = false;
    let mut i: usize = 0;
    while i < n
        invariant
            chars@ == arg@,
            n == chars@.len(),
            i <= n,
            out@ == spec_expand_upto(arg@, i as int, path@, ev.name_chars(), ev.mask).0,
            dol == spec_expand_upto(arg@, i as int, path@, ev.name_chars(), ev.mask).1,
        decreases n - i,
    {
        let c = chars[i];
        if c == '$' {
            if dol {
                out.push('$');
                dol = false;
            } else {
                dol = true;
            }
        } else if dol {
            if c == '#' {
                match &ev.name {
                    Some(s) => push_chars(&mut out, s.as_str()),
                    None => {
                        assert(out@ + ev.name_chars() =~= out@);
                    },
                }
            } else if c == '@' {
                push_chars(&mut out, path);
            } else if c == '%' {
                let fm = format_mask(ev.mask);
                out.push('"');
                push_chars(&mut out, fm.as_str());
                out.push('"');
                assert(out@ =~= spec_expand_upto(arg@, i as int, path@, ev.name_chars(), ev.mask).0.push(
                    '"',
                ) + spec_format_mask(ev.mask) + seq!['"']);
            } else if c == '&' {
                push_decimal(ev.mask, &mut out);
            } else {
                out.push(c);
            }
            dol = false;
        } else {
            out.push(c);
        }
        i = i + 1;
    }
    chars_to_string(&out)
}

/// Whether `s` never holds the escape pair `$$`.
pub open spec fn no_double_dollar(s: Seq<char>) -> bool {
    forall|j: int| 0 <= j && j + 1 < s.len() ==> !(#[trigger] s[j] == '$' && s[j + 1] == '$')
}

proof fn lemma_expand_upto_no_dollar(
    arg: Seq<char>,
    i: int,
    path: Seq<char>,
    name: Seq<char>,
    mask: u32,
)
    requires
        0 <= i <= arg.len(),
        crate::events::no_dollar(arg),
    ensures
        spec_expand_upto(arg, i, path, name, mask).0 == arg.subrange(0, i),
        spec_expand_upto(arg, i, path, name, mask).1 == false,
    decreases i,
{
    if i > 0 {
        lemma_expand_upto_no_dollar(arg, i - 1, path, name, mask);
        assert(arg.subrange(0, i) =~= arg.subrange(0, i - 1).push(arg[i - 1]));
    } else {
        assert(arg.subrange(0, 0) =~= Seq::<char>::empty());
    }
}

/// Law: on an argument free of `$` the substitution is the identity.
pub proof fn lemma_expand_no_dollar_identity(
    arg: Seq<char>,
    path: Seq<char>,
    name: Seq<char>,
    mask: u32,
)
    requires
        crate::events::no_dollar(arg),
    ensures
        spec_expand_arg(arg, path, name, mask) == arg,
{
    lemma_expand_upto_no_dollar(arg, arg.len() as int, path, name, mask);
    assert(arg.subrange(0, arg.len() as int) =~= arg);
}

/// Law: on an argument free of `$` the substitution is idempotent:
/// substituting a second time changes nothing.
pub proof fn lemma_expand_idempotent(arg: Seq<char>, path: Seq<char>, name: Seq<char>, mask: u32)
    requires
        crate::events::no_dollar(arg),
    ensures
        spec_expand_arg(spec_expand_arg(arg, path, name, mask), path, name, mask)
            == spec_expand_arg(arg, path, name, mask),
{
    lemma_expand_no_dollar_identity(arg, path, name, mask);
}

proof fn lemma_expand_upto_output(arg: Seq<char>, i: int, path: Seq<char>, name: Seq<char>, mask: u32)
    requires
        0 <= i <= arg.len(),
        no_double_dollar(arg),
        crate::events::no_dollar(path),
        crate::events::no_dollar(name),
    ensures
        crate::events::no_dollar(spec_expand_upto(arg, i, path, name, mask).0),
        spec_expand_upto(arg, i, path, name, mask).1 ==> i >= 1 && arg[i - 1] == '$',
    decreases i,
{
    if i > 0 {
        lemma_expand_upto_output(arg, i - 1, path, name, mask);
        let prev = spec_expand_upto(arg, i - 1, path, name, mask);
        let c = arg[i - 1];
        if c != '$' && prev.1 {
            if c == '%' {
                crate::events::lemma_format_mask_no_dollar(mask);
                assert(crate::events::no_dollar(
                    prev.0.push('"') + spec_format_mask(mask) + seq!['"'],
                ));
            } else if c == '&' {
                crate::events::lemma_dec_no_dollar(mask as nat);
            }
        }
    }
}

/// Law: substituting into an argument that never holds the escape pair
/// `$$`, with a watch path and an event name free of `$`, yields text
/// free of `$`.
pub proof fn lemma_expand_no_dollar_output(
    arg: Seq<char>,
    path: Seq<char>,
    name: Seq<char>,
    mask: u32,
)
    requires
        no_double_dollar(arg),
        crate::events::no_dollar(path),
        crate::events::no_dollar(name),
    ensures
        crate::events::no_dollar(spec_expand_arg(arg, path, name, mask)),
{
    lemma_expand_upto_output(arg, arg.len() as int, path, name, mask);
}


/// The attribute element the serializer always writes last.
pub open spec fn recattr(rec: bool) -> Seq<char> {
    "recursive="@ + (if rec {
        "true"@
    } else {
        "false"@
    })
}

/// The catalog names of the bits of `m`, from catalog position `i` on.
pub open spec fn mask_name_elems(m: u32, i: int) -> Seq<Seq<char>>
    decreases crate::events::spec_catalog().len() - i,
{
    if i < 0 || i >= crate::events::spec_catalog().len() {
        Seq::empty()
    } else {
        let rest = mask_name_elems(m, i + 1);
        if m & crate::events::spec_catalog()[i].0 != 0 {
            seq![crate::events::spec_catalog()[i].1] + rest
        } else {
            rest
        }
    }
}

/// The union of the catalog bits of `m` from position `i` on.
pub open spec fn or_rest(m: u32, i: int) -> u32
    decreases crate::events::spec_catalog().len() - i,
{
    if i < 0 || i >= crate::events::spec_catalog().len() {
        0
    } else {
        (if m & crate::events::spec_catalog()[i].0 != 0 {
            crate::events::spec_catalog()[i].0
        } else {
            0u32
        }) | or_rest(m, i + 1)
    }
}

/// The elements of a serialized options field: the mask names, or the
/// one name of the whole catalog, then the recursive attribute.
pub open spec fn options_elems(m: u32, rec: bool) -> Seq<Seq<char>> {
    (if m == crate::events::MASK_ALL_EVENTS {
        seq!["IN_ALL_EVENTS"@]
    } else {
        mask_name_elems(m, 0)
    }).push(recattr(rec))
}

/// Elements joined by commas.
pub open spec fn join_commas(es: Seq<Seq<char>>) -> Seq<char>
    decreases es.len(),
{
    if es.len() == 0 {
        Seq::empty()
    } else if es.len() == 1 {
        es[0]
    } else {
        join_commas(es.drop_last()) + seq![','] + es.last()
    }
}

/// The options field as the serializer writes it.
pub open spec fn spec_options_token(m: u32, rec: bool) -> Seq<char> {
    join_commas(options_elems(m, rec))
}

/// A whole serialized table line: path, options and command, separated
/// by tabs.
pub open spec fn spec_serialize_line(e: WatchDataV) -> Seq<char> {
    e.path + seq!['\t'] + spec_options_token(e.masks, e.attributes.recursive) + seq!['\t']
        + crate::parser::join_words(seq![e.command.program] + e.command.argv)
}

/// A mask the serializer can write: the whole catalog, or a union of
/// singly named kinds.
pub open spec fn mask_producible(m: u32) -> bool {
    m == crate::events::MASK_ALL_EVENTS || m & 0xffb == m
}

/// An entry every part of which the serializer can put on one line: a
/// nonempty path without separators that opens no comment, a starting
/// attribute set, and a writable, nonempty mask.
pub open spec fn producible(e: WatchDataV) -> bool {
    e.path.len() > 0 && (forall|j: int|
        0 <= j < e.path.len() ==> !crate::parser::is_space_char(#[trigger] e.path[j])) && e.path[0]
        != '#' && e.attributes.starting && mask_producible(e.masks) && e.masks != 0
}

/// The substitution applied to a whole argument vector.
pub open spec fn spec_expand_argv(
    argv: Seq<Seq<char>>,
    path: Seq<char>,
    name: Seq<char>,
    mask: u32,
) -> Seq<Seq<char>> {
    argv.map(|i: int, a: Seq<char>| spec_expand_arg(a, path, name, mask))
}

impl Command {
    /// The argument vector with every template placeholder substituted
    /// from the event.  The program name is not rewritten.
    pub fn expanded_argv(&self, path: &str, ev: &EventInfo) -> (r: Vec<String>)
        ensures
            r.deep_view() == spec_expand_argv(self@.argv, path@, ev.name_chars(), ev.mask),
    {
        let mut out: Vec<String> = Vec::new();
        let mut i: usize = 0;
        while i < self.argv.len()
            invariant
                i <= self.argv@.len(),
                out@.len() == i,
                forall|k: int| 0 <= k < i ==> out@[k]@ == spec_expand_arg(
                    self.argv@[k]@,
                    path@,
                    ev.name_chars(),
                    ev.mask,
                ),
            decreases self.argv@.len() - i,
        {
            let e = expand_arg(self.argv[i].as_str(), path, ev);
            out.push(e);
            i = i + 1;
        }
        assert(out.deep_view() =~= spec_expand_argv(self@.argv, path@, ev.name_chars(), ev.mask));
        out
    }
}

} // verus!

// The lemmas below relate the serializer's options field to the parser.
verus! {

proof fn lemma_join_commas_front(es: Seq<Seq<char>>)
    requires
        es.len() >= 2,
    ensures
        join_commas(es) == es[0] + seq![','] + join_commas(es.drop_first()),
    decreases es.len(),
{
    if es.len() == 2 {
        assert(es.drop_last()[0] == es[0]);
        assert(es.drop_first().len() == 1);
        assert(es.drop_first()[0] == es[1]);
        assert(join_commas(es.drop_last()) == es.drop_last()[0]);
        assert(join_commas(es.drop_first()) == es.drop_first()[0]);
        assert(join_commas(es) =~= es[0] + seq![','] + join_commas(es.drop_first()));
    } else {
        lemma_join_commas_front(es.drop_last());
        assert(es.drop_last()[0] == es[0]);
        assert(es.drop_last().drop_first() =~= es.drop_first().drop_last());
        assert(es.drop_first().last() == es.last());
        assert(es.drop_first().len() >= 2);
        assert((es[0] + seq![','] + join_commas(es.drop_first().drop_last())) + seq![',']
            + es.last() =~= es[0] + seq![','] + (join_commas(es.drop_first().drop_last()) + seq![',']
            + es.drop_first().last()));
    }
}

/// An element as the options field may carry it: nonempty, free of
/// separators and commas.
pub open spec fn field_elem(e: Seq<char>) -> bool {
    e.len() > 0 && forall|j: int|
        0 <= j < e.len() ==> !crate::parser::is_space_char(#[trigger] e[j]) && e[j] != ','
}

proof fn lemma_split_join_commas(es: Seq<Seq<char>>)
    requires
        es.len() > 0,
        forall|k: int| 0 <= k < es.len() ==> field_elem(#[trigger] es[k]),
    ensures
        crate::parser::split_commas(join_commas(es)) == es,
        join_commas(es).len() > 0,
        forall|j: int|
            0 <= j < join_commas(es).len() ==> !crate::parser::is_space_char(
                #[trigger] join_commas(es)[j],
            ) ,
    decreases es.len(),
{
    if es.len() == 1 {
        assert(field_elem(es[0]));
        crate::parser::lemma_split_sep_whole(es[0], ',');
        assert(seq![es[0]] =~= es);
    } else {
        lemma_join_commas_front(es);
        assert forall|k: int| 0 <= k < es.drop_first().len() implies field_elem(
            #[trigger] es.drop_first()[k],
        ) by {
            assert(es.drop_first()[k] == es[k + 1]);
        }
        lemma_split_join_commas(es.drop_first());
        assert(field_elem(es[0]));
        crate::parser::lemma_split_sep_of_concat(es[0], join_commas(es.drop_first()), ',');
        assert(es[0] + seq![','] + join_commas(es.drop_first()) =~= join_commas(es));
        assert(seq![es[0]] + es.drop_first() =~= es);
        let s = join_commas(es);
        assert forall|j: int| 0 <= j < s.len() implies !crate::parser::is_space_char(
            #[trigger] s[j],
        ) by {
            let a = es[0];
            let t = join_commas(es.drop_first());
            if j < a.len() {
                assert(s[j] == a[j]);
            } else if j == a.len() {
                assert(s[j] == ',');
            } else {
                assert(s[j] == t[j - a.len() - 1]);
            }
        }
    }
}

proof fn lemma_apply_options_tail(
    x: crate::parser::WatchOptionV,
    rest: Seq<crate::parser::WatchOptionV>,
    k: int,
    m: u32,
    rec: bool,
)
    requires
        0 <= k,
    ensures
        spec_apply_options(seq![x] + rest, k + 1, m, rec) == spec_apply_options(rest, k, m, rec),
    decreases rest.len() - k,
{
    if k < rest.len() {
        assert((seq![x] + rest)[k + 1] == rest[k]);
        match rest[k] {
            crate::parser::WatchOptionV::Mask(nm) => {
                match crate::events::spec_mask_of_name(nm) {
                    Some(b) => lemma_apply_options_tail(x, rest, k + 1, m | b, rec),
                    None => {},
                }
            },
            crate::parser::WatchOptionV::Attribute(nm, v) => {
                if nm == "recursive"@ {
                    lemma_apply_options_tail(x, rest, k + 1, m, v);
                }
            },
        }
    }
}

proof fn lemma_recattr_facts(rec: bool)
    ensures
        crate::parser::spec_parse_elem(recattr(rec)) == Ok::<
            crate::parser::WatchOptionV,
            ParseWatchError,
        >(crate::parser::WatchOptionV::Attribute("recursive"@, rec)),
        field_elem(recattr(rec)),
{
    reveal_strlit("recursive=");
    reveal_strlit("recursive");
    reveal_strlit("true");
    reveal_strlit("false");
    let e = recattr(rec);
    assert("recursive="@.len() == 10);
    assert("recursive"@.len() == 9);
    assert("true"@.len() == 4);
    assert("false"@.len() == 5);
    assert(forall|j: int| 0 <= j < 10 ==> e[j] == "recursive="@[j]);
    crate::parser::lemma_scan_to_char_value(e, 0, 9, '=');
    assert(e.subrange(0, 9) =~= "recursive"@);
    if rec {
        assert(e.subrange(10, e.len() as int) =~= "true"@);
    } else {
        assert(e.subrange(10, e.len() as int) =~= "false"@);
        assert("false"@.len() != "true"@.len());
    }
    assert forall|j: int| 0 <= j < e.len() implies !crate::parser::is_space_char(#[trigger] e[j])
        && e[j] != ',' by {
        if j >= 10 {
            if rec {
                assert(e[j] == "true"@[j - 10]);
            } else {
                assert(e[j] == "false"@[j - 10]);
            }
        }
    }
}

proof fn lemma_mask_name_elems_props(m: u32, i: int)
    requires
        0 <= i <= crate::events::spec_catalog().len(),
    ensures
        forall|j: int|
            0 <= j < mask_name_elems(m, i).len() ==> crate::events::plain_name(
                #[trigger] mask_name_elems(m, i)[j],
            ),
    decreases crate::events::spec_catalog().len() - i,
{
    crate::events::lemma_catalog_facts();
    if i < crate::events::spec_catalog().len() {
        lemma_mask_name_elems_props(m, i + 1);
        let rest = mask_name_elems(m, i + 1);
        if m & crate::events::spec_catalog()[i].0 != 0 {
            let es = mask_name_elems(m, i);
            assert forall|j: int| 0 <= j < es.len() implies crate::events::plain_name(
                #[trigger] es[j],
            ) by {
                if j == 0 {
                    assert(es[0] == crate::events::spec_catalog()[i].1);
                } else {
                    assert(es[j] == rest[j - 1]);
                }
            }
        }
    }
}

proof fn lemma_options_fold(m: u32, rec: bool, i: int, acc: u32, r0: bool)
    requires
        0 <= i <= crate::events::spec_catalog().len(),
    ensures
        ({
            let es = mask_name_elems(m, i).push(recattr(rec));
            match crate::parser::spec_parse_elems(es, 0) {
                Ok(opts) => spec_apply_options(opts, 0, acc, r0) == Ok::<
                    (u32, bool),
                    ParseWatchError,
                >(((acc | or_rest(m, i)), rec)),
                Err(_) => false,
            }
        }),
    decreases crate::events::spec_catalog().len() - i,
{
    crate::events::lemma_catalog_facts();
    if i == crate::events::spec_catalog().len() {
        assert(mask_name_elems(m, i) =~= Seq::<Seq<char>>::empty());
        let es = mask_name_elems(m, i).push(recattr(rec));
        assert(es =~= seq![recattr(rec)] + Seq::<Seq<char>>::empty());
        lemma_recattr_facts(rec);
        crate::parser::lemma_parse_elems_cons(recattr(rec), Seq::empty());
        let attr = crate::parser::WatchOptionV::Attribute("recursive"@, rec);
        let opts = seq![attr] + Seq::<crate::parser::WatchOptionV>::empty();
        assert(opts[0] == attr);
        lemma_apply_options_tail(attr, Seq::empty(), 0, acc, rec);
        let r = or_rest(m, i);
        assert(r == 0);
        assert(acc | r == acc) by (bit_vector)
            requires
                r == 0,
        ;
    } else {
        let bit = crate::events::spec_catalog()[i].0;
        let nm = crate::events::spec_catalog()[i].1;
        if m & bit != 0 {
            lemma_options_fold(m, rec, i + 1, acc | bit, r0);
            let rest_es = mask_name_elems(m, i + 1).push(recattr(rec));
            let es = mask_name_elems(m, i).push(recattr(rec));
            assert(es =~= seq![nm] + rest_es);
            crate::parser::lemma_parse_elems_cons(nm, rest_es);
            crate::parser::lemma_parse_elem_plain(nm);
            match crate::parser::spec_parse_elems(rest_es, 0) {
                Ok(opts_rest) => {
                    let o0 = crate::parser::WatchOptionV::Mask(nm);
                    let opts = seq![o0] + opts_rest;
                    assert(opts[0] == o0);
                    lemma_apply_options_tail(o0, opts_rest, 0, acc | bit, r0);
                    let b = bit;
                    let r = or_rest(m, i + 1);
                    assert((acc | b) | r == acc | (b | r)) by (bit_vector);
                },
                Err(_) => {
                    assert(false);
                },
            }
        } else {
            lemma_options_fold(m, rec, i + 1, acc, r0);
            assert(mask_name_elems(m, i) == mask_name_elems(m, i + 1));
            let r = or_rest(m, i + 1);
            assert(acc | (0u32 | r) == acc | r) by (bit_vector);
        }
    }
}

proof fn lemma_or_rest_whole(m: u32)
    requires
        m & 0xffb == m,
    ensures
        or_rest(m, 0) == m,
{
    crate::events::lemma_catalog_facts();
    assert(or_rest(m, 11) == 0);
    assert(m & 0x1u32 == 0 || m & 0x1u32 == 0x1u32) by (bit_vector);
    assert(m & 0x2u32 == 0 || m & 0x2u32 == 0x2u32) by (bit_vector);
    assert(m & 0x8u32 == 0 || m & 0x8u32 == 0x8u32) by (bit_vector);
    assert(m & 0x10u32 == 0 || m & 0x10u32 == 0x10u32) by (bit_vector);
    assert(m & 0x20u32 == 0 || m & 0x20u32 == 0x20u32) by (bit_vector);
    assert(m & 0x40u32 == 0 || m & 0x40u32 == 0x40u32) by (bit_vector);
    assert(m & 0x80u32 == 0 || m & 0x80u32 == 0x80u32) by (bit_vector);
    assert(m & 0x100u32 == 0 || m & 0x100u32 == 0x100u32) by (bit_vector);
    assert(m & 0x200u32 == 0 || m & 0x200u32 == 0x200u32) by (bit_vector);
    assert(m & 0x400u32 == 0 || m & 0x400u32 == 0x400u32) by (bit_vector);
    assert(m & 0x800u32 == 0 || m & 0x800u32 == 0x800u32) by (bit_vector);
    assert(or_rest(m, 10) == (m & 0x800u32) | 0);
    assert(or_rest(m, 9) == (m & 0x400u32) | ((m & 0x800u32) | 0));
    assert(or_rest(m, 8) == (m & 0x200u32) | ((m & 0x400u32) | ((m & 0x800u32) | 0)));
    assert(or_rest(m, 7) == (m & 0x100u32) | ((m & 0x200u32) | ((m & 0x400u32) | ((m & 0x800u32)
        | 0))));
    assert(or_rest(m, 6) == (m & 0x80u32) | ((m & 0x100u32) | ((m & 0x200u32) | ((m & 0x400u32) | ((
    m & 0x800u32) | 0)))));
    assert(or_rest(m, 5) == (m & 0x40u32) | ((m & 0x80u32) | ((m & 0x100u32) | ((m & 0x200u32) | ((m
        & 0x400u32) | ((m & 0x800u32) | 0))))));
    assert(or_rest(m, 4) == (m & 0x20u32) | ((m & 0x40u32) | ((m & 0x80u32) | ((m & 0x100u32) | ((m
        & 0x200u32) | ((m & 0x400u32) | ((m & 0x800u32) | 0)))))));
    assert(or_rest(m, 3) == (m & 0x10u32) | ((m & 0x20u32) | ((m & 0x40u32) | ((m & 0x80u32) | ((m
        & 0x100u32) | ((m & 0x200u32) | ((m & 0x400u32) | ((m & 0x800u32) | 0))))))));
    assert(or_rest(m, 2) == (m & 0x8u32) | ((m & 0x10u32) | ((m & 0x20u32) | ((m & 0x40u32) | ((m
        & 0x80u32) | ((m & 0x100u32) | ((m & 0x200u32) | ((m & 0x400u32) | ((m & 0x800u32)
        | 0)))))))));
    assert(or_rest(m, 1) == (m & 0x2u32) | ((m & 0x8u32) | ((m & 0x10u32) | ((m & 0x20u32) | ((m
        & 0x40u32) | ((m & 0x80u32) | ((m & 0x100u32) | ((m & 0x200u32) | ((m & 0x400u32) | ((m
        & 0x800u32) | 0))))))))));
    assert(or_rest(m, 0) == (m & 0x1u32) | ((m & 0x2u32) | ((m & 0x8u32) | ((m & 0x10u32) | ((m
        & 0x20u32) | ((m & 0x40u32) | ((m & 0x80u32) | ((m & 0x100u32) | ((m & 0x200u32) | ((m
        & 0x400u32) | ((m & 0x800u32) | 0)))))))))));
    assert((m & 0x1u32) | ((m & 0x2u32) | ((m & 0x8u32) | ((m & 0x10u32) | ((m & 0x20u32) | ((m
        & 0x40u32) | ((m & 0x80u32) | ((m & 0x100u32) | ((m & 0x200u32) | ((m & 0x400u32) | ((m
        & 0x800u32) | 0)))))))))) == m) by (bit_vector)
        requires
            m & 0xffb == m,
    ;
}

/// Law: the serializer's options field always scans as one clean token,
/// and parsing it yields back exactly the mask and the recursive flag it
/// was written from.
pub proof fn lemma_options_token_ok(m: u32, rec: bool)
    requires
        mask_producible(m),
    ensures
        ({
            let tok = spec_options_token(m, rec);
            &&& tok.len() > 0
            &&& (forall|j: int|
                0 <= j < tok.len() ==> !crate::parser::is_space_char(#[trigger] tok[j]))
            &&& match crate::parser::spec_parse_options(tok) {
                Ok(opts) => spec_apply_options(opts, 0, 0, false) == Ok::<
                    (u32, bool),
                    ParseWatchError,
                >((m, rec)),
                Err(_) => false,
            }
        }),
{
    crate::events::lemma_catalog_facts();
    lemma_recattr_facts(rec);
    let es = options_elems(m, rec);
    if m == crate::events::MASK_ALL_EVENTS {
        let nm = "IN_ALL_EVENTS"@;
        assert(es =~= seq![nm] + (Seq::<Seq<char>>::empty().push(recattr(rec))));
        assert forall|k: int| 0 <= k < es.len() implies field_elem(#[trigger] es[k]) by {
            if k == 0 {
            } else {
                assert(es[k] == recattr(rec));
            }
        }
        lemma_split_join_commas(es);
        crate::parser::lemma_parse_elems_cons(nm, Seq::<Seq<char>>::empty().push(recattr(rec)));
        crate::parser::lemma_parse_elem_plain(nm);
        assert(Seq::<Seq<char>>::empty().push(recattr(rec)) =~= seq![recattr(rec)]
            + Seq::<Seq<char>>::empty());
        crate::parser::lemma_parse_elems_cons(recattr(rec), Seq::empty());
        let o0 = crate::parser::WatchOptionV::Mask(nm);
        let attr = crate::parser::WatchOptionV::Attribute("recursive"@, rec);
        let opts = seq![o0] + (seq![attr] + Seq::<crate::parser::WatchOptionV>::empty());
        assert(opts[0] == o0);
        lemma_apply_options_tail(o0, seq![attr] + Seq::empty(), 0, 0 | m, false);
        assert((seq![attr] + Seq::<crate::parser::WatchOptionV>::empty())[0] == attr);
        lemma_apply_options_tail(attr, Seq::empty(), 0, 0 | m, rec);
        assert(0 | m == m) by (bit_vector);
    } else {
        lemma_mask_name_elems_props(m, 0);
        assert forall|k: int| 0 <= k < es.len() implies field_elem(#[trigger] es[k]) by {
            if k < mask_name_elems(m, 0).len() {
                assert(es[k] == mask_name_elems(m, 0)[k]);
                assert(crate::events::plain_name(es[k]));
            } else {
                assert(es[k] == recattr(rec));
            }
        }
        lemma_split_join_commas(es);
        assert(es =~= mask_name_elems(m, 0).push(recattr(rec)));
        lemma_options_fold(m, rec, 0, 0, false);
        lemma_or_rest_whole(m);
        assert(0 | m == m) by (bit_vector);
    }
}

} // verus!

// The executable serializer.
verus! {

fn catalog_table() -> (r: Vec<(u32, &'static str)>)
    ensures
        r@.len() == crate::events::spec_catalog().len(),
        forall|i: int|
            0 <= i < r@.len() ==> r@[i].0 == crate::events::spec_catalog()[i].0 && r@[i].1@
                == crate::events::spec_catalog()[i].1,
{
    let v: Vec<(u32, &'static str)> = vec![
        (crate::events::MASK_ACCESS, "IN_ACCESS"),
        (crate::events::MASK_MODIFY, "IN_MODIFY"),
        (crate::events::MASK_CLOSE_WRITE, "IN_CLOSE_WRITE"),
        (crate::events::MASK_CLOSE_NOWRITE, "IN_CLOSE_NOWRITE"),
        (crate::events::MASK_OPEN, "IN_OPEN"),
        (crate::events::MASK_MOVED_FROM, "IN_MOVED_FROM"),
        (crate::events::MASK_MOVED_TO, "IN_MOVED_TO"),
        (crate::events::MASK_CREATE, "IN_CREATE"),
        (crate::events::MASK_DELETE, "IN_DELETE"),
        (crate::events::MASK_DELETE_SELF, "IN_DELETE_SELF"),
        (crate::events::MASK_MOVE_SELF, "IN_MOVE_SELF"),
    ];
    v
}

fn options_elems_exec(m: u32, rec: bool) -> (r: Vec<Vec<char>>)
    ensures
        r.deep_view() == options_elems(m, rec),
{
    let mut elems: Vec<Vec<char>> = Vec::new();
    if m == crate::events::MASK_ALL_EVENTS {
        elems.push(to_chars("IN_ALL_EVENTS"));
        proof {
            assert(elems.deep_view() =~~= seq!["IN_ALL_EVENTS"@]);
        }
    } else {
        let table = catalog_table();
        let mut i: usize = 0;
        while i < table.len()
            invariant
                table@.len() == crate::events::spec_catalog().len(),
                forall|j: int|
                    0 <= j < table@.len() ==> table@[j].0 == crate::events::spec_catalog()[j].0
                        && table@[j].1@ == crate::events::spec_catalog()[j].1,
                i <= table@.len(),
                elems.deep_view() + mask_name_elems(m, i as int) =~~= mask_name_elems(m, 0),
            decreases table@.len() - i,
        {
            let (bit, name) = table[i];
            let ghost pre = elems.deep_view();
            if m & bit != 0 {
                elems.push(to_chars(name));
                proof {
                    assert(elems.deep_view() =~~= pre.push(
                        crate::events::spec_catalog()[i as int].1,
                    ));
                    assert(mask_name_elems(m, i as int) == seq![
                        crate::events::spec_catalog()[i as int].1,
                    ] + mask_name_elems(m, i as int + 1));
                    assert(elems.deep_view() + mask_name_elems(m, i as int + 1) =~~= pre
                        + mask_name_elems(m, i as int));
                }
            }
            i = i + 1;
        }
        proof {
            assert(mask_name_elems(m, table@.len() as int) =~= Seq::<Seq<char>>::empty());
            assert(elems.deep_view() + Seq::<Seq<char>>::empty() =~~= elems.deep_view());
        }
    }
    let mut ra = to_chars("recursive=");
    let tail = to_chars(if rec {
        "true"
    } else {
        "false"
    });
    crate::parser::push_all(&mut ra, &tail);
    let ghost pre = elems.deep_view();
    proof {
        assert(ra@ == recattr(rec));
    }
    elems.push(ra);
    proof {
        assert(elems.deep_view() =~~= pre.push(recattr(rec)));
    }
    elems
}

fn join_commas_exec(es: &Vec<Vec<char>>) -> (r: Vec<char>)
    ensures
        r@ == join_commas(es.deep_view()),
{
    let ghost dv = es.deep_view();
    let mut out: Vec<char> = Vec::new();
    proof {
        assert(dv.subrange(0, 0) =~= Seq::<Seq<char>>::empty());
    }
    let mut k: usize = 0;
    while k < es.len()
        invariant
            dv == es.deep_view(),
            dv.len() == es@.len(),
            k <= es@.len(),
            out@ == join_commas(dv.subrange(0, k as int)),
        decreases es@.len() - k,
    {
        proof {
            assert(dv[k as int] =~= es@[k as int]@);
        }
        let ghost pre = dv.subrange(0, k as int);
        if k > 0 {
            out.push(',');
        }
        crate::parser::push_all(&mut out, &es[k]);
        proof {
            let cur = dv.subrange(0, k as int + 1);
            assert(cur.drop_last() =~= pre);
            assert(cur.last() == dv[k as int]);
            if k == 0 {
                assert(cur.len() == 1);
                assert(cur[0] == dv[0]);
                assert(out@ =~= dv[0]);
            } else {
                assert(out@ =~= join_commas(pre) + seq![','] + dv[k as int]);
            }
        }
        k = k + 1;
    }
    proof {
        assert(dv.subrange(0, dv.len() as int) =~= dv);
    }
    out
}

impl WatchData {
    /// Render this entry as one table line: path, options and command,
    /// separated by tabs.  On a producible entry the line parses back to
    /// the entry itself.
    pub fn serialize_line(&self) -> (r: String)
        ensures
            r@ == spec_serialize_line(self@),
    {
        let mut out = to_chars(self.path.as_str());
        out.push('\t');
        let elems = options_elems_exec(self.masks, self.attributes.recursive);
        let tok = join_commas_exec(&elems);
        crate::parser::push_all(&mut out, &tok);
        out.push('\t');
        let mut words: Vec<String> = Vec::new();
        words.push(self.command.program.clone());
        let mut i: usize = 0;
        while i < self.command.argv.len()
            invariant
                i <= self.command.argv@.len(),
                words@.len() == i + 1,
                words@[0]@ == self.command.program@,
                forall|k: int| 1 <= k < words@.len() ==> words@[k]@ == self.command.argv@[k - 1]@,
            decreases self.command.argv@.len() - i,
        {
            words.push(self.command.argv[i].clone());
            i = i + 1;
        }
        proof {
            assert(words.deep_view() =~= seq![self@.command.program] + self@.command.argv);
        }
        let cmd = crate::parser::join_words_exec(&words);
        crate::parser::push_all(&mut out, &cmd);
        proof {
            assert(out@ =~= spec_serialize_line(self@));
        }
        chars_to_string(&out)
    }
}

} // verus!

// The round trip: a serialized line parses back to its entry.
verus! {

proof fn lemma_apply_options_producible(
    opts: Seq<crate::parser::WatchOptionV>,
    i: int,
    m: u32,
    rec: bool,
)
    requires
        mask_producible(m),
    ensures
        match spec_apply_options(opts, i, m, rec) {
            Ok(p) => mask_producible(p.0),
            Err(_) => true,
        },
    decreases opts.len() - i,
{
    if 0 <= i < opts.len() {
        match opts[i] {
            crate::parser::WatchOptionV::Mask(nm) => {
                match crate::events::spec_mask_of_name(nm) {
                    Some(b) => {
                        assert(b == 0x1 || b == 0x2 || b == 0x8 || b == 0x10 || b == 0x20 || b
                            == 0x40 || b == 0x80 || b == 0x100 || b == 0x200 || b == 0x400 || b
                            == 0x800 || b == 0xfff);
                        assert(0x1u32 & 0xffb == 0x1) by (bit_vector);
                        assert(0x2u32 & 0xffb == 0x2) by (bit_vector);
                        assert(0x8u32 & 0xffb == 0x8) by (bit_vector);
                        assert(0x10u32 & 0xffb == 0x10) by (bit_vector);
                        assert(0x20u32 & 0xffb == 0x20) by (bit_vector);
                        assert(0x40u32 & 0xffb == 0x40) by (bit_vector);
                        assert(0x80u32 & 0xffb == 0x80) by (bit_vector);
                        assert(0x100u32 & 0xffb == 0x100) by (bit_vector);
                        assert(0x200u32 & 0xffb == 0x200) by (bit_vector);
                        assert(0x400u32 & 0xffb == 0x400) by (bit_vector);
                        assert(0x800u32 & 0xffb == 0x800) by (bit_vector);
                        assert(b == 0xfff || b & 0xffb == b);
                        assert((m == 0xfff || m & 0xffb == m) && (b == 0xfff || b & 0xffb == b)
                            ==> ((m | b) == 0xfff || (m | b) & 0xffb == (m | b))) by (bit_vector);
                        lemma_apply_options_producible(opts, i + 1, m | b, rec);
                    },
                    None => {},
                }
            },
            crate::parser::WatchOptionV::Attribute(nm, v) => {
                if nm == "recursive"@ {
                    lemma_apply_options_producible(opts, i + 1, m, v);
                }
            },
        }
    }
}

/// Law: whatever the parser accepts, the serializer can write back: a
/// parsed entry has a nonempty, separator-free path that opens no
/// comment, carries the starting attribute, and a writable mask.
pub proof fn lemma_parse_line_producible(s: Seq<char>, e: WatchDataV)
    requires
        spec_parse_line(s) == Ok::<WatchDataV, ParseWatchError>(e),
    ensures
        producible(e),
{
    let lo = crate::parser::skip_spaces(s, 0);
    crate::parser::lemma_skip_spaces(s, 0);
    crate::parser::lemma_scan_token(s, lo);
    let b = crate::parser::scan_token(s, lo);
    assert(crate::parser::scan_token(s, lo) == crate::parser::scan_token(s, lo + 1));
    crate::parser::lemma_scan_token(s, lo + 1);
    assert(b >= lo + 1);
    assert(e.path == s.subrange(lo, b));
    assert(e.path.len() > 0);
    assert forall|j: int| 0 <= j < e.path.len() implies !crate::parser::is_space_char(
        #[trigger] e.path[j],
    ) by {
        assert(e.path[j] == s[lo + j]);
    }
    assert(e.path[0] == s[lo]);
    assert(0u32 & 0xffb == 0) by (bit_vector);
    let mr = crate::parser::spec_parse_masks_at(s, crate::parser::skip_spaces(s, b));
    match mr.0 {
        Ok(opts) => {
            lemma_apply_options_producible(opts, 0, 0, false);
        },
        Err(_) => {},
    }
}

/// Law: a producible entry, written as one table line, parses back to
/// exactly itself.
pub proof fn lemma_serialize_then_parse(e: WatchDataV)
    requires
        producible(e),
    ensures
        spec_parse_line(spec_serialize_line(e)) == Ok::<WatchDataV, ParseWatchError>(e),
{
    let p = e.path;
    let m = e.masks;
    let rec = e.attributes.recursive;
    let tok = spec_options_token(m, rec);
    let words = seq![e.command.program] + e.command.argv;
    let cmd = crate::parser::join_words(words);
    let s = spec_serialize_line(e);
    lemma_options_token_ok(m, rec);
    crate::parser::lemma_join_words_head(words);
    let plen = p.len() as int;
    let tlen = tok.len() as int;
    let clen = cmd.len() as int;
    assert(s =~= p + seq!['\t'] + tok + seq!['\t'] + cmd);
    assert(s.len() == plen + 1 + tlen + 1 + clen);
    assert forall|j: int| 0 <= j < plen implies s[j] == p[j] by {}
    assert(s[plen] == '\t');
    assert forall|j: int| 0 <= j < tlen implies s[plen + 1 + j] == tok[j] by {}
    assert(s[plen + 1 + tlen] == '\t');
    assert forall|j: int| 0 <= j < clen implies s[plen + 2 + tlen + j] == cmd[j] by {}
    crate::parser::lemma_skip_spaces_value(s, 0, 0);
    crate::parser::lemma_scan_token_value(s, 0, plen);
    crate::parser::lemma_skip_spaces_value(s, plen, plen + 1);
    assert(s.subrange(0, plen) =~= p);
    crate::parser::lemma_skip_spaces_value(s, plen + 1, plen + 1);
    crate::parser::lemma_scan_token_value(s, plen + 1, plen + 1 + tlen);
    assert(s.subrange(plen + 1, plen + 1 + tlen) =~= tok);
    crate::parser::lemma_skip_spaces_value(s, plen + 1 + tlen, plen + 2 + tlen);
    assert(s.subrange(plen + 2 + tlen, s.len() as int) =~= cmd);
    crate::parser::lemma_shell_split_join(words);
    assert(words[0] == e.command.program);
    assert(words.drop_first() =~= e.command.argv);
    assert((WatchDataAttributes { starting: true, recursive: rec }) == e.attributes);
    let parsed = spec_parse_line(s);
    match parsed {
        Ok(w) => {
            assert(w.path == p);
            assert(w.masks == m);
            assert(w.command == e.command);
            assert(w.attributes == e.attributes);
            assert(w == e);
        },
        Err(_) => {
            assert(false);
        },
    }
}

/// Law: parsing a well-formed line and serializing the entry yields a
/// line that parses back to the same entry.
pub proof fn lemma_line_roundtrip(s: Seq<char>, e: WatchDataV)
    requires
        spec_parse_line(s) == Ok::<WatchDataV, ParseWatchError>(e),
    ensures
        spec_parse_line(spec_serialize_line(e)) == Ok::<WatchDataV, ParseWatchError>(e),
{
    lemma_parse_line_producible(s, e);
    lemma_serialize_then_parse(e);
}

} // verus!
