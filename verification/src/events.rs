use vstd::prelude::*;

verus! {

// Kernel event-mask bits, as the platform defines them.
pub const MASK_ACCESS: u32 = 0x1;
pub const MASK_MODIFY: u32 = 0x2;
pub const MASK_ATTRIB: u32 = 0x4;
pub const MASK_CLOSE_WRITE: u32 = 0x8;
pub const MASK_CLOSE_NOWRITE: u32 = 0x10;
pub const MASK_OPEN: u32 = 0x20;
pub const MASK_MOVED_FROM: u32 = 0x40;
pub const MASK_MOVED_TO: u32 = 0x80;
pub const MASK_CREATE: u32 = 0x100;
pub const MASK_DELETE: u32 = 0x200;
pub const MASK_DELETE_SELF: u32 = 0x400;
pub const MASK_MOVE_SELF: u32 = 0x800;
pub const MASK_ALL_EVENTS: u32 = 0xfff;
pub const MASK_IGNORED: u32 = 0x8000;
pub const MASK_ISDIR: u32 = 0x4000_0000;

/// What the engine reads off one kernel notification: the descriptor it
/// arrived on, its mask bits, and the affected file's name, if any.
#[derive(Debug, Clone)]
pub struct EventInfo {
    pub wd: i32,
    pub mask: u32,
    pub name: Option<String>,
}

impl EventInfo {
    /// The event's file name as text, empty when the event has none.
    pub open spec fn name_chars(&self) -> Seq<char> {
        match self.name {
            Some(s) => s@,
            None => Seq::empty(),
        }
    }
}

/// A single named entry of the mask catalog, carrying the kernel bits.
#[derive(Clone, Copy, PartialEq, Eq, Structural)]
pub struct MaskWrapper(pub u32);

/// The kernel bits that a textual mask name stands for, or `None` for an
/// unknown name.  These are the twelve names a table line may use.
pub open spec fn spec_mask_of_name(s: Seq<char>) -> Option<u32> {
    if s == "IN_ACCESS"@ {
        Some(MASK_ACCESS)
    } else if s == "IN_CLOSE_WRITE"@ {
        Some(MASK_CLOSE_WRITE)
    } else if s == "IN_CLOSE_NOWRITE"@ {
        Some(MASK_CLOSE_NOWRITE)
    } else if s == "IN_CREATE"@ {
        Some(MASK_CREATE)
    } else if s == "IN_DELETE"@ {
        Some(MASK_DELETE)
    } else if s == "IN_DELETE_SELF"@ {
        Some(MASK_DELETE_SELF)
    } else if s == "IN_MODIFY"@ {
        Some(MASK_MODIFY)
    } else if s == "IN_MOVE_SELF"@ {
        Some(MASK_MOVE_SELF)
    } else if s == "IN_MOVED_FROM"@ {
        Some(MASK_MOVED_FROM)
    } else if s == "IN_MOVED_TO"@ {
        Some(MASK_MOVED_TO)
    } else if s == "IN_OPEN"@ {
        Some(MASK_OPEN)
    } else if s == "IN_ALL_EVENTS"@ {
        Some(MASK_ALL_EVENTS)
    } else {
        None
    }
}

/// Compare two string slices by their character sequences.
pub fn str_eq_str(a: &str, b: &str) -> (r: bool)
    ensures
        r == (a@ == b@),
{
    let alen = a.unicode_len();
    let blen = b.unicode_len();
    if alen != blen {
        assert(a@ != b@) by {
            assert(a@.len() != b@.len());
        }
        return false;
    }
    let mut i: usize = 0;
    while i < alen
        invariant
            alen == a@.len(),
            alen == b@.len(),
            i <= alen,
            forall|j: int| 0 <= j < i ==> a@[j] == b@[j],
        decreases alen - i,
    {
        if a.get_char(i) != b.get_char(i) {
            return false;
        }
        i = i + 1;
    }
    proof {
        assert(a@ =~= b@);
    }
    true
}

/// Look a mask name up in the catalog.
pub fn parse_name(s: &str) -> (r: Option<MaskWrapper>)
    ensures
        match r {
            Some(m) => spec_mask_of_name(s@) == Some(m.0),
            None => spec_mask_of_name(s@) is None,
        },
{
    if str_eq_str(s, "IN_ACCESS") {
        Some(MaskWrapper(MASK_ACCESS))
    } else if str_eq_str(s, "IN_CLOSE_WRITE") {
        Some(MaskWrapper(MASK_CLOSE_WRITE))
    } else if str_eq_str(s, "IN_CLOSE_NOWRITE") {
        Some(MaskWrapper(MASK_CLOSE_NOWRITE))
    } else if str_eq_str(s, "IN_CREATE") {
        Some(MaskWrapper(MASK_CREATE))
    } else if str_eq_str(s, "IN_DELETE") {
        Some(MaskWrapper(MASK_DELETE))
    } else if str_eq_str(s, "IN_DELETE_SELF") {
        Some(MaskWrapper(MASK_DELETE_SELF))
    } else if str_eq_str(s, "IN_MODIFY") {
        Some(MaskWrapper(MASK_MODIFY))
    } else if str_eq_str(s, "IN_MOVE_SELF") {
        Some(MaskWrapper(MASK_MOVE_SELF))
    } else if str_eq_str(s, "IN_MOVED_FROM") {
        Some(MaskWrapper(MASK_MOVED_FROM))
    } else if str_eq_str(s, "IN_MOVED_TO") {
        Some(MaskWrapper(MASK_MOVED_TO))
    } else if str_eq_str(s, "IN_OPEN") {
        Some(MaskWrapper(MASK_OPEN))
    } else if str_eq_str(s, "IN_ALL_EVENTS") {
        Some(MaskWrapper(MASK_ALL_EVENTS))
    } else {
        None
    }
}

impl core::str::FromStr for MaskWrapper {
    type Err = ();

    fn from_str(s: &str) -> Result<MaskWrapper, ()> {
        match parse_name(s) {
            Some(m) => Ok(m),
            None => Err(()),
        }
    }
}

/// The bits the formatter knows a name for: the catalog's eleven single
/// event kinds, plus the two indicator bits an incoming event may carry.
pub open spec fn spec_fmt_table() -> Seq<(u32, Seq<char>)> {
    seq![
        (MASK_ACCESS, "IN_ACCESS"@),
        (MASK_MODIFY, "IN_MODIFY"@),
        (MASK_CLOSE_WRITE, "IN_CLOSE_WRITE"@),
        (MASK_CLOSE_NOWRITE, "IN_CLOSE_NOWRITE"@),
        (MASK_OPEN, "IN_OPEN"@),
        (MASK_MOVED_FROM, "IN_MOVED_FROM"@),
        (MASK_MOVED_TO, "IN_MOVED_TO"@),
        (MASK_CREATE, "IN_CREATE"@),
        (MASK_DELETE, "IN_DELETE"@),
        (MASK_DELETE_SELF, "IN_DELETE_SELF"@),
        (MASK_MOVE_SELF, "IN_MOVE_SELF"@),
        (MASK_IGNORED, "IN_IGNORED"@),
        (MASK_ISDIR, "IN_ISDIR"@),
    ]
}

/// The names of the first `i` table rows whose bit is set in `m`,
/// joined by `" | "`.
pub open spec fn spec_fmt_upto(m: u32, i: int) -> Seq<char>
    decreases i,
{
    if i <= 0 {
        Seq::empty()
    } else {
        let prev = spec_fmt_upto(m, i - 1);
        let row = spec_fmt_table()[i - 1];
        if m & row.0 != 0 {
            if prev.len() == 0 {
                row.1
            } else {
                prev + " | "@ + row.1
            }
        } else {
            prev
        }
    }
}

/// Render a mask as the `" | "`-joined list of the names of its known
/// bits; bits without a name are left out, an empty set renders empty.
pub open spec fn spec_format_mask(m: u32) -> Seq<char> {
    spec_fmt_upto(m, spec_fmt_table().len() as int)
}

pub proof fn lemma_fmt_table_names_nonempty()
    ensures
        forall|i: int| 0 <= i < spec_fmt_table().len() ==> (#[trigger] spec_fmt_table()[i].1).len()
            > 0,
{
    reveal_strlit("IN_ACCESS");
    reveal_strlit("IN_MODIFY");
    reveal_strlit("IN_CLOSE_WRITE");
    reveal_strlit("IN_CLOSE_NOWRITE");
    reveal_strlit("IN_OPEN");
    reveal_strlit("IN_MOVED_FROM");
    reveal_strlit("IN_MOVED_TO");
    reveal_strlit("IN_CREATE");
    reveal_strlit("IN_DELETE");
    reveal_strlit("IN_DELETE_SELF");
    reveal_strlit("IN_MOVE_SELF");
    reveal_strlit("IN_IGNORED");
    reveal_strlit("IN_ISDIR");
}

fn fmt_table() -> (r: Vec<(u32, &'static str)>)
    ensures
        r@.len() == spec_fmt_table().len(),
        forall|i: int|
            0 <= i < r@.len() ==> r@[i].0 == spec_fmt_table()[i].0 && r@[i].1@
                == spec_fmt_table()[i].1,
{
    let v: Vec<(u32, &'static str)> = vec![
        (MASK_ACCESS, "IN_ACCESS"),
        (MASK_MODIFY, "IN_MODIFY"),
        (MASK_CLOSE_WRITE, "IN_CLOSE_WRITE"),
        (MASK_CLOSE_NOWRITE, "IN_CLOSE_NOWRITE"),
        (MASK_OPEN, "IN_OPEN"),
        (MASK_MOVED_FROM, "IN_MOVED_FROM"),
        (MASK_MOVED_TO, "IN_MOVED_TO"),
        (MASK_CREATE, "IN_CREATE"),
        (MASK_DELETE, "IN_DELETE"),
        (MASK_DELETE_SELF, "IN_DELETE_SELF"),
        (MASK_MOVE_SELF, "IN_MOVE_SELF"),
        (MASK_IGNORED, "IN_IGNORED"),
        (MASK_ISDIR, "IN_ISDIR"),
    ];
    v
}

/// Render a mask's known bits as text, `"IN_CREATE | IN_ISDIR"` style.
pub fn format_mask(m: u32) -> (r: String)
    ensures
        r@ == spec_format_mask(m),
{
    proof {
        lemma_fmt_table_names_nonempty();
    }
    let table = fmt_table();
    let mut out = String::new();
    let mut first = true;
    let mut i: usize = 0;
    while i < table.len()
        invariant
            table@.len() == spec_fmt_table().len(),
            forall|j: int|
                0 <= j < table@.len() ==> table@[j].0 == spec_fmt_table()[j].0 && table@[j].1@
                    == spec_fmt_table()[j].1,
            i <= table@.len(),
            out@ == spec_fmt_upto(m, i as int),
            first == (out@.len() == 0),
        decreases table@.len() - i,
    {
        proof {
            lemma_fmt_table_names_nonempty();
        }
        let (bit, name) = table[i];
        if m & bit != 0 {
            if !first {
                out.append(" | ");
            }
            out.append(name);
            first = false;
        }
        i = i + 1;
    }
    out
}

/// The eleven single event kinds the catalog names, with their bits, in
/// the order the serializer writes them.
pub open spec fn spec_catalog() -> Seq<(u32, Seq<char>)> {
    seq![
        (MASK_ACCESS, "IN_ACCESS"@),
        (MASK_MODIFY, "IN_MODIFY"@),
        (MASK_CLOSE_WRITE, "IN_CLOSE_WRITE"@),
        (MASK_CLOSE_NOWRITE, "IN_CLOSE_NOWRITE"@),
        (MASK_OPEN, "IN_OPEN"@),
        (MASK_MOVED_FROM, "IN_MOVED_FROM"@),
        (MASK_MOVED_TO, "IN_MOVED_TO"@),
        (MASK_CREATE, "IN_CREATE"@),
        (MASK_DELETE, "IN_DELETE"@),
        (MASK_DELETE_SELF, "IN_DELETE_SELF"@),
        (MASK_MOVE_SELF, "IN_MOVE_SELF"@),
    ]
}

/// A name as the table's options field carries it: nonempty, without
/// separators, commas or equals signs.
pub open spec fn plain_name(nm: Seq<char>) -> bool {
    nm.len() > 0 && forall|j: int|
        0 <= j < nm.len() ==> (#[trigger] nm[j]) != ' ' && nm[j] != '\t' && nm[j] != ',' && nm[j]
            != '='
}

pub proof fn lemma_catalog_facts()
    ensures
        forall|i: int| 0 <= i < spec_catalog().len() ==> plain_name(
            (#[trigger] spec_catalog()[i]).1,
        ),
        forall|i: int| 0 <= i < spec_catalog().len() ==> spec_mask_of_name(
            (#[trigger] spec_catalog()[i]).1,
        ) == Some(spec_catalog()[i].0),
        forall|i: int| 0 <= i < spec_catalog().len() ==> ((#[trigger] spec_catalog()[i]).0 & 0xffb
            == spec_catalog()[i].0),
        plain_name("IN_ALL_EVENTS"@),
        spec_mask_of_name("IN_ALL_EVENTS"@) == Some(MASK_ALL_EVENTS),
{
    reveal_strlit("IN_ACCESS");
    reveal_strlit("IN_MODIFY");
    reveal_strlit("IN_CLOSE_WRITE");
    reveal_strlit("IN_CLOSE_NOWRITE");
    reveal_strlit("IN_OPEN");
    reveal_strlit("IN_MOVED_FROM");
    reveal_strlit("IN_MOVED_TO");
    reveal_strlit("IN_CREATE");
    reveal_strlit("IN_DELETE");
    reveal_strlit("IN_DELETE_SELF");
    reveal_strlit("IN_MOVE_SELF");
    reveal_strlit("IN_ALL_EVENTS");
    assert("IN_ACCESS"@.len() == 9);
    assert("IN_MODIFY"@.len() == 9);
    assert("IN_CLOSE_WRITE"@.len() == 14);
    assert("IN_CLOSE_NOWRITE"@.len() == 16);
    assert("IN_OPEN"@.len() == 7);
    assert("IN_MOVED_FROM"@.len() == 13);
    assert("IN_MOVED_TO"@.len() == 11);
    assert("IN_CREATE"@.len() == 9);
    assert("IN_DELETE"@.len() == 9);
    assert("IN_DELETE_SELF"@.len() == 14);
    assert("IN_MOVE_SELF"@.len() == 12);
    assert("IN_ALL_EVENTS"@.len() == 13);
    assert("IN_ACCESS"@[3] == 'A');
    assert("IN_MODIFY"@[3] == 'M');
    assert("IN_CREATE"@[3] == 'C');
    assert("IN_DELETE"@[3] == 'D');
    assert("IN_CLOSE_WRITE"@[3] == 'C');
    assert("IN_DELETE_SELF"@[3] == 'D');
    assert("IN_MOVED_FROM"@[3] == 'M');
    assert("IN_ALL_EVENTS"@[3] == 'A');
    assert(plain_name("IN_ACCESS"@));
    assert(plain_name("IN_MODIFY"@));
    assert(plain_name("IN_CLOSE_WRITE"@));
    assert(plain_name("IN_CLOSE_NOWRITE"@));
    assert(plain_name("IN_OPEN"@));
    assert(plain_name("IN_MOVED_FROM"@));
    assert(plain_name("IN_MOVED_TO"@));
    assert(plain_name("IN_CREATE"@));
    assert(plain_name("IN_DELETE"@));
    assert(plain_name("IN_DELETE_SELF"@));
    assert(plain_name("IN_MOVE_SELF"@));
    assert(plain_name("IN_ALL_EVENTS"@));
    assert(spec_mask_of_name("IN_ACCESS"@) == Some(MASK_ACCESS));
    assert(spec_mask_of_name("IN_MODIFY"@) == Some(MASK_MODIFY));
    assert(spec_mask_of_name("IN_CLOSE_WRITE"@) == Some(MASK_CLOSE_WRITE));
    assert(spec_mask_of_name("IN_CLOSE_NOWRITE"@) == Some(MASK_CLOSE_NOWRITE));
    assert(spec_mask_of_name("IN_OPEN"@) == Some(MASK_OPEN));
    assert(spec_mask_of_name("IN_MOVED_FROM"@) == Some(MASK_MOVED_FROM));
    assert(spec_mask_of_name("IN_MOVED_TO"@) == Some(MASK_MOVED_TO));
    assert(spec_mask_of_name("IN_CREATE"@) == Some(MASK_CREATE));
    assert(spec_mask_of_name("IN_DELETE"@) == Some(MASK_DELETE));
    assert(spec_mask_of_name("IN_DELETE_SELF"@) == Some(MASK_DELETE_SELF));
    assert(spec_mask_of_name("IN_MOVE_SELF"@) == Some(MASK_MOVE_SELF));
    assert(spec_mask_of_name("IN_ALL_EVENTS"@) == Some(MASK_ALL_EVENTS));
    assert forall|i: int| 0 <= i < spec_catalog().len() implies plain_name(
        (#[trigger] spec_catalog()[i]).1,
    ) && spec_mask_of_name(spec_catalog()[i].1) == Some(spec_catalog()[i].0) && (
    spec_catalog()[i].0 & 0xffb == spec_catalog()[i].0) by {
        assert(0x1u32 & 0xffb == 0x1) by (bit_vector);
        assert(0x2u32 & 0xffb == 0x2) by (bit_vector);
        assert(0x8u32 & 0xffb == 0x8) by (bit_vector);
        assert(0x10u32 & 0xffb == 0x10) by (bit_vector);
        assert(0x20u32 & 0xffb == 0x20) by (bit_vector);
        assert(0x40u32 & 0xffb == 0x40) by (bit_vector);
        assert(0x80u32 & 0xffb == 0x80) by (bit_vector);
        assert(0x100u32 & 0xffb == 0x100) by (bit_vector);
        assert(0x200u32 & 0xffb == 0x200) by (bit_vector);
        assert(0x400u32 & 0xffb == 0x400) by (bit_vector);
        assert(0x800u32 & 0xffb == 0x800) by (bit_vector);
    }
}

/// Whether `s` is free of the template escape character.
pub open spec fn no_dollar(s: Seq<char>) -> bool {
    forall|j: int| 0 <= j < s.len() ==> s[j] != '$'
}

pub proof fn lemma_fmt_table_no_dollar()
    ensures
        forall|i: int| 0 <= i < spec_fmt_table().len() ==> no_dollar(
            (#[trigger] spec_fmt_table()[i]).1,
        ),
        no_dollar(" | "@),
{
    reveal_strlit("IN_ACCESS");
    reveal_strlit("IN_MODIFY");
    reveal_strlit("IN_CLOSE_WRITE");
    reveal_strlit("IN_CLOSE_NOWRITE");
    reveal_strlit("IN_OPEN");
    reveal_strlit("IN_MOVED_FROM");
    reveal_strlit("IN_MOVED_TO");
    reveal_strlit("IN_CREATE");
    reveal_strlit("IN_DELETE");
    reveal_strlit("IN_DELETE_SELF");
    reveal_strlit("IN_MOVE_SELF");
    reveal_strlit("IN_IGNORED");
    reveal_strlit("IN_ISDIR");
    reveal_strlit(" | ");
    assert forall|i: int| 0 <= i < spec_fmt_table().len() implies no_dollar(
        (#[trigger] spec_fmt_table()[i]).1,
    ) by {
        if i == 0 {
            assert(no_dollar(spec_fmt_table()[0].1));
        } else if i == 1 {
            assert(no_dollar(spec_fmt_table()[1].1));
        } else if i == 2 {
            assert(no_dollar(spec_fmt_table()[2].1));
        } else if i == 3 {
            assert(no_dollar(spec_fmt_table()[3].1));
        } else if i == 4 {
            assert(no_dollar(spec_fmt_table()[4].1));
        } else if i == 5 {
            assert(no_dollar(spec_fmt_table()[5].1));
        } else if i == 6 {
            assert(no_dollar(spec_fmt_table()[6].1));
        } else if i == 7 {
            assert(no_dollar(spec_fmt_table()[7].1));
        } else if i == 8 {
            assert(no_dollar(spec_fmt_table()[8].1));
        } else if i == 9 {
            assert(no_dollar(spec_fmt_table()[9].1));
        } else if i == 10 {
            assert(no_dollar(spec_fmt_table()[10].1));
        } else if i == 11 {
            assert(no_dollar(spec_fmt_table()[11].1));
        } else {
            assert(no_dollar(spec_fmt_table()[12].1));
        }
    }
}

pub proof fn lemma_format_mask_no_dollar(m: u32)
    ensures
        no_dollar(spec_format_mask(m)),
{
    lemma_fmt_table_no_dollar();
    lemma_fmt_upto_no_dollar(m, spec_fmt_table().len() as int);
}

pub proof fn lemma_fmt_upto_no_dollar(m: u32, i: int)
    requires
        i <= spec_fmt_table().len(),
        forall|k: int| 0 <= k < spec_fmt_table().len() ==> no_dollar(
            (#[trigger] spec_fmt_table()[k]).1,
        ),
        no_dollar(" | "@),
    ensures
        no_dollar(spec_fmt_upto(m, i)),
    decreases i,
{
    if i > 0 {
        lemma_fmt_upto_no_dollar(m, i - 1);
    }
}

/// The decimal digit characters of `n`, most significant first.
pub open spec fn spec_dec(n: nat) -> Seq<char>
    decreases n,
{
    let d = spec_digit_char((n % 10) as nat);
    if n < 10 {
        seq![d]
    } else {
        spec_dec((n / 10) as nat).push(d)
    }
}

pub open spec fn spec_digit_char(d: nat) -> char {
    if d == 0 {
        '0'
    } else if d == 1 {
        '1'
    } else if d == 2 {
        '2'
    } else if d == 3 {
        '3'
    } else if d == 4 {
        '4'
    } else if d == 5 {
        '5'
    } else if d == 6 {
        '6'
    } else if d == 7 {
        '7'
    } else if d == 8 {
        '8'
    } else {
        '9'
    }
}

fn digit_char(d: u32) -> (c: char)
    requires
        d < 10,
    ensures
        c == spec_digit_char(d as nat),
{
    if d == 0 {
        '0'
    } else if d == 1 {
        '1'
    } else if d == 2 {
        '2'
    } else if d == 3 {
        '3'
    } else if d == 4 {
        '4'
    } else if d == 5 {
        '5'
    } else if d == 6 {
        '6'
    } else if d == 7 {
        '7'
    } else if d == 8 {
        '8'
    } else {
        '9'
    }
}

pub proof fn lemma_dec_no_dollar(n: nat)
    ensures
        no_dollar(spec_dec(n)),
    decreases n,
{
    if n >= 10 {
        lemma_dec_no_dollar((n / 10) as nat);
    }
}

/// Append the decimal rendering of `n` to `out`.
pub fn push_decimal(n: u32, out: &mut Vec<char>)
    ensures
        final(out)@ == old(out)@ + spec_dec(n as nat),
    decreases n,
{
    if n >= 10 {
        push_decimal(n / 10, out);
    }
    let d = digit_char(n % 10);
    out.push(d);
}

} // verus!
