use vstd::prelude::*;

use crate::config::Config;
use crate::events::{EventInfo, MASK_CREATE, MASK_IGNORED, MASK_ISDIR};
use crate::registry::WatchRegistry;
use crate::watch::{Command, ParseWatchError, WatchData, WatchDataAttributes, WatchDataV};

verus! {

#[verifier::external_type_specification]
#[verifier::external_body]
pub struct ExWatches(inotify::Watches);

/// Relies on inotify's Watches::add: registering a path for a set of
/// mask bits yields that watch's kernel descriptor, or fails.  Which of
/// the two happens, and which descriptor comes back, depends on what is
/// on disk and on the kernel, so nothing is promised of the outcome.
#[verifier::external_body]
fn kernel_add_watch(watches: &mut inotify::Watches, path: &str, mask_bits: u32) -> (r: Result<
    i32,
    (),
>) {
    match watches.add(path, inotify::WatchMask::from_bits_truncate(mask_bits)) {
        Ok(d) => Ok(d.get_watch_descriptor_id()),
        Err(_) => Err(()),
    }
}

/// Relies on walkdir's WalkDir at depth one: iterating yields the
/// directory's immediate children, each handed back as its file name
/// and whether it is a directory.  What comes back depends on the disk,
/// so nothing is promised of it.
#[verifier::external_body]
fn read_dir_entries(path: &str) -> (r: Vec<(String, bool)>) {
    walkdir::WalkDir::new(path)
        .min_depth(1)
        .max_depth(1)
        .into_iter()
        .filter_map(|e| e.ok())
        .map(|e| (e.file_name().to_string_lossy().into_owned(), e.file_type().is_dir()))
        .collect()
}

/// `parent` with `name` appended as one more path component.
fn path_join(parent: &str, name: &str) -> (r: String)
    ensures
        r@ == parent@ + seq!['/'] + name@,
{
    proof {
        reveal_strlit("/");
    }
    let mut s = String::from_str(parent);
    s.append("/");
    s.append(name);
    proof {
        assert(s@ =~= parent@ + seq!['/'] + name@);
    }
    s
}

/// How many entries one `add_watch` call may take on, counting the
/// entry itself and everything recursive expansion uncovers; whatever
/// is left beyond this joins the failed-watch list for later recovery.
pub const EXPANSION_BUDGET: u64 = 1000000;

/// Whether `d` lies strictly under the directory `p`.
pub open spec fn extends_path(d: Seq<char>, p: Seq<char>) -> bool {
    d.len() > p.len() && d.subrange(0, p.len() as int) == p && d[p.len() as int] == '/'
}

/// Whether `d` is an entry that recursive expansion of `t` may create:
/// same masks and command, a path below `t`'s, born non-starting and
/// itself recursive.
pub open spec fn derived_from(d: WatchDataV, t: WatchDataV) -> bool {
    t.attributes.recursive && d.masks == t.masks && d.command == t.command && d.attributes == (
    WatchDataAttributes { starting: false, recursive: true }) && extends_path(d.path, t.path)
}

/// Whether `x` is the entry `w` itself or one derived from it.
pub open spec fn from_entry(x: WatchDataV, w: WatchDataV) -> bool {
    x == w || derived_from(x, w)
}

/// Whether `sub` is `full` thinned out: `idx` names, in strictly
/// increasing order, the positions of `full` whose entries survive into
/// `sub`.
pub open spec fn ordered_selection(idx: Seq<int>, sub: Seq<WatchDataV>, full: Seq<WatchDataV>) -> bool {
    &&& idx.len() == sub.len()
    &&& forall|k: int|
        0 <= k < idx.len() ==> 0 <= #[trigger] idx[k] < full.len() && sub[k] == full[idx[k]]
    &&& forall|k: int| 0 <= k && k + 1 < idx.len() ==> #[trigger] idx[k] < idx[k + 1]
}

pub proof fn lemma_extends_trans(c: Seq<char>, p: Seq<char>, w: Seq<char>)
    requires
        extends_path(c, p),
        extends_path(p, w),
    ensures
        extends_path(c, w),
{
    assert(forall|i: int| 0 <= i < p.len() ==> c[i] == p[i]);
    assert(c.subrange(0, w.len() as int) =~= w);
}

pub proof fn lemma_derived_trans(c: WatchDataV, p: WatchDataV, w: WatchDataV)
    requires
        derived_from(c, p),
        from_entry(p, w),
    ensures
        derived_from(c, w),
{
    if p != w {
        lemma_extends_trans(c.path, p.path, w.path);
    }
}

/// The shape recursive expansion gives a child entry: the parent's
/// masks and command, a path one component below the parent's, born
/// non-starting and itself recursive.
pub open spec fn child_shape(c: WatchDataV, ppath: Seq<char>, m: u32, cmd: crate::watch::CommandV) -> bool {
    extends_path(c.path, ppath) && c.masks == m && c.command == cmd && c.attributes == (
    WatchDataAttributes { starting: false, recursive: true })
}

/// The derived entries one directory listing yields: one per child that
/// is a directory, in listing order, each one path component below
/// `ppath`, with the parent's masks and command, born non-starting and
/// recursive.
pub open spec fn child_entries(
    l: Seq<(String, bool)>,
    ppath: Seq<char>,
    m: u32,
    cmd: crate::watch::CommandV,
) -> Seq<WatchDataV>
    decreases l.len(),
{
    if l.len() == 0 {
        Seq::empty()
    } else {
        child_entries(l.drop_last(), ppath, m, cmd) + (if l.last().1 {
            seq![
                WatchDataV {
                    path: ppath + seq!['/'] + l.last().0@,
                    masks: m,
                    command: cmd,
                    attributes: WatchDataAttributes { starting: false, recursive: true },
                },
            ]
        } else {
            Seq::empty()
        })
    }
}

pub proof fn lemma_child_entries_shape(
    l: Seq<(String, bool)>,
    ppath: Seq<char>,
    m: u32,
    cmd: crate::watch::CommandV,
)
    ensures
        forall|j: int|
            0 <= j < child_entries(l, ppath, m, cmd).len() ==> child_shape(
                #[trigger] child_entries(l, ppath, m, cmd)[j],
                ppath,
                m,
                cmd,
            ),
    decreases l.len(),
{
    if l.len() > 0 {
        lemma_child_entries_shape(l.drop_last(), ppath, m, cmd);
        let es = child_entries(l, ppath, m, cmd);
        let pre = child_entries(l.drop_last(), ppath, m, cmd);
        assert forall|j: int| 0 <= j < es.len() implies child_shape(
            #[trigger] es[j],
            ppath,
            m,
            cmd,
        ) by {
            if j < pre.len() {
                assert(es[j] == pre[j]);
            } else {
                assert(es[j].path.subrange(0, ppath.len() as int) =~= ppath);
            }
        }
    }
}

/// Append to `work` one derived child entry per directory of the
/// listing, in listing order.
fn expand_into(
    work: &mut Vec<WatchData>,
    listing: &Vec<(String, bool)>,
    parent_path: &String,
    masks: u32,
    cmd: &Command,
)
    ensures
        final(work).deep_view() == old(work).deep_view() + child_entries(
            listing@,
            parent_path@,
            masks,
            cmd@,
        ),
{
    let ghost l = listing@;
    proof {
        assert(l.subrange(0, 0) =~= Seq::<(String, bool)>::empty());
        assert(work.deep_view() + child_entries(l.subrange(0, 0), parent_path@, masks, cmd@)
            =~~= work.deep_view());
    }
    let mut i: usize = 0;
    while i < listing.len()
        invariant
            l == listing@,
            i <= l.len(),
            work.deep_view() == old(work).deep_view() + child_entries(
                l.subrange(0, i as int),
                parent_path@,
                masks,
                cmd@,
            ),
        decreases l.len() - i,
    {
        let ghost pre = work.deep_view();
        if listing[i].1 {
            let child_path = path_join(parent_path.as_str(), listing[i].0.as_str());
            let child = WatchData {
                path: child_path,
                masks,
                command: cmd.duplicate(),
                attributes: WatchDataAttributes { starting: false, recursive: true },
            };
            work.push(child);
            proof {
                assert(work.deep_view() =~~= pre.push(child@));
            }
        }
        proof {
            let cur = l.subrange(0, i as int + 1);
            assert(cur.drop_last() =~= l.subrange(0, i as int));
            assert(cur.last() == l[i as int]);
            assert(work.deep_view() =~~= old(work).deep_view() + child_entries(
                cur,
                parent_path@,
                masks,
                cmd@,
            ));
        }
        i = i + 1;
    }
    proof {
        assert(l.subrange(0, l.len() as int) =~= l);
    }
}

/// A line with its trailing carriage return, if any, taken off.
pub open spec fn strip_cr(l: Seq<char>) -> Seq<char> {
    if l.len() > 0 && l.last() == '\r' {
        l.drop_last()
    } else {
        l
    }
}

/// A line holding only field separators, which the loader passes over.
pub open spec fn is_blank(l: Seq<char>) -> bool {
    crate::parser::skip_spaces(l, 0) >= l.len()
}

/// One parse result per non-blank line of `ls`, from index `i` on.
pub open spec fn spec_table_results(ls: Seq<Seq<char>>, i: int) -> Seq<
    Result<WatchDataV, ParseWatchError>,
>
    decreases ls.len() - i,
{
    if i < 0 || i >= ls.len() {
        Seq::empty()
    } else {
        let l = strip_cr(ls[i]);
        let rest = spec_table_results(ls, i + 1);
        if is_blank(l) {
            rest
        } else {
            seq![crate::watch::spec_parse_line(l)] + rest
        }
    }
}

/// What the loader yields for a whole table text: one parse result per
/// non-blank line.
pub open spec fn spec_load_table(s: Seq<char>) -> Seq<Result<WatchDataV, ParseWatchError>> {
    spec_table_results(crate::parser::split_sep(s, '\n'), 0)
}

/// The well-formed entries among the results, in order, from `i` on.
pub open spec fn spec_ok_entries(rs: Seq<Result<WatchDataV, ParseWatchError>>, i: int) -> Seq<
    WatchDataV,
>
    decreases rs.len() - i,
{
    if i < 0 || i >= rs.len() {
        Seq::empty()
    } else {
        match rs[i] {
            Ok(w) => seq![w] + spec_ok_entries(rs, i + 1),
            Err(_) => spec_ok_entries(rs, i + 1),
        }
    }
}

/// The entries a table text declares: its lines that parse.
pub open spec fn table_entries(s: Seq<char>) -> Seq<WatchDataV> {
    spec_ok_entries(spec_load_table(s), 0)
}

/// Whether `x` is an entry of the table, or derived from one.
pub open spec fn from_table(x: WatchDataV, oks: Seq<WatchDataV>) -> bool {
    exists|t: WatchDataV| #[trigger] oks.contains(t) && from_entry(x, t)
}

pub proof fn lemma_ok_entry_in(rs: Seq<Result<WatchDataV, ParseWatchError>>, i: int, j: int)
    requires
        0 <= i <= j < rs.len(),
        rs[j] is Ok,
    ensures
        spec_ok_entries(rs, i).contains(rs[j]->Ok_0),
    decreases j - i,
{
    if i == j {
        assert(spec_ok_entries(rs, i)[0] == rs[j]->Ok_0);
    } else {
        lemma_ok_entry_in(rs, i + 1, j);
        let w = rs[j]->Ok_0;
        let rest = spec_ok_entries(rs, i + 1);
        let k = choose|k: int| 0 <= k < rest.len() && rest[k] == w;
        match rs[i] {
            Ok(o) => {
                assert(spec_ok_entries(rs, i)[k + 1] == w);
            },
            Err(_) => {},
        }
    }
}

pub proof fn lemma_ok_entries_nonempty(rs: Seq<Result<WatchDataV, ParseWatchError>>, i: int)
    requires
        0 <= i <= rs.len(),
    ensures
        spec_ok_entries(rs, i).len() > 0 <==> exists|j: int|
            i <= j < rs.len() && (#[trigger] rs[j]) is Ok,
    decreases rs.len() - i,
{
    if i >= rs.len() {
    } else {
        lemma_ok_entries_nonempty(rs, i + 1);
        match rs[i] {
            Ok(w) => {
                assert(rs[i] is Ok);
            },
            Err(_) => {
                if spec_ok_entries(rs, i).len() > 0 {
                    let j = choose|j: int| i + 1 <= j < rs.len() && (#[trigger] rs[j]) is Ok;
                    assert(i <= j < rs.len() && rs[j] is Ok);
                }
                if exists|j: int| i <= j < rs.len() && (#[trigger] rs[j]) is Ok {
                    let j = choose|j: int| i <= j < rs.len() && (#[trigger] rs[j]) is Ok;
                    assert(i + 1 <= j < rs.len() && rs[j] is Ok);
                }
            },
        }
    }
}

/// The view each parse result denotes.
pub open spec fn results_view(s: Seq<Result<WatchData, ParseWatchError>>) -> Seq<
    Result<WatchDataV, ParseWatchError>,
> {
    s.map(
        |i: int, x: Result<WatchData, ParseWatchError>|
            match x {
                Ok(w) => Ok(w@),
                Err(e) => Err(e),
            },
    )
}

/// Read a whole table text: one parse result per non-blank line, blank
/// lines passed over.
pub fn load_table(contents: &str) -> (r: Vec<Result<WatchData, ParseWatchError>>)
    ensures
        results_view(r@) == spec_load_table(contents@),
{
    let chars = crate::parser::to_chars(contents);
    let lines = crate::parser::split_sep_exec(&chars, '\n');
    let ghost dv = lines.deep_view();
    let mut r: Vec<Result<WatchData, ParseWatchError>> = Vec::new();
    proof {
        assert(results_view(r@) =~= Seq::<Result<WatchDataV, ParseWatchError>>::empty());
    }
    let mut i: usize = 0;
    while i < lines.len()
        invariant
            i <= lines@.len(),
            dv == lines.deep_view(),
            dv == crate::parser::split_sep(contents@, '\n'),
            dv.len() == lines@.len(),
            results_view(r@) + spec_table_results(dv, i as int) == spec_table_results(dv, 0),
        decreases lines@.len() - i,
    {
        proof {
            assert(lines@[i as int].deep_view() == dv[i as int]);
            assert(dv[i as int] =~= lines@[i as int]@);
        }
        let li = &lines[i];
        let stop = if li.len() > 0 && li[li.len() - 1] == '\r' {
            li.len() - 1
        } else {
            li.len()
        };
        let line = crate::parser::subvec(li, 0, stop);
        proof {
            assert(line@ =~= strip_cr(dv[i as int]));
        }
        let blank_at = crate::parser::skip_spaces_exec(&line, 0);
        if blank_at >= line.len() {
        } else {
            let ghost r0 = results_view(r@);
            let lstr = crate::parser::chars_to_string(&line);
            let res = WatchData::parse_line(lstr.as_str());
            let ghost resv = crate::watch::spec_parse_line(line@);
            r.push(res);
            proof {
                assert(results_view(r@) =~= r0.push(resv));
                assert(r0.push(resv) + spec_table_results(dv, i as int + 1) =~= r0 + (seq![resv]
                    + spec_table_results(dv, i as int + 1)));
            }
        }
        i = i + 1;
    }
    proof {
        assert(spec_table_results(dv, lines@.len() as int) == Seq::<
            Result<WatchDataV, ParseWatchError>,
        >::empty());
        assert(results_view(r@) + Seq::<Result<WatchDataV, ParseWatchError>>::empty()
            =~= results_view(r@));
    }
    r
}

/// The engine: the kernel watch handle, the registry of live watches,
/// the list of entries whose registration last failed, and the
/// configuration it was started with.
pub struct State {
    pub kernel: inotify::Watches,
    pub watches: WatchRegistry,
    pub failed_watches: Vec<WatchData>,
    pub config: Config,
    /// How many registrations the engine has adopted per descriptor.
    pub granted: Ghost<Map<i32, nat>>,
    /// How many of those registrations it has since evicted.
    pub evicted: Ghost<Map<i32, nat>>,
}

impl State {
    /// The failed-watch list as entry views, oldest first.
    pub open spec fn failed_view(&self) -> Seq<WatchDataV> {
        self.failed_watches.deep_view()
    }

    pub open spec fn wf(&self) -> bool {
        self.watches.wf() && self.audited()
    }

    /// The registration audit: both counters are total, and a
    /// descriptor is registered exactly while it has one more adopted
    /// registration than evictions; each registration is matched by at
    /// most one eviction.
    pub open spec fn audited(&self) -> bool {
        &&& self.granted@.dom() =~= Set::new(|k: i32| true)
        &&& self.evicted@.dom() =~= Set::new(|k: i32| true)
        &&& forall|wd: i32|
            #[trigger] self.watches@.contains_key(wd) ==> self.granted@[wd] == self.evicted@[wd]
                + 1
        &&& forall|wd: i32|
            !(#[trigger] self.watches@.contains_key(wd)) ==> self.granted@[wd]
                == self.evicted@[wd]
    }

    /// A fresh engine with nothing registered and nothing failed.
    pub fn new(kernel: inotify::Watches, config: Config) -> (r: State)
        ensures
            r.wf(),
            r.watches@ == Map::<i32, WatchDataV>::empty(),
            r.watches.entries_view() == Seq::<WatchDataV>::empty(),
            r.failed_view() =~= Seq::<WatchDataV>::empty(),
            r.config == config,
    {
        let r = State {
            kernel,
            watches: WatchRegistry::new(),
            failed_watches: Vec::new(),
            config,
            granted: Ghost(Map::new(|k: i32| true, |k: i32| 0nat)),
            evicted: Ghost(Map::new(|k: i32| true, |k: i32| 0nat)),
        };
        proof {
            assert(r.failed_view() =~= Seq::<WatchDataV>::empty());
        }
        r
    }

    /// The entry an incoming descriptor routes to, if any.
    pub fn get_watch(&self, wd: i32) -> (r: Option<&WatchData>)
        requires
            self.wf(),
        ensures
            match r {
                Some(w) => self.watches@.contains_key(wd) && w@ == self.watches@[wd],
                None => !self.watches@.contains_key(wd),
            },
    {
        self.watches.get(wd)
    }

    /// Drop a descriptor's registration and hand its entry back.
    pub fn remove_watch(&mut self, wd: i32) -> (r: Option<WatchData>)
        requires
            old(self).wf(),
        ensures
            final(self).wf(),
            final(self).failed_view() == old(self).failed_view(),
            final(self).config == old(self).config,
            match r {
                Some(w) => old(self).watches@.contains_key(wd) && w@ == old(self).watches@[wd]
                    && final(self).watches@ == old(self).watches@.remove(wd),
                None => !old(self).watches@.contains_key(wd) && final(self).watches@ == old(
                    self,
                ).watches@,
            },
    {
        let ghost full = Set::new(|k: i32| true);
        let r = self.watches.remove(wd);
        match r {
            Some(w) => {
                self.evicted = Ghost(self.evicted@.insert(wd, (self.evicted@[wd] + 1) as nat));
                proof {
                    assert(self.evicted@.dom() =~= full);
                }
                Some(w)
            },
            None => None,
        }
    }

    /// Append an entry to the failed-watch list, to be retried by the
    /// next recovery tick.
    pub fn push_failed_watch(&mut self, w: WatchData)
        ensures
            final(self).wf() == old(self).wf(),
            final(self).watches == old(self).watches,
            final(self).config == old(self).config,
            final(self).failed_view() =~= old(self).failed_view().push(w@),
    {
        self.failed_watches.push(w);
        proof {
            assert(self.failed_view() =~= old(self).failed_view().push(w@));
        }
    }

    /// Fold one registration outcome into the engine: a failure puts the
    /// entry on the failed-watch list; a success under a fresh
    /// descriptor registers it; a success under a descriptor already
    /// registered keeps the existing entry and drops this one.  The
    /// result says whether recursive expansion should follow: only after
    /// a fresh success of an entry that is recursive and watches for
    /// creation.
    pub fn integrate_registration(&mut self, item: WatchData, res: Result<i32, ()>) -> (expand:
        bool)
        requires
            old(self).wf(),
        ensures
            final(self).wf(),
            final(self).config == old(self).config,
            match res {
                Err(_) => {
                    &&& final(self).watches@ == old(self).watches@
                    &&& final(self).watches.entries_view() == old(self).watches.entries_view()
                    &&& final(self).failed_view() == old(self).failed_view().push(item@)
                    &&& expand == false
                },
                Ok(wd) => {
                    if old(self).watches@.contains_key(wd) {
                        &&& final(self).watches@ == old(self).watches@
                        &&& final(self).watches.entries_view() == old(self).watches.entries_view()
                        &&& final(self).failed_view() == old(self).failed_view()
                        &&& expand == false
                    } else {
                        &&& final(self).watches@ == old(self).watches@.insert(wd, item@)
                        &&& final(self).watches.entries_view() == old(
                            self,
                        ).watches.entries_view().push(item@)
                        &&& final(self).failed_view() == old(self).failed_view()
                        &&& expand == (item.attributes.recursive && item.masks & MASK_CREATE != 0)
                    }
                },
            },
    {
        match res {
            Err(_) => {
                self.failed_watches.push(item);
                proof {
                    assert(self.failed_view() =~= old(self).failed_view().push(item@));
                }
                false
            },
            Ok(wd) => {
                if self.watches.contains_key(wd) {
                    false
                } else {
                    let recursive = item.attributes.recursive;
                    let masks = item.masks;
                    self.watches.insert(wd, item);
                    self.granted = Ghost(self.granted@.insert(wd, (self.granted@[wd] + 1) as nat));
                    proof {
                        assert(self.granted@.dom() =~= Set::new(|k: i32| true));
                    }
                    recursive && masks & MASK_CREATE != 0
                }
            },
        }
    }

    /// The command an event calls for: look its descriptor up and, if an
    /// entry is registered there, hand back the program and the argument
    /// vector with the event's metadata substituted in.
    pub fn prepare_command(&self, ev: &EventInfo) -> (r: Option<Command>)
        requires
            self.wf(),
        ensures
            r is Some <==> self.watches@.contains_key(ev.wd),
            match r {
                Some(c) => {
                    &&& c@.program == self.watches@[ev.wd].command.program
                    &&& c@.argv == crate::watch::spec_expand_argv(
                        self.watches@[ev.wd].command.argv,
                        self.watches@[ev.wd].path,
                        ev.name_chars(),
                        ev.mask,
                    )
                },
                None => true,
            },
    {
        match self.watches.get(ev.wd) {
            None => None,
            Some(w) => {
                let argv = w.command.expanded_argv(w.path.as_str(), ev);
                Some(Command { program: w.command.program.clone(), argv })
            },
        }
    }

    /// The bookkeeping that follows a successfully dispatched event: an
    /// invalidation notice evicts its entry to the failed-watch list; a
    /// directory event under a recursive watch asks for a reload; any
    /// other event leaves the engine unchanged.
    pub fn handle_post_execute(&mut self, ev: &EventInfo) -> (reload: bool)
        requires
            old(self).wf(),
        ensures
            final(self).wf(),
            final(self).config == old(self).config,
            !old(self).watches@.contains_key(ev.wd) ==> {
                &&& final(self).watches@ == old(self).watches@
                &&& final(self).failed_view() == old(self).failed_view()
                &&& reload == false
            },
            old(self).watches@.contains_key(ev.wd) && ev.mask == MASK_IGNORED ==> {
                &&& final(self).watches@ == old(self).watches@.remove(ev.wd)
                &&& final(self).failed_view() == old(self).failed_view().push(
                    old(self).watches@[ev.wd],
                )
                &&& reload == false
            },
            old(self).watches@.contains_key(ev.wd) && ev.mask != MASK_IGNORED ==> {
                &&& final(self).watches@ == old(self).watches@
                &&& final(self).failed_view() == old(self).failed_view()
                &&& reload == (old(self).watches@[ev.wd].attributes.recursive && ev.mask
                    & MASK_ISDIR != 0)
            },
    {
        if ev.mask == MASK_IGNORED {
            match self.watches.remove(ev.wd) {
                Some(w) => {
                    self.evicted = Ghost(
                        self.evicted@.insert(ev.wd, (self.evicted@[ev.wd] + 1) as nat),
                    );
                    self.failed_watches.push(w);
                    proof {
                        assert(self.evicted@.dom() =~= Set::new(|k: i32| true));
                        assert(self.failed_view() =~= old(self).failed_view().push(
                            old(self).watches@[ev.wd],
                        ));
                    }
                },
                None => {},
            }
            false
        } else {
            match self.watches.get(ev.wd) {
                Some(w) => w.attributes.recursive && ev.mask & MASK_ISDIR != 0,
                None => false,
            }
        }
    }

    /// Take one entry on: try to register it, and, where it asks for it,
    /// register the directories below it too.  Every entry this call
    /// touches is the given one or derived from it, and each either
    /// enters the registry under a fresh descriptor, or joins the
    /// failed-watch list, or is dropped because its descriptor was
    /// already registered.  Entries already registered are untouched.
    pub fn add_watch(&mut self, w: WatchData)
        requires
            old(self).wf(),
        ensures
            final(self).wf(),
            final(self).config == old(self).config,
            old(self).watches@.submap_of(final(self).watches@),
            forall|k: i32|
                final(self).watches@.contains_key(k) && !old(self).watches@.contains_key(k)
                    ==> from_entry(final(self).watches@[k], w@),
            final(self).failed_view().len() >= old(self).failed_view().len(),
            final(self).failed_view().subrange(0, old(self).failed_view().len() as int) == old(
                self,
            ).failed_view(),
            forall|j: int|
                old(self).failed_view().len() <= j < final(self).failed_view().len()
                    ==> from_entry(#[trigger] final(self).failed_view()[j], w@),
            final(self).watches.entries_view().len() >= old(self).watches.entries_view().len(),
            old(self).watches.entries_view().len() == 0
                ==> final(self).watches.entries_view().len() > 0
                || final(self).failed_view().len() > old(self).failed_view().len(),
    {
        let ghost w0 = w@;
        let mut work: Vec<WatchData> = Vec::new();
        work.push(w);
        let mut budget: u64 = EXPANSION_BUDGET;
        while work.len() > 0 && budget > 0
            invariant
                self.wf(),
                self.config == old(self).config,
                forall|j: int| 0 <= j < work@.len() ==> from_entry((#[trigger] work@[j])@, w0),
                old(self).watches@.submap_of(self.watches@),
                forall|k: i32|
                    self.watches@.contains_key(k) && !old(self).watches@.contains_key(k)
                        ==> from_entry(self.watches@[k], w0),
                self.failed_view().len() >= old(self).failed_view().len(),
                self.failed_view().subrange(0, old(self).failed_view().len() as int) == old(
                    self,
                ).failed_view(),
                forall|j: int|
                    old(self).failed_view().len() <= j < self.failed_view().len() ==> from_entry(
                        #[trigger] self.failed_view()[j],
                        w0,
                    ),
                self.watches.entries_view().len() >= old(self).watches.entries_view().len(),
                old(self).watches.entries_view().len() == 0 ==> self.watches.entries_view().len()
                    > 0 || self.failed_view().len() > old(self).failed_view().len() || (budget
                    == EXPANSION_BUDGET && work@.len() > 0 && self.watches.entries_view().len()
                    == 0 && self.failed_view().len() == old(self).failed_view().len()),
            decreases budget,
        {
            let ghost pristine = (budget == EXPANSION_BUDGET && self.watches.entries_view().len()
                == 0);
            budget = budget - 1;
            let ghost pre = *self;
            let item = work.pop().unwrap();
            let ghost itemv = item@;
            let cpath = item.path.clone();
            let cmasks = item.masks;
            let ccmd = item.command.duplicate();
            let res = kernel_add_watch(&mut self.kernel, cpath.as_str(), cmasks);
            let ghost mid = *self;
            let expand = self.integrate_registration(item, res);
            proof {
                assert(mid.watches@ == pre.watches@);
                assert(mid.failed_view() == pre.failed_view());
                assert forall|k: i32| #[trigger] old(self).watches@.dom().contains(k) implies self.watches@.dom().contains(k) && self.watches@[k] == old(self).watches@[k] by {
                    assert(mid.watches@.dom().contains(k));
                    assert(mid.watches@[k] == old(self).watches@[k]);
                }
                if self.failed_view().len() > pre.failed_view().len() {
                    assert(self.failed_view() == pre.failed_view().push(itemv));
                    assert(self.failed_view().subrange(
                        0,
                        old(self).failed_view().len() as int,
                    ) =~= pre.failed_view().subrange(0, old(self).failed_view().len() as int));
                }
                if old(self).watches.entries_view().len() == 0 && pristine {
                    match res {
                        Err(_) => {
                            assert(self.failed_view().len() > old(self).failed_view().len());
                        },
                        Ok(wd) => {
                            assert(pre.watches.entries@.len() == 0);
                            assert(pre.watches@ =~= Map::<i32, WatchDataV>::empty());
                            assert(!pre.watches@.contains_key(wd));
                            assert(self.watches.entries_view().len() > 0);
                        },
                    }
                }
            }
            if expand {
                let ghost wl = work.deep_view();
                let listing = read_dir_entries(cpath.as_str());
                expand_into(&mut work, &listing, &cpath, cmasks, &ccmd);
                proof {
                    lemma_child_entries_shape(listing@, cpath@, cmasks, ccmd@);
                    let children = child_entries(listing@, cpath@, cmasks, ccmd@);
                    assert(work.deep_view() == wl + children);
                    assert forall|j: int| 0 <= j < work@.len() implies from_entry(
                        (#[trigger] work@[j])@,
                        w0,
                    ) by {
                        assert(work.deep_view()[j] == work@[j]@);
                        assert(work.deep_view()[j] == (wl + children)[j]);
                        if j < wl.len() {
                            assert((wl + children)[j] == wl[j]);
                        } else {
                            assert((wl + children)[j] == children[j - wl.len()]);
                            assert(child_shape(work@[j]@, cpath@, cmasks, ccmd@));
                            assert(cpath@ == itemv.path);
                            assert(ccmd@ == itemv.command);
                            assert(itemv.attributes.recursive);
                            assert(derived_from(work@[j]@, itemv));
                            lemma_derived_trans(work@[j]@, itemv, w0);
                        }
                    }
                }
            }
        }
        while work.len() > 0
            invariant
                self.wf(),
                self.config == old(self).config,
                forall|j: int| 0 <= j < work@.len() ==> from_entry((#[trigger] work@[j])@, w0),
                old(self).watches@.submap_of(self.watches@),
                forall|k: i32|
                    self.watches@.contains_key(k) && !old(self).watches@.contains_key(k)
                        ==> from_entry(self.watches@[k], w0),
                self.failed_view().len() >= old(self).failed_view().len(),
                self.failed_view().subrange(0, old(self).failed_view().len() as int) == old(
                    self,
                ).failed_view(),
                forall|j: int|
                    old(self).failed_view().len() <= j < self.failed_view().len() ==> from_entry(
                        #[trigger] self.failed_view()[j],
                        w0,
                    ),
                self.watches.entries_view().len() >= old(self).watches.entries_view().len(),
                old(self).watches.entries_view().len() == 0 ==> self.watches.entries_view().len()
                    > 0 || self.failed_view().len() > old(self).failed_view().len(),
            decreases work@.len(),
        {
            let ghost pre = *self;
            let item = work.pop().unwrap();
            let ghost itemv = item@;
            self.failed_watches.push(item);
            proof {
                assert(self.failed_view() =~= pre.failed_view().push(itemv));
                assert(self.failed_view().subrange(0, old(self).failed_view().len() as int)
                    =~= pre.failed_view().subrange(0, old(self).failed_view().len() as int));
            }
        }
    }

    /// Rebuild the registry from a table text: the registry is cleared,
    /// then every line that parses is taken on through `add_watch`.  The
    /// failed-watch list is preserved; behind it gather the entries this
    /// reload could not register.  Afterwards everything registered, and
    /// everything newly failed, is an entry the table declares or one
    /// derived from such an entry by recursive expansion.
    pub fn reload_watches(&mut self, contents: &str)
        requires
            old(self).wf(),
        ensures
            final(self).wf(),
            final(self).config == old(self).config,
            final(self).failed_view().len() >= old(self).failed_view().len(),
            final(self).failed_view().subrange(0, old(self).failed_view().len() as int) == old(
                self,
            ).failed_view(),
            forall|k: i32|
                final(self).watches@.contains_key(k) ==> from_table(
                    #[trigger] final(self).watches@[k],
                    table_entries(contents@),
                ),
            forall|j: int|
                old(self).failed_view().len() <= j < final(self).failed_view().len() ==> from_table(
                    #[trigger] final(self).failed_view()[j],
                    table_entries(contents@),
                ),
            table_entries(contents@).len() > 0
                ==> final(self).watches.entries_view().len() > 0
                || final(self).failed_view().len() > old(self).failed_view().len(),
    {
        self.evicted = Ghost(
            Map::new(
                |k: i32| true,
                |k: i32|
                    if self.watches@.contains_key(k) {
                        (self.evicted@[k] + 1) as nat
                    } else {
                        self.evicted@[k]
                    },
            ),
        );
        self.watches.clear();
        proof {
            assert(self.evicted@.dom() =~= Set::new(|k: i32| true));
        }
        let table = load_table(contents);
        let ghost oks = table_entries(contents@);
        let ghost rsv = results_view(table@);
        let mut i: usize = 0;
        while i < table.len()
            invariant
                self.wf(),
                self.config == old(self).config,
                rsv == spec_load_table(contents@),
                rsv == results_view(table@),
                table@.len() == rsv.len(),
                oks == table_entries(contents@),
                i <= table@.len(),
                self.failed_view().len() >= old(self).failed_view().len(),
                self.failed_view().subrange(0, old(self).failed_view().len() as int) == old(
                    self,
                ).failed_view(),
                forall|j: int|
                    old(self).failed_view().len() <= j < self.failed_view().len() ==> from_table(
                        #[trigger] self.failed_view()[j],
                        oks,
                    ),
                forall|k: i32|
                    self.watches@.contains_key(k) ==> from_table(#[trigger] self.watches@[k], oks),
                (exists|j: int| 0 <= j < i && (#[trigger] rsv[j]) is Ok)
                    ==> self.watches.entries_view().len() > 0 || self.failed_view().len() > old(
                    self,
                ).failed_view().len(),
            decreases table@.len() - i,
        {
            match &table[i] {
                Ok(w) => {
                    proof {
                        assert(rsv[i as int] == Ok::<WatchDataV, ParseWatchError>(w@));
                        lemma_ok_entry_in(rsv, 0, i as int);
                        assert(oks.contains(w@));
                    }
                    let ghost pre = *self;
                    self.add_watch(w.duplicate());
                    proof {
                        assert forall|j: int|
                            0 <= j < old(self).failed_view().len() implies self.failed_view()[j]
                            == old(self).failed_view()[j] by {
                            assert(self.failed_view()[j] == self.failed_view().subrange(
                                0,
                                pre.failed_view().len() as int,
                            )[j]);
                            assert(pre.failed_view()[j] == pre.failed_view().subrange(
                                0,
                                old(self).failed_view().len() as int,
                            )[j]);
                        }
                        assert(self.failed_view().subrange(
                            0,
                            old(self).failed_view().len() as int,
                        ) =~= old(self).failed_view());
                        assert forall|j: int|
                            old(self).failed_view().len() <= j
                                < self.failed_view().len() implies from_table(
                            #[trigger] self.failed_view()[j],
                            oks,
                        ) by {
                            if j < pre.failed_view().len() {
                                assert(self.failed_view()[j] == self.failed_view().subrange(
                                    0,
                                    pre.failed_view().len() as int,
                                )[j]);
                                assert(self.failed_view()[j] == pre.failed_view()[j]);
                            } else {
                                assert(from_entry(self.failed_view()[j], w@));
                            }
                        }
                        assert forall|k: i32| self.watches@.contains_key(k) implies from_table(
                            #[trigger] self.watches@[k],
                            oks,
                        ) by {
                            if pre.watches@.dom().contains(k) {
                                assert(self.watches@[k] == pre.watches@[k]);
                            } else {
                                assert(from_entry(self.watches@[k], w@));
                            }
                        }
                        assert(rsv[i as int] is Ok);
                        if pre.watches.entries_view().len() == 0 {
                            assert(self.watches.entries_view().len() > 0 || self.failed_view().len()
                                > pre.failed_view().len());
                        }
                    }
                },
                Err(_) => {},
            }
            i = i + 1;
        }
        proof {
            if table_entries(contents@).len() > 0 {
                lemma_ok_entries_nonempty(rsv, 0);
            }
        }
    }

    /// Fold one recovery outcome in: a failed retry keeps the entry
    /// among the survivors; a success under a fresh descriptor
    /// registers the entry and drops it from the list; a success under
    /// a descriptor already registered drops it, the existing entry
    /// kept.
    pub fn integrate_recovery(
        &mut self,
        item: WatchData,
        res: Result<i32, ()>,
        still: &mut Vec<WatchData>,
    )
        requires
            old(self).wf(),
        ensures
            final(self).wf(),
            final(self).config == old(self).config,
            final(self).failed_view() == old(self).failed_view(),
            match res {
                Err(_) => {
                    &&& final(self).watches@ == old(self).watches@
                    &&& final(self).watches.entries_view() == old(self).watches.entries_view()
                    &&& final(still).deep_view() == old(still).deep_view().push(item@)
                },
                Ok(wd) => {
                    &&& final(still).deep_view() == old(still).deep_view()
                    &&& if old(self).watches@.contains_key(wd) {
                        final(self).watches@ == old(self).watches@
                            && final(self).watches.entries_view()
                            == old(self).watches.entries_view()
                    } else {
                        final(self).watches@ == old(self).watches@.insert(wd, item@)
                            && final(self).watches.entries_view()
                            == old(self).watches.entries_view().push(item@)
                    }
                },
            },
    {
        match res {
            Err(_) => {
                still.push(item);
                proof {
                    assert(still.deep_view() =~~= old(still).deep_view().push(item@));
                }
            },
            Ok(wd) => {
                if !self.watches.contains_key(wd) {
                    self.watches.insert(wd, item);
                    self.granted = Ghost(self.granted@.insert(wd, (self.granted@[wd] + 1) as nat));
                    proof {
                        assert(self.granted@.dom() =~= Set::new(|k: i32| true));
                    }
                }
            },
        }
    }

    /// Try every entry of the failed-watch list once, oldest first,
    /// folding each outcome in through `integrate_recovery`: successful
    /// retries move into the registry, the rest survive as the new
    /// failed list, a thinned-out copy of the old one in its original
    /// order.  On an empty list this is a no-op.
    pub fn recover_watches(&mut self)
        requires
            old(self).wf(),
        ensures
            final(self).wf(),
            final(self).config == old(self).config,
            old(self).failed_view().len() == 0 ==> final(self).watches@ == old(self).watches@
                && final(self).failed_view() == old(self).failed_view(),
            old(self).watches@.submap_of(final(self).watches@),
            forall|k: i32|
                final(self).watches@.contains_key(k) && !old(self).watches@.contains_key(k) ==> old(
                    self,
                ).failed_view().contains(final(self).watches@[k]),
            final(self).failed_view().len() <= old(self).failed_view().len(),
            exists|idx: Seq<int>|
                #[trigger] ordered_selection(
                    idx,
                    final(self).failed_view(),
                    old(self).failed_view(),
                ),
            forall|j: int|
                0 <= j < final(self).failed_view().len() ==> old(self).failed_view().contains(
                    #[trigger] final(self).failed_view()[j],
                ),
    {
        let n = self.failed_watches.len();
        let mut still: Vec<WatchData> = Vec::new();
        let ghost mut idxs: Seq<int> = Seq::empty();
        let mut i: usize = 0;
        while i < n
            invariant
                self.wf(),
                self.config == old(self).config,
                n == self.failed_watches@.len(),
                self.failed_view() == old(self).failed_view(),
                i <= n,
                still@.len() <= i,
                ordered_selection(idxs, still.deep_view(), old(self).failed_view()),
                forall|k: int| 0 <= k < idxs.len() ==> #[trigger] idxs[k] < i,
                old(self).watches@.submap_of(self.watches@),
                forall|k: i32|
                    self.watches@.contains_key(k) && !old(self).watches@.contains_key(k) ==> old(
                        self,
                    ).failed_view().contains(self.watches@[k]),
            decreases n - i,
        {
            let item = self.failed_watches[i].duplicate();
            proof {
                assert(item@ == self.failed_view()[i as int]);
            }
            let res = kernel_add_watch(&mut self.kernel, item.path.as_str(), item.masks);
            let ghost pre = *self;
            let ghost still0 = still.deep_view();
            let ghost itemv = item@;
            self.integrate_recovery(item, res, &mut still);
            proof {
                assert forall|k: i32| #[trigger] old(self).watches@.dom().contains(
                    k,
                ) implies self.watches@.dom().contains(k) && self.watches@[k] == old(
                    self,
                ).watches@[k] by {
                    assert(pre.watches@.dom().contains(k));
                    assert(pre.watches@[k] == old(self).watches@[k]);
                }
                if still.deep_view().len() > still0.len() {
                    assert(still.deep_view() == still0.push(itemv));
                    idxs = idxs.push(i as int);
                    assert(ordered_selection(idxs, still.deep_view(), old(self).failed_view()));
                }
            }
            i = i + 1;
        }
        self.failed_watches = still;
        proof {
            assert(ordered_selection(idxs, self.failed_view(), old(self).failed_view()));
            assert forall|j: int| 0 <= j < self.failed_view().len() implies old(
                self,
            ).failed_view().contains(#[trigger] self.failed_view()[j]) by {
                assert(self.failed_view()[j] == old(self).failed_view()[idxs[j]]);
            }
        }
    }
}

} // verus!
