//! Moving content into a store and out of it.

use crate::cache::{join_path, path_in};
use crate::display::{opt_text, FetchProgress};
use crate::error::{quote, str_debug};
use crate::ids::Key;
use crate::location::EndpointId;
use crate::share::Error;
use crate::text::{cat, cat3, cat4, chars_of, decimal, decimal_text, text_between, texts};
use vstd::prelude::*;

verus! {

/// How many seconds a provider has to establish a connection.
pub const CONNECT_TIMEOUT_SECS: u64 = 10;

/// After how many seconds without progress a download is given up.
pub const IDLE_TIMEOUT_SECS: u64 = 60;

/// How many seconds lie between reports on a download over HTTP.
pub const HTTP_PROGRESS_INTERVAL_SECS: u64 = 1;

/// What a download reports.
pub enum DownloadEvent {
    /// The time without progress has run out.
    Idle,
    /// The download has come to its end.
    End,
    /// A provider is being asked.
    TryProvider(EndpointId),
    /// A provider could not help.
    ProviderFailed(EndpointId),
    /// Bytes have arrived.
    Progress(u64),
    /// A part is complete.
    PartComplete,
    /// The download failed.
    DownloadError,
    /// The download failed, for a reason.
    Error(String),
}

/// Whether bytes have moved: only that starts the time without progress anew.
pub open spec fn moves_data(event: DownloadEvent) -> bool {
    event is Progress || event is PartComplete
}

/// What ends a download early, if the event does.
pub open spec fn fatal_cause(event: DownloadEvent) -> Option<Seq<char>> {
    match event {
        DownloadEvent::Idle => Some(
            "no progress for "@ + decimal_text(IDLE_TIMEOUT_SECS as nat) + "s"@,
        ),
        DownloadEvent::DownloadError => Some("download error"@),
        DownloadEvent::Error(cause) => Some(cause@),
        _ => None,
    }
}

/// What is reported of an event.
pub open spec fn frame_of(event: DownloadEvent) -> Option<FetchProgress> {
    match event {
        DownloadEvent::TryProvider(endpoint_id) => Some(
            FetchProgress::TryingLocation { endpoint_id },
        ),
        DownloadEvent::ProviderFailed(endpoint_id) => Some(
            FetchProgress::LocationFailed { endpoint_id },
        ),
        DownloadEvent::Progress(offset) => Some(
            FetchProgress::Downloading { offset, total: None },
        ),
        _ => None,
    }
}

/// What is recorded of a provider that could not help.
pub open spec fn provider_cause(id: EndpointId) -> Seq<char> {
    "location "@ + id.url_text() + ": download failed"@
}

/// What a download has to do after an event.
pub struct Step {
    /// What to report.
    pub frame: Option<FetchProgress>,
    /// Whether the time without progress starts anew.
    pub reset: bool,
    /// Whether no further event is awaited.
    pub stop: bool,
}

/// A download in progress: what went wrong so far.
pub struct Transfer {
    pub causes: Vec<String>,
    pub fatal: Option<String>,
}

impl Transfer {
    /// A download that has not begun.
    pub fn new() -> (r: Transfer)
        ensures
            r.causes@.len() == 0,
            r.fatal is None,
    {
        Transfer { causes: Vec::new(), fatal: None }
    }

    /// Takes an event.
    pub fn step(&mut self, event: DownloadEvent) -> (r: Step)
        ensures
            r.frame == frame_of(event),
            r.reset == moves_data(event),
            r.stop == (event is End || fatal_cause(event) is Some),
            opt_text(final(self).fatal) == (if fatal_cause(event) is Some {
                fatal_cause(event)
            } else {
                opt_text(old(self).fatal)
            }),
            texts(final(self).causes@) == (match event {
                DownloadEvent::ProviderFailed(id) => texts(old(self).causes@).push(
                    provider_cause(id),
                ),
                _ => texts(old(self).causes@),
            }),
    {
        match event {
            DownloadEvent::Idle => {
                let secs = decimal(IDLE_TIMEOUT_SECS);
                self.fatal = Some(cat3("no progress for ", secs.as_str(), "s"));
                Step { frame: None, reset: false, stop: true }
            },
            DownloadEvent::End => Step { frame: None, reset: false, stop: true },
            DownloadEvent::TryProvider(endpoint_id) => Step {
                frame: Some(FetchProgress::TryingLocation { endpoint_id }),
                reset: false,
                stop: false,
            },
            DownloadEvent::ProviderFailed(endpoint_id) => {
                let url = endpoint_id.to_url();
                let ghost before = self.causes@;
                self.causes.push(cat3("location ", url.as_str(), ": download failed"));
                assert(texts(self.causes@) =~= texts(before).push(provider_cause(endpoint_id)));
                Step {
                    frame: Some(FetchProgress::LocationFailed { endpoint_id }),
                    reset: false,
                    stop: false,
                }
            },
            DownloadEvent::Progress(offset) => Step {
                frame: Some(FetchProgress::Downloading { offset, total: None }),
                reset: true,
                stop: false,
            },
            DownloadEvent::PartComplete => Step { frame: None, reset: true, stop: false },
            DownloadEvent::DownloadError => {
                self.fatal = Some("download error".to_owned());
                Step { frame: None, reset: false, stop: true }
            },
            DownloadEvent::Error(cause) => {
                self.fatal = Some(cause);
                Step { frame: None, reset: false, stop: true }
            },
        }
    }

    /// What came of the download. The store decides: if nothing is missing there, the
    /// content was got, whatever single providers did. `complete` is what the store says,
    /// or why it could not.
    pub fn finish(self, complete: Result<bool, String>) -> (r: Result<(), Vec<String>>)
        ensures
            match r {
                Ok(()) => complete == Ok::<bool, String>(true),
                Err(causes) => {
                    &&& complete != Ok::<bool, String>(true)
                    &&& texts(causes@) == texts(self.causes@) + (match complete {
                        Ok(_) => Seq::empty(),
                        Err(e) => seq!["store completeness check: "@ + e@],
                    }) + (match self.fatal {
                        Some(e) => seq![e@],
                        None => Seq::empty(),
                    })
                },
            },
    {
        let ghost own = texts(self.causes@);
        let mut causes = self.causes;
        let ghost mut checked: Seq<Seq<char>> = Seq::empty();
        match complete {
            Ok(done) => {
                if done {
                    return Ok(());
                }
            },
            Err(e) => {
                causes.push(cat("store completeness check: ", e.as_str()));
                proof {
                    checked = seq!["store completeness check: "@ + e@];
                }
            },
        }
        assert(texts(causes@) =~= own + checked);
        match self.fatal {
            Some(e) => {
                let ghost before = causes@;
                causes.push(e);
                assert(texts(causes@) =~= texts(before) + seq![e@]);
            },
            None => {
                assert(texts(causes@) =~= own + checked + Seq::<Seq<char>>::empty());
            },
        }
        Err(causes)
    }
}

/// The time without progress starts anew with each event that moves bytes, and with no
/// other: providers that only fail cannot prolong a download.
pub proof fn law_only_progress_prolongs(event: DownloadEvent)
    ensures
        event is TryProvider || event is ProviderFailed ==> !moves_data(event),
        moves_data(event) ==> fatal_cause(event) is None,
{
}

/// What the store reports while it writes a blob out.
pub enum ExportEvent {
    /// The size of the blob.
    Size(u64),
    /// Bytes have been written.
    CopyProgress(u64),
    /// The writing is done.
    Done,
    /// The writing failed.
    Error(String),
}

/// A report on writing.
pub open spec fn export_frame(
    p: FetchProgress,
    offset: u64,
    total: Option<u64>,
    entry: Option<Seq<char>>,
) -> bool {
    p matches FetchProgress::Exporting { offset: o, total: t, entry: e } && o == offset && t
        == total && opt_text(e) == entry
}

/// A blob that is being written out.
pub struct Export<'a> {
    /// Its size, as far as it is known.
    pub size: Option<u64>,
    /// The member of a collection that it is.
    pub entry: Option<&'a str>,
}

/// A text that need not be there.
pub open spec fn opt_str(s: Option<&str>) -> Option<Seq<char>> {
    match s {
        Some(s) => Some(s@),
        None => None,
    }
}

fn owned(s: Option<&str>) -> (r: Option<String>)
    ensures
        opt_text(r) == opt_str(s),
{
    match s {
        Some(s) => Some(s.to_owned()),
        None => None,
    }
}

impl<'a> Export<'a> {
    /// Takes an event, and gives what to report of it.
    pub fn step(&mut self, event: ExportEvent) -> (r: Result<Option<FetchProgress>, Error>)
        ensures
            final(self).entry == old(self).entry,
            final(self).size == (match event {
                ExportEvent::Size(s) => Some(s),
                _ => old(self).size,
            }),
            match event {
                ExportEvent::CopyProgress(offset) => r is Ok && r->Ok_0 is Some && export_frame(
                    r->Ok_0->0,
                    offset,
                    old(self).size,
                    opt_str(old(self).entry),
                ),
                ExportEvent::Error(e) => r matches Err(Error::Iroh(s)) && s@ == "export: "@ + e@,
                _ => r == Ok::<Option<FetchProgress>, Error>(None),
            },
    {
        match event {
            ExportEvent::Size(s) => {
                self.size = Some(s);
                Ok(None)
            },
            ExportEvent::CopyProgress(offset) => Ok(
                Some(
                    FetchProgress::Exporting { offset, total: self.size, entry: owned(self.entry) },
                ),
            ),
            ExportEvent::Done => Ok(None),
            ExportEvent::Error(e) => Err(Error::Iroh(cat("export: ", e.as_str()))),
        }
    }

    /// The number of bytes written, and the last report. `on_disk` is the size of the
    /// file, which counts where the store gave none.
    pub fn finish(&self, on_disk: u64) -> (r: (u64, FetchProgress))
        ensures
            r.0 == (match self.size {
                Some(s) => s,
                None => on_disk,
            }),
            export_frame(r.1, r.0, Some(r.0), opt_str(self.entry)),
    {
        let bytes: u64 = match self.size {
            Some(s) => s,
            None => on_disk,
        };
        (
            bytes,
            FetchProgress::Exporting { offset: bytes, total: Some(bytes), entry: owned(self.entry) },
        )
    }
}

/// A path without what its components do not see: separators and `.` at its end. The
/// root, and a path that is only `.`, stay.
pub open spec fn trim_path(s: Seq<char>) -> Seq<char>
    decreases s.len(),
{
    if s.len() > 1 && s.last() == '/' {
        trim_path(s.drop_last())
    } else if s.len() > 1 && s.last() == '.' && s[s.len() - 2] == '/' {
        trim_path(s.drop_last())
    } else {
        s
    }
}

/// The place behind the last separator of a path.
pub open spec fn name_start(s: Seq<char>) -> int
    decreases s.len(),
{
    if s.len() == 0 || s.last() == '/' {
        s.len() as int
    } else {
        name_start(s.drop_last())
    }
}

/// The name of the file at a path, if the path ends in a name.
pub open spec fn file_name(s: Seq<char>) -> Option<Seq<char>> {
    let t = trim_path(s);
    let name = t.skip(name_start(t));
    if name.len() == 0 || name == "."@ || name == ".."@ {
        None
    } else {
        Some(name)
    }
}

/// The directory that a path is in: empty where the path does not say.
pub open spec fn parent_dir(s: Seq<char>) -> Seq<char> {
    let t = trim_path(s);
    let n = name_start(t);
    if n == t.len() || n == 0 {
        Seq::empty()
    } else {
        trim_path(t.take(n))
    }
}

/// The staging path of a file: hidden, and beside it, so that a rename onto it stays on
/// one file system.
pub open spec fn staging_path(dest: Seq<char>) -> Seq<char> {
    let name = match file_name(dest) {
        Some(name) => name,
        None => "artifact"@,
    };
    let staged = "."@ + name + ".rad-partial"@;
    if parent_dir(dest).len() == 0 {
        staged
    } else {
        path_in(parent_dir(dest), staged)
    }
}

/// The length of a path without what its components do not see.
fn trimmed_len(chars: &Vec<char>, len: usize) -> (n: usize)
    requires
        len <= chars@.len(),
    ensures
        n <= len,
        chars@.take(n as int) == trim_path(chars@.take(len as int)),
{
    let mut n: usize = len;
    while n > 1 && (chars[n - 1] == '/' || (chars[n - 1] == '.' && chars[n - 2] == '/'))
        invariant
            n <= len <= chars@.len(),
            trim_path(chars@.take(n as int)) == trim_path(chars@.take(len as int)),
        decreases n,
    {
        assert(chars@.take(n as int).drop_last() =~= chars@.take(n - 1));
        n -= 1;
    }
    n
}

/// The place behind the last separator.
fn name_place(chars: &Vec<char>, len: usize) -> (n: usize)
    requires
        len <= chars@.len(),
    ensures
        n <= len,
        n == name_start(chars@.take(len as int)),
        n > 0 ==> chars@[n - 1] == '/',
{
    let mut n: usize = len;
    while n > 0 && chars[n - 1] != '/'
        invariant
            n <= len <= chars@.len(),
            name_start(chars@.take(n as int)) == name_start(chars@.take(len as int)),
        decreases n,
    {
        assert(chars@.take(n as int).drop_last() =~= chars@.take(n - 1));
        n -= 1;
    }
    n
}

/// The staging path of a file.
pub fn partial_sibling(dest: &str) -> (r: String)
    ensures
        r@ == staging_path(dest@),
{
    let chars = chars_of(dest);
    assert(chars@.take(chars@.len() as int) =~= dest@);
    let len: usize = trimmed_len(&chars, chars.len());
    let at: usize = name_place(&chars, len);
    let ghost t = trim_path(dest@);
    assert(t == chars@.take(len as int));
    let name = text_between(&chars, at, len);
    assert(name@ =~= t.skip(at as int));
    let bare = if at == len || name == ".".to_owned() || name == "..".to_owned() {
        "artifact".to_owned()
    } else {
        name
    };
    let staged = cat3(".", bare.as_str(), ".rad-partial");
    if at == len || at == 0 {
        return staged;
    }
    assert(t.take(at as int) =~= chars@.take(at as int));
    let cut: usize = trimmed_len(&chars, at);
    let parent = text_between(&chars, 0, cut);
    assert(parent@ =~= chars@.take(cut as int));
    if cut == 0 {
        staged
    } else {
        join_path(parent.as_str(), staged.as_str())
    }
}

/// Whether a component of a path starts at `i`.
pub open spec fn starts_segment(s: Seq<char>, i: int) -> bool {
    0 <= i <= s.len() && (i == 0 || s[i - 1] == '/')
}

/// Whether the component of a path that starts at `i` leads to the parent.
pub open spec fn climbs_at(s: Seq<char>, i: int) -> bool {
    &&& starts_segment(s, i)
    &&& i + 2 <= s.len()
    &&& s[i] == '.'
    &&& s[i + 1] == '.'
    &&& (i + 2 == s.len() || s[i + 2] == '/')
}

/// Whether a path stays where it starts: it is not absolute, and no component leads to
/// the parent.
pub open spec fn stays_inside(s: Seq<char>) -> bool {
    &&& !(s.len() > 0 && s[0] == '/')
    &&& forall|i: int| !#[trigger] climbs_at(s, i)
}

/// The path of `name` under `base`, where it stays there.
pub fn safe_join(base: &str, name: &str) -> (r: Option<String>)
    ensures
        match r {
            Some(path) => stays_inside(name@) && path@ == path_in(base@, name@),
            None => !stays_inside(name@),
        },
{
    let chars = chars_of(name);
    let n: usize = chars.len();
    if n > 0 && chars[0] == '/' {
        return None;
    }
    let mut i: usize = 0;
    while i < n
        invariant
            i <= n,
            n == chars@.len(),
            chars@ == name@,
            forall|j: int| 0 <= j < i ==> !#[trigger] climbs_at(name@, j),
        decreases n - i,
    {
        let starts = i == 0 || chars[i - 1] == '/';
        if starts && n - i >= 2 && chars[i] == '.' && chars[i + 1] == '.' && (n - i == 2
            || chars[i + 2] == '/') {
            assert(climbs_at(name@, i as int));
            return None;
        }
        i += 1;
    }
    assert forall|j: int| !#[trigger] climbs_at(name@, j) by {
        if climbs_at(name@, j) {
            assert(0 <= j < n);
        }
    }
    Some(join_path(base, name))
}

/// The components of a path, those without content among them.
pub open spec fn components(s: Seq<char>) -> Seq<Seq<char>>
    decreases s.len(),
{
    let n = name_start(s);
    if n <= 0 || n > s.len() {
        seq![s]
    } else {
        components(s.take(n - 1)).push(s.skip(n))
    }
}

proof fn lemma_name_start(s: Seq<char>)
    ensures
        0 <= name_start(s) <= s.len(),
        name_start(s) > 0 ==> s[name_start(s) - 1] == '/',
        forall|i: int| name_start(s) <= i < s.len() ==> s[i] != '/',
    decreases s.len(),
{
    if s.len() == 0 || s.last() == '/' {
    } else {
        let rest = s.drop_last();
        lemma_name_start(rest);
        assert forall|i: int| name_start(s) <= i < s.len() implies s[i] != '/' by {
            if i < rest.len() {
                assert(rest[i] == s[i]);
            }
        }
    }
}

/// No component of a path that `safe_join` accepts leads out of the directory that it is
/// joined to, and the path of the directory stays in front.
pub proof fn law_safe_join_stays_inside(base: Seq<char>, name: Seq<char>)
    requires
        stays_inside(name),
    ensures
        forall|i: int| 0 <= i < components(name).len() ==> #[trigger] components(name)[i] != ".."@,
        base.is_prefix_of(path_in(base, name)),
        path_in(base, name).skip(path_in(base, name).len() - name.len()) == name,
{
    lemma_components_safe(name);
    assert(path_in(base, name).take(base.len() as int) =~= base);
    assert(path_in(base, name).skip(path_in(base, name).len() - name.len()) =~= name);
}

proof fn lemma_components_safe(s: Seq<char>)
    requires
        forall|i: int| !#[trigger] climbs_at(s, i),
    ensures
        forall|i: int| 0 <= i < components(s).len() ==> #[trigger] components(s)[i] != ".."@,
    decreases s.len(),
{
    reveal_strlit("..");
    lemma_name_start(s);
    let n = name_start(s);
    assert(!climbs_at(s, n));
    if n > 0 {
        let head = s.take(n - 1);
        assert forall|i: int| !#[trigger] climbs_at(head, i) by {
            if climbs_at(head, i) {
                assert(climbs_at(s, i));
            }
        }
        lemma_components_safe(head);
        let last = s.skip(n);
        if last == ".."@ {
            assert(last.len() == 2);
            assert(last[0] == s[n] && last[1] == s[n + 1]);
            assert(climbs_at(s, n));
        }
        assert forall|i: int| 0 <= i < components(s).len() implies #[trigger] components(s)[i]
            != ".."@ by {
            if i < components(head).len() {
                assert(components(s)[i] == components(head)[i]);
            }
        }
    } else {
        if s == ".."@ {
            assert(s.len() == 2);
            assert(s[0] == '.' && s[1] == '.');
            assert(climbs_at(s, 0));
        }
    }
}

/// What was written of a collection: the sum of the sizes, as far as it can be counted.
pub open spec fn saturated_total(sizes: Seq<u64>) -> u64
    decreases sizes.len(),
{
    if sizes.len() == 0 {
        0
    } else {
        let sum = saturated_total(sizes.drop_last()) + sizes.last();
        if sum > u64::MAX {
            u64::MAX
        } else {
            sum as u64
        }
    }
}

/// A member of a collection that is to be written to `path`.
pub struct Member<'a> {
    pub name: &'a str,
    pub hash: Key,
    pub path: &'a str,
}

/// Whether writing the member to its place under `dir` can give `outcome`.
pub open spec fn writes<F: Fn(&Member<'_>) -> Result<u64, Error>>(
    write: F,
    dir: Seq<char>,
    member: (String, Key),
    outcome: Result<u64, Error>,
) -> bool {
    exists|m: Member<'_>|
        m.name@ == member.0@ && m.hash == member.1 && m.path@ == path_in(dir, member.0@)
            && #[trigger] write.ensures((&m,), outcome)
}

/// Whether the member was written to its place under `dir`.
pub open spec fn was_written<F: Fn(&Member<'_>) -> Result<u64, Error>>(
    write: F,
    dir: Seq<char>,
    member: (String, Key),
) -> bool {
    exists|size: u64| #[trigger] writes(write, dir, member, Ok(size))
}

/// Writes the members of a collection under `dir`, each with `write`, and gives the number
/// of bytes. A member whose name leads out of `dir` is refused, and nothing is written
/// after it. An I/O error comes back as it is, and any other with the name of the member.
pub fn export_members<F: Fn(&Member<'_>) -> Result<u64, Error>>(
    members: &Vec<(String, Key)>,
    dir: &str,
    write: F,
) -> (r: Result<u64, Error>)
    requires
        forall|m: &Member<'_>| #[trigger] write.requires((m,)),
    ensures
        match r {
            Ok(total) => {
                &&& forall|i: int|
                    0 <= i < members@.len() ==> stays_inside((#[trigger] members@[i]).0@)
                &&& exists|sizes: Seq<u64>|
                    {
                        &&& sizes.len() == members@.len()
                        &&& #[trigger] saturated_total(sizes) == total
                        &&& forall|i: int|
                            0 <= i < sizes.len() ==> writes(
                                write,
                                dir@,
                                members@[i],
                                Ok(#[trigger] sizes[i]),
                            )
                    }
            },
            Err(e) => exists|i: int|
                {
                    &&& 0 <= i < members@.len()
                    &&& forall|j: int|
                        0 <= j < i ==> stays_inside((#[trigger] members@[j]).0@) && was_written(
                            write,
                            dir@,
                            members@[j],
                        )
                    &&& if !stays_inside((#[trigger] members@[i]).0@) {
                        e is Iroh && e->Iroh_0@ == "unsafe collection member name: "@ + str_debug(
                            members@[i].0@,
                        )
                    } else if e is Io {
                        writes(write, dir@, members@[i], Err(e))
                    } else {
                        e is Iroh && exists|cause: Error|
                            cause !is Io && #[trigger] writes(write, dir@, members@[i], Err(cause))
                                && e->Iroh_0@ == "export '"@ + members@[i].0@ + "': "@
                                + cause.text()
                    }
                },
        },
{
    let mut total: u64 = 0;
    let ghost mut sizes: Seq<u64> = Seq::empty();
    let mut i: usize = 0;
    while i < members.len()
        invariant
            i <= members@.len(),
            forall|m: &Member<'_>| #[trigger] write.requires((m,)),
            forall|j: int| 0 <= j < i ==> stays_inside((#[trigger] members@[j]).0@),
            sizes.len() == i,
            saturated_total(sizes) == total,
            forall|j: int|
                0 <= j < sizes.len() ==> writes(write, dir@, members@[j], Ok(#[trigger] sizes[j])),
        decreases members@.len() - i,
    {
        let name = members[i].0.as_str();
        let path = match safe_join(dir, name) {
            Some(path) => path,
            None => {
                let shown = quote(name);
                assert(!stays_inside(members@[i as int].0@));
                proof {
                    lemma_were_written(write, dir@, members@, sizes);
                }
                return Err(Error::Iroh(cat("unsafe collection member name: ", shown.as_str())));
            },
        };
        let member = Member { name, hash: members[i].1, path: path.as_str() };
        match write(&member) {
            Ok(bytes) => {
                assert(writes(write, dir@, members@[i as int], Ok(bytes)));
                let ghost before = sizes;
                proof {
                    sizes = sizes.push(bytes);
                    assert(sizes.drop_last() =~= before);
                }
                total = total.saturating_add(bytes);
            },
            Err(cause) => {
                assert(writes(write, dir@, members@[i as int], Err(cause)));
                assert(stays_inside(members@[i as int].0@));
                proof {
                    lemma_were_written(write, dir@, members@, sizes);
                }
                if let Error::Io(_) = &cause {
                    return Err(cause);
                }
                let said = cause.message();
                return Err(Error::Iroh(cat4("export '", name, "': ", said.as_str())));
            },
        }
        i += 1;
    }
    Ok(total)
}

/// Members that have a size were written.
proof fn lemma_were_written<F: Fn(&Member<'_>) -> Result<u64, Error>>(
    write: F,
    dir: Seq<char>,
    members: Seq<(String, Key)>,
    sizes: Seq<u64>,
)
    requires
        sizes.len() <= members.len(),
        forall|j: int|
            0 <= j < sizes.len() ==> writes(write, dir, members[j], Ok(#[trigger] sizes[j])),
    ensures
        forall|j: int|
            0 <= j < sizes.len() ==> was_written(write, dir, #[trigger] members[j]),
{
    assert forall|j: int| 0 <= j < sizes.len() implies was_written(
        write,
        dir,
        #[trigger] members[j],
    ) by {
        assert(writes(write, dir, members[j], Ok(sizes[j])));
    }
}

/// What is said where content could not be written to `dest`.
pub fn export_error(dest: &str, cause: &Error) -> (r: Error)
    ensures
        r is Iroh,
        r->Iroh_0@ == "failed to export from the iroh store to '"@ + dest@ + "': "@ + cause.text(),
{
    let said = cause.message();
    Error::Iroh(cat4("failed to export from the iroh store to '", dest, "': ", said.as_str()))
}

proof fn lemma_components_climb(s: Seq<char>)
    requires
        exists|i: int| 0 <= i < components(s).len() && #[trigger] components(s)[i] == ".."@,
    ensures
        exists|i: int| #[trigger] climbs_at(s, i),
    decreases s.len(),
{
    reveal_strlit("..");
    lemma_name_start(s);
    let n = name_start(s);
    let i = choose|i: int| 0 <= i < components(s).len() && #[trigger] components(s)[i] == ".."@;
    if n <= 0 {
        assert(s == ".."@);
        assert(climbs_at(s, 0));
    } else {
        let front = s.take(n - 1);
        if i < components(front).len() {
            assert(components(front)[i] == ".."@);
            lemma_components_climb(front);
            let k = choose|k: int| #[trigger] climbs_at(front, k);
            assert(climbs_at(s, k));
        } else {
            let last = s.skip(n);
            assert(components(s) == components(front).push(last));
            assert(last == ".."@);
            assert(last.len() == 2 && last[0] == '.' && last[1] == '.');
            assert(s.len() == n + 2);
            assert(s[n] == s.skip(n)[0]);
            assert(s[n + 1] == s.skip(n)[1]);
            assert(climbs_at(s, n));
        }
    }
}

/// A member is written exactly where its name is no absolute path and has no component
/// that leads to the parent.
pub proof fn law_names_that_climb_are_refused(name: Seq<char>)
    ensures
        stays_inside(name) <==> !(name.len() > 0 && name[0] == '/') && forall|i: int|
            0 <= i < components(name).len() ==> #[trigger] components(name)[i] != ".."@,
{
    if forall|i: int| !#[trigger] climbs_at(name, i) {
        lemma_components_safe(name);
    }
    if exists|i: int| 0 <= i < components(name).len() && #[trigger] components(name)[i] == ".."@ {
        lemma_components_climb(name);
    }
    if !(forall|i: int| !#[trigger] climbs_at(name, i)) && forall|i: int|
        0 <= i < components(name).len() ==> #[trigger] components(name)[i] != ".."@ {
        let k = choose|k: int| #[trigger] climbs_at(name, k);
        lemma_climbing_component(name, k);
    }
}

proof fn lemma_climbing_component(s: Seq<char>, k: int)
    requires
        climbs_at(s, k),
    ensures
        exists|i: int| 0 <= i < components(s).len() && #[trigger] components(s)[i] == ".."@,
    decreases s.len(),
{
    reveal_strlit("..");
    lemma_name_start(s);
    let n = name_start(s);
    if n <= 0 {
        assert(k == 0);
        assert(s.len() == 2) by {
            if k + 2 < s.len() {
                assert(s[k + 2] == '/');
            }
        }
        assert(s =~= ".."@);
        assert(components(s)[0] == ".."@);
    } else {
        let front = s.take(n - 1);
        let all = components(s);
        assert(all == components(front).push(s.skip(n)));
        if k >= n {
            assert(k == n) by {
                if k > n {
                    assert(s[k - 1] == '/');
                }
            }
            assert(s.len() == k + 2) by {
                if k + 2 < s.len() {
                    assert(s[k + 2] == '/');
                }
            }
            assert(s.skip(n) =~= ".."@);
            assert(all[all.len() - 1] == ".."@);
        } else {
            assert(k + 2 <= n - 1) by {
                if k + 2 > n - 1 {
                    assert(s[n - 1] == '/');
                    assert(k == n - 1 || k + 1 == n - 1);
                }
            }
            assert(climbs_at(front, k));
            lemma_climbing_component(front, k);
            let i = choose|i: int|
                0 <= i < components(front).len() && #[trigger] components(front)[i] == ".."@;
            assert(all[i] == ".."@);
        }
    }
}

/// What was written is the sum of the sizes, or the greatest number where that is less.
pub proof fn law_totals_do_not_wrap(sizes: Seq<u64>, last: u64)
    ensures
        saturated_total(Seq::empty()) == 0,
        saturated_total(sizes.push(last)) == (if saturated_total(sizes) + last <= u64::MAX {
            saturated_total(sizes) + last
        } else {
            u64::MAX as int
        }),
        forall|i: int| 0 <= i < sizes.len() ==> #[trigger] sizes[i] <= saturated_total(sizes),
    decreases sizes.len(),
{
    assert(sizes.push(last).drop_last() =~= sizes);
    if sizes.len() > 0 {
        let rest = sizes.drop_last();
        law_totals_do_not_wrap(rest, last);
        assert forall|i: int| 0 <= i < sizes.len() implies #[trigger] sizes[i] <= saturated_total(
            sizes,
        ) by {
            if i < rest.len() {
                assert(rest[i] == sizes[i]);
            }
        }
    }
}

/// Which events of a download end it, and which are reported. Only its end and a failure of
/// the whole end it: that a provider fails does not, and is reported under that provider.
pub proof fn law_a_failing_provider_does_not_end_a_download(event: DownloadEvent)
    ensures
        fatal_cause(event) is Some <==> event is Idle || event is DownloadError || event is Error,
        event matches DownloadEvent::ProviderFailed(id) ==> frame_of(event) == Some(
            FetchProgress::LocationFailed { endpoint_id: id },
        ),
        event matches DownloadEvent::TryProvider(id) ==> frame_of(event) == Some(
            FetchProgress::TryingLocation { endpoint_id: id },
        ),
        event matches DownloadEvent::Progress(n) ==> frame_of(event) == Some(
            FetchProgress::Downloading { offset: n, total: None },
        ) && moves_data(event),
        event is PartComplete ==> moves_data(event),
        moves_data(event) ==> event is Progress || event is PartComplete,
        event matches DownloadEvent::Error(cause) ==> fatal_cause(event) == Some(cause@),
{
}

proof fn lemma_trim_path_plain(s: Seq<char>)
    requires
        s.len() > 0,
        s.last() != '/',
        !(s.last() == '.' && s.len() > 1 && s[s.len() - 2] == '/'),
    ensures
        trim_path(s) == s,
{
}

proof fn lemma_name_start_at(s: Seq<char>, n: int)
    requires
        0 <= n <= s.len(),
        forall|i: int| n <= i < s.len() ==> s[i] != '/',
        n > 0 ==> s[n - 1] == '/',
    ensures
        name_start(s) == n,
    decreases s.len(),
{
    if s.len() > n {
        lemma_name_start_at(s.drop_last(), n);
    }
}

/// A file is staged beside where it goes, under its own name with a dot in front: the
/// staging path of a name in a directory is that of the staged name in the same directory.
pub proof fn law_a_file_is_staged_beside_its_place(dir: Seq<char>, name: Seq<char>)
    requires
        name.len() > 0,
        !name.contains('/'),
        name != "."@,
        name != ".."@,
        dir.len() > 0 ==> dir.last() != '/' && !(dir.last() == '.' && dir.len() > 1 && dir[dir.len()
            - 2] == '/'),
    ensures
        staging_path(path_in(dir, name)) == path_in(dir, "."@ + name + ".rad-partial"@),
{
    reveal_strlit("/");
    reveal_strlit(".");
    reveal_strlit("..");
    let p = path_in(dir, name);
    let n = p.len() - name.len();
    assert forall|i: int| n <= i < p.len() implies p[i] != '/' by {
        assert(p[i] == name[i - n]);
        assert(name.contains(name[i - n]));
    }
    assert(p.last() == name.last());
    if p.last() == '.' && p.len() > 1 && p[p.len() - 2] == '/' {
        assert(name.len() == 1) by {
            if name.len() > 1 {
                assert(p[p.len() - 2] == name[name.len() - 2]);
                assert(name.contains(name[name.len() - 2]));
            }
        }
        assert(name =~= "."@);
    }
    lemma_trim_path_plain(p);
    lemma_name_start_at(p, n);
    assert(p.skip(n) =~= name);
    assert(file_name(p) == Some(name));
    if dir.len() > 0 {
        let d = p.take(n);
        assert(d =~= dir.push('/'));
        assert(d.drop_last() =~= dir);
        assert(trim_path(d) == trim_path(dir));
        lemma_trim_path_plain(dir);
        assert(parent_dir(p) == dir);
    } else {
        assert(parent_dir(p).len() == 0);
        let staged = "."@ + name + ".rad-partial"@;
        assert(path_in(dir, staged) =~= staged);
    }
}

/// `safe_join` refuses exactly the names that are absolute or have a component that leads to
/// the parent, and joins every other under the directory.
pub proof fn law_safe_join_refuses_what_climbs(base: &str, name: &str, r: Option<String>)
    requires
        call_ensures(safe_join, (base, name), r),
    ensures
        r is None <==> (name@.len() > 0 && name@[0] == '/') || exists|i: int|
            0 <= i < components(name@).len() && #[trigger] components(name@)[i] == ".."@,
        r matches Some(path) ==> base@.is_prefix_of(path@) && path@.skip(path@.len() - name@.len())
            == name@,
{
    law_names_that_climb_are_refused(name@);
    if stays_inside(name@) {
        law_safe_join_stays_inside(base@, name@);
    }
}

/// Separators at the end of a path, and a component that is only a dot, do not change what
/// the path names.
pub proof fn law_trailing_separators_do_not_count(s: Seq<char>)
    requires
        s.len() > 0,
    ensures
        file_name(s.push('/')) == file_name(s),
        parent_dir(s.push('/')) == parent_dir(s),
        file_name(s.push('/').push('.')) == file_name(s),
        parent_dir(s.push('/').push('.')) == parent_dir(s),
        staging_path(s.push('/')) == staging_path(s),
{
    let t = s.push('/');
    assert(t.drop_last() =~= s);
    assert(trim_path(t) == trim_path(s));
    let u = t.push('.');
    assert(u.drop_last() =~= t);
    assert(trim_path(u) == trim_path(t));
}

/// `export_members` writes every member of a collection to its place under the directory,
/// with its own hash, and succeeds only where each was written and no name leads out.
pub proof fn law_every_member_is_written<F: Fn(&Member<'_>) -> Result<u64, Error>>(
    members: Vec<(String, Key)>,
    dir: &str,
    write: F,
    r: Result<u64, Error>,
    i: int,
)
    requires
        call_ensures(export_members::<F>, (&members, dir, write), r),
        r is Ok,
        0 <= i < members@.len(),
    ensures
        exists|m: Member<'_>, size: u64| #[trigger]
            write.ensures((&m,), Ok(size)) && m.name@ == members@[i].0@ && m.hash == members@[i].1
                && m.path@ == path_in(dir@, members@[i].0@) && size <= r->Ok_0,
        members@[i].0@.len() > 0 ==> members@[i].0@[0] != '/',
        forall|k: int|
            0 <= k < components(members@[i].0@).len() ==> #[trigger] components(
                members@[i].0@,
            )[k] != ".."@,
{
    let total = r->Ok_0;
    let sizes = choose|sizes: Seq<u64>|
        {
            &&& sizes.len() == members@.len()
            &&& #[trigger] saturated_total(sizes) == total
            &&& forall|i: int|
                0 <= i < sizes.len() ==> writes(write, dir@, members@[i], Ok(#[trigger] sizes[i]))
        };
    assert(stays_inside(members@[i].0@));
    law_safe_join_stays_inside(dir@, members@[i].0@);
    assert(writes(write, dir@, members@[i], Ok(sizes[i])));
    lemma_total_covers(sizes, i);
}

/// A total is at least each of the sizes.
proof fn lemma_total_covers(sizes: Seq<u64>, i: int)
    requires
        0 <= i < sizes.len(),
    ensures
        sizes[i] <= saturated_total(sizes),
    decreases sizes.len(),
{
    let rest = sizes.drop_last();
    if i < rest.len() {
        assert(rest[i] == sizes[i]);
        lemma_total_covers(rest, i);
    }
}

/// Where the store has everything a download has succeeded, whatever went wrong on the way;
/// where it has not, every cause so far and the one that ended the download are reported.
pub proof fn law_the_store_decides(
    transfer: Transfer,
    complete: Result<bool, String>,
    r: Result<(), Vec<String>>,
    cause: Seq<char>,
)
    requires
        call_ensures(Transfer::finish, (transfer, complete), r),
    ensures
        r is Ok <==> complete == Ok::<bool, String>(true),
        r is Err && texts(transfer.causes@).contains(cause) ==> texts(r->Err_0@).contains(cause),
        r is Err && transfer.fatal is Some ==> texts(r->Err_0@).contains(transfer.fatal->0@),
        r is Err && complete == Ok::<bool, String>(false) ==> r->Err_0@.len()
            == transfer.causes@.len() + (if transfer.fatal is Some {
            1int
        } else {
            0int
        }),
{
    if r is Err {
        let out = texts(r->Err_0@);
        let own = texts(transfer.causes@);
        assert(out.len() == r->Err_0@.len());
        assert(own.len() == transfer.causes@.len());
        if own.contains(cause) {
            let k = choose|k: int| 0 <= k < own.len() && own[k] == cause;
            assert(out[k] == cause);
        }
        if transfer.fatal is Some {
            assert(out.last() == transfer.fatal->0@);
        }
    }
}

} // verus!
