//! The commands, and what each of them takes.

use crate::display::Style;
use crate::ids::{Cid, RepoId};
use crate::location::Url;
use crate::node::Subcommand;
use crate::text::cat;
use crate::verify::Verify as VerifyError;
use vstd::prelude::*;

verus! {

/// A command.
pub enum Command {
    /// Creates a release of a commit, or uses one's own.
    Create(Create),
    /// Registers artifacts in a release.
    Register(Register),
    /// Changes discovery locations.
    Location(Location),
    /// Attests that an artifact was verified.
    Attest(Attest),
    /// Redacts an artifact.
    Redact(Redact),
    /// Removes one's own reference to a release.
    Delete(Delete),
    /// Changes metadata.
    Metadata(Metadata),
    /// Shows the releases of a commit.
    Show(Show),
    /// Lists the releases of the repository.
    List(List),
    /// Reports figures on the repository.
    Stats(Stats),
    /// Verifies content.
    Verify(Verify),
    /// Looks for an artifact in every repository.
    Locate(Locate),
    /// Computes an identifier.
    ComputeCid(ComputeCid),
    /// Fetches an artifact into the store.
    Fetch(Fetch),
    /// Fetches an artifact and writes it to a file.
    Download(Download),
    /// Seeds an artifact.
    Seed(Seed),
    /// Stops seeding an artifact.
    Unseed(Unseed),
    /// Reconciles locations with what is seeded.
    Reconcile(Reconcile),
    /// Controls the node.
    Node(Subcommand),
    /// Follows repositories.
    Watch(Watch),
}

/// What a release is created of.
pub struct Create {
    /// A commit, a tag, or the start of an id; asked for where there is none.
    pub revision: Option<String>,
    pub json: bool,
}

/// What is registered, and where.
pub struct Register {
    pub path: Option<String>,
    pub cid: Option<Cid>,
    pub revision: Option<String>,
    pub release: Option<String>,
    pub name: Option<String>,
    /// Whether it is seeded then.
    pub seed: bool,
    pub json: bool,
    /// Whether no size is recorded.
    pub no_size: bool,
    /// Whether a directory is one collection.
    pub collection: bool,
    /// Whether a directory is one artifact for each file directly in it.
    pub each: bool,
    pub all_authors: bool,
}

/// A change of discovery locations.
pub struct Location {
    pub command: LocationCommand,
}

/// A change of discovery locations.
pub enum LocationCommand {
    Add(LocationAdd),
    Remove(LocationRemove),
}

/// A location to add.
pub struct LocationAdd {
    pub revision: Option<String>,
    pub release: Option<String>,
    pub cid: Option<Cid>,
    pub url: Url,
    pub all_authors: bool,
}

/// A location to remove.
pub struct LocationRemove {
    pub revision: Option<String>,
    pub release: Option<String>,
    pub cid: Option<Cid>,
    /// Asked for where there is none.
    pub url: Option<Url>,
    pub all_authors: bool,
}

/// What is attested.
pub struct Attest {
    pub revision: Option<String>,
    pub release: Option<String>,
    pub cid: Option<Cid>,
    pub all_authors: bool,
}

/// What is redacted.
pub struct Redact {
    pub revision: Option<String>,
    pub release: Option<String>,
    pub cid: Option<Cid>,
    /// Asked for where there is none.
    pub reason: Option<String>,
    pub all_authors: bool,
}

/// The release to delete.
pub struct Delete {
    pub release: String,
}

/// A change of metadata.
pub struct Metadata {
    pub command: MetadataCommand,
}

/// A change of metadata.
pub enum MetadataCommand {
    SetKey(MetadataSet),
    UnsetKey(MetadataUnset),
}

/// A metadata entry to set.
pub struct MetadataSet {
    pub revision: Option<String>,
    pub release: Option<String>,
    pub cid: Option<Cid>,
    /// Whether the value is read as JSON.
    pub json: bool,
    pub key: String,
    pub value: String,
    pub all_authors: bool,
}

/// A metadata entry to remove.
pub struct MetadataUnset {
    pub revision: Option<String>,
    pub release: Option<String>,
    pub cid: Option<Cid>,
    pub key: String,
    pub all_authors: bool,
}

/// What is shown.
pub struct Show {
    pub pretty: bool,
    pub json: bool,
    pub verbose: bool,
    pub redacted: bool,
    pub all_authors: bool,
    pub revision: Option<String>,
    pub release: Option<String>,
}

/// What is listed.
pub struct List {
    pub pretty: bool,
    pub json: bool,
    pub verbose: bool,
    pub all_authors: bool,
    pub redacted: bool,
    /// Whether releases without artifacts are listed too.
    pub empty: bool,
}

/// How figures are reported.
pub struct Stats {
    pub pretty: bool,
    pub json: bool,
}

/// What is verified.
pub struct Verify {
    pub path: String,
    pub all_authors: bool,
    pub pretty: bool,
    pub json: bool,
}

/// What is looked for.
pub struct Locate {
    pub cid: Cid,
    /// Whether releases are wanted, and not locations.
    pub releases: bool,
}

/// What an identifier is computed of.
pub struct ComputeCid {
    pub path: String,
}

/// What is fetched.
pub struct Fetch {
    pub revision: Option<String>,
    pub cid: Option<Cid>,
    pub url: Option<Url>,
    pub seed: bool,
}

/// What is fetched and written to a file.
pub struct Download {
    pub revision: Option<String>,
    pub cid: Option<Cid>,
    pub output: Option<String>,
    pub url: Option<Url>,
    pub seed: bool,
    /// Whether only the store is asked.
    pub offline: bool,
}

/// What is seeded.
pub struct Seed {
    pub path: String,
    pub release: Option<String>,
    /// Whether the content stays where it is.
    pub reference: bool,
    /// Whether no location is added.
    pub no_location: bool,
}

/// What is no longer seeded.
pub struct Unseed {
    pub cid: Cid,
    pub release: Option<String>,
}

/// How locations are reconciled.
pub struct Reconcile {
    pub all_repos: bool,
    /// The artifacts whose orphaned locations are removed.
    pub remove_orphaned: Vec<Cid>,
    /// Whether all orphaned and stale locations are removed.
    pub remove_orphaned_self: bool,
}

/// How repositories are followed.
pub struct Watch {
    pub rids: Vec<RepoId>,
    pub budget: Option<u64>,
    /// Seconds between sweeps.
    pub sweep: u64,
    pub dry_run: bool,
}

/// What a command works on.
#[derive(Clone, Copy, PartialEq, Eq, Debug, Structural)]
pub enum Route {
    /// Files alone: neither a profile nor a repository is needed.
    Files,
    /// The profile of the user; the command opens a repository where it needs one.
    Profile,
    /// The releases of a repository.
    Repository,
}

/// What a command works on.
pub open spec fn route_of(c: Command) -> Route {
    if c is ComputeCid {
        Route::Files
    } else if c is Node || c is Seed || c is Unseed || c is Reconcile || c is Locate || c is Watch {
        Route::Profile
    } else {
        Route::Repository
    }
}

/// What a command works on.
pub fn route(c: &Command) -> (r: Route)
    ensures
        r == route_of(*c),
{
    match c {
        Command::ComputeCid(_) => Route::Files,
        Command::Node(_) => Route::Profile,
        Command::Seed(_) => Route::Profile,
        Command::Unseed(_) => Route::Profile,
        Command::Reconcile(_) => Route::Profile,
        Command::Locate(_) => Route::Profile,
        Command::Watch(_) => Route::Profile,
        _ => Route::Repository,
    }
}

/// Whether a command on a repository changes releases, and so has to sign.
pub open spec fn changes(c: Command) -> bool {
    c is Create || c is Register || c is Location || c is Attest || c is Redact || c is Delete
        || c is Metadata
}

/// Whether a command on a repository needs a signer.
pub fn needs_signer(c: &Command) -> (r: bool)
    ensures
        r == changes(*c),
{
    match c {
        Command::Create(_) => true,
        Command::Register(_) => true,
        Command::Location(_) => true,
        Command::Attest(_) => true,
        Command::Redact(_) => true,
        Command::Delete(_) => true,
        Command::Metadata(_) => true,
        _ => false,
    }
}

/// Whether a command on a repository that succeeded is announced: it changed something,
/// and the user did not rule it out. Using a release that exists changes nothing.
pub fn is_announced(c: &Command, reused: bool, no_announce: bool) -> (r: bool)
    ensures
        r == (changes(*c) && !(c is Create && reused) && !no_announce),
{
    let nothing_new = match c {
        Command::Create(_) => reused,
        _ => false,
    };
    needs_signer(c) && !nothing_new && !no_announce
}

/// Whether output is for people: where the user said so, or did not ask for JSON and
/// output goes to a terminal.
pub fn use_pretty(pretty: bool, json: bool, terminal: bool) -> (r: bool)
    ensures
        r == (!json && (pretty || terminal)),
{
    if json {
        return false;
    }
    if pretty {
        return true;
    }
    terminal
}

/// Whether output is coloured: it goes to a terminal, and the user did not switch colours
/// off with a setting that is not empty.
pub fn use_color(terminal: bool, no_color: Option<&str>) -> (r: bool)
    ensures
        r == (terminal && (no_color is None || no_color->0@.len() == 0)),
{
    let off = match no_color {
        Some(s) => s.unicode_len() > 0,
        None => false,
    };
    terminal && !off
}

/// How output for people looks.
pub fn pretty_style(verbose: bool, terminal: bool, no_color: Option<&str>) -> (r: Style)
    ensures
        r.verbose == verbose,
        r.color == (terminal && (no_color is None || no_color->0@.len() == 0)),
{
    Style { verbose, color: use_color(terminal, no_color) }
}

/// How an error is reported.
pub fn error_line(message: &str, color: bool) -> (r: String)
    ensures
        r@ == (if color {
            "\x1b[1;31mERROR\x1b[0m: "@
        } else {
            "ERROR: "@
        }) + message@,
{
    let head = if color { "\x1b[1;31mERROR\x1b[0m: " } else { "ERROR: " };
    cat(head, message)
}

/// The exit code of a command that failed: only verifying tells an answer from having
/// none.
pub fn exit_code(verify: Option<&VerifyError>) -> (r: i32)
    ensures
        r == (if verify is Some && verify->0.is_verdict() {
            2i32
        } else {
            1i32
        }),
{
    match verify {
        Some(e) => e.exit_code(),
        None => 1,
    }
}

/// Which commands change releases and which only read: a command that signs works on a
/// repository, and one that works on files or on the profile alone never does.
pub proof fn law_every_command_has_its_route(c: Command)
    ensures
        match c {
            Command::Create(_) | Command::Register(_) | Command::Location(_) | Command::Attest(_)
            | Command::Redact(_) | Command::Delete(_) | Command::Metadata(_) => changes(c)
                && route_of(c) == Route::Repository,
            Command::Show(_) | Command::List(_) | Command::Stats(_) | Command::Verify(_)
            | Command::Fetch(_) | Command::Download(_) => !changes(c) && route_of(c)
                == Route::Repository,
            Command::Locate(_) | Command::Seed(_) | Command::Unseed(_) | Command::Reconcile(_)
            | Command::Node(_) | Command::Watch(_) => !changes(c) && route_of(c)
                == Route::Profile,
            Command::ComputeCid(_) => !changes(c) && route_of(c) == Route::Files,
        },
{
}

/// `is_announced` announces exactly the commands that changed a release, unless the user
/// ruled it out; using a release that exists changed nothing.
pub proof fn law_only_changes_are_announced(
    c: Command,
    reused: bool,
    no_announce: bool,
    announced: bool,
    signs: bool,
)
    requires
        call_ensures(is_announced, (&c, reused, no_announce), announced),
        call_ensures(needs_signer, (&c,), signs),
    ensures
        announced ==> signs && !no_announce,
        signs && !no_announce && !(c is Create) ==> announced,
        c is Create && !no_announce ==> (announced <==> !reused),
        signs <==> c is Create || c is Register || c is Location || c is Attest || c is Redact
            || c is Delete || c is Metadata,
{
    law_every_command_has_its_route(c);
}

/// Output is JSON where the user asked for JSON, and otherwise for people where they asked
/// for that or it goes to a terminal; colours are used only on a terminal.
pub proof fn law_output_goes_by_what_the_user_asked_for(
    pretty: bool,
    json: bool,
    terminal: bool,
    no_color: Option<&str>,
    for_people: bool,
    colored: bool,
)
    requires
        call_ensures(use_pretty, (pretty, json, terminal), for_people),
        call_ensures(use_color, (terminal, no_color), colored),
    ensures
        json ==> !for_people,
        !json && (pretty || terminal) ==> for_people,
        !pretty && !terminal ==> !for_people,
        colored ==> terminal,
        no_color is None ==> (colored <==> terminal),
        no_color matches Some(s) ==> (s@.len() > 0 ==> !colored),
{
}

} // verus!
