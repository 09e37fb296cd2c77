//! What the user sees: the command line, the install events and their messages,
//! the output mode, and the state the terminal view keeps.

use vstd::prelude::*;
use crate::text::{concat2, concat3, decimal, str_eq, usize_string};

verus! {

// ---------------------------------------------------------------------------
// The command line
// ---------------------------------------------------------------------------

/// How install progress is shown.
#[derive(Clone, Copy, Debug, PartialEq, Eq, Structural)]
pub enum OutputMode {
    Auto,
    Plain,
    Tui,
}

/// The options of `install`.
#[derive(Debug, PartialEq, Eq, Structural)]
pub struct InstallOptions {
    pub output_mode: OutputMode,
    pub include_dev: bool,
}

/// A parsed command line.
#[derive(Debug)]
pub enum Command {
    Install(InstallOptions),
    Help,
    Version,
    Unknown(String),
}

/// The help text.
pub const HELP: &'static str = "Usage: concerto <COMMAND>\n\nCommands:\n  install    Install packages from composer.json\n\nInstall options:\n      --ui              Force terminal UI output\n      --plain           Force plain text output\n      --no-progress     Disable progress UI\n      --no-dev          Skip composer.json require-dev packages\n\nGlobal options:\n  -h, --help     Print help\n  -V, --version  Print version";

/// The options after reading `arguments` in order: the last output flag wins, an
/// unknown argument or a help flag ends the reading.
pub open spec fn install_options_spec(arguments: Seq<Seq<char>>, mode: OutputMode, include_dev: bool) -> (
    Option<Seq<char>>,
    bool,
    OutputMode,
    bool,
)
    decreases arguments.len(),
{
    if arguments.len() == 0 {
        (None, false, mode, include_dev)
    } else {
        let a = arguments[0];
        let rest = arguments.drop_first();
        if a == "--ui"@ {
            install_options_spec(rest, OutputMode::Tui, include_dev)
        } else if a == "--plain"@ || a == "--no-progress"@ {
            install_options_spec(rest, OutputMode::Plain, include_dev)
        } else if a == "--no-dev"@ {
            install_options_spec(rest, mode, false)
        } else if a == "-h"@ || a == "--help"@ {
            (None, true, mode, include_dev)
        } else {
            (Some(a), false, mode, include_dev)
        }
    }
}

/// What `arguments` (without the program name) ask for.
pub open spec fn command_spec(arguments: Seq<Seq<char>>) -> (int, Option<Seq<char>>, OutputMode, bool) {
    if arguments.len() == 0 || arguments[0] == "-h"@ || arguments[0] == "--help"@ {
        (1, None, OutputMode::Auto, true)
    } else if arguments[0] == "-V"@ || arguments[0] == "--version"@ {
        (2, None, OutputMode::Auto, true)
    } else if arguments[0] == "install"@ {
        let (unknown, help, mode, include_dev) = install_options_spec(
            arguments.drop_first(),
            OutputMode::Auto,
            true,
        );
        if help {
            (1, None, mode, include_dev)
        } else if unknown is Some {
            (3, unknown, mode, include_dev)
        } else {
            (0, None, mode, include_dev)
        }
    } else {
        (3, Some(arguments[0]), OutputMode::Auto, true)
    }
}

/// Which kind of command a parsed command is, with what it carries.
pub open spec fn command_view(command: Command) -> (int, Option<Seq<char>>, OutputMode, bool) {
    match command {
        Command::Install(options) => (0, None, options.output_mode, options.include_dev),
        Command::Help => (1, None, OutputMode::Auto, true),
        Command::Version => (2, None, OutputMode::Auto, true),
        Command::Unknown(argument) => (3, Some(argument@), OutputMode::Auto, true),
    }
}

/// The command `arguments` ask for.
pub fn parse_command(arguments: &Vec<String>) -> (r: Command)
    ensures
        ({
            let expected = command_spec(crate::error::views(arguments@));
            let actual = command_view(r);
            actual.0 == expected.0 && actual.1 == expected.1 && (expected.0 == 0 ==> actual.2
                == expected.2 && actual.3 == expected.3)
        }),
{
    if arguments.len() == 0 {
        return Command::Help;
    }
    let first = arguments[0].as_str();
    if str_eq(first, "-h") || str_eq(first, "--help") {
        return Command::Help;
    }
    if str_eq(first, "-V") || str_eq(first, "--version") {
        return Command::Version;
    }
    if !str_eq(first, "install") {
        return Command::Unknown(arguments[0].clone());
    }
    parse_install_options(arguments)
}

/// The `install` command with the options after its name.
fn parse_install_options(arguments: &Vec<String>) -> (r: Command)
    requires
        arguments@.len() > 0,
    ensures
        ({
            let (unknown, help, mode, include_dev) = install_options_spec(
                crate::error::views(arguments@).drop_first(),
                OutputMode::Auto,
                true,
            );
            let actual = command_view(r);
            if help {
                actual.0 == 1
            } else if unknown is Some {
                actual.0 == 3 && actual.1 == unknown
            } else {
                actual.0 == 0 && actual.2 == mode && actual.3 == include_dev
            }
        }),
{
    let ghost all = crate::error::views(arguments@);
    let mut output_mode = OutputMode::Auto;
    let mut include_dev = true;
    let mut i: usize = 1;
    assert(all.skip(1) =~= all.drop_first());
    while i < arguments.len()
        invariant
            1 <= i <= arguments@.len(),
            all == crate::error::views(arguments@),
            install_options_spec(all.drop_first(), OutputMode::Auto, true) == install_options_spec(
                all.skip(i as int),
                output_mode,
                include_dev,
            ),
        decreases arguments@.len() - i,
    {
        let argument = arguments[i].as_str();
        assert(all.skip(i as int)[0] == argument@);
        assert(all.skip(i as int).drop_first() =~= all.skip(i + 1));
        if str_eq(argument, "--ui") {
            output_mode = OutputMode::Tui;
        } else if str_eq(argument, "--plain") || str_eq(argument, "--no-progress") {
            output_mode = OutputMode::Plain;
        } else if str_eq(argument, "--no-dev") {
            include_dev = false;
        } else if str_eq(argument, "-h") || str_eq(argument, "--help") {
            return Command::Help;
        } else {
            return Command::Unknown(arguments[i].clone());
        }
        i = i + 1;
    }
    assert(all.skip(i as int) =~= Seq::<Seq<char>>::empty());
    Command::Install(InstallOptions { output_mode, include_dev })
}

// ---------------------------------------------------------------------------
// Output mode
// ---------------------------------------------------------------------------

/// The output an install uses.
#[derive(Clone, Copy, Debug, PartialEq, Eq, Structural)]
pub enum SelectedOutputMode {
    Plain,
    Tui,
}

/// The terminal view when asked for, plain text when asked for; otherwise the terminal
/// view only on an interactive terminal, outside CI, whose `TERM` is not `dumb`.
pub fn select_output_mode(requested_mode: OutputMode, is_terminal: bool, is_ci: bool, term: &str) -> (r:
    SelectedOutputMode)
    ensures
        r == match requested_mode {
            OutputMode::Plain => SelectedOutputMode::Plain,
            OutputMode::Tui => SelectedOutputMode::Tui,
            OutputMode::Auto => if is_terminal && !is_ci && term@ != "dumb"@ {
                SelectedOutputMode::Tui
            } else {
                SelectedOutputMode::Plain
            },
        },
{
    match requested_mode {
        OutputMode::Plain => SelectedOutputMode::Plain,
        OutputMode::Tui => SelectedOutputMode::Tui,
        OutputMode::Auto => if is_terminal && !is_ci && !str_eq(term, "dumb") {
            SelectedOutputMode::Tui
        } else {
            SelectedOutputMode::Plain
        },
    }
}

// ---------------------------------------------------------------------------
// Install events
// ---------------------------------------------------------------------------

/// Something that happened during an install.
#[derive(Debug)]
pub enum InstallEventKind {
    Started,
    PlatformDetected { php_version: String, extension_count: usize },
    LockfileMatched { packages: usize },
    LockfileOutdated,
    MetadataFetched { package: String, bytes: usize },
    PackageResolved {
        package: String,
        version: String,
        version_count: usize,
        package_requirements: usize,
        platform_requirements: usize,
        dist_url: String,
    },
    SourceReused { package: String, path: String },
    SourcePrepared { package: String, path: String },
    VendorLinked { package: String, version: String, path: String },
    AutoloadWritten { packages: usize },
    LockfileWritten,
}

/// An install event.
#[derive(Debug)]
pub struct InstallEvent {
    pub kind: InstallEventKind,
}

/// `1 package`, or the count and `packages`.
pub open spec fn package_count_spec(packages: nat) -> Seq<char> {
    if packages == 1 {
        "1 package"@
    } else {
        decimal(packages) + " packages"@
    }
}

/// A package count as the messages show it.
pub fn package_count(packages: usize) -> (r: String)
    ensures
        r@ == package_count_spec(packages as nat),
{
    if packages == 1 {
        return "1 package".to_owned();
    }
    let count = usize_string(packages);
    concat2(count.as_str(), " packages")
}

/// The line an event is shown as.
pub open spec fn event_message_spec(kind: InstallEventKind) -> Seq<char> {
    match kind {
        InstallEventKind::Started => "Starting install"@,
        InstallEventKind::PlatformDetected { php_version, extension_count } => "Platform php "@
            + php_version@ + ", "@ + decimal(extension_count as nat) + " extensions"@,
        InstallEventKind::LockfileMatched { packages } => "Installing from lockfile with "@
            + package_count_spec(packages as nat),
        InstallEventKind::LockfileOutdated => "Ignoring outdated lockfile"@,
        InstallEventKind::MetadataFetched { package, bytes } => package@ + ": fetched "@ + decimal(
            bytes as nat,
        ) + " bytes"@,
        InstallEventKind::PackageResolved {
            package,
            version,
            version_count,
            package_requirements,
            platform_requirements,
            dist_url,
        } => package@ + ": selected "@ + version@ + " from "@ + decimal(version_count as nat)
            + " versions, "@ + decimal(package_requirements as nat) + " package requirements, "@
            + decimal(platform_requirements as nat) + " platform requirements ("@ + dist_url@
            + ")"@,
        InstallEventKind::SourceReused { package, path } => package@ + ": Reusing "@ + path@,
        InstallEventKind::SourcePrepared { package, path } => package@ + ": prepared "@ + path@,
        InstallEventKind::VendorLinked { package, version, path } => package@ + " "@ + version@
            + " -> "@ + path@,
        InstallEventKind::AutoloadWritten { packages } => "Generated autoload for "@ + decimal(
            packages as nat,
        ) + " packages"@,
        InstallEventKind::LockfileWritten => "Wrote concerto.lock"@,
    }
}

/// The line an event is shown as.
pub fn event_message(event: &InstallEvent) -> (r: String)
    ensures
        r@ == event_message_spec(event.kind),
{
    match &event.kind {
        InstallEventKind::Started => "Starting install".to_owned(),
        InstallEventKind::PlatformDetected { php_version, extension_count } => {
            let mut out = concat3("Platform php ", php_version.as_str(), ", ");
            let count = usize_string(*extension_count);
            out.append(count.as_str());
            out.append(" extensions");
            out
        },
        InstallEventKind::LockfileMatched { packages } => {
            let count = package_count(*packages);
            concat2("Installing from lockfile with ", count.as_str())
        },
        InstallEventKind::LockfileOutdated => "Ignoring outdated lockfile".to_owned(),
        InstallEventKind::MetadataFetched { package, bytes } => {
            let count = usize_string(*bytes);
            let mut out = concat3(package.as_str(), ": fetched ", count.as_str());
            out.append(" bytes");
            out
        },
        InstallEventKind::PackageResolved {
            package,
            version,
            version_count,
            package_requirements,
            platform_requirements,
            dist_url,
        } => {
            let mut out = concat3(package.as_str(), ": selected ", version.as_str());
            out.append(" from ");
            let versions = usize_string(*version_count);
            out.append(versions.as_str());
            out.append(" versions, ");
            let packages = usize_string(*package_requirements);
            out.append(packages.as_str());
            out.append(" package requirements, ");
            let platform = usize_string(*platform_requirements);
            out.append(platform.as_str());
            out.append(" platform requirements (");
            out.append(dist_url.as_str());
            out.append(")");
            out
        },
        InstallEventKind::SourceReused { package, path } => concat3(
            package.as_str(),
            ": Reusing ",
            path.as_str(),
        ),
        InstallEventKind::SourcePrepared { package, path } => concat3(
            package.as_str(),
            ": prepared ",
            path.as_str(),
        ),
        InstallEventKind::VendorLinked { package, version, path } => {
            let mut out = concat3(package.as_str(), " ", version.as_str());
            out.append(" -> ");
            out.append(path.as_str());
            out
        },
        InstallEventKind::AutoloadWritten { packages } => {
            let count = usize_string(*packages);
            let mut out = concat2("Generated autoload for ", count.as_str());
            out.append(" packages");
            out
        },
        InstallEventKind::LockfileWritten => "Wrote concerto.lock".to_owned(),
    }
}

/// The final line of an install: the package count and how long it took.
pub fn summary_message(packages: usize, duration_text: &str) -> (r: String)
    ensures
        r@ == "Install complete: "@ + package_count_spec(packages as nat) + " in "@ + duration_text@,
{
    let count = package_count(packages);
    let mut out = concat3("Install complete: ", count.as_str(), " in ");
    out.append(duration_text);
    out
}

/// The duration of an install under a second, in milliseconds.
pub fn format_millis(millis: u128) -> (r: String)
    ensures
        r@ == decimal(millis as nat) + "ms"@,
{
    let digits = crate::text::decimal_string(millis);
    concat2(digits.as_str(), "ms")
}

// ---------------------------------------------------------------------------
// The terminal view
// ---------------------------------------------------------------------------

/// How many recent events the terminal view shows.
pub const MAX_RENDERED_EVENTS: usize = 4;

/// What the terminal view keeps while an install runs.
#[derive(Debug)]
pub struct TuiState {
    /// The most recent event lines, oldest first.
    pub events: Vec<String>,
    pub status: String,
    pub reused_sources: usize,
    pub prepared_sources: usize,
    pub linked_packages: usize,
    pub autoload_packages: Option<usize>,
    pub lockfile_written: bool,
}

/// The last `MAX_RENDERED_EVENTS` lines of `lines`.
pub open spec fn recent(lines: Seq<Seq<char>>) -> Seq<Seq<char>> {
    if lines.len() <= MAX_RENDERED_EVENTS {
        lines
    } else {
        lines.skip(lines.len() - MAX_RENDERED_EVENTS)
    }
}

/// One more, or the largest count when there is no more.
pub open spec fn bumped(n: usize) -> usize {
    if n < usize::MAX {
        (n + 1) as usize
    } else {
        n
    }
}

/// `after` is `before` having taken in an event of kind `kind`: the event counted, shown
/// as the status, and kept among the most recent lines.
pub open spec fn recorded_step(before: TuiState, kind: InstallEventKind, after: TuiState) -> bool {
    &&& after.events@.len() <= MAX_RENDERED_EVENTS
    &&& crate::error::views(after.events@) == recent(
        crate::error::views(before.events@).push(event_message_spec(kind)),
    )
    &&& after.status@ == event_message_spec(kind)
    &&& after.reused_sources == if kind is SourceReused {
        bumped(before.reused_sources)
    } else {
        before.reused_sources
    }
    &&& after.prepared_sources == if kind is SourcePrepared {
        bumped(before.prepared_sources)
    } else {
        before.prepared_sources
    }
    &&& after.linked_packages == if kind is VendorLinked {
        bumped(before.linked_packages)
    } else {
        before.linked_packages
    }
    &&& after.autoload_packages == match kind {
        InstallEventKind::AutoloadWritten { packages } => Some(packages),
        _ => before.autoload_packages,
    }
    &&& after.lockfile_written == (before.lockfile_written || kind is LockfileWritten)
}

/// The view before any event.
pub open spec fn fresh_state(s: TuiState) -> bool {
    &&& s.events@.len() == 0
    &&& s.reused_sources == 0 && s.prepared_sources == 0 && s.linked_packages == 0
    &&& s.autoload_packages is None
    &&& !s.lockfile_written
}

/// The lines of a run of events, in order.
pub open spec fn event_lines(kinds: Seq<InstallEventKind>) -> Seq<Seq<char>> {
    kinds.map_values(|k: InstallEventKind| event_message_spec(k))
}

/// How many events of a run `counted` holds of, the count stopping at the largest
/// `usize`.
pub open spec fn tally(kinds: Seq<InstallEventKind>, counted: spec_fn(InstallEventKind) -> bool) -> usize
    decreases kinds.len(),
{
    if kinds.len() == 0 {
        0
    } else if counted(kinds.last()) {
        bumped(tally(kinds.drop_last(), counted))
    } else {
        tally(kinds.drop_last(), counted)
    }
}

/// Whether an event reports a reused source.
pub open spec fn reused_kind() -> spec_fn(InstallEventKind) -> bool {
    |k: InstallEventKind| k is SourceReused
}

/// Whether an event reports a prepared source.
pub open spec fn prepared_kind() -> spec_fn(InstallEventKind) -> bool {
    |k: InstallEventKind| k is SourcePrepared
}

/// Whether an event reports a linked package.
pub open spec fn linked_kind() -> spec_fn(InstallEventKind) -> bool {
    |k: InstallEventKind| k is VendorLinked
}

/// The package count of the last autoload event of a run, if any.
pub open spec fn last_autoload(kinds: Seq<InstallEventKind>) -> Option<usize>
    decreases kinds.len(),
{
    if kinds.len() == 0 {
        None
    } else {
        match kinds.last() {
            InstallEventKind::AutoloadWritten { packages } => Some(packages),
            _ => last_autoload(kinds.drop_last()),
        }
    }
}

/// Keeping the most recent lines, one line at a time, keeps the most recent lines of all.
proof fn lemma_recent_push(lines: Seq<Seq<char>>, line: Seq<char>)
    ensures
        recent(recent(lines).push(line)) == recent(lines.push(line)),
{
    if lines.len() > MAX_RENDERED_EVENTS {
        assert(recent(lines).push(line) =~= lines.skip(lines.len() - MAX_RENDERED_EVENTS).push(line));
        assert(recent(recent(lines).push(line)) =~= lines.push(line).skip(lines.len() + 1 - MAX_RENDERED_EVENTS));
    }
}

/// A run of events, taken in one after the other by `record_event` (each call leaves
/// `recorded_step` of the view before it) from a fresh view, leaves the lines of
/// the last four events (fewer while there are fewer), oldest first; the last event as
/// the status; the counts of reused sources, prepared sources and linked packages; the
/// package count of the last autoload event; and whether a lockfile was written.
pub proof fn lemma_event_run(states: Seq<TuiState>, kinds: Seq<InstallEventKind>)
    requires
        states.len() == kinds.len() + 1,
        fresh_state(states[0]),
        forall|i: int| 0 <= i < kinds.len() ==> #[trigger] recorded_step(states[i], kinds[i], states[i + 1]),
    ensures
        crate::error::views(states.last().events@) == recent(event_lines(kinds)),
        kinds.len() > 0 ==> states.last().status@ == event_message_spec(kinds.last()),
        states.last().reused_sources == tally(kinds, reused_kind()),
        states.last().prepared_sources == tally(kinds, prepared_kind()),
        states.last().linked_packages == tally(kinds, linked_kind()),
        states.last().autoload_packages == last_autoload(kinds),
        states.last().lockfile_written == exists|i: int| 0 <= i < kinds.len() && #[trigger] kinds[i] is LockfileWritten,
    decreases kinds.len(),
{
    if kinds.len() == 0 {
        assert(crate::error::views(states[0].events@) =~= Seq::<Seq<char>>::empty());
        assert(event_lines(kinds) =~= Seq::<Seq<char>>::empty());
    } else {
        let n = kinds.len() - 1;
        let ks = kinds.drop_last();
        let ss = states.drop_last();
        assert forall|i: int| 0 <= i < ks.len() implies #[trigger] recorded_step(ss[i], ks[i], ss[i + 1]) by {
            assert(recorded_step(states[i], kinds[i], states[i + 1]));
        }
        lemma_event_run(ss, ks);
        assert(recorded_step(states[n], kinds[n], states[n + 1]));
        assert(ss.last() == states[n]);
        lemma_recent_push(event_lines(ks), event_message_spec(kinds[n]));
        assert(event_lines(kinds) =~= event_lines(ks).push(event_message_spec(kinds[n])));
        assert(reused_kind()(kinds.last()) == (kinds.last() is SourceReused));
        assert(prepared_kind()(kinds.last()) == (kinds.last() is SourcePrepared));
        assert(linked_kind()(kinds.last()) == (kinds.last() is VendorLinked));
        if states.last().lockfile_written {
            if !(kinds[n] is LockfileWritten) {
                let i = choose|i: int| 0 <= i < ks.len() && #[trigger] ks[i] is LockfileWritten;
                assert(kinds[i] is LockfileWritten);
            }
        }
        if exists|i: int| 0 <= i < kinds.len() && #[trigger] kinds[i] is LockfileWritten {
            let i = choose|i: int| 0 <= i < kinds.len() && #[trigger] kinds[i] is LockfileWritten;
            if i < n {
                assert(ks[i] is LockfileWritten);
            }
        }
    }
}

impl TuiState {
    /// Before any event.
    pub fn new() -> (r: Self)
        ensures
            fresh_state(r),
            r.events@.len() == 0,
            r.status@ == "Installing"@,
            r.reused_sources == 0 && r.prepared_sources == 0 && r.linked_packages == 0,
            r.autoload_packages is None,
            !r.lockfile_written,
    {
        TuiState {
            events: Vec::new(),
            status: "Installing".to_owned(),
            reused_sources: 0,
            prepared_sources: 0,
            linked_packages: 0,
            autoload_packages: None,
            lockfile_written: false,
        }
    }

    /// Counts what the event reports.
    pub fn update_stats(&mut self, event: &InstallEvent)
        ensures
            final(self).events == old(self).events,
            final(self).status == old(self).status,
            final(self).reused_sources == if event.kind is SourceReused {
                bumped(old(self).reused_sources)
            } else {
                old(self).reused_sources
            },
            final(self).prepared_sources == if event.kind is SourcePrepared {
                bumped(old(self).prepared_sources)
            } else {
                old(self).prepared_sources
            },
            final(self).linked_packages == if event.kind is VendorLinked {
                bumped(old(self).linked_packages)
            } else {
                old(self).linked_packages
            },
            final(self).autoload_packages == match event.kind {
                InstallEventKind::AutoloadWritten { packages } => Some(packages),
                _ => old(self).autoload_packages,
            },
            final(self).lockfile_written == (old(self).lockfile_written
                || event.kind is LockfileWritten),
    {
        match &event.kind {
            InstallEventKind::SourceReused { .. } => {
                self.reused_sources = self.reused_sources.saturating_add(1);
            },
            InstallEventKind::SourcePrepared { .. } => {
                self.prepared_sources = self.prepared_sources.saturating_add(1);
            },
            InstallEventKind::VendorLinked { .. } => {
                self.linked_packages = self.linked_packages.saturating_add(1);
            },
            InstallEventKind::AutoloadWritten { packages } => {
                self.autoload_packages = Some(*packages);
            },
            InstallEventKind::LockfileWritten => {
                self.lockfile_written = true;
            },
            _ => {},
        }
    }

    /// Takes in an event: counts it, shows it as the status, and keeps it among the
    /// most recent lines.
    pub fn record_event(&mut self, event: &InstallEvent)
        ensures
            final(self).events@.len() <= MAX_RENDERED_EVENTS,
            crate::error::views(final(self).events@) == recent(
                crate::error::views(old(self).events@).push(event_message_spec(event.kind)),
            ),
            final(self).status@ == event_message_spec(event.kind),
            final(self).reused_sources == if event.kind is SourceReused {
                bumped(old(self).reused_sources)
            } else {
                old(self).reused_sources
            },
            final(self).prepared_sources == if event.kind is SourcePrepared {
                bumped(old(self).prepared_sources)
            } else {
                old(self).prepared_sources
            },
            final(self).linked_packages == if event.kind is VendorLinked {
                bumped(old(self).linked_packages)
            } else {
                old(self).linked_packages
            },
            final(self).autoload_packages == match event.kind {
                InstallEventKind::AutoloadWritten { packages } => Some(packages),
                _ => old(self).autoload_packages,
            },
            final(self).lockfile_written == (old(self).lockfile_written
                || event.kind is LockfileWritten),
            recorded_step(*old(self), event.kind, *final(self)),
    {
        self.update_stats(event);
        let message = event_message(event);
        self.status = message.clone();
        let mut events: Vec<String> = Vec::new();
        std::mem::swap(&mut events, &mut self.events);
        let ghost lines = crate::error::views(events@).push(message@);
        events.push(message);
        assert(crate::error::views(events@) =~= lines);
        while events.len() > MAX_RENDERED_EVENTS
            invariant
                crate::error::views(events@) == lines.skip(lines.len() - events@.len()),
                events@.len() <= lines.len(),
                events@.len() == lines.len() || events@.len() >= MAX_RENDERED_EVENTS,
            decreases events@.len(),
        {
            let ghost before = crate::error::views(events@);
            events.remove(0);
            assert(crate::error::views(events@) =~= before.drop_first());
            assert(before.drop_first() =~= lines.skip(lines.len() - events@.len()));
        }
        assert(lines.skip(0) =~= lines);
        self.events = events;
    }

    /// The lines the terminal view shows before the summary.
    pub fn visible_lines(&self) -> (r: Vec<String>)
        ensures
            r@ == self.events@,
    {
        crate::error::clone_strings(&self.events)
    }

    /// The autoload line: the package count, or `not written`.
    pub fn autoload_count(&self) -> (r: String)
        ensures
            r@ == match self.autoload_packages {
                Some(n) => package_count_spec(n as nat),
                None => "not written"@,
            },
    {
        match self.autoload_packages {
            Some(packages) => package_count(packages),
            None => "not written".to_owned(),
        }
    }

    /// The share of installed packages whose source came from the store, in percent,
    /// rounded down; 0 when nothing was installed.
    pub fn store_hit_rate(&self, packages: usize) -> (r: usize)
        requires
            self.reused_sources * 100 <= usize::MAX,
        ensures
            r == if packages == 0 {
                0
            } else {
                (self.reused_sources * 100 / packages as int) as usize
            },
    {
        if packages == 0 {
            return 0;
        }
        self.reused_sources * 100 / packages
    }

    /// Whether the lockfile was rewritten.
    pub fn lockfile_status(&self) -> (r: &'static str)
        ensures
            r@ == if self.lockfile_written {
                "updated"@
            } else {
                "unchanged"@
            },
    {
        if self.lockfile_written {
            "updated"
        } else {
            "unchanged"
        }
    }
}

/// The part of an area at its top left corner, no larger than `width` by `height`:
/// `(x, y, width, height)`.
pub fn top_left_area(area: (u16, u16, u16, u16), width: u16, height: u16) -> (r: (u16, u16, u16, u16))
    ensures
        r.0 == area.0 && r.1 == area.1,
        r.2 == if width < area.2 {
            width
        } else {
            area.2
        },
        r.3 == if height < area.3 {
            height
        } else {
            area.3
        },
{
    let w = if width < area.2 {
        width
    } else {
        area.2
    };
    let h = if height < area.3 {
        height
    } else {
        area.3
    };
    (area.0, area.1, w, h)
}

} // verus!
