//! Errors of the installer and the one-line reports users see for them.

use vstd::prelude::*;
use crate::text::{concat2, concat3, join, join_seq};

verus! {

/// What the installer reports: a summary and an optional hint.
#[derive(Debug)]
pub struct ErrorReport {
    pub summary: String,
    pub hint: Option<String>,
}

/// Every way an install can fail.
#[derive(Debug)]
pub enum ConcertoError {
    MissingComposerJson,
    ComposerJson { message: String },
    Requirement { message: String },
    InvalidPackageName { name: String },
    Http { message: String },
    Lockfile { message: String },
    Autoload { message: String },
    Perf { message: String },
    Platform { package: String, requirement: String, detected: String },
    PlatformDetection { message: String },
    Resolution { package: String, constraints: Vec<String>, message: String },
    Store { package: String, step: StoreStep, message: String, hint: Option<String> },
    Internal { message: String },
}

/// The step of package store work that failed.
#[derive(Clone, Copy, PartialEq, Eq, Structural, Debug)]
pub enum StoreStep {
    Prepare,
    Download,
    Extract,
    Publish,
    Link,
    Rollback,
}

/// The views of a list of strings.
pub open spec fn views(v: Seq<String>) -> Seq<Seq<char>> {
    v.map_values(|s: String| s@)
}

impl StoreStep {
    /// The verb naming the step.
    pub open spec fn name(self) -> Seq<char> {
        match self {
            StoreStep::Prepare => "prepare"@,
            StoreStep::Download => "download"@,
            StoreStep::Extract => "extract"@,
            StoreStep::Publish => "publish"@,
            StoreStep::Link => "link"@,
            StoreStep::Rollback => "rollback"@,
        }
    }

    /// The verb naming the step.
    pub fn as_str(&self) -> (r: &'static str)
        ensures
            r@ == self.name(),
    {
        match self {
            StoreStep::Prepare => "prepare",
            StoreStep::Download => "download",
            StoreStep::Extract => "extract",
            StoreStep::Publish => "publish",
            StoreStep::Link => "link",
            StoreStep::Rollback => "rollback",
        }
    }
}

impl ErrorReport {
    /// A report with no hint.
    pub fn summary(summary: String) -> (r: Self)
        ensures
            r.summary == summary,
            r.hint is None,
    {
        ErrorReport { summary, hint: None }
    }

    /// A report with a hint.
    pub fn with_hint(summary: String, hint: &str) -> (r: Self)
        ensures
            r.summary == summary,
            r.hint matches Some(h) && h@ == hint@,
    {
        ErrorReport { summary, hint: Some(hint.to_owned()) }
    }

    /// The text of the report: the summary, then `. ` and the hint when there is one.
    pub open spec fn text(self) -> Seq<char> {
        match self.hint {
            Some(h) => self.summary@ + ". "@ + h@,
            None => self.summary@,
        }
    }

    /// The text of the report.
    pub fn render(&self) -> (r: String)
        ensures
            r@ == self.text(),
    {
        match &self.hint {
            Some(h) => concat3(self.summary.as_str(), ". ", h.as_str()),
            None => self.summary.clone(),
        }
    }
}

impl ConcertoError {
    /// The summary line of the error.
    pub open spec fn summary_spec(self) -> Seq<char> {
        match self {
            ConcertoError::MissingComposerJson => "No composer.json found"@,
            ConcertoError::ComposerJson { message } => message@,
            ConcertoError::Requirement { message } => message@,
            ConcertoError::InvalidPackageName { name } => "Invalid package name: "@ + name@,
            ConcertoError::Http { message } => message@,
            ConcertoError::Lockfile { message } => message@,
            ConcertoError::Autoload { message } => message@,
            ConcertoError::Perf { message } => message@,
            ConcertoError::Platform { package, requirement, detected } => package@ + ": "@
                + requirement@ + " required, detected "@ + detected@,
            ConcertoError::PlatformDetection { message } => message@,
            ConcertoError::Resolution { package, constraints, message } => "Could not resolve "@
                + package@ + " ("@ + join_seq(views(constraints@), ", "@) + "): "@ + message@,
            ConcertoError::Store { package, step, message, hint } => "Could not "@ + step.name()
                + " "@ + package@ + ": "@ + message@,
            ConcertoError::Internal { message } => message@,
        }
    }

    /// The hint of the error, if it has one.
    pub open spec fn hint_spec(self) -> Option<Seq<char>> {
        match self {
            ConcertoError::MissingComposerJson => Some(
                "Run concerto from a Composer project directory."@,
            ),
            ConcertoError::ComposerJson { .. } => Some(
                "Check composer.json and its require section."@,
            ),
            ConcertoError::Lockfile { .. } => Some(
                "Regenerate concerto.lock by running install again."@,
            ),
            ConcertoError::Autoload { .. } => Some(
                "Check installed packages and autoload sections."@,
            ),
            ConcertoError::Platform { .. } => Some(
                "Install or enable the required platform dependency, or choose a compatible version."@,
            ),
            ConcertoError::PlatformDetection { .. } => Some(
                "Ensure PHP is installed and available in PATH."@,
            ),
            ConcertoError::Resolution { .. } => Some(
                "Check the package name, version constraint, and platform requirements."@,
            ),
            ConcertoError::Store { hint, .. } => match hint {
                Some(h) => Some(h@),
                None => None,
            },
            _ => None,
        }
    }

    /// The whole message shown for the error.
    pub open spec fn message_spec(self) -> Seq<char> {
        match self.hint_spec() {
            Some(h) => self.summary_spec() + ". "@ + h,
            None => self.summary_spec(),
        }
    }

    pub fn composer_json(message: String) -> (r: Self)
        ensures
            r == (ConcertoError::ComposerJson { message }),
    {
        ConcertoError::ComposerJson { message }
    }

    pub fn requirement(message: String) -> (r: Self)
        ensures
            r == (ConcertoError::Requirement { message }),
    {
        ConcertoError::Requirement { message }
    }

    pub fn invalid_package_name(name: &str) -> (r: Self)
        ensures
            r matches ConcertoError::InvalidPackageName { name: n } && n@ == name@,
    {
        ConcertoError::InvalidPackageName { name: name.to_owned() }
    }

    pub fn http(message: String) -> (r: Self)
        ensures
            r == (ConcertoError::Http { message }),
    {
        ConcertoError::Http { message }
    }

    pub fn lockfile(message: String) -> (r: Self)
        ensures
            r == (ConcertoError::Lockfile { message }),
    {
        ConcertoError::Lockfile { message }
    }

    pub fn autoload(message: String) -> (r: Self)
        ensures
            r == (ConcertoError::Autoload { message }),
    {
        ConcertoError::Autoload { message }
    }

    pub fn perf(message: String) -> (r: Self)
        ensures
            r == (ConcertoError::Perf { message }),
    {
        ConcertoError::Perf { message }
    }

    pub fn platform_detection(message: String) -> (r: Self)
        ensures
            r == (ConcertoError::PlatformDetection { message }),
    {
        ConcertoError::PlatformDetection { message }
    }

    pub fn platform(package: &str, requirement: String, detected: &str) -> (r: Self)
        ensures
            r matches ConcertoError::Platform { package: p, requirement: q, detected: d } && p@
                == package@ && q == requirement && d@ == detected@,
    {
        ConcertoError::Platform {
            package: package.to_owned(),
            requirement,
            detected: detected.to_owned(),
        }
    }

    pub fn resolution(package: &str, constraints: &Vec<String>, message: String) -> (r: Self)
        ensures
            r matches ConcertoError::Resolution { package: p, constraints: c, message: m } && p@
                == package@ && c@ == constraints@ && m == message,
    {
        ConcertoError::Resolution {
            package: package.to_owned(),
            constraints: clone_strings(constraints),
            message,
        }
    }

    pub fn store(package: &str, step: StoreStep, message: String) -> (r: Self)
        ensures
            r matches ConcertoError::Store { package: p, step: s, message: m, hint: None } && p@
                == package@ && s == step && m == message,
    {
        ConcertoError::Store { package: package.to_owned(), step, message, hint: None }
    }

    pub fn store_with_hint(package: &str, step: StoreStep, message: String, hint: &str) -> (r:
        Self)
        ensures
            r matches ConcertoError::Store { package: p, step: s, message: m, hint: Some(h) } && p@
                == package@ && s == step && m == message && h@ == hint@,
    {
        ConcertoError::Store {
            package: package.to_owned(),
            step,
            message,
            hint: Some(hint.to_owned()),
        }
    }

    pub fn internal(message: String) -> (r: Self)
        ensures
            r == (ConcertoError::Internal { message }),
    {
        ConcertoError::Internal { message }
    }

    /// The summary and hint of the error.
    pub fn report(&self) -> (r: ErrorReport)
        ensures
            r.summary@ == self.summary_spec(),
            match r.hint {
                Some(h) => self.hint_spec() == Some(h@),
                None => self.hint_spec() is None,
            },
    {
        match self {
            ConcertoError::MissingComposerJson => ErrorReport::with_hint(
                "No composer.json found".to_owned(),
                "Run concerto from a Composer project directory.",
            ),
            ConcertoError::ComposerJson { message } => ErrorReport::with_hint(
                message.clone(),
                "Check composer.json and its require section.",
            ),
            ConcertoError::Requirement { message } => ErrorReport::summary(message.clone()),
            ConcertoError::InvalidPackageName { name } => ErrorReport::summary(
                concat2("Invalid package name: ", name.as_str()),
            ),
            ConcertoError::Http { message } => ErrorReport::summary(message.clone()),
            ConcertoError::Lockfile { message } => ErrorReport::with_hint(
                message.clone(),
                "Regenerate concerto.lock by running install again.",
            ),
            ConcertoError::Autoload { message } => ErrorReport::with_hint(
                message.clone(),
                "Check installed packages and autoload sections.",
            ),
            ConcertoError::Perf { message } => ErrorReport::summary(message.clone()),
            ConcertoError::Platform { package, requirement, detected } => {
                let mut summary = concat3(package.as_str(), ": ", requirement.as_str());
                summary.append(" required, detected ");
                summary.append(detected.as_str());
                ErrorReport::with_hint(
                    summary,
                    "Install or enable the required platform dependency, or choose a compatible version.",
                )
            },
            ConcertoError::PlatformDetection { message } => ErrorReport::with_hint(
                message.clone(),
                "Ensure PHP is installed and available in PATH.",
            ),
            ConcertoError::Resolution { package, constraints, message } => {
                let mut summary = concat3("Could not resolve ", package.as_str(), " (");
                let joined = join(constraints, ", ");
                summary.append(joined.as_str());
                summary.append("): ");
                summary.append(message.as_str());
                ErrorReport::with_hint(
                    summary,
                    "Check the package name, version constraint, and platform requirements.",
                )
            },
            ConcertoError::Store { package, step, message, hint } => {
                let mut summary = concat3("Could not ", step.as_str(), " ");
                summary.append(package.as_str());
                summary.append(": ");
                summary.append(message.as_str());
                ErrorReport { summary, hint: hint.clone() }
            },
            ConcertoError::Internal { message } => ErrorReport::summary(message.clone()),
        }
    }

    /// The message shown for the error: its summary, then `. ` and its hint.
    pub fn message(&self) -> (r: String)
        ensures
            r@ == self.message_spec(),
    {
        self.report().render()
    }
}

/// A copy of a list of strings.
pub fn clone_strings(v: &Vec<String>) -> (r: Vec<String>)
    ensures
        r@ == v@,
{
    let mut out: Vec<String> = Vec::new();
    let mut i: usize = 0;
    while i < v.len()
        invariant
            i <= v@.len(),
            out@ == v@.subrange(0, i as int),
        decreases v@.len() - i,
    {
        out.push(v[i].clone());
        assert(v@.subrange(0, i + 1) == v@.subrange(0, i as int).push(v@[i as int]));
        i = i + 1;
    }
    assert(v@.subrange(0, v@.len() as int) == v@);
    out
}

} // verus!
