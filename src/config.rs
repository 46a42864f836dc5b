//! Application settings, the records-file workflow, and start-at-login.
use vstd::prelude::*;
use vstd::string::StringExecFns;
use std::path::PathBuf;
use crate::records::{load_spec, outcome_matches, parse_records, RecordsDB, RecordsError};

verus! {

/// A filesystem path; the library only carries it.
#[verifier::external_type_specification]
#[verifier::external_body]
pub struct ExPathBuf(PathBuf);

/// The suffix served unless configured otherwise.
pub const DEFAULT_TOP_LEVEL_DOMAIN: &'static str = ".local";

/// The port served unless configured otherwise.
pub const DEFAULT_PORT: u16 = 53;

/// The version of the settings layout.
pub struct ConfigRevision {
    revision: u8,
}

impl ConfigRevision {
    pub fn new(revision: u8) -> (r: ConfigRevision)
        ensures
            r.revision_spec() == revision,
    {
        ConfigRevision { revision }
    }

    pub closed spec fn revision_spec(&self) -> u8 {
        self.revision
    }

    pub fn revision(&self) -> (r: u8)
        ensures
            r == self.revision_spec(),
    {
        self.revision
    }
}

/// The settings the application runs with.
pub struct AppConfig {
    pub top_level_domain: String,
    pub port: u16,
    pub log_level: Option<String>,
    pub logging_dir: PathBuf,
    pub records_file: PathBuf,
    pub config_dir: PathBuf,
    pub start_at_login: Option<bool>,
    pub config_revision: ConfigRevision,
}

impl AppConfig {
    /// The default settings for the given directories: suffix `.local`,
    /// port 53, no log level, start-at-login unset, revision 0.
    pub fn new(config_dir: PathBuf, logging_dir: PathBuf, records_file: PathBuf) -> (r: AppConfig)
        ensures
            r.top_level_domain@ == DEFAULT_TOP_LEVEL_DOMAIN@,
            r.port == DEFAULT_PORT,
            r.log_level is None,
            r.logging_dir == logging_dir,
            r.records_file == records_file,
            r.config_dir == config_dir,
            r.start_at_login is None,
            r.config_revision.revision_spec() == 0,
    {
        AppConfig {
            top_level_domain: String::from_str(DEFAULT_TOP_LEVEL_DOMAIN),
            port: DEFAULT_PORT,
            log_level: None,
            logging_dir,
            records_file,
            config_dir,
            start_at_login: None,
            config_revision: ConfigRevision::new(0),
        }
    }

    /// Records whether the application starts at login.
    pub fn set_start_at_login(&mut self, enabled: bool)
        ensures
            final(self).start_at_login == Some(enabled),
            final(self).top_level_domain == old(self).top_level_domain,
            final(self).port == old(self).port,
            final(self).log_level == old(self).log_level,
            final(self).logging_dir == old(self).logging_dir,
            final(self).records_file == old(self).records_file,
            final(self).config_dir == old(self).config_dir,
            final(self).config_revision == old(self).config_revision,
    {
        self.start_at_login = Some(enabled);
    }
}

/// Switching the application's start at login on and off.
pub trait AutoLaunchManager {
    fn enable(&self) -> Result<(), String>;

    fn disable(&self) -> Result<(), String>;

    fn is_enabled(&self) -> Result<bool, String>;
}

/// A step of opening the records file for editing.
#[derive(Clone, Copy, Debug, PartialEq, Eq, Structural)]
pub enum RecordsFileStep {
    /// Write the file with [`records_file_template`].
    CreateWithTemplate,
    /// Open the file with the system's editor.
    Open,
}

/// The steps that open the records file: create it first where it does not
/// exist, then open it.
pub fn safe_open_records_file(exists: bool) -> (r: Vec<RecordsFileStep>)
    ensures
        r@ == (if exists {
            seq![RecordsFileStep::Open]
        } else {
            seq![RecordsFileStep::CreateWithTemplate, RecordsFileStep::Open]
        }),
{
    let mut steps: Vec<RecordsFileStep> = Vec::new();
    if !exists {
        steps.push(RecordsFileStep::CreateWithTemplate);
    }
    steps.push(RecordsFileStep::Open);
    proof {
        if exists {
            assert(steps@ =~= seq![RecordsFileStep::Open]);
        } else {
            assert(steps@ =~= seq![RecordsFileStep::CreateWithTemplate, RecordsFileStep::Open]);
        }
    }
    steps
}

/// What a new records file holds: comments that explain the format.
pub const RECORDS_FILE_TEMPLATE: &'static str = "# One record per line: hostname:ipv4\n# Hostnames must end with the configured suffix, e.g.\n# my-app.local:127.0.0.1\n";

/// The text of a new records file.
pub fn records_file_template() -> (r: String)
    ensures
        r@ == RECORDS_FILE_TEMPLATE@,
{
    String::from_str(RECORDS_FILE_TEMPLATE)
}

pub open spec fn launch_state_word(enabled: bool) -> Seq<char> {
    if enabled {
        "enabled"@
    } else {
        "disabled"@
    }
}

/// The warning shown when the application's start-at-login setting and the
/// system's disagree; the application follows the system.
pub open spec fn mismatch_message_spec(app: bool, system: bool) -> Seq<char> {
    "There is a mismatch in configured starting at login between the application ("@
        + launch_state_word(app) + ") and the system ("@ + launch_state_word(system)
        + ")!\n\nWe've set the application to match the system settings ("@ + launch_state_word(
        system,
    ) + "). You can set it to your liking using the menu in the system tray."@
}

fn launch_state(enabled: bool) -> (r: &'static str)
    ensures
        r@ == launch_state_word(enabled),
{
    if enabled {
        "enabled"
    } else {
        "disabled"
    }
}

/// The text of the start-at-login mismatch warning.
pub fn auto_launch_mismatch_message(app: bool, system: bool) -> (r: String)
    ensures
        r@ == mismatch_message_spec(app, system),
{
    let mut s = String::from_str(
        "There is a mismatch in configured starting at login between the application (",
    );
    s.append(launch_state(app));
    s.append(") and the system (");
    s.append(launch_state(system));
    s.append(")!\n\nWe've set the application to match the system settings (");
    s.append(launch_state(system));
    s.append("). You can set it to your liking using the menu in the system tray.");
    s
}

/// A table of `.local` names read from a settings file.
pub struct DotLocalDNSConfig {
    pub records: RecordsDB,
}

impl DotLocalDNSConfig {
    /// The table that a settings file's text gives, or an empty one where
    /// there is no file. Every name is kept, whatever its suffix.
    pub fn new(contents: Option<&str>) -> (r: Result<DotLocalDNSConfig, RecordsError>)
        ensures
            match contents {
                None => r matches Ok(c) && c.records@ == Map::<Seq<char>, crate::ipv4::Ipv4Addr>::empty() && c.records.wf(),
                Some(text) => outcome_matches(
                    match r {
                        Ok(c) => Ok(c.records),
                        Err(e) => Err(e),
                    },
                    load_spec(text@, Seq::empty()),
                ) && (r matches Ok(c) ==> c.records.wf()),
            },
    {
        match contents {
            None => Ok(DotLocalDNSConfig { records: RecordsDB::new() }),
            Some(text) => DotLocalDNSConfig::from_contents(text),
        }
    }

    /// The table that a settings file's text gives; every name is kept.
    pub fn from_contents(contents: &str) -> (r: Result<DotLocalDNSConfig, RecordsError>)
        ensures
            outcome_matches(
                match r {
                    Ok(c) => Ok(c.records),
                    Err(e) => Err(e),
                },
                load_spec(contents@, Seq::empty()),
            ),
            r matches Ok(c) ==> c.records.wf(),
    {
        proof {
            reveal_strlit("");
            assert(""@ =~= Seq::<char>::empty());
        }
        match parse_records(contents, "") {
            Ok(records) => Ok(DotLocalDNSConfig { records }),
            Err(e) => Err(e),
        }
    }
}

} // verus!
