//! The typed settings model: system settings, named services, and named
//! configuration-file descriptors. Maps keyed by name are carried as vectors
//! of `(name, value)` pairs with distinct names.

use vstd::prelude::*;

verus! {

/// System settings. All fields are optional: absence is legal and
/// meaningful ("not set").
#[derive(Debug, PartialEq)]
pub struct Settings {
    pub hostname: Option<String>,
    pub timezone: Option<String>,
}

/// Ghost image of a [`Settings`].
pub struct SettingsV {
    pub hostname: Option<Seq<char>>,
    pub timezone: Option<Seq<char>>,
}

impl View for Settings {
    type V = SettingsV;

    open spec fn view(&self) -> SettingsV {
        SettingsV { hostname: self.hostname.deep_view(), timezone: self.timezone.deep_view() }
    }
}

impl Default for Settings {
    /// The all-absent settings.
    fn default() -> (r: Settings)
        ensures
            r@ == (SettingsV { hostname: None, timezone: None }),
    {
        Settings { hostname: None, timezone: None }
    }
}

/// A named service: the configuration files it depends on and the commands
/// that restart it.
#[derive(Debug, PartialEq)]
pub struct Service {
    pub configuration_files: Vec<String>,
    pub restart_commands: Vec<String>,
}

/// Ghost image of a [`Service`].
pub struct ServiceV {
    pub configuration_files: Seq<Seq<char>>,
    pub restart_commands: Seq<Seq<char>>,
}

impl View for Service {
    type V = ServiceV;

    open spec fn view(&self) -> ServiceV {
        ServiceV {
            configuration_files: self.configuration_files.deep_view(),
            restart_commands: self.restart_commands.deep_view(),
        }
    }
}

/// A configuration-file descriptor: where the rendered file goes and which
/// template produces it.
#[derive(Debug, PartialEq)]
pub struct ConfigurationFile {
    pub path: String,
    pub template_path: String,
}

/// Ghost image of a [`ConfigurationFile`].
pub struct ConfigurationFileV {
    pub path: Seq<char>,
    pub template_path: Seq<char>,
}

impl View for ConfigurationFile {
    type V = ConfigurationFileV;

    open spec fn view(&self) -> ConfigurationFileV {
        ConfigurationFileV { path: self.path@, template_path: self.template_path@ }
    }
}

/// Services keyed by name.
pub type Services = Vec<(String, Service)>;

/// Configuration-file descriptors keyed by name.
pub type ConfigurationFiles = Vec<(String, ConfigurationFile)>;

/// Looks a service up by name.
pub fn services_get<'a>(services: &'a Services, name: &str) -> (r: Option<&'a Service>)
    ensures
        match r {
            Some(svc) => exists|i: int| 0 <= i < services@.len() && services@[i].0@ == name@
                && services@[i].1 == *svc,
            None => forall|i: int| 0 <= i < services@.len() ==> services@[i].0@ != name@,
        },
{
    let mut i: usize = 0;
    while i < services.len()
        invariant
            i <= services@.len(),
            forall|j: int| 0 <= j < i ==> services@[j].0@ != name@,
        decreases services@.len() - i,
    {
        if crate::strings::str_eq(services[i].0.as_str(), name) {
            return Some(&services[i].1);
        }
        i = i + 1;
    }
    None
}

/// Looks a configuration-file descriptor up by name.
pub fn configuration_files_get<'a>(files: &'a ConfigurationFiles, name: &str) -> (r: Option<
    &'a ConfigurationFile,
>)
    ensures
        match r {
            Some(f) => exists|i: int| 0 <= i < files@.len() && files@[i].0@ == name@
                && files@[i].1 == *f,
            None => forall|i: int| 0 <= i < files@.len() ==> files@[i].0@ != name@,
        },
{
    let mut i: usize = 0;
    while i < files.len()
        invariant
            i <= files@.len(),
            forall|j: int| 0 <= j < i ==> files@[j].0@ != name@,
        decreases files@.len() - i,
    {
        if crate::strings::str_eq(files[i].0.as_str(), name) {
            return Some(&files[i].1);
        }
        i = i + 1;
    }
    None
}

} // verus!
