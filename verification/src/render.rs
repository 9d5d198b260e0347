//! The configuration-file materializer: collects the configuration files
//! the given services depend on, and renders each descriptor's template
//! against the live settings. The template engine is `handlebars`, behind a
//! trusted wrapper; writing the rendered files to disk is left to the
//! embedding program.

use vstd::prelude::*;
use crate::error::Error;
use crate::json::{JsonValue, member_lookup, settings_of_value};
use crate::model::{ConfigurationFiles, Services, Settings};
use crate::strings::names_contain;

verus! {

broadcast use vstd::string::group_string_axioms;

/// A rendered configuration file: the target path and the text to write.
#[derive(Debug)]
pub struct RenderedConfigFile {
    path: String,
    rendered: String,
}

impl RenderedConfigFile {
    pub closed spec fn path_spec(&self) -> Seq<char> {
        self.path@
    }

    pub closed spec fn rendered_spec(&self) -> Seq<char> {
        self.rendered@
    }

    pub fn new(path: &str, rendered: String) -> (r: RenderedConfigFile)
        ensures
            r.path_spec() == path@,
            r.rendered_spec() == rendered@,
    {
        RenderedConfigFile { path: path.to_owned(), rendered }
    }

    /// The path the rendered file is to be written at.
    pub fn path(&self) -> (r: &String)
        ensures
            r@ == self.path_spec(),
    {
        &self.path
    }

    /// The rendered text.
    pub fn rendered(&self) -> (r: &String)
        ensures
            r@ == self.rendered_spec(),
    {
        &self.rendered
    }
}

/// The names the given services' configuration files carry.
pub open spec fn config_file_name_set(services: Seq<(String, crate::model::Service)>) -> Set<
    Seq<char>,
> {
    Set::new(
        |n: Seq<char>|
            exists|i: int, j: int|
                0 <= i < services.len() && 0 <= j < services[i].1@.configuration_files.len() && (
                #[trigger] services[i].1@.configuration_files[j]) == n,
    )
}

/// Does some element of `out` have this text?
pub open spec fn name_covered(out: Seq<String>, n: Seq<char>) -> bool {
    exists|a: int| 0 <= a < out.len() && (#[trigger] out[a])@ == n
}

/// The names of the configuration files the given services depend on, each
/// once.
#[verifier::loop_isolation(false)]
pub fn get_config_file_names(services: &Services) -> (r: Vec<String>)
    ensures
        forall|a: int, b: int| 0 <= a < b < r@.len() ==> (#[trigger] r@[a])@ != (#[trigger] r@[b])@,
        forall|a: int| 0 <= a < r@.len() ==> config_file_name_set(services@).contains(
            (#[trigger] r@[a])@,
        ),
        forall|n: Seq<char>| #[trigger]
            config_file_name_set(services@).contains(n) ==> name_covered(r@, n),
{
    let mut out: Vec<String> = Vec::new();
    let mut i: usize = 0;
    while i < services.len()
        invariant
            i <= services@.len(),
            forall|a: int, b: int| 0 <= a < b < out@.len() ==> (#[trigger] out@[a])@
                != (#[trigger] out@[b])@,
            forall|a: int| 0 <= a < out@.len() ==> config_file_name_set(services@).contains(
                (#[trigger] out@[a])@,
            ),
            forall|i2: int, j2: int|
                0 <= i2 < i && 0 <= j2 < services@[i2].1@.configuration_files.len()
                    ==> name_covered(out@, #[trigger] services@[i2].1@.configuration_files[j2]),
        decreases services@.len() - i,
    {
        let files = &services[i].1.configuration_files;
        let mut j: usize = 0;
        while j < files.len()
            invariant
                0 <= i < services@.len(),
                j <= files@.len(),
                files == &services@[i as int].1.configuration_files,
                forall|a: int, b: int| 0 <= a < b < out@.len() ==> (#[trigger] out@[a])@
                    != (#[trigger] out@[b])@,
                forall|a: int| 0 <= a < out@.len() ==> config_file_name_set(services@).contains(
                    (#[trigger] out@[a])@,
                ),
                forall|i2: int, j2: int|
                    0 <= i2 < i && 0 <= j2 < services@[i2].1@.configuration_files.len()
                        ==> name_covered(
                        out@,
                        #[trigger] services@[i2].1@.configuration_files[j2],
                    ),
                forall|j2: int|
                    0 <= j2 < j ==> name_covered(
                        out@,
                        #[trigger] services@[i as int].1@.configuration_files[j2],
                    ),
            decreases files@.len() - j,
        {
            proof {
                assert(services@[i as int].1@.configuration_files[j as int] == files@[j as int]@);
            }
            if !names_contain(&out, files[j].as_str()) {
                let ghost out_pre = out@;
                out.push(files[j].clone());
                proof {
                    assert(out@ =~= out_pre.push(files@[j as int]));
                    assert(config_file_name_set(services@).contains(files@[j as int]@));
                    assert forall|n: Seq<char>| name_covered(out_pre, n) implies name_covered(
                        out@,
                        n,
                    ) by {
                        let a = choose|a: int| 0 <= a < out_pre.len() && (#[trigger] out_pre[a])@
                            == n;
                        assert(out@[a]@ == n);
                    }
                    assert(out@[out@.len() - 1]@ == files@[j as int]@);
                    let ghost fj = services@[i as int].1@.configuration_files[j as int];
                    assert(name_covered(out@, fj));
                }
            } else {
                proof {
                    let ghost fj = services@[i as int].1@.configuration_files[j as int];
                    assert(name_covered(out@, fj));
                }
            }
            j = j + 1;
        }
        i = i + 1;
    }
    proof {
        assert forall|n: Seq<char>| #[trigger]
            config_file_name_set(services@).contains(n) implies name_covered(out@, n) by {
            let (i2, j2) = choose|i2: int, j2: int|
                0 <= i2 < services@.len() && 0 <= j2 < services@[i2].1@.configuration_files.len()
                    && (#[trigger] services@[i2].1@.configuration_files[j2]) == n;
        }
    }
    out
}

/// Declares `handlebars::Handlebars`, the template registry the embedding
/// program builds and the render wrapper consults; it is opaque here.
#[verifier::external_type_specification]
#[verifier::external_body]
pub struct ExHandlebars<'reg>(handlebars::Handlebars<'reg>);

/// Converts the library's JSON shape into `serde_json`'s, variant by
/// variant, to hand a render context to the engine; a numeric text that no
/// longer parses becomes null.
#[verifier::external_body]
fn json_to_serde(v: &JsonValue) -> serde_json::Value {
    match v {
        JsonValue::Null => serde_json::Value::Null,
        JsonValue::Bool(b) => serde_json::Value::Bool(*b),
        JsonValue::Num(n) => serde_json::from_str(n).unwrap_or(serde_json::Value::Null),
        JsonValue::Str(s) => serde_json::Value::String(s.clone()),
        JsonValue::Arr(a) => serde_json::Value::Array(a.iter().map(json_to_serde).collect()),
        JsonValue::Obj(o) => serde_json::Value::Object(
            o.iter().map(|p| (p.0.clone(), json_to_serde(&p.1))).collect(),
        ),
    }
}

/// Renders the template registered under `name` against the given context.
///
/// Relies on `handlebars::Handlebars::render`: which template `name` names
/// and what the rendering produces depend on the registry handed in, so
/// nothing is promised of the rendered text.
#[verifier::external_body]
fn render_template(registry: &handlebars::Handlebars, name: &str, ctx: &JsonValue) -> (r: Result<
    String,
    String,
>) {
    match registry.render(name, &json_to_serde(ctx)) {
        Ok(s) => Ok(s),
        Err(e) => Err(e.to_string()),
    }
}

/// The settings as a render-context JSON value: an object holding exactly
/// the present fields, so that decoding it yields the settings back.
pub fn settings_to_json(s: &Settings) -> (r: JsonValue)
    ensures
        settings_of_value(r) == Some(s@),
{
    proof {
        reveal_strlit("hostname");
        reveal_strlit("timezone");
        assert("hostname"@[0] == 'h');
        assert("timezone"@[0] == 't');
        assert("hostname"@ != "timezone"@);
    }
    let mut members: Vec<(String, JsonValue)> = Vec::new();
    match &s.hostname {
        Some(h) => {
            members.push(("hostname".to_owned(), JsonValue::Str(h.clone())));
        },
        None => {},
    }
    match &s.timezone {
        Some(t) => {
            members.push(("timezone".to_owned(), JsonValue::Str(t.clone())));
        },
        None => {},
    }
    proof {
        let msv = members@;
        if s.hostname is Some && s.timezone is Some {
            assert(msv.len() == 2);
            assert(msv.drop_first() =~= seq![msv[1]]);
            assert(member_lookup(msv, "hostname"@) == Some(msv[0].1));
            assert(member_lookup(msv.drop_first(), "timezone"@) == Some(msv[1].1));
            assert(member_lookup(msv, "timezone"@) == Some(msv[1].1));
        }
        if s.hostname is Some && s.timezone is None {
            assert(msv.len() == 1);
            assert(msv.drop_first() =~= Seq::<(String, JsonValue)>::empty());
            assert(member_lookup(msv.drop_first(), "timezone"@) is None);
            assert(member_lookup(msv, "timezone"@) is None);
        }
        if s.hostname is None && s.timezone is Some {
            assert(msv.len() == 1);
            assert(msv.drop_first() =~= Seq::<(String, JsonValue)>::empty());
            assert(member_lookup(msv.drop_first(), "hostname"@) is None);
            assert(member_lookup(msv, "hostname"@) is None);
        }
    }
    let r = JsonValue::Obj(members);
    proof {
        assert(settings_of_value(r) == Some(s@));
    }
    r
}

/// The render context: the settings wrapped under a single `settings`
/// member, so templates address the data as `settings.<field>`; looking
/// that member up and decoding it yields the settings back.
pub fn render_context(settings: &Settings) -> (r: JsonValue)
    ensures
        r matches JsonValue::Obj(ms) && ms@.len() == 1 && ms@[0].0@ == "settings"@
            && settings_of_value(ms@[0].1) == Some(settings@),
{
    let inner = settings_to_json(settings);
    let mut members: Vec<(String, JsonValue)> = Vec::new();
    members.push(("settings".to_owned(), inner));
    JsonValue::Obj(members)
}

/// Renders every given configuration file against the settings, wrapping
/// the settings under a single `settings` key so templates can address
/// `settings.<field>`. Each output carries its descriptor's target path;
/// the first template the engine refuses is reported.
#[verifier::loop_isolation(false)]
pub fn render_config_files(
    registry: &handlebars::Handlebars,
    config_files: &ConfigurationFiles,
    settings: &Settings,
) -> (r: Result<Vec<RenderedConfigFile>, Error>)
    ensures
        r matches Ok(v) ==> v@.len() == config_files@.len() && forall|i: int| 0 <= i < v@.len()
            ==> (#[trigger] v@[i]).path_spec() == config_files@[i].1.path@,
        r matches Err(e) ==> (e matches Error::TemplateRender { template } && exists|i: int| 0 <= i
            < config_files@.len() && (#[trigger] config_files@[i]).0@ == template@),
{
    let ctx = render_context(settings);
    let mut out: Vec<RenderedConfigFile> = Vec::new();
    let mut i: usize = 0;
    while i < config_files.len()
        invariant
            i <= config_files@.len(),
            out@.len() == i,
            forall|a: int| 0 <= a < i ==> (#[trigger] out@[a]).path_spec()
                == config_files@[a].1.path@,
        decreases config_files@.len() - i,
    {
        match render_template(registry, config_files[i].0.as_str(), &ctx) {
            Ok(rendered) => {
                out.push(RenderedConfigFile::new(config_files[i].1.path.as_str(), rendered));
            },
            Err(_) => {
                return Err(Error::TemplateRender { template: config_files[i].0.clone() });
            },
        }
        i = i + 1;
    }
    Ok(out)
}

} // verus!
