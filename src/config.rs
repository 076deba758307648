//! The configuration: named server hosts and the tags to show for the
//! current song, read from an INI text with the sections `[hosts]`
//! (`label = address`) and `[tags]` (`enabled = A,B,...`, and
//! `A = label` for a label to show instead of a tag's name).

use vstd::prelude::*;
use crate::text::{split, split_on};

verus! {

/// A tag to show, with the label to show it under.
pub struct Tag {
    pub tag: String,
    pub label: Option<String>,
}

/// A server address with its label.
pub struct Host {
    pub host: String,
    pub label: String,
}

pub struct Config {
    pub hosts: Vec<Host>,
    pub tags: Vec<Tag>,
}

/// Why a configuration could not be read.
pub enum ConfigError {
    /// The host with this label has no address.
    MissingHostname(String),
    /// The INI reader refused the text, with its message.
    Syntax(String),
}

impl ConfigError {
    /// A description of the error.
    pub fn message(&self) -> String {
        match self {
            ConfigError::MissingHostname(label) => {
                let mut m = String::from_str("Missing hostname for host ");
                m.append(label.as_str());
                m.append(".");
                m
            },
            ConfigError::Syntax(e) => e.clone(),
        }
    }
}

/// The names of the tags shown when the configuration names none.
pub open spec fn default_tag_names() -> Seq<Seq<char>> {
    seq![
        "Composer"@,
        "Work"@,
        "Conductor"@,
        "Ensemble"@,
        "Performer"@,
        "Location"@,
        "Label"@,
    ]
}

/// The tags are the default ones, without labels.
pub open spec fn is_default_tags(tags: Seq<Tag>) -> bool {
    &&& tags.len() == default_tag_names().len()
    &&& forall|i: int| 0 <= i < tags.len() ==> (#[trigger] tags[i]).tag@ == default_tag_names()[i] && tags[i].label is None
}

/// The address of the first host labelled `label`, if any.
pub open spec fn host_for_label(hosts: Seq<Host>, label: Seq<char>) -> Option<Seq<char>>
    decreases hosts.len(),
{
    if hosts.len() == 0 {
        None
    } else if hosts[0].label@ == label {
        Some(hosts[0].host@)
    } else {
        host_for_label(hosts.drop_first(), label)
    }
}

/// The host to use when none is given: the one labelled `default`, else
/// the first one, else the local machine.
pub open spec fn default_host(hosts: Seq<Host>) -> Seq<char> {
    if hosts.len() == 0 {
        "127.0.0.1"@
    } else {
        match host_for_label(hosts, "default"@) {
            Some(h) => h,
            None => hosts[0].host@,
        }
    }
}

/// `host` as a label of the configuration, or as an address itself.
pub open spec fn resolved_host(hosts: Seq<Host>, host: Seq<char>) -> Seq<char> {
    match host_for_label(hosts, host) {
        Some(h) => h,
        None => host,
    }
}

/// The address of the first host labelled `label`.
fn find_host(hosts: &Vec<Host>, label: &str) -> (r: Option<String>)
    ensures
        match r {
            Some(h) => host_for_label(hosts@, label@) == Some(h@),
            None => host_for_label(hosts@, label@) is None,
        },
{
    let key = String::from_str(label);
    let mut i: usize = 0;
    assert(hosts@.skip(0) =~= hosts@);
    while i < hosts.len()
        invariant
            i <= hosts@.len(),
            key@ == label@,
            host_for_label(hosts@, label@) == host_for_label(hosts@.skip(i as int), label@),
        decreases hosts@.len() - i,
    {
        assert(hosts@.skip(i as int).drop_first() =~= hosts@.skip(i + 1));
        if hosts[i].label == key {
            return Some(hosts[i].host.clone());
        }
        i = i + 1;
    }
    None
}

impl Config {
    /// The host to use when none is given.
    pub fn default_mpd_host(&self) -> (r: String)
        ensures
            r@ == default_host(self.hosts@),
    {
        if self.hosts.len() == 0 {
            String::from_str("127.0.0.1")
        } else {
            match find_host(&self.hosts, "default") {
                Some(h) => h,
                None => self.hosts[0].host.clone(),
            }
        }
    }

    /// No hosts, and the default tags.
    pub fn default() -> (r: Config)
        ensures
            r.hosts@.len() == 0,
            is_default_tags(r.tags@),
    {
        Config { hosts: Vec::new(), tags: default_tags() }
    }
}

/// The default tags, without labels.
fn default_tags() -> (r: Vec<Tag>)
    ensures
        is_default_tags(r@),
{
    let mut tags: Vec<Tag> = Vec::new();
    tags.push(Tag { tag: String::from_str("Composer"), label: None });
    tags.push(Tag { tag: String::from_str("Work"), label: None });
    tags.push(Tag { tag: String::from_str("Conductor"), label: None });
    tags.push(Tag { tag: String::from_str("Ensemble"), label: None });
    tags.push(Tag { tag: String::from_str("Performer"), label: None });
    tags.push(Tag { tag: String::from_str("Location"), label: None });
    tags.push(Tag { tag: String::from_str("Label"), label: None });
    tags
}

/// `host` as a label of `conf`, or as an address itself.
pub fn lookup_mpd_host(host: &str, conf: &Config) -> (r: String)
    ensures
        r@ == resolved_host(conf.hosts@, host@),
{
    match find_host(&conf.hosts, host) {
        Some(h) => h,
        None => String::from_str(host),
    }
}

/// The host to connect to: the one from the environment, else the one
/// from the command line, each resolved as a label; else the default.
pub fn mpd_host(env_host: Option<&str>, cli_host: Option<&str>, conf: &Config) -> (r: String)
    ensures
        r@ == match env_host {
            Some(h) => resolved_host(conf.hosts@, h@),
            None => match cli_host {
                Some(h) => resolved_host(conf.hosts@, h@),
                None => default_host(conf.hosts@),
            },
        },
{
    match env_host {
        Some(h) => lookup_mpd_host(h, conf),
        None => match cli_host {
            Some(h) => lookup_mpd_host(h, conf),
            None => conf.default_mpd_host(),
        },
    }
}

// ---------------------------------------------------------------------
// Reading the INI sections.
// ---------------------------------------------------------------------

/// The value of the first entry of `entries` named `key`.
pub open spec fn entry_value<V>(entries: Seq<(String, V)>, key: Seq<char>) -> Option<V>
    decreases entries.len(),
{
    if entries.len() == 0 {
        None
    } else if entries[0].0@ == key {
        Some(entries[0].1)
    } else {
        entry_value(entries.drop_first(), key)
    }
}

/// The value of the first entry named `key`.
fn find_entry<'a, V>(entries: &'a Vec<(String, V)>, key: &str) -> (r: Option<&'a V>)
    ensures
        match r {
            Some(v) => entry_value(entries@, key@) == Some(*v),
            None => entry_value(entries@, key@) is None,
        },
{
    let wanted = String::from_str(key);
    let mut i: usize = 0;
    assert(entries@.skip(0) =~= entries@);
    while i < entries.len()
        invariant
            i <= entries@.len(),
            wanted@ == key@,
            entry_value(entries@, key@) == entry_value(entries@.skip(i as int), key@),
        decreases entries@.len() - i,
    {
        assert(entries@.skip(i as int).drop_first() =~= entries@.skip(i + 1));
        if entries[i].0 == wanted {
            return Some(&entries[i].1);
        }
        i = i + 1;
    }
    None
}

/// `hosts` are the entries of `section`, in order, each label with its
/// address.
pub open spec fn hosts_match(hosts: Seq<Host>, section: Seq<(String, Option<String>)>) -> bool {
    &&& hosts.len() == section.len()
    &&& forall|i: int|
        0 <= i < hosts.len() ==> (#[trigger] hosts[i]).label@ == section[i].0@ && section[i].1 is Some
            && hosts[i].host@ == section[i].1->Some_0@
}

/// Entry `i` is the first of `section` without an address.
pub open spec fn first_missing(section: Seq<(String, Option<String>)>, i: int) -> bool {
    &&& 0 <= i < section.len()
    &&& section[i].1 is None
    &&& forall|j: int| 0 <= j < i ==> (#[trigger] section[j]).1 is Some
}

/// What the `[hosts]` section gives: its hosts, or the error on the
/// first entry without an address.
pub open spec fn hosts_outcome(r: Result<Vec<Host>, ConfigError>, section: Seq<(String, Option<String>)>) -> bool {
    match r {
        Ok(hosts) => hosts_match(hosts@, section),
        Err(ConfigError::MissingHostname(label)) => exists|i: int|
            first_missing(section, i) && label@ == (#[trigger] section[i]).0@,
        Err(ConfigError::Syntax(_)) => false,
    }
}

/// The hosts of the `[hosts]` section.
pub fn parse_hosts(section: &Vec<(String, Option<String>)>) -> (r: Result<Vec<Host>, ConfigError>)
    ensures
        hosts_outcome(r, section@),
{
    let mut hosts: Vec<Host> = Vec::new();
    let mut i: usize = 0;
    while i < section.len()
        invariant
            i <= section@.len(),
            hosts_match(hosts@, section@.take(i as int)),
            forall|j: int| 0 <= j < i ==> (#[trigger] section@[j]).1 is Some,
        decreases section@.len() - i,
    {
        let entry = &section[i];
        match &entry.1 {
            Some(h) => {
                hosts.push(Host { host: h.clone(), label: entry.0.clone() });
            },
            None => {
                assert(first_missing(section@, i as int));
                return Err(ConfigError::MissingHostname(entry.0.clone()));
            },
        }
        assert(section@.take(i + 1)[i as int] == section@[i as int]);
        i = i + 1;
    }
    assert(section@.take(section@.len() as int) =~= section@);
    Ok(hosts)
}

/// The label given to tag `name` in the `[tags]` section.
pub open spec fn tag_label(section: Seq<(String, Option<String>)>, name: Seq<char>) -> Option<Seq<char>> {
    match entry_value(section, name) {
        Some(Some(v)) => Some(v@),
        _ => None,
    }
}

/// `tags` are the tags named in `names`, in order, with their labels.
pub open spec fn tags_match(tags: Seq<Tag>, names: Seq<Seq<char>>, section: Seq<(String, Option<String>)>) -> bool {
    &&& tags.len() == names.len()
    &&& forall|i: int|
        0 <= i < tags.len() ==> (#[trigger] tags[i]).tag@ == names[i] && match tags[i].label {
            Some(l) => tag_label(section, names[i]) == Some(l@),
            None => tag_label(section, names[i]) is None,
        }
}

/// What the `[tags]` section gives: the tags listed, comma-separated, by
/// its `enabled` entry, or nothing where it has no such entry.
pub open spec fn tags_outcome(r: Option<Vec<Tag>>, section: Seq<(String, Option<String>)>) -> bool {
    match entry_value(section, "enabled"@) {
        Some(Some(e)) => r is Some && tags_match(r->Some_0@, split_on(e@, ','), section),
        _ => r is None,
    }
}

/// The tags of the `[tags]` section.
pub fn parse_tags(section: &Vec<(String, Option<String>)>) -> (r: Option<Vec<Tag>>)
    ensures
        tags_outcome(r, section@),
{
    let enabled = match find_entry(section, "enabled") {
        Some(Some(e)) => e,
        _ => {
            return None;
        },
    };
    let names = split(enabled.as_str(), ',');
    let ghost views = names@.map_values(|p: String| p@);
    let mut tags: Vec<Tag> = Vec::new();
    let mut i: usize = 0;
    while i < names.len()
        invariant
            i <= names@.len(),
            views == names@.map_values(|p: String| p@),
            tags@.len() == i,
            forall|j: int|
                0 <= j < i ==> (#[trigger] tags@[j]).tag@ == views[j] && match tags@[j].label {
                    Some(l) => tag_label(section@, views[j]) == Some(l@),
                    None => tag_label(section@, views[j]) is None,
                },
        decreases names@.len() - i,
    {
        let name = &names[i];
        let label = match find_entry(section, name.as_str()) {
            Some(Some(l)) => Some(l.clone()),
            _ => None,
        };
        tags.push(Tag { tag: name.clone(), label });
        i = i + 1;
    }
    Some(tags)
}

/// `conf` is what `sections` configure: the hosts of `[hosts]` (none
/// without it), and the tags of `[tags]` (the default ones without it or
/// without its `enabled` entry).
pub open spec fn config_outcome(
    r: Result<Config, ConfigError>,
    sections: Seq<(String, Vec<(String, Option<String>)>)>,
) -> bool {
    let hosts_section = entry_value(sections, "hosts"@);
    let tags_section = entry_value(sections, "tags"@);
    match r {
        Ok(conf) => {
            &&& match hosts_section {
                Some(s) => hosts_match(conf.hosts@, s@),
                None => conf.hosts@.len() == 0,
            }
            &&& match tags_section {
                Some(s) => match entry_value(s@, "enabled"@) {
                    Some(Some(e)) => tags_match(conf.tags@, split_on(e@, ','), s@),
                    _ => is_default_tags(conf.tags@),
                },
                None => is_default_tags(conf.tags@),
            }
        },
        Err(ConfigError::MissingHostname(label)) => match hosts_section {
            Some(s) => exists|i: int| first_missing(s@, i) && label@ == (#[trigger] s@[i]).0@,
            None => false,
        },
        Err(ConfigError::Syntax(_)) => false,
    }
}

/// The configuration that the INI `sections` give.
pub fn parse_config(sections: &Vec<(String, Vec<(String, Option<String>)>)>) -> (r: Result<Config, ConfigError>)
    ensures
        config_outcome(r, sections@),
{
    let hosts = match find_entry(sections, "hosts") {
        Some(s) => match parse_hosts(s) {
            Ok(h) => h,
            Err(e) => {
                proof {
                    assert(entry_value(sections@, "hosts"@) == Some(*s));
                    assert(e is MissingHostname);
                    let i = choose|i: int| first_missing(s@, i) && e->MissingHostname_0@ == (#[trigger] s@[i]).0@;
                    assert(first_missing(s@, i) && e->MissingHostname_0@ == s@[i].0@);
                    let hs = entry_value(sections@, "hosts"@)->Some_0;
                    assert(hs@ == s@);
                    assert(first_missing(hs@, i) && e->MissingHostname_0@ == hs@[i].0@);
                }
                return Err(e);
            },
        },
        None => Vec::new(),
    };
    let tags = match find_entry(sections, "tags") {
        Some(s) => match parse_tags(s) {
            Some(t) => t,
            None => default_tags(),
        },
        None => default_tags(),
    };
    Ok(Config { hosts, tags })
}

// ---------------------------------------------------------------------
// Reading an INI text.
// ---------------------------------------------------------------------

/// The sections of an INI text as configparser reads it with case kept:
/// each section name to its keys and their values; `None` where it refuses
/// the text.
pub uninterp spec fn ini_of(text: Seq<char>) -> Option<Map<Seq<char>, Map<Seq<char>, Option<Seq<char>>>>>;

/// No two entries of `entries` have the same name.
pub open spec fn keys_unique<V>(entries: Seq<(String, V)>) -> bool {
    forall|i: int, j: int| 0 <= i < j < entries.len() ==> (#[trigger] entries[i]).0@ != (#[trigger] entries[j]).0@
}

pub open spec fn option_view(v: Option<String>) -> Option<Seq<char>> {
    match v {
        Some(s) => Some(s@),
        None => None,
    }
}

/// The entries of a section as a map from name to value.
pub open spec fn section_map(entries: Seq<(String, Option<String>)>) -> Map<Seq<char>, Option<Seq<char>>> {
    Map::new(
        |k: Seq<char>| exists|i: int| 0 <= i < entries.len() && (#[trigger] entries[i]).0@ == k,
        |k: Seq<char>| option_view(entry_value(entries, k)->Some_0),
    )
}

/// `sections` list the sections of `m`, each once, in some order.
pub open spec fn ini_listing(
    sections: Seq<(String, Vec<(String, Option<String>)>)>,
    m: Map<Seq<char>, Map<Seq<char>, Option<Seq<char>>>>,
) -> bool {
    &&& keys_unique(sections)
    &&& forall|i: int| 0 <= i < sections.len() ==> keys_unique((#[trigger] sections[i]).1@)
    &&& m == Map::new(
        |k: Seq<char>| exists|i: int| 0 <= i < sections.len() && (#[trigger] sections[i]).0@ == k,
        |k: Seq<char>| section_map(entry_value(sections, k)->Some_0@),
    )
}

/// Relies on configparser's `Ini::new_cs` and `Ini::read`: the sections
/// and entries it reads (keys unique, as in the `HashMap`s it returns,
/// walked in no fixed order), or its error message.
#[verifier::external_body]
fn read_ini(text: &str) -> (r: Result<Vec<(String, Vec<(String, Option<String>)>)>, String>)
    ensures
        match r {
            Ok(sections) => ini_of(text@) is Some && ini_listing(sections@, ini_of(text@)->Some_0),
            Err(_) => ini_of(text@) is None,
        },
{
    let map = configparser::ini::Ini::new_cs().read(text.to_string())?;
    Ok(map.into_iter().map(|(name, section)| (name, section.into_iter().collect())).collect())
}

/// The configuration that an INI text gives.
pub fn read_config(text: &str) -> (r: Result<Config, ConfigError>)
    ensures
        ini_of(text@) is None <==> r is Err && r->Err_0 is Syntax,
        ini_of(text@) is Some ==> exists|sections: Seq<(String, Vec<(String, Option<String>)>)>|
            #[trigger] ini_listing(sections, ini_of(text@)->Some_0) && config_outcome(r, sections),
{
    match read_ini(text) {
        Ok(sections) => {
            let r = parse_config(&sections);
            assert(ini_listing(sections@, ini_of(text@)->Some_0) && config_outcome(r, sections@));
            r
        },
        Err(e) => Err(ConfigError::Syntax(e)),
    }
}

} // verus!
