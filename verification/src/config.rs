//! Extraction of the server configuration from a parsed TOML document.
use vstd::prelude::*;

verus! {

use crate::server::{mime_views, str_views, Config, LogLevel};
use crate::text::str_eq;

/// A TOML document as the configuration reader sees it. Tables keep their
/// key order; values the configuration does not read appear as `Other`.
#[derive(Debug)]
pub enum TomlValue {
    Integer(i64),
    Text(String),
    Array(Vec<TomlValue>),
    Table(Vec<(String, TomlValue)>),
    Other,
}

/// First value stored under `key` in a table's entries.
pub open spec fn toml_get(entries: Seq<(String, TomlValue)>, key: Seq<char>) -> Option<TomlValue>
    decreases entries.len(),
{
    if entries.len() == 0 {
        None
    } else if entries[0].0@ == key {
        Some(entries[0].1)
    } else {
        toml_get(entries.drop_first(), key)
    }
}

/// A lookup that stops at index `i` returns the value stored there.
pub proof fn lemma_toml_get_at(entries: Seq<(String, TomlValue)>, key: Seq<char>, i: int)
    requires
        0 <= i < entries.len(),
        entries[i].0@ == key,
        forall|j: int| 0 <= j < i ==> (#[trigger] entries[j]).0@ != key,
    ensures
        toml_get(entries, key) == Some(entries[i].1),
    decreases i,
{
    if i > 0 {
        let u = entries.drop_first();
        assert forall|j: int| 0 <= j < i - 1 implies (#[trigger] u[j]).0@ != key by {
            assert(u[j] == entries[j + 1]);
        }
        assert(u[i - 1] == entries[i]);
        lemma_toml_get_at(u, key, i - 1);
    }
}

/// A key stored nowhere is not found.
pub proof fn lemma_toml_get_none(entries: Seq<(String, TomlValue)>, key: Seq<char>)
    requires
        forall|j: int| 0 <= j < entries.len() ==> (#[trigger] entries[j]).0@ != key,
    ensures
        toml_get(entries, key) is None,
    decreases entries.len(),
{
    if entries.len() > 0 {
        let u = entries.drop_first();
        assert forall|j: int| 0 <= j < u.len() implies (#[trigger] u[j]).0@ != key by {
            assert(u[j] == entries[j + 1]);
        }
        lemma_toml_get_none(u, key);
    }
}

/// Exec lookup in a table's entries.
fn toml_table_get<'a>(entries: &'a Vec<(String, TomlValue)>, key: &str) -> (r: Option<
    &'a TomlValue,
>)
    ensures
        match r {
            Some(t) => toml_get(entries@, key@) == Some(*t),
            None => toml_get(entries@, key@) is None,
        },
{
    let mut i: usize = 0;
    while i < entries.len()
        invariant
            0 <= i <= entries@.len(),
            forall|j: int| 0 <= j < i ==> (#[trigger] entries@[j]).0@ != key@,
        decreases entries@.len() - i,
    {
        if str_eq(entries[i].0.as_str(), key) {
            proof {
                lemma_toml_get_at(entries@, key@, i as int);
            }
            return Some(&entries[i].1);
        }
        i += 1;
    }
    proof {
        lemma_toml_get_none(entries@, key@);
    }
    None
}

/// The `[server]` table of the document, when present.
pub open spec fn server_table(v: TomlValue) -> Option<Seq<(String, TomlValue)>> {
    match v {
        TomlValue::Table(es) => match toml_get(es@, "server"@) {
            Some(TomlValue::Table(ss)) => Some(ss@),
            _ => None,
        },
        _ => None,
    }
}

/// The configured listen port: `server.port` truncated to a port number,
/// with the engine's default when absent or of the wrong shape.
pub open spec fn port_spec(v: TomlValue) -> u16 {
    match server_table(v) {
        Some(ss) => match toml_get(ss, "port"@) {
            Some(TomlValue::Integer(p)) => p as u16,
            _ => 15000u16,
        },
        None => 15000u16,
    }
}

/// The configured resource root, with the engine's default.
pub open spec fn resources_spec(v: TomlValue) -> Seq<char> {
    match server_table(v) {
        Some(ss) => match toml_get(ss, "resources"@) {
            Some(TomlValue::Text(s)) => s@,
            _ => "./res/"@,
        },
        None => "./res/"@,
    }
}

/// The strings of an array, in order; other elements are passed over.
pub open spec fn texts_of(vs: Seq<TomlValue>) -> Seq<Seq<char>>
    decreases vs.len(),
{
    if vs.len() == 0 {
        Seq::empty()
    } else {
        let p = texts_of(vs.drop_last());
        match vs.last() {
            TomlValue::Text(s) => p.push(s@),
            _ => p,
        }
    }
}

/// The configured preload list: the strings of `server.preload`.
pub open spec fn preload_spec(v: TomlValue) -> Seq<Seq<char>> {
    match server_table(v) {
        Some(ss) => match toml_get(ss, "preload"@) {
            Some(TomlValue::Array(vs)) => texts_of(vs@),
            _ => Seq::empty(),
        },
        None => Seq::empty(),
    }
}

/// The verbosity named by a configuration string; unrecognized names keep
/// the engine's default.
pub open spec fn loglevel_of_name(s: Seq<char>) -> LogLevel {
    if s == "off"@ {
        LogLevel::Off
    } else if s == "error"@ {
        LogLevel::Error
    } else if s == "warn"@ {
        LogLevel::Warn
    } else if s == "info"@ {
        LogLevel::Info
    } else if s == "debug"@ {
        LogLevel::Debug
    } else if s == "trace"@ || s == "all"@ {
        LogLevel::Trace
    } else {
        LogLevel::Info
    }
}

/// The configured verbosity: `server.loglevel` by name.
pub open spec fn loglevel_spec(v: TomlValue) -> LogLevel {
    match server_table(v) {
        Some(ss) => match toml_get(ss, "loglevel"@) {
            Some(TomlValue::Text(s)) => loglevel_of_name(s@),
            _ => LogLevel::Info,
        },
        None => LogLevel::Info,
    }
}

/// Fold one mapped type's extension array into the table. New pairs go to
/// the front, so the scan-from-the-front lookup sees the latest write:
/// a later extension entry wins over an earlier one.
pub open spec fn add_exts(
    acc: Seq<(Seq<char>, Seq<char>)>,
    vs: Seq<TomlValue>,
    ty: Seq<char>,
) -> Seq<(Seq<char>, Seq<char>)>
    decreases vs.len(),
{
    if vs.len() == 0 {
        acc
    } else {
        let p = add_exts(acc, vs.drop_last(), ty);
        match vs.last() {
            TomlValue::Text(e) => seq![(e@, ty)] + p,
            _ => p,
        }
    }
}

/// The extension table of `[mimetypes]`: each key is a type mapped from a
/// list of extensions.
pub open spec fn mimes_of_table(ms: Seq<(String, TomlValue)>) -> Seq<(Seq<char>, Seq<char>)>
    decreases ms.len(),
{
    if ms.len() == 0 {
        Seq::empty()
    } else {
        let p = mimes_of_table(ms.drop_last());
        match ms.last().1 {
            TomlValue::Array(vs) => add_exts(p, vs@, ms.last().0@),
            _ => p,
        }
    }
}

/// The configured extension-to-type table.
pub open spec fn mimes_spec(v: TomlValue) -> Seq<(Seq<char>, Seq<char>)> {
    match v {
        TomlValue::Table(es) => match toml_get(es@, "mimetypes"@) {
            Some(TomlValue::Table(ms)) => mimes_of_table(ms@),
            _ => Seq::empty(),
        },
        _ => Seq::empty(),
    }
}

/// The verbosity named by a string, as the configuration reads it.
pub fn level_from_name(s: &str) -> (r: LogLevel)
    ensures
        r == loglevel_of_name(s@),
{
    if str_eq(s, "off") {
        LogLevel::Off
    } else if str_eq(s, "error") {
        LogLevel::Error
    } else if str_eq(s, "warn") {
        LogLevel::Warn
    } else if str_eq(s, "info") {
        LogLevel::Info
    } else if str_eq(s, "debug") {
        LogLevel::Debug
    } else if str_eq(s, "trace") || str_eq(s, "all") {
        LogLevel::Trace
    } else {
        LogLevel::Info
    }
}

/// Read the configuration out of a parsed TOML document, falling back to
/// the engine's defaults wherever a field is absent or has the wrong shape.
pub fn config_from_toml(v: &TomlValue) -> (r: Config)
    ensures
        r.port == port_spec(*v),
        r.resources@ == resources_spec(*v),
        str_views(r.preload@) == preload_spec(*v),
        mime_views(r.mimetypes@) == mimes_spec(*v),
        r.loglevel == loglevel_spec(*v),
{
    let mut port: u16 = 15000;
    let mut resources: String = "./res/".to_owned();
    let mut preload: Vec<String> = Vec::new();
    let mut mimetypes: Vec<(String, String)> = Vec::new();
    let mut loglevel: LogLevel = LogLevel::Info;
    proof {
        assert(str_views(preload@) =~= Seq::<Seq<char>>::empty());
        assert(mime_views(mimetypes@) =~= Seq::<(Seq<char>, Seq<char>)>::empty());
    }
    if let TomlValue::Table(es) = v {
        if let Some(TomlValue::Table(ss)) = toml_table_get(es, "server") {
            if let Some(TomlValue::Integer(p)) = toml_table_get(ss, "port") {
                port = #[verifier::truncate] (*p as u16);
            }
            if let Some(TomlValue::Text(s)) = toml_table_get(ss, "resources") {
                resources = s.clone();
            }
            if let Some(TomlValue::Array(vs)) = toml_table_get(ss, "preload") {
                let mut i: usize = 0;
                proof {
                    assert(texts_of(vs@.take(0)) =~= Seq::<Seq<char>>::empty());
                }
                while i < vs.len()
                    invariant
                        0 <= i <= vs@.len(),
                        str_views(preload@) == texts_of(vs@.take(i as int)),
                    decreases vs@.len() - i,
                {
                    let ghost before = preload@;
                    if let TomlValue::Text(e) = &vs[i] {
                        let ghost ev = e@;
                        preload.push(e.clone());
                        proof {
                            assert(str_views(preload@) =~= str_views(before).push(ev));
                        }
                    }
                    proof {
                        assert(vs@.take(i + 1).drop_last() =~= vs@.take(i as int));
                        assert(vs@.take(i + 1).last() == vs@[i as int]);
                    }
                    i += 1;
                }
                proof {
                    assert(vs@.take(vs@.len() as int) =~= vs@);
                }
            }
            if let Some(TomlValue::Text(l)) = toml_table_get(ss, "loglevel") {
                loglevel = level_from_name(l.as_str());
            }
        }
        if let Some(TomlValue::Table(ms)) = toml_table_get(es, "mimetypes") {
            let mut i: usize = 0;
            proof {
                assert(mimes_of_table(ms@.take(0)) =~= Seq::<(Seq<char>, Seq<char>)>::empty());
            }
            while i < ms.len()
                invariant
                    0 <= i <= ms@.len(),
                    mime_views(mimetypes@) == mimes_of_table(ms@.take(i as int)),
                decreases ms@.len() - i,
            {
                if let TomlValue::Array(vs) = &ms[i].1 {
                    let ghost acc0 = mime_views(mimetypes@);
                    let mut j: usize = 0;
                    proof {
                        assert(add_exts(acc0, vs@.take(0), ms@[i as int].0@) == acc0);
                    }
                    while j < vs.len()
                        invariant
                            0 <= j <= vs@.len(),
                            0 <= i < ms@.len(),
                            vs@ == (match ms@[i as int].1 {
                                TomlValue::Array(a) => a@,
                                _ => vs@,
                            }),
                            mime_views(mimetypes@) == add_exts(
                                acc0,
                                vs@.take(j as int),
                                ms@[i as int].0@,
                            ),
                        decreases vs@.len() - j,
                    {
                        let ghost before = mime_views(mimetypes@);
                        if let TomlValue::Text(e) = &vs[j] {
                            let ghost ev = e@;
                            let pair = (e.clone(), ms[i].0.clone());
                            mimetypes.insert(0, pair);
                            proof {
                                assert(mime_views(mimetypes@) =~= seq![
                                    (ev, ms@[i as int].0@),
                                ] + before);
                            }
                        }
                        proof {
                            assert(vs@.take(j + 1).drop_last() =~= vs@.take(j as int));
                            assert(vs@.take(j + 1).last() == vs@[j as int]);
                        }
                        j += 1;
                    }
                    proof {
                        assert(vs@.take(vs@.len() as int) =~= vs@);
                        assert(ms@.take(i + 1).drop_last() =~= ms@.take(i as int));
                        assert(ms@.take(i + 1).last() == ms@[i as int]);
                    }
                } else {
                    proof {
                        assert(ms@.take(i + 1).drop_last() =~= ms@.take(i as int));
                        assert(ms@.take(i + 1).last() == ms@[i as int]);
                    }
                }
                i += 1;
            }
            proof {
                assert(ms@.take(ms@.len() as int) =~= ms@);
            }
        }
    }
    Config::new(port, resources, preload, mimetypes, loglevel)
}

} // verus!
