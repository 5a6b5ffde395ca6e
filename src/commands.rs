//! The computations behind the command line: resolving keys against the working
//! context, and exporting resolved values.
use vstd::prelude::*;

use crate::assoc::keys_unique;
use crate::config::{texts_view, Config};
use crate::configuration::{
    entry_spec, lemma_shown_set, ordered_set, shown_of, Configuration, Shown,
};
use crate::value::ConfigValue;
use crate::key_ref::{empty_key_message, parse_spec, KeyRef};
use crate::path::{non_empty_spec, split_spec, strings_view, ContextPath};

verus! {

/// Parses `key` as a dotted reference and puts the context `path` in front of it.
pub fn parse_key_ref(key: &str, path: &ContextPath) -> (r: Result<KeyRef, String>)
    ensures
        match r {
            Ok(k) => exists|p: (Seq<Seq<char>>, Seq<char>)|
                parse_spec(key@) == Some(p) && k@ == (path@ + p.0, p.1),
            Err(e) => parse_spec(key@).is_none() && e@ == empty_key_message(),
        },
        r.is_ok() == parse_spec(key@).is_some(),
{
    match KeyRef::parse(key) {
        Ok(k) => Ok(k.rebased(path)),
        Err(e) => Err(e),
    }
}

/// The working context: the directory name `base` (the last component of the
/// working directory) followed by the configuration's current context.
pub fn get_path(config: &Config, base: &str) -> (r: ContextPath)
    ensures
        r@ == non_empty_spec(split_spec(base@, '/')) + config.context(),
{
    ContextPath::new(base).join(config.get_current_context())
}

/// The formats values can be exported in.
#[derive(Debug, Clone, Copy, PartialEq, Eq, Structural)]
pub enum Format {
    /// `KEY="value"` lines.
    EnvFile,
    /// One JSON object of keys to values.
    Json,
}

impl Default for Format {
    fn default() -> (r: Self)
        ensures
            r == Format::EnvFile,
    {
        Format::EnvFile
    }
}

/// The dotenv text of (key, value) pairs: one `KEY="value"` line each, in order.
pub open spec fn env_text(pairs: Seq<(Seq<char>, Seq<char>)>) -> Seq<char>
    decreases pairs.len(),
{
    if pairs.len() == 0 {
        Seq::empty()
    } else {
        env_text(pairs.drop_last()) + pairs.last().0 + seq!['=', '"'] + pairs.last().1 + seq![
            '"',
            '\n',
        ]
    }
}

/// The compact JSON text of an object with these (key, value) string members.
pub uninterp spec fn json_object_text(pairs: Seq<(Seq<char>, Seq<char>)>) -> Seq<char>;

/// Relies on serde_json's `Value::Object` and its `Display`: the compact JSON text
/// of an object holding each pair as a string member.
#[verifier::external_body]
fn json_object(pairs: &Vec<(&String, String)>) -> (r: String)
    ensures
        r@ == json_object_text(texts_view(pairs@)),
{
    let mut map = serde_json::Map::new();
    for (k, v) in pairs.iter() {
        map.insert(k.to_string(), serde_json::Value::String(v.clone()));
    }
    serde_json::Value::Object(map).to_string()
}

/// The dotenv text of the pairs (see `env_text`).
pub fn export_as_env(data: &Vec<(&String, String)>) -> (r: String)
    ensures
        r@ == env_text(texts_view(data@)),
{
    let mut res = String::new();
    let mut i: usize = 0;
    proof {
        assert(texts_view(data@).take(0) =~= Seq::<(Seq<char>, Seq<char>)>::empty());
        reveal_strlit("=\"");
        reveal_strlit("\"\n");
    }
    while i < data.len()
        invariant
            i <= data@.len(),
            res@ == env_text(texts_view(data@).take(i as int)),
        decreases data@.len() - i,
    {
        proof {
            reveal_strlit("=\"");
            reveal_strlit("\"\n");
            assert(texts_view(data@).take(i + 1).drop_last() =~= texts_view(data@).take(i as int));
        }
        res.append(data[i].0.as_str());
        res.append("=\"");
        res.append(data[i].1.as_str());
        res.append("\"\n");
        i = i + 1;
    }
    proof {
        assert(texts_view(data@).take(data@.len() as int) =~= texts_view(data@));
    }
    res
}

/// The values visible from `path`, resolved, in the format asked for.
pub fn export_config(config: &Config, path: &ContextPath, format: Format) -> (r: String)
    requires
        config.wf(),
    ensures
        exists|pairs: Seq<(Seq<char>, Seq<char>)>|
            {
                &&& keys_unique(pairs)
                &&& crate::assoc::assoc_map(pairs) == crate::configuration::get_all_spec(
                    config.store(),
                    path@,
                ).map_values(|v: crate::value::ConfigValue| crate::config::shown_spec(config.vaults(), v))
                &&& r@ == match format {
                    Format::EnvFile => env_text(pairs),
                    Format::Json => json_object_text(pairs),
                }
            },
{
    let data = config.get_all(path);
    match format {
        Format::EnvFile => export_as_env(&data),
        Format::Json => json_object(&data),
    }
}

/// The index of the first `c` in `s`, or the length of `s` if there is none.
pub open spec fn index_of(s: Seq<char>, c: char) -> nat
    decreases s.len(),
{
    if s.len() == 0 || s[0] == c {
        0
    } else {
        1 + index_of(s.skip(1), c)
    }
}

/// `s` with every `c` taken out.
pub open spec fn without_char(s: Seq<char>, c: char) -> Seq<char>
    decreases s.len(),
{
    if s.len() == 0 {
        s
    } else if s.last() == c {
        without_char(s.drop_last(), c)
    } else {
        without_char(s.drop_last(), c).push(s.last())
    }
}

/// What a dotenv line holds, if anything: the text before any `#`, split at its
/// first `=` into a key and a value with every `"` taken out.
pub open spec fn env_line(line: Seq<char>) -> Option<(Seq<char>, Seq<char>)> {
    let body = line.take(index_of(line, '#') as int);
    let e = index_of(body, '=');
    if e == body.len() {
        None
    } else {
        Some((body.take(e as int), without_char(body.skip(e as int + 1), '"')))
    }
}

/// The line's key does not parse as a dotted reference.
pub open spec fn env_line_fails(line: Seq<char>) -> bool {
    match env_line(line) {
        Some(kv) => parse_spec(kv.0).is_none(),
        None => false,
    }
}

/// The literals the first `n` lines write, by (path, key) under the context `path`;
/// a later line wins.
pub open spec fn imported(lines: Seq<Seq<char>>, path: Seq<Seq<char>>, n: nat) -> Map<
    (Seq<Seq<char>>, Seq<char>),
    Seq<char>,
>
    decreases n,
{
    if n == 0 {
        Map::empty()
    } else {
        let m = imported(lines, path, (n - 1) as nat);
        match env_line(lines[n - 1]) {
            Some(kv) => match parse_spec(kv.0) {
                Some(k) => m.insert((path + k.0, k.1), kv.1),
                None => m,
            },
            None => m,
        }
    }
}

/// The shown contexts in order after the first `n` lines are imported under `path`
/// into the shown contexts `o`.
pub open spec fn shown_import(
    o: Seq<(Seq<Seq<char>>, Seq<(Seq<char>, Seq<char>)>)>,
    lines: Seq<Seq<char>>,
    path: Seq<Seq<char>>,
    n: nat,
) -> Seq<(Seq<Seq<char>>, Seq<(Seq<char>, Seq<char>)>)>
    decreases n,
{
    if n == 0 {
        o
    } else {
        let prev = shown_import(o, lines, path, (n - 1) as nat);
        match env_line(lines[n - 1]) {
            Some(kv) => match parse_spec(kv.0) {
                Some(k) => ordered_set(prev, path + k.0, k.1, kv.1),
                None => prev,
            },
            None => prev,
        }
    }
}

/// The entry is the literal `t`.
pub open spec fn literal_is(o: Option<ConfigValue>, t: Seq<char>) -> bool {
    o matches Some(ConfigValue::Value(s)) && s@ == t
}

proof fn lemma_index_of(s: Seq<char>, c: char, i: int)
    requires
        0 <= i <= s.len(),
        forall|j: int| 0 <= j < i ==> s[j] != c,
        i == s.len() || s[i] == c,
    ensures
        index_of(s, c) == i,
    decreases i,
{
    if i > 0 {
        let t = s.skip(1);
        assert forall|j: int| 0 <= j < i - 1 implies t[j] != c by {
            assert(t[j] == s[j + 1]);
        }
        lemma_index_of(t, c, i - 1);
    }
}

/// The index of the first `c` in `s`, or its length.
fn find_char(s: &str, c: char) -> (r: usize)
    ensures
        r == index_of(s@, c),
        r <= s@.len(),
{
    let n: usize = s.unicode_len();
    let mut i: usize = 0;
    while i < n && s.get_char(i) != c
        invariant
            n == s@.len(),
            i <= n,
            forall|j: int| 0 <= j < i ==> s@[j] != c,
        decreases n - i,
    {
        i = i + 1;
    }
    proof {
        lemma_index_of(s@, c, i as int);
    }
    i
}

/// Reads one dotenv line (see `env_line`).
pub fn parse_env_line(line: &str) -> (r: Option<(String, String)>)
    ensures
        match r {
            Some(kv) => env_line(line@) == Some((kv.0@, kv.1@)),
            None => env_line(line@).is_none(),
        },
{
    let h = find_char(line, '#');
    let body = line.substring_char(0, h);
    let e = find_char(body, '=');
    let len: usize = body.unicode_len();
    if e == len {
        return None;
    }
    let key = body.substring_char(0, e).to_owned();
    let rest = body.substring_char(e + 1, len);
    let n: usize = rest.unicode_len();
    let mut value = String::new();
    let mut i: usize = 0;
    proof {
        assert(rest@.take(0) =~= Seq::<char>::empty());
    }
    while i < n
        invariant
            n == rest@.len(),
            i <= n,
            value@ == without_char(rest@.take(i as int), '"'),
        decreases n - i,
    {
        proof {
            assert(rest@.take(i + 1).drop_last() =~= rest@.take(i as int));
        }
        if rest.get_char(i) != '"' {
            let one = rest.substring_char(i, i + 1);
            proof {
                assert(one@ =~= seq![rest@[i as int]]);
            }
            value.append(one);
            proof {
                assert(value@ =~= without_char(rest@.take(i as int), '"').push(rest@[i as int]));
            }
        }
        i = i + 1;
    }
    proof {
        assert(rest@.take(n as int) =~= rest@);
        assert(line@.take(h as int) == body@);
    }
    Some((key, value))
}

/// Imports dotenv lines as literals under the context `path`: each line that holds
/// `key=value` writes the value for its dotted key. Fails on the first key that
/// does not parse, with the lines before it written.
pub fn read_from_env(lines: &Vec<String>, path: &ContextPath, config: &mut Configuration<ConfigValue>) -> (r:
    Result<(), String>)
    requires
        old(config).wf(),
    ensures
        final(config).wf(),
        r.is_err() == exists|i: int| 0 <= i < lines@.len() && env_line_fails(#[trigger] lines@[i]@),
        r matches Err(e) ==> e@ == empty_key_message(),
        r.is_ok() ==> forall|p: Seq<Seq<char>>, k: Seq<char>|
            if #[trigger] imported(strings_view(lines@), path@, lines@.len() as nat).contains_key(
                (p, k),
            ) {
                literal_is(
                    entry_spec(final(config)@, p, k),
                    imported(strings_view(lines@), path@, lines@.len() as nat)[(p, k)],
                )
            } else {
                entry_spec(final(config)@, p, k) == entry_spec(old(config)@, p, k)
            },
        r.is_ok() ==> shown_of(final(config).ordered()) == shown_import(
            shown_of(old(config).ordered()),
            strings_view(lines@),
            path@,
            lines@.len() as nat,
        ),
{
    let ghost texts = strings_view(lines@);
    let ghost m0 = config@;
    let ghost s0 = shown_of(config.ordered());
    let mut i: usize = 0;
    while i < lines.len()
        invariant
            i <= lines@.len(),
            texts == strings_view(lines@),
            config.wf(),
            shown_of(config.ordered()) == shown_import(s0, texts, path@, i as nat),
            forall|j: int| 0 <= j < i ==> !env_line_fails(#[trigger] lines@[j]@),
            forall|p: Seq<Seq<char>>, k: Seq<char>|
                if #[trigger] imported(texts, path@, i as nat).contains_key((p, k)) {
                    literal_is(entry_spec(config@, p, k), imported(texts, path@, i as nat)[(p, k)])
                } else {
                    entry_spec(config@, p, k) == entry_spec(m0, p, k)
                },
        decreases lines@.len() - i,
    {
        proof {
            assert(texts[i as int] == lines@[i as int]@);
        }
        match parse_env_line(lines[i].as_str()) {
            Some((k, v)) => match parse_key_ref(k.as_str(), path) {
                Ok(kr) => {
                    let ghost m1 = config@;
                    let ghost kv = kr@;
                    let ghost vt = v@;
                    let ghost o1 = config.ordered();
                    let ghost val = ConfigValue::Value(v);
                    config.set(kr, ConfigValue::Value(v));
                    proof {
                        lemma_shown_set(o1, kv.0, kv.1, val);
                        assert(val.text() == vt);
                        let pk = choose|pk: (Seq<Seq<char>>, Seq<char>)|
                            parse_spec(k@) == Some(pk) && kv == (path@ + pk.0, pk.1);
                        assert(env_line(texts[i as int]) == Some((k@, vt)));
                        assert(imported(texts, path@, (i + 1) as nat) == imported(
                            texts,
                            path@,
                            i as nat,
                        ).insert(kv, vt));
                        assert forall|p: Seq<Seq<char>>, q: Seq<char>| #[trigger] imported(
                            texts,
                            path@,
                            (i + 1) as nat,
                        ).contains_key((p, q)) implies literal_is(
                            entry_spec(config@, p, q),
                            imported(texts, path@, (i + 1) as nat)[(p, q)],
                        ) by {
                            if (p, q) != kv {
                                assert(imported(texts, path@, i as nat).contains_key((p, q)));
                            }
                        }
                        assert forall|p: Seq<Seq<char>>, q: Seq<char>| !#[trigger] imported(
                            texts,
                            path@,
                            (i + 1) as nat,
                        ).contains_key((p, q)) implies entry_spec(config@, p, q) == entry_spec(
                            m0,
                            p,
                            q,
                        ) by {
                            assert(!imported(texts, path@, i as nat).contains_key((p, q)));
                        }
                    }
                },
                Err(e) => {
                    return Err(e);
                },
            },
            None => {
                proof {
                    assert(imported(texts, path@, (i + 1) as nat) == imported(texts, path@, i as nat));
                }
            },
        }
        i = i + 1;
    }
    Ok(())
}

} // verus!
