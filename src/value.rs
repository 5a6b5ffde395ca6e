//! Configuration values: a literal string, or a reference to a secret held in a
//! named vault.
use vstd::prelude::*;

use crate::configuration::Shown;
use crate::key_ref::{empty_key_message, parse_spec, render_spec, KeyRef};

verus! {

/// The text shown for a value: the literal itself, or `secret [vault::a.b.key]`
/// for a secret reference.
pub open spec fn value_text(v: ConfigValue) -> Seq<char> {
    match v {
        ConfigValue::Secret(name, k) => seq!['s', 'e', 'c', 'r', 'e', 't', ' ', '['] + name@ + seq![
            ':',
            ':',
        ] + render_spec(k@) + seq![']'],
        ConfigValue::Value(s) => s@,
    }
}

/// A stored value: a secret reference (vault name, key in that vault) or a literal.
#[derive(Debug)]
pub enum ConfigValue {
    Secret(String, KeyRef),
    Value(String),
}

impl ConfigValue {
    pub fn from_value(v: String) -> (r: Self)
        ensures
            r == ConfigValue::Value(v),
    {
        ConfigValue::Value(v)
    }

    /// A reference to the secret `v` (a dotted key) of the vault `name`.
    pub fn from_secret(name: String, v: String) -> (r: Result<Self, String>)
        ensures
            match r {
                Ok(ConfigValue::Secret(n, k)) => n == name && parse_spec(v@) == Some(k@),
                Ok(ConfigValue::Value(_)) => false,
                Err(e) => parse_spec(v@).is_none() && e@ == empty_key_message(),
            },
    {
        match KeyRef::parse(v.as_str()) {
            Ok(k) => Ok(ConfigValue::Secret(name, k)),
            Err(e) => Err(e),
        }
    }

    /// The text shown for this value (see `value_text`).
    pub fn to_string(&self) -> (r: String)
        ensures
            r@ == value_text(*self),
    {
        match self {
            ConfigValue::Secret(name, k) => {
                proof {
                    reveal_strlit("secret [");
                    reveal_strlit("::");
                    reveal_strlit("]");
                }
                let mut r = String::from_str("secret [");
                r.append(name.as_str());
                r.append("::");
                let dotted = k.to_string();
                r.append(dotted.as_str());
                r.append("]");
                r
            },
            ConfigValue::Value(s) => s.clone(),
        }
    }
}

impl Shown for ConfigValue {
    open spec fn text(&self) -> Seq<char> {
        value_text(*self)
    }

    fn show(&self) -> (r: String) {
        self.to_string()
    }
}

impl Default for ConfigValue {
    fn default() -> (r: Self)
        ensures
            r matches ConfigValue::Value(s) && s@.len() == 0,
    {
        ConfigValue::Value(String::new())
    }
}

} // verus!
