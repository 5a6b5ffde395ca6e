//! The configuration aggregate: a store of configuration values, a registry of
//! named vaults with an optional default, the current working context, and the
//! set of vaults with changes not yet persisted.
use vstd::prelude::*;

use crate::assoc::{
    assoc_map, keys_unique, lemma_assoc_domain, lemma_assoc_lookup, lemma_assoc_map_values,
    lemma_assoc_push, lemma_assoc_update,
};
use crate::configuration::{
    entry_spec, get_all_spec, get_spec, ordered_remove, ordered_set, pairs_view, remove_spec,
    set_spec, shown_of, Configuration,
};
use crate::tree::tree_text;
use crate::commands::{env_line_fails, imported, literal_is, read_from_env, shown_import};
use crate::key_ref::{empty_key_message, render_spec, KeyRef};
use crate::path::{strings_view, ContextPath};
use crate::value::{value_text, ConfigValue};
use crate::vault::{Vault, VaultKind};

verus! {

/// The failures of configuration operations.
#[derive(Debug)]
pub enum ConfigError {
    /// No vault has this name.
    VaultNotFound(String),
    /// The secret (dotted key) does not resolve in the vault: (vault name, dotted key).
    SecretNotFound(String, String),
    /// No vault was named and there is no default vault.
    VaultNotSpecified,
    /// A vault with this name is already registered.
    VaultAlreadyExists,
}

/// The message of an error.
pub open spec fn error_text(e: ConfigError) -> Seq<char> {
    match e {
        ConfigError::VaultNotFound(name) => "Vault "@ + name@ + " not found"@,
        ConfigError::SecretNotFound(name, key) => "Secret "@ + key@ + " not found for vault "@
            + name@,
        ConfigError::VaultNotSpecified => "vault name not specified, either pass --vault or set a default vault with `secrets-manager vault use`"@,
        ConfigError::VaultAlreadyExists => "Vault already exists!"@,
    }
}

impl ConfigError {
    /// A message describing the failure.
    pub fn to_string(&self) -> (r: String)
        ensures
            r@ == error_text(*self),
    {
        proof {
            reveal_strlit("Vault ");
            reveal_strlit(" not found");
            reveal_strlit("Secret ");
            reveal_strlit(" not found for vault ");
            reveal_strlit("vault name not specified, either pass --vault or set a default vault with `secrets-manager vault use`");
            reveal_strlit("Vault already exists!");
        }
        match self {
            ConfigError::VaultNotFound(name) => {
                let mut r = String::from_str("Vault ");
                r.append(name.as_str());
                r.append(" not found");
                r
            },
            ConfigError::SecretNotFound(name, key) => {
                let mut r = String::from_str("Secret ");
                r.append(key.as_str());
                r.append(" not found for vault ");
                r.append(name.as_str());
                r
            },
            ConfigError::VaultNotSpecified => String::from_str(
                "vault name not specified, either pass --vault or set a default vault with `secrets-manager vault use`",
            ),
            ConfigError::VaultAlreadyExists => String::from_str("Vault already exists!"),
        }
    }
}

/// The text of an optional string slice.
pub open spec fn opt_str(o: Option<&str>) -> Option<Seq<char>> {
    match o {
        Some(s) => Some(s@),
        None => None,
    }
}

/// The text of an optional string.
pub open spec fn opt_text(o: Option<String>) -> Option<Seq<char>> {
    match o {
        Some(s) => Some(s@),
        None => None,
    }
}

/// The vault registry as (name, vault) pairs.
pub open spec fn registry_view(v: Seq<(String, Vault)>) -> Seq<(Seq<char>, Vault)> {
    v.map_values(|p: (String, Vault)| (p.0@, p.1))
}

/// The store of the vault `name`, if registered.
pub open spec fn vault_store(vaults: Map<Seq<char>, Vault>, name: Seq<char>) -> Option<
    Map<Seq<Seq<char>>, Map<Seq<char>, String>>,
> {
    if vaults.contains_key(name) {
        Some(vaults[name].store()@)
    } else {
        None
    }
}

/// The secret `k` of the vault `name`, read with ancestor fallback.
pub open spec fn secret_spec(vaults: Map<Seq<char>, Vault>, name: Seq<char>, k: (
    Seq<Seq<char>>,
    Seq<char>,
)) -> Option<Seq<char>> {
    match vault_store(vaults, name) {
        Some(s) => match get_spec(s, k.0, k.1) {
            Some(v) => Some(v@),
            None => None,
        },
        None => None,
    }
}

/// The concrete text of a value: a literal is itself, a secret reference is what it
/// resolves to in its vault.
pub open spec fn resolve_spec(vaults: Map<Seq<char>, Vault>, v: ConfigValue) -> Option<Seq<char>> {
    match v {
        ConfigValue::Value(s) => Some(s@),
        ConfigValue::Secret(name, k) => secret_spec(vaults, name@, k@),
    }
}

/// The text shown for a value: resolved if it can be, else its placeholder.
pub open spec fn shown_spec(vaults: Map<Seq<char>, Vault>, v: ConfigValue) -> Seq<char> {
    match resolve_spec(vaults, v) {
        Some(s) => s,
        None => value_text(v),
    }
}

/// Pairs of borrowed keys and owned texts, as (key, text) pairs.
pub open spec fn texts_view(r: Seq<(&String, String)>) -> Seq<(Seq<char>, Seq<char>)> {
    r.map_values(|p: (&String, String)| (p.0@, p.1@))
}

/// The serialized form of a configuration: its store, its context, its default
/// vault and the descriptor of each vault.
#[derive(Debug)]
pub struct ConfigFileData {
    config: Configuration<ConfigValue>,
    context: ContextPath,
    default_secret: Option<String>,
    secrets: Vec<(String, VaultKind)>,
}

/// The vault descriptors as (name, descriptor) pairs.
pub open spec fn descriptors_view(v: Seq<(String, VaultKind)>) -> Seq<(Seq<char>, VaultKind)> {
    v.map_values(|p: (String, VaultKind)| (p.0@, p.1))
}

impl ConfigFileData {
    pub fn new(
        config: Configuration<ConfigValue>,
        context: ContextPath,
        default_secret: Option<String>,
        secrets: Vec<(String, VaultKind)>,
    ) -> (r: Self)
        requires
            config.wf(),
        ensures
            r.wf(),
            r.store() == config@,
            r.ordered_store() == config.ordered(),
            r.context() == context@,
            r.default_secret() == opt_text(default_secret),
            r.secrets() == descriptors_view(secrets@),
    {
        ConfigFileData { config, context, default_secret, secrets }
    }

    pub closed spec fn wf(&self) -> bool {
        self.config.wf()
    }

    pub closed spec fn store(&self) -> Map<Seq<Seq<char>>, Map<Seq<char>, ConfigValue>> {
        self.config@
    }

    pub closed spec fn context(&self) -> Seq<Seq<char>> {
        self.context@
    }

    /// The store's contexts in creation order, each with its entries in creation order.
    pub closed spec fn ordered_store(&self) -> Seq<(Seq<Seq<char>>, Seq<(Seq<char>, ConfigValue)>)> {
        self.config.ordered()
    }

    pub closed spec fn default_secret(&self) -> Option<Seq<char>> {
        opt_text(self.default_secret)
    }

    pub closed spec fn secrets(&self) -> Seq<(Seq<char>, VaultKind)> {
        descriptors_view(self.secrets@)
    }

    /// The vault descriptors, by name.
    pub fn secrets_list(&self) -> (r: &Vec<(String, VaultKind)>)
        ensures
            descriptors_view(r@) == self.secrets(),
    {
        &self.secrets
    }

    /// The parts: store, context, default vault name and vault descriptors.
    pub fn into_parts(self) -> (r: (
        Configuration<ConfigValue>,
        ContextPath,
        Option<String>,
        Vec<(String, VaultKind)>,
    ))
        ensures
            r.0@ == self.store(),
            r.0.ordered() == self.ordered_store(),
            self.wf() ==> r.0.wf(),
            r.1@ == self.context(),
            opt_text(r.2) == self.default_secret(),
            descriptors_view(r.3@) == self.secrets(),
    {
        (self.config, self.context, self.default_secret, self.secrets)
    }
}

impl Default for ConfigFileData {
    /// An empty configuration at the root context, with no vault.
    fn default() -> (r: Self)
        ensures
            r.wf(),
            r.store() == Map::<Seq<Seq<char>>, Map<Seq<char>, ConfigValue>>::empty(),
            r.ordered_store() == Seq::<(Seq<Seq<char>>, Seq<(Seq<char>, ConfigValue)>)>::empty(),
            r.context() == Seq::<Seq<char>>::empty(),
            r.default_secret() == None::<Seq<char>>,
            r.secrets() == Seq::<(Seq<char>, VaultKind)>::empty(),
    {
        let r = ConfigFileData {
            config: Configuration::new(),
            context: ContextPath::root(),
            default_secret: None,
            secrets: Vec::new(),
        };
        proof {
            assert(descriptors_view(r.secrets@) =~= Seq::<(Seq<char>, VaultKind)>::empty());
        }
        r
    }
}

/// The configuration of one invocation.
#[derive(Debug)]
pub struct Config {
    config: Configuration<ConfigValue>,
    vaults: Vec<(String, Vault)>,
    default_vault: Option<String>,
    context: ContextPath,
    updated: Vec<String>,
}

impl Config {
    /// The store is well formed, vault names are distinct and every vault is well formed.
    pub closed spec fn wf(&self) -> bool {
        &&& self.config.wf()
        &&& keys_unique(registry_view(self.vaults@))
        &&& forall|i: int| 0 <= i < self.vaults@.len() ==> (#[trigger] self.vaults@[i]).1.wf()
    }

    pub closed spec fn store(&self) -> Map<Seq<Seq<char>>, Map<Seq<char>, ConfigValue>> {
        self.config@
    }

    /// The store's contexts in creation order, each with its entries in creation order.
    pub closed spec fn ordered_store(&self) -> Seq<(Seq<Seq<char>>, Seq<(Seq<char>, ConfigValue)>)> {
        self.config.ordered()
    }

    /// The vaults in registry order.
    pub closed spec fn vault_list(&self) -> Seq<(Seq<char>, Vault)> {
        registry_view(self.vaults@)
    }

    pub open spec fn vaults(&self) -> Map<Seq<char>, Vault> {
        assoc_map(self.vault_list())
    }

    pub closed spec fn default_vault(&self) -> Option<Seq<char>> {
        opt_text(self.default_vault)
    }

    pub closed spec fn context(&self) -> Seq<Seq<char>> {
        self.context@
    }

    /// The names of the vaults with changes not yet persisted.
    pub closed spec fn dirty(&self) -> Set<Seq<char>> {
        Set::new(|n: Seq<char>| exists|i: int| 0 <= i < self.updated@.len() && self.updated@[i]@ == n)
    }

    proof fn lemma_vault_at(&self, i: int)
        requires
            self.wf(),
            0 <= i < self.vaults@.len(),
        ensures
            self.vaults().contains_key(self.vaults@[i].0@),
            self.vaults()[self.vaults@[i].0@] == self.vaults@[i].1,
            self.vaults@[i].1.wf(),
    {
        lemma_assoc_lookup(registry_view(self.vaults@), i);
    }

    /// Builds the configuration from its serialized form and the store of each
    /// vault it lists, in the same order. A name listed twice keeps its last vault.
    pub fn load(data: ConfigFileData, stores: Vec<Configuration<String>>) -> (r: Config)
        requires
            data.wf(),
            stores@.len() == data.secrets().len(),
            forall|i: int| 0 <= i < stores@.len() ==> (#[trigger] stores@[i]).wf(),
        ensures
            r.wf(),
            loaded_as(data, stores@, r),
            r.dirty() == Set::<Seq<char>>::empty(),
    {
        let ghost sv = data.secrets();
        let ghost st = stores@;
        let (config, context, default_vault, secrets) = data.into_parts();
        let mut r = Config {
            config,
            vaults: Vec::new(),
            default_vault,
            context,
            updated: Vec::new(),
        };
        let mut stores = stores;
        let mut secrets = secrets;
        let total: usize = stores.len();
        let ghost n = st.len();
        let mut i: usize = 0;
        proof {
            assert(loaded_view(sv, st).take(0) =~= Seq::<
                (Seq<char>, (VaultKind, Configuration<String>)),
            >::empty());
            assert(registry_view(r.vaults@) =~= Seq::<(Seq<char>, Vault)>::empty());
            assert(r.vaults() =~= Map::<Seq<char>, Vault>::empty());
            assert(r.dirty() =~= Set::<Seq<char>>::empty());
            assert(descriptors_view(secrets@) =~= sv.skip(0));
            assert(stores@ =~= st.skip(0));
        }
        while secrets.len() > 0
            invariant
                n == st.len() == sv.len() == total,
                i <= n,
                descriptors_view(secrets@) == sv.skip(i as int),
                stores@ == st.skip(i as int),
                forall|j: int| 0 <= j < st.len() ==> (#[trigger] st[j]).wf(),
                r.wf(),
                r.store() == data.store(),
                r.ordered_store() == data.ordered_store(),
                r.context() == data.context(),
                r.default_vault() == data.default_secret(),
                r.dirty() == Set::<Seq<char>>::empty(),
                vaults_match(r.vaults(), assoc_map(loaded_view(sv, st).take(i as int))),
            decreases secrets@.len(),
        {
            proof {
                assert(descriptors_view(secrets@).len() == secrets@.len());
                assert(stores@.len() == st.len() - i);
                assert(i < n);
            }
            let ghost secrets0 = secrets@;
            let (name, kind) = secrets.remove(0);
            let store = stores.remove(0);
            proof {
                assert(sv.skip(i as int)[0] == sv[i as int]);
                assert(st.skip(i as int)[0] == st[i as int]);
                assert(descriptors_view(secrets0)[0] == sv[i as int]);
                assert forall|x: int| 0 <= x < secrets@.len() implies #[trigger] descriptors_view(
                    secrets@,
                )[x] == sv.skip(i + 1)[x] by {
                    assert(secrets@[x] == secrets0[x + 1]);
                    assert(descriptors_view(secrets0)[x + 1] == sv.skip(i as int)[x + 1]);
                }
                assert(descriptors_view(secrets@) =~= sv.skip(i + 1));
                assert(stores@ =~= st.skip(i + 1));
            }
            let ghost before = r.vaults();
            let vault = Vault::new(kind, store);
            r.register(name, vault);
            proof {
                let lv = loaded_view(sv, st);
                assert(lv.take(i + 1).drop_last() =~= lv.take(i as int));
                let prev = assoc_map(lv.take(i as int));
                let entry = lv[i as int];
                assert(assoc_map(lv.take(i + 1)) == prev.insert(entry.0, entry.1));
                assert forall|k: Seq<char>| #[trigger] r.vaults().contains_key(k) implies r.vaults()[
                    k
                ].kind() == prev.insert(entry.0, entry.1)[k].0 && r.vaults()[k].store() == prev.insert(
                    entry.0,
                    entry.1,
                )[k].1 by {
                    if k != entry.0 {
                        assert(before.contains_key(k));
                    }
                }
                assert(r.vaults().dom() =~= prev.insert(entry.0, entry.1).dom());
            }
            i = i + 1;
        }
        proof {
            assert(loaded_view(sv, st).take(n as int) =~= loaded_view(sv, st));
        }
        r
    }

    /// The secret `key_ref` of the vault `name`, read with ancestor fallback; fails
    /// when no vault has that name.
    pub fn get_secret(&self, name: &str, key_ref: &KeyRef) -> (r: Result<Option<&str>, ConfigError>)
        requires
            self.wf(),
        ensures
            match r {
                Ok(o) => self.vaults().contains_key(name@) && opt_str(o) == secret_spec(
                    self.vaults(),
                    name@,
                    key_ref@,
                ),
                Err(e) => !self.vaults().contains_key(name@) && (e matches ConfigError::VaultNotFound(
                    n,
                ) && n@ == name@),
            },
    {
        let owned = name.to_owned();
        match self.find_vault(&owned) {
            Some(i) => {
                proof {
                    self.lemma_vault_at(i as int);
                }
                match self.vaults[i].1.get().get(key_ref) {
                    Some(v) => Ok(Some(v.as_str())),
                    None => Ok(None),
                }
            },
            None => Err(ConfigError::VaultNotFound(owned)),
        }
    }

    /// What a secret reference resolves to; nothing when the vault or the secret is missing.
    fn resolve_secret(&self, name: &String, key_ref: &KeyRef) -> (r: Option<&str>)
        requires
            self.wf(),
        ensures
            opt_str(r) == secret_spec(self.vaults(), name@, key_ref@),
    {
        match self.get_secret(name.as_str(), key_ref) {
            Ok(o) => o,
            Err(_) => None,
        }
    }

    /// The concrete value of the key: its value read with ancestor fallback, a
    /// secret reference resolved through its vault. Nothing if either is missing.
    pub fn get(&self, key_ref: &KeyRef) -> (r: Option<&str>)
        requires
            self.wf(),
        ensures
            opt_str(r) == match get_spec(self.store(), key_ref@.0, key_ref@.1) {
                Some(v) => resolve_spec(self.vaults(), v),
                None => None,
            },
    {
        match self.config.get(key_ref) {
            Some(ConfigValue::Secret(name, k)) => self.resolve_secret(name, k),
            Some(ConfigValue::Value(v)) => Some(v.as_str()),
            None => None,
        }
    }

    /// The text shown for a value: resolved where it can be, else its placeholder.
    fn shown(&self, v: &ConfigValue) -> (r: String)
        requires
            self.wf(),
        ensures
            r@ == shown_spec(self.vaults(), *v),
    {
        match v {
            ConfigValue::Secret(name, k) => match self.resolve_secret(name, k) {
                Some(s) => s.to_owned(),
                None => v.to_string(),
            },
            ConfigValue::Value(s) => s.clone(),
        }
    }

    /// Every key visible from `path` with its shown text: folded from the root down,
    /// secrets resolved where they can be, else shown as placeholders.
    pub fn get_all<'a>(&'a self, path: &ContextPath) -> (r: Vec<(&'a String, String)>)
        requires
            self.wf(),
        ensures
            keys_unique(texts_view(r@)),
            assoc_map(texts_view(r@)) == get_all_spec(self.store(), path@).map_values(
                |v: ConfigValue| shown_spec(self.vaults(), v),
            ),
    {
        let pairs = self.config.get_all(path);
        let ghost f = |v: ConfigValue| shown_spec(self.vaults(), v);
        let ghost g = |p: (Seq<char>, ConfigValue)| (p.0, f(p.1));
        let mut r: Vec<(&'a String, String)> = Vec::new();
        let mut i: usize = 0;
        proof {
            assert(texts_view(r@) =~= pairs_view(pairs@).take(0).map_values(g));
        }
        while i < pairs.len()
            invariant
                i <= pairs@.len(),
                self.wf(),
                f == (|v: ConfigValue| shown_spec(self.vaults(), v)),
                g == (|p: (Seq<char>, ConfigValue)| (p.0, f(p.1))),
                texts_view(r@) == pairs_view(pairs@).take(i as int).map_values(g),
            decreases pairs@.len() - i,
        {
            let (k, v) = pairs[i];
            let text = self.shown(v);
            let ghost r0 = r@;
            r.push((k, text));
            proof {
                assert(texts_view(r@) =~= texts_view(r0).push((k@, text@)));
                assert(pairs_view(pairs@).take(i + 1) =~= pairs_view(pairs@).take(i as int).push(
                    (k@, *v),
                ));
                assert(f(*v) == shown_spec(self.vaults(), *v));
                assert(text@ == f(*v));
                assert(g((k@, *v)) == (k@, f(*v)));
                assert(pairs_view(pairs@).take(i + 1).map_values(g) =~= pairs_view(pairs@).take(
                    i as int,
                ).map_values(g).push(g((k@, *v))));
                assert(texts_view(r@) =~= pairs_view(pairs@).take(i + 1).map_values(g));
            }
            i = i + 1;
        }
        proof {
            assert(pairs_view(pairs@).take(pairs@.len() as int) =~= pairs_view(pairs@));
            lemma_assoc_map_values(pairs_view(pairs@), f);
            assert(texts_view(r@) =~= pairs_view(pairs@).map_values(
                |p: (Seq<char>, ConfigValue)| (p.0, f(p.1)),
            ));
        }
        r
    }

    /// Whether a vault has this name.
    pub fn vault_exists(&self, name: &str) -> (r: bool)
        requires
            self.wf(),
        ensures
            r == self.vaults().contains_key(name@),
    {
        let owned = name.to_owned();
        match self.find_vault(&owned) {
            Some(i) => {
                proof {
                    self.lemma_vault_at(i as int);
                }
                true
            },
            None => false,
        }
    }

    /// The vault of this name.
    pub fn vault(&self, name: &str) -> (r: Result<&Vault, ConfigError>)
        requires
            self.wf(),
        ensures
            match r {
                Ok(v) => self.vaults().contains_key(name@) && *v == self.vaults()[name@] && v.wf(),
                Err(e) => !self.vaults().contains_key(name@) && (e matches ConfigError::VaultNotFound(
                    n,
                ) && n@ == name@),
            },
    {
        let owned = name.to_owned();
        match self.find_vault(&owned) {
            Some(i) => {
                proof {
                    self.lemma_vault_at(i as int);
                }
                Ok(&self.vaults[i].1)
            },
            None => Err(ConfigError::VaultNotFound(owned)),
        }
    }

    /// The vault to act on: the one named, else the default one.
    pub fn get_vault_name(&self, name: Option<&str>) -> (r: Result<String, ConfigError>)
        ensures
            match name {
                Some(n) => r matches Ok(s) && s@ == n@,
                None => match self.default_vault() {
                    Some(d) => r matches Ok(s) && s@ == d,
                    None => r matches Err(ConfigError::VaultNotSpecified),
                },
            },
    {
        match name {
            Some(n) => Ok(n.to_owned()),
            None => match &self.default_vault {
                Some(d) => Ok(d.clone()),
                None => Err(ConfigError::VaultNotSpecified),
            },
        }
    }

    pub fn set_default_vault(&mut self, name: String)
        ensures
            final(self).default_vault() == Some(name@),
            final(self).wf() == old(self).wf(),
            final(self).store() == old(self).store(),
            final(self).vaults() == old(self).vaults(),
            final(self).context() == old(self).context(),
            final(self).ordered_store() == old(self).ordered_store(),
            final(self).dirty() == old(self).dirty(),
    {
        self.default_vault = Some(name);
    }

    pub fn set_current_context(&mut self, context: ContextPath)
        ensures
            final(self).context() == context@,
            final(self).ordered_store() == old(self).ordered_store(),
            final(self).wf() == old(self).wf(),
            final(self).store() == old(self).store(),
            final(self).vaults() == old(self).vaults(),
            final(self).default_vault() == old(self).default_vault(),
            final(self).dirty() == old(self).dirty(),
    {
        self.context = context;
    }

    pub fn get_current_context(&self) -> (r: &ContextPath)
        ensures
            r@ == self.context(),
    {
        &self.context
    }

    /// Writes `value` for the key at exactly its context path and returns the value
    /// it replaces. A secret reference is accepted only if it resolves now: else the
    /// write fails (`VaultNotFound`, `SecretNotFound`) and nothing changes.
    pub fn set(&mut self, key_ref: KeyRef, value: ConfigValue) -> (r: Result<
        Option<ConfigValue>,
        ConfigError,
    >)
        requires
            old(self).wf(),
        ensures
            final(self).wf(),
            set_outcome(*old(self), *final(self), key_ref@, value, r),
    {
        let failure = match &value {
            ConfigValue::Value(_) => None,
            ConfigValue::Secret(name, sref) => match self.get_secret(name.as_str(), sref) {
                Err(e) => Some(e),
                Ok(None) => Some(ConfigError::SecretNotFound(name.clone(), sref.to_string())),
                Ok(Some(_)) => None,
            },
        };
        match failure {
            Some(e) => Err(e),
            None => Ok(self.config.set(key_ref, value)),
        }
    }

    /// Imports dotenv lines as literals under the context `path` (see
    /// `read_from_env`); only the store changes.
    pub fn import_env(&mut self, lines: &Vec<String>, path: &ContextPath) -> (r: Result<(), String>)
        requires
            old(self).wf(),
        ensures
            final(self).wf(),
            final(self).vaults() == old(self).vaults(),
            final(self).default_vault() == old(self).default_vault(),
            final(self).context() == old(self).context(),
            final(self).dirty() == old(self).dirty(),
            r.is_err() == exists|i: int|
                0 <= i < lines@.len() && env_line_fails(#[trigger] lines@[i]@),
            r matches Err(e) ==> e@ == empty_key_message(),
            r.is_ok() ==> forall|p: Seq<Seq<char>>, k: Seq<char>|
                if #[trigger] imported(strings_view(lines@), path@, lines@.len() as nat).contains_key(
                    (p, k),
                ) {
                    literal_is(
                        entry_spec(final(self).store(), p, k),
                        imported(strings_view(lines@), path@, lines@.len() as nat)[(p, k)],
                    )
                } else {
                    entry_spec(final(self).store(), p, k) == entry_spec(old(self).store(), p, k)
                },
            r.is_ok() ==> shown_of(final(self).ordered_store()) == shown_import(
                shown_of(old(self).ordered_store()),
                strings_view(lines@),
                path@,
                lines@.len() as nat,
            ),
    {
        read_from_env(lines, path, &mut self.config)
    }

    /// Removes the key from exactly its context path; returns the value removed.
    pub fn remove(&mut self, key_ref: &KeyRef) -> (r: Option<ConfigValue>)
        requires
            old(self).wf(),
        ensures
            final(self).wf(),
            final(self).store() == remove_spec(old(self).store(), key_ref@.0, key_ref@.1),
            r == entry_spec(old(self).store(), key_ref@.0, key_ref@.1),
            final(self).vaults() == old(self).vaults(),
            final(self).default_vault() == old(self).default_vault(),
            final(self).context() == old(self).context(),
            final(self).ordered_store() == ordered_remove(old(self).ordered_store(), key_ref@.0, key_ref@.1),
            final(self).dirty() == old(self).dirty(),
    {
        self.config.remove(key_ref)
    }

    /// Records the vault `name` as changed since it was last persisted.
    fn mark_dirty(&mut self, name: String)
        ensures
            final(self).dirty() == old(self).dirty().insert(name@),
            final(self).config == old(self).config,
            final(self).vaults == old(self).vaults,
            final(self).default_vault == old(self).default_vault,
            final(self).context == old(self).context,
    {
        let mut i: usize = 0;
        while i < self.updated.len()
            invariant
                i <= self.updated@.len(),
                forall|j: int| 0 <= j < i ==> self.updated@[j]@ != name@,
            decreases self.updated@.len() - i,
        {
            if self.updated[i] == name {
                proof {
                    assert(self.dirty() =~= self.dirty().insert(name@));
                }
                return;
            }
            i = i + 1;
        }
        let ghost u0 = self.updated@;
        let ghost d0 = self.dirty();
        let ghost k = name@;
        self.updated.push(name);
        proof {
            assert forall|n: Seq<char>| #[trigger] self.dirty().contains(n) == d0.insert(k).contains(n) by {
                if d0.contains(n) {
                    let j = choose|j: int| 0 <= j < u0.len() && u0[j]@ == n;
                    assert(self.updated@[j] == u0[j]);
                }
                if self.dirty().contains(n) && n != k {
                    let j = choose|j: int| 0 <= j < self.updated@.len() && self.updated@[j]@ == n;
                    assert(j < u0.len());
                    assert(self.updated@[j] == u0[j]);
                }
                if n == k {
                    assert(self.updated@[u0.len() as int]@ == k);
                }
            }
            assert(self.dirty() =~= d0.insert(k));
        }
    }

    /// Writes `value` for `key` in the store of the vault `name`, which becomes dirty;
    /// returns the value it replaces.
    pub fn set_secret(&mut self, name: &str, key: KeyRef, value: String) -> (r: Result<
        Option<String>,
        ConfigError,
    >)
        requires
            old(self).wf(),
        ensures
            final(self).wf(),
            final(self).store() == old(self).store(),
            final(self).default_vault() == old(self).default_vault(),
            final(self).context() == old(self).context(),
            final(self).ordered_store() == old(self).ordered_store(),
            match r {
                Ok(previous) => old(self).vaults().contains_key(name@) && previous == entry_spec(
                    old(self).vaults()[name@].store()@,
                    key@.0,
                    key@.1,
                ) && vault_updated(
                    old(self).vaults(),
                    final(self).vaults(),
                    name@,
                    set_spec(old(self).vaults()[name@].store()@, key@.0, key@.1, value),
                    ordered_set(old(self).vaults()[name@].store().ordered(), key@.0, key@.1, value),
                ) && final(self).dirty() == old(self).dirty().insert(name@),
                Err(e) => !old(self).vaults().contains_key(name@) && (e matches ConfigError::VaultNotFound(
                    n,
                ) && n@ == name@) && final(self).vaults() == old(self).vaults() && final(self).dirty()
                    == old(self).dirty(),
            },
    {
        let owned = name.to_owned();
        match self.find_vault(&owned) {
            Some(i) => {
                proof {
                    self.lemma_vault_at(i as int);
                }
                let ghost v0 = self.vaults@;
                let (n, mut vault) = self.vaults.remove(i);
                let previous = vault.set(key, value);
                self.vaults.insert(i, (n, vault));
                proof {
                    assert(self.vaults@ =~= v0.update(i as int, (v0[i as int].0, self.vaults@[i as int].1)));
                    self.lemma_replace_vault(v0, i as int);
                    assert(self.vaults().dom() =~= old(self).vaults().dom());
                }
                self.mark_dirty(owned);
                Ok(previous)
            },
            None => Err(ConfigError::VaultNotFound(owned)),
        }
    }

    /// Removes `key` from the store of the vault `name`; the vault becomes dirty if
    /// something was removed. Returns the value removed.
    pub fn remove_secret(&mut self, name: &str, key: &KeyRef) -> (r: Result<
        Option<String>,
        ConfigError,
    >)
        requires
            old(self).wf(),
        ensures
            final(self).wf(),
            final(self).store() == old(self).store(),
            final(self).default_vault() == old(self).default_vault(),
            final(self).context() == old(self).context(),
            final(self).ordered_store() == old(self).ordered_store(),
            match r {
                Ok(removed) => old(self).vaults().contains_key(name@) && removed == entry_spec(
                    old(self).vaults()[name@].store()@,
                    key@.0,
                    key@.1,
                ) && vault_updated(
                    old(self).vaults(),
                    final(self).vaults(),
                    name@,
                    remove_spec(old(self).vaults()[name@].store()@, key@.0, key@.1),
                    ordered_remove(old(self).vaults()[name@].store().ordered(), key@.0, key@.1),
                ) && final(self).dirty() == if removed.is_some() {
                    old(self).dirty().insert(name@)
                } else {
                    old(self).dirty()
                },
                Err(e) => !old(self).vaults().contains_key(name@) && (e matches ConfigError::VaultNotFound(
                    n,
                ) && n@ == name@) && final(self).vaults() == old(self).vaults() && final(self).dirty()
                    == old(self).dirty(),
            },
    {
        let owned = name.to_owned();
        match self.find_vault(&owned) {
            Some(i) => {
                proof {
                    self.lemma_vault_at(i as int);
                }
                let ghost v0 = self.vaults@;
                let (n, mut vault) = self.vaults.remove(i);
                let removed = vault.remove(key);
                self.vaults.insert(i, (n, vault));
                proof {
                    assert(self.vaults@ =~= v0.update(i as int, (v0[i as int].0, self.vaults@[i as int].1)));
                    self.lemma_replace_vault(v0, i as int);
                    assert(self.vaults().dom() =~= old(self).vaults().dom());
                }
                if removed.is_some() {
                    self.mark_dirty(owned);
                }
                Ok(removed)
            },
            None => Err(ConfigError::VaultNotFound(owned)),
        }
    }

    /// After the vault at `i` of `v0` was replaced by one of the same name, the
    /// registry is that of `v0` with this name updated.
    proof fn lemma_replace_vault(&self, v0: Seq<(String, Vault)>, i: int)
        requires
            0 <= i < v0.len(),
            self.vaults@ == v0.update(i, (v0[i].0, self.vaults@[i].1)),
            keys_unique(registry_view(v0)),
            forall|j: int| 0 <= j < v0.len() ==> (#[trigger] v0[j]).1.wf(),
            self.vaults@[i].1.wf(),
            self.config.wf(),
        ensures
            self.wf(),
            self.vaults() == assoc_map(registry_view(v0)).insert(v0[i].0@, self.vaults@[i].1),
    {
        let nv = self.vaults@[i].1;
        assert(registry_view(self.vaults@) =~= registry_view(v0).update(
            i,
            (registry_view(v0)[i].0, nv),
        ));
        lemma_assoc_update(registry_view(v0), i, nv);
        assert forall|j: int| 0 <= j < self.vaults@.len() implies (#[trigger] self.vaults@[j]).1.wf() by {
            if j != i {
                assert(self.vaults@[j] == v0[j]);
            }
        }
    }

    /// Registers a new vault under `name`; it is dirty until persisted. Fails if the
    /// name is taken, changing nothing.
    pub fn add_vault(&mut self, name: String, vault: Vault) -> (r: Result<(), ConfigError>)
        requires
            old(self).wf(),
            vault.wf(),
        ensures
            final(self).wf(),
            final(self).store() == old(self).store(),
            final(self).default_vault() == old(self).default_vault(),
            final(self).context() == old(self).context(),
            final(self).ordered_store() == old(self).ordered_store(),
            old(self).vaults().contains_key(name@) ==> (r matches Err(ConfigError::VaultAlreadyExists))
                && final(self).vaults() == old(self).vaults() && final(self).dirty() == old(self).dirty(),
            !old(self).vaults().contains_key(name@) ==> r is Ok && final(self).vaults() == old(self).vaults().insert(name@, vault) && final(self).dirty() == old(self).dirty().insert(
                name@,
            ),
    {
        if self.vault_exists(name.as_str()) {
            return Err(ConfigError::VaultAlreadyExists);
        }
        let marked = name.clone();
        self.register(name, vault);
        self.mark_dirty(marked);
        Ok(())
    }

    /// The names of the dirty vaults, in registry order: those to persist before saving.
    pub fn pending_vaults(&self) -> (r: Vec<String>)
        requires
            self.wf(),
        ensures
            forall|x: int|
                0 <= x < r@.len() ==> self.dirty().contains(#[trigger] r@[x]@)
                    && self.vaults().contains_key(r@[x]@),
            forall|n: Seq<char>|
                self.dirty().contains(n) && self.vaults().contains_key(n) ==> exists|x: int|
                    0 <= x < r@.len() && #[trigger] r@[x]@ == n,
            strings_view(r@) == dirty_names(
                self.vault_list(),
                self.dirty(),
                self.vault_list().len(),
            ),
            forall|x: int, y: int| 0 <= x < y < r@.len() ==> r@[x]@ != r@[y]@,
    {
        let mut r: Vec<String> = Vec::new();
        let mut i: usize = 0;
        proof {
            assert(strings_view(r@) =~= Seq::<Seq<char>>::empty());
        }
        while i < self.vaults.len()
            invariant
                i <= self.vaults@.len(),
                self.wf(),
                strings_view(r@) == dirty_names(self.vault_list(), self.dirty(), i as nat),
                forall|x: int|
                    0 <= x < r@.len() ==> self.dirty().contains(#[trigger] r@[x]@)
                        && self.vaults().contains_key(r@[x]@),
                forall|j: int|
                    0 <= j < i && self.dirty().contains(#[trigger] self.vaults@[j].0@) ==> exists|
                        x: int,
                    | 0 <= x < r@.len() && r@[x]@ == self.vaults@[j].0@,
            decreases self.vaults@.len() - i,
        {
            let name = &self.vaults[i].0;
            let mut j: usize = 0;
            let mut found = false;
            while j < self.updated.len()
                invariant
                    j <= self.updated@.len(),
                    found ==> self.dirty().contains(name@),
                    !found ==> forall|y: int| 0 <= y < j ==> self.updated@[y]@ != name@,
                decreases self.updated@.len() - j,
            {
                if self.updated[j] == *name {
                    found = true;
                }
                j = j + 1;
            }
            proof {
                self.lemma_vault_at(i as int);
            }
            let ghost r0 = r@;
            proof {
                assert(self.vault_list()[i as int].0 == name@);
            }
            if found {
                r.push(name.clone());
                proof {
                    assert(r@[r0.len() as int]@ == name@);
                    assert(strings_view(r@) =~= strings_view(r0).push(name@));
                }
            } else {
                proof {
                    if self.dirty().contains(name@) {
                        let y = choose|y: int| 0 <= y < self.updated@.len() && self.updated@[y]@ == name@;
                    }
                }
            }
            proof {
                assert forall|jj: int|
                    0 <= jj < i + 1 && self.dirty().contains(#[trigger] self.vaults@[jj].0@) implies exists|
                    x: int,
                | 0 <= x < r@.len() && r@[x]@ == self.vaults@[jj].0@ by {
                    if jj < i {
                        let x = choose|x: int| 0 <= x < r0.len() && r0[x]@ == self.vaults@[jj].0@;
                        assert(r@[x] == r0[x]);
                    } else {
                        if !found {
                            let y = choose|y: int|
                                0 <= y < self.updated@.len() && self.updated@[y]@ == name@;
                        }
                        assert(r@[r0.len() as int]@ == name@);
                    }
                }
                assert forall|x: int| 0 <= x < r@.len() implies self.dirty().contains(
                    #[trigger] r@[x]@,
                ) && self.vaults().contains_key(r@[x]@) by {
                    if x < r0.len() {
                        assert(r@[x] == r0[x]);
                    }
                }
            }
            i = i + 1;
        }
        proof {
            assert forall|n: Seq<char>|
                self.dirty().contains(n) && self.vaults().contains_key(n) implies exists|x: int|
                0 <= x < r@.len() && #[trigger] r@[x]@ == n by {
                lemma_assoc_domain(registry_view(self.vaults@), n);
                let j = choose|j: int|
                    0 <= j < registry_view(self.vaults@).len() && registry_view(self.vaults@)[j].0
                        == n;
                assert(self.vaults@[j].0@ == n);
                assert(self.dirty().contains(self.vaults@[j].0@));
            }
        }
        proof {
            assert(self.vault_list().len() == self.vaults@.len());
            lemma_dirty_names(self.vault_list(), self.dirty(), self.vault_list().len());
            assert forall|x: int, y: int| 0 <= x < y < r@.len() implies r@[x]@ != r@[y]@ by {
                assert(strings_view(r@)[x] == r@[x]@ && strings_view(r@)[y] == r@[y]@);
            }
        }
        r
    }

    /// Records that the vault `name` was persisted at `version`: its descriptor takes
    /// the new version and it is no longer dirty.
    pub fn vault_persisted(&mut self, name: &str, version: String) -> (r: Result<(), ConfigError>)
        requires
            old(self).wf(),
        ensures
            final(self).wf(),
            final(self).store() == old(self).store(),
            final(self).default_vault() == old(self).default_vault(),
            final(self).context() == old(self).context(),
            final(self).ordered_store() == old(self).ordered_store(),
            match r {
                Ok(()) => old(self).vaults().contains_key(name@) && final(self).vaults().dom() == old(self).vaults().dom() && (forall|n: Seq<char>|
                    n != name@ && #[trigger] old(self).vaults().contains_key(n) ==> final(self).vaults()[n] == old(self).vaults()[n]) && final(self).vaults()[name@].store()@
                    == old(self).vaults()[name@].store()@ && final(self).vaults()[name@].kind().version()
                    == version@ && final(self).dirty() == old(self).dirty().remove(name@),
                Err(e) => !old(self).vaults().contains_key(name@) && (e matches ConfigError::VaultNotFound(
                    n,
                ) && n@ == name@) && final(self).vaults() == old(self).vaults() && final(self).dirty()
                    == old(self).dirty(),
            },
    {
        let owned = name.to_owned();
        match self.find_vault(&owned) {
            Some(i) => {
                proof {
                    self.lemma_vault_at(i as int);
                }
                let ghost v0 = self.vaults@;
                let (n, mut vault) = self.vaults.remove(i);
                vault.persisted(version);
                self.vaults.insert(i, (n, vault));
                proof {
                    assert(self.vaults@ =~= v0.update(i as int, (v0[i as int].0, self.vaults@[i as int].1)));
                    self.lemma_replace_vault(v0, i as int);
                    assert(self.vaults().dom() =~= old(self).vaults().dom());
                }
                let ghost d0 = self.dirty();
                let ghost u0 = self.updated@;
                let mut kept: Vec<String> = Vec::new();
                let mut j: usize = 0;
                while j < self.updated.len()
                    invariant
                        j <= self.updated@.len(),
                        self.updated@ == u0,
                        forall|x: int| 0 <= x < kept@.len() ==> (#[trigger] kept@[x])@ != owned@,
                        forall|x: int|
                            0 <= x < kept@.len() ==> exists|y: int|
                                0 <= y < u0.len() && u0[y]@ == (#[trigger] kept@[x])@,
                        forall|y: int|
                            0 <= y < j && (#[trigger] u0[y])@ != owned@ ==> exists|x: int|
                                0 <= x < kept@.len() && kept@[x]@ == u0[y]@,
                    decreases self.updated@.len() - j,
                {
                    let ghost k0 = kept@;
                    if self.updated[j] != owned {
                        kept.push(self.updated[j].clone());
                        proof {
                            assert(kept@[k0.len() as int] == u0[j as int]);
                        }
                    }
                    proof {
                        assert forall|x: int| 0 <= x < kept@.len() implies exists|y: int|
                            0 <= y < u0.len() && u0[y]@ == (#[trigger] kept@[x])@ by {
                            if x < k0.len() {
                                assert(kept@[x] == k0[x]);
                            } else {
                                assert(u0[j as int]@ == kept@[x]@);
                            }
                        }
                        assert forall|y: int| 0 <= y < j + 1 && (#[trigger] u0[y])@ != owned@ implies exists|
                            x: int,
                        | 0 <= x < kept@.len() && kept@[x]@ == u0[y]@ by {
                            if y < j {
                                let x = choose|x: int| 0 <= x < k0.len() && k0[x]@ == u0[y]@;
                                assert(kept@[x] == k0[x]);
                            } else {
                                assert(kept@[k0.len() as int]@ == u0[y]@);
                            }
                        }
                        assert forall|x: int| 0 <= x < kept@.len() implies (#[trigger] kept@[x])@
                            != owned@ by {
                            if x < k0.len() {
                                assert(kept@[x] == k0[x]);
                            }
                        }
                    }
                    j = j + 1;
                }
                self.updated = kept;
                proof {
                    assert forall|m: Seq<char>| #[trigger] self.dirty().contains(m) == d0.remove(
                        owned@,
                    ).contains(m) by {
                        if self.dirty().contains(m) {
                            let x = choose|x: int|
                                0 <= x < self.updated@.len() && self.updated@[x]@ == m;
                            assert(self.updated@[x]@ != owned@);
                            let y = choose|y: int| 0 <= y < u0.len() && u0[y]@ == self.updated@[x]@;
                        }
                        if d0.remove(owned@).contains(m) {
                            let y = choose|y: int| 0 <= y < u0.len() && u0[y]@ == m;
                            assert(u0[y]@ != owned@);
                        }
                    }
                    assert(self.dirty() =~= d0.remove(owned@));
                }
                Ok(())
            },
            None => Err(ConfigError::VaultNotFound(owned)),
        }
    }

    /// The secrets of the vault `name` visible from `path`, folded from the root down.
    pub fn get_all_secrets<'a>(&'a self, name: &str, path: &ContextPath) -> (r: Result<
        Vec<(&'a String, &'a String)>,
        ConfigError,
    >)
        requires
            self.wf(),
        ensures
            match r {
                Ok(v) => self.vaults().contains_key(name@) && keys_unique(pairs_view(v@))
                    && assoc_map(pairs_view(v@)) == get_all_spec(
                    self.vaults()[name@].store()@,
                    path@,
                ),
                Err(e) => !self.vaults().contains_key(name@) && (e matches ConfigError::VaultNotFound(
                    n,
                ) && n@ == name@),
            },
    {
        let vault = self.vault(name)?;
        Ok(vault.get().get_all(path))
    }

    /// The serialized form: store, context, default vault, and the descriptor of each
    /// vault in registry order. Dirty vaults are to be persisted before this.
    pub fn save(self) -> (r: ConfigFileData)
        requires
            self.wf(),
        ensures
            r.wf(),
            saved_as(self, r),
    {
        let mut secrets: Vec<(String, VaultKind)> = Vec::new();
        let mut i: usize = 0;
        let ghost f = |p: (Seq<char>, Vault)| (p.0, p.1.kind());
        proof {
            assert(descriptors_view(secrets@) =~= self.vault_list().take(0).map_values(f));
        }
        while i < self.vaults.len()
            invariant
                i <= self.vaults@.len(),
                f == (|p: (Seq<char>, Vault)| (p.0, p.1.kind())),
                descriptors_view(secrets@) == self.vault_list().take(i as int).map_values(f),
            decreases self.vaults@.len() - i,
        {
            let ghost s0 = secrets@;
            let name = self.vaults[i].0.clone();
            let kind = self.vaults[i].1.into_vault_kind();
            secrets.push((name, kind));
            proof {
                assert(descriptors_view(secrets@) =~= descriptors_view(s0).push((name@, kind)));
                assert(self.vault_list()[i as int] == (self.vaults@[i as int].0@, self.vaults@[i as int].1));
                assert(self.vault_list().take(i + 1).map_values(f) =~= self.vault_list().take(
                    i as int,
                ).map_values(f).push(f(self.vault_list()[i as int])));
            }
            i = i + 1;
        }
        proof {
            assert(self.vault_list().take(self.vaults@.len() as int) =~= self.vault_list());
        }
        ConfigFileData {
            config: self.config,
            context: self.context,
            default_secret: self.default_vault,
            secrets,
        }
    }

    /// The configuration store drawn as a tree.
    pub fn display(&self) -> (r: String)
        requires
            self.wf(),
        ensures
            r@ == tree_text(shown_of(self.ordered_store())),
    {
        self.config.display()
    }

    /// The store of the vault `name` drawn as a tree.
    pub fn display_vault(&self, name: &str) -> (r: Result<String, ConfigError>)
        requires
            self.wf(),
        ensures
            match r {
                Ok(t) => self.vaults().contains_key(name@) && t@ == tree_text(
                    shown_of(self.vaults()[name@].store().ordered()),
                ),
                Err(e) => !self.vaults().contains_key(name@) && (e matches ConfigError::VaultNotFound(
                    n,
                ) && n@ == name@),
            },
    {
        let vault = self.vault(name)?;
        Ok(vault.get().display())
    }

    /// Registers `vault` under `name`, replacing a vault of that name in place.
    fn register(&mut self, name: String, vault: Vault)
        requires
            old(self).wf(),
            vault.wf(),
        ensures
            final(self).wf(),
            final(self).vaults() == old(self).vaults().insert(name@, vault),
            final(self).store() == old(self).store(),
            final(self).context() == old(self).context(),
            final(self).ordered_store() == old(self).ordered_store(),
            final(self).default_vault() == old(self).default_vault(),
            final(self).dirty() == old(self).dirty(),
    {
        let ghost v0 = self.vaults@;
        match self.find_vault(&name) {
            Some(i) => {
                self.vaults.set(i, (name, vault));
                proof {
                    assert(registry_view(self.vaults@) =~= registry_view(v0).update(
                        i as int,
                        (registry_view(v0)[i as int].0, vault),
                    ));
                    lemma_assoc_update(registry_view(v0), i as int, vault);
                }
            },
            None => {
                let ghost k = name@;
                self.vaults.push((name, vault));
                proof {
                    assert(registry_view(self.vaults@) =~= registry_view(v0).push((k, vault)));
                    lemma_assoc_push(registry_view(v0), k, vault);
                }
            },
        }
        proof {
            assert forall|x: int| 0 <= x < self.vaults@.len() implies (
            #[trigger] self.vaults@[x]).1.wf() by {
                if x < v0.len() && self.vaults@[x] != (name, vault) {
                    assert(self.vaults@[x] == v0[x]);
                }
            }
        }
    }

    /// The index of the vault `name`.
    fn find_vault(&self, name: &String) -> (r: Option<usize>)
        requires
            self.wf(),
        ensures
            match r {
                Some(i) => i < self.vaults@.len() && self.vaults@[i as int].0@ == name@,
                None => !self.vaults().contains_key(name@),
            },
    {
        let mut i: usize = 0;
        while i < self.vaults.len()
            invariant
                i <= self.vaults@.len(),
                forall|j: int| 0 <= j < i ==> self.vaults@[j].0@ != name@,
            decreases self.vaults@.len() - i,
        {
            if self.vaults[i].0 == *name {
                return Some(i);
            }
            i = i + 1;
        }
        proof {
            lemma_assoc_domain(registry_view(self.vaults@), name@);
            if self.vaults().contains_key(name@) {
                let j = choose|j: int|
                    0 <= j < registry_view(self.vaults@).len() && registry_view(self.vaults@)[j].0
                        == name@;
                assert(self.vaults@[j].0@ == name@);
            }
        }
        None
    }
}

/// The outcome of `Config::set`: a literal is written; a secret reference is
/// written only if its vault exists and the secret resolves there, and otherwise
/// the write fails and the store is unchanged. Nothing else changes.
pub open spec fn set_outcome(
    before: Config,
    after: Config,
    key: (Seq<Seq<char>>, Seq<char>),
    value: ConfigValue,
    r: Result<Option<ConfigValue>, ConfigError>,
) -> bool {
    &&& after.vaults() == before.vaults()
    &&& after.default_vault() == before.default_vault()
    &&& after.context() == before.context()
    &&& after.dirty() == before.dirty()
    &&& match value {
        ConfigValue::Secret(name, sref) => if !before.vaults().contains_key(name@) {
            (r matches Err(ConfigError::VaultNotFound(n)) && n@ == name@) && after.store()
                == before.store() && after.ordered_store() == before.ordered_store()
        } else if secret_spec(before.vaults(), name@, sref@).is_none() {
            (r matches Err(ConfigError::SecretNotFound(n, d)) && n@ == name@ && d@ == render_spec(
                sref@,
            )) && after.store() == before.store() && after.ordered_store() == before.ordered_store()
        } else {
            r == Ok::<Option<ConfigValue>, ConfigError>(entry_spec(before.store(), key.0, key.1))
                && after.store() == set_spec(before.store(), key.0, key.1, value)
                && after.ordered_store() == ordered_set(before.ordered_store(), key.0, key.1, value)
        },
        ConfigValue::Value(_) => r == Ok::<Option<ConfigValue>, ConfigError>(
            entry_spec(before.store(), key.0, key.1),
        ) && after.store() == set_spec(before.store(), key.0, key.1, value)
            && after.ordered_store() == ordered_set(before.ordered_store(), key.0, key.1, value),
    }
}

/// The registry `after` is `before` with the vault `name` holding `store`, its
/// descriptor and every other vault unchanged.
pub open spec fn vault_updated(
    before: Map<Seq<char>, Vault>,
    after: Map<Seq<char>, Vault>,
    name: Seq<char>,
    store: Map<Seq<Seq<char>>, Map<Seq<char>, String>>,
    ordered: Seq<(Seq<Seq<char>>, Seq<(Seq<char>, String)>)>,
) -> bool {
    &&& after.dom() == before.dom()
    &&& forall|n: Seq<char>| n != name && #[trigger] before.contains_key(n) ==> after[n] == before[n]
    &&& after[name].kind() == before[name].kind()
    &&& after[name].store()@ == store
    &&& after[name].store().ordered() == ordered
}

/// `data` is the serialized form of `c`.
pub open spec fn saved_as(c: Config, data: ConfigFileData) -> bool {
    &&& data.store() == c.store()
    &&& data.ordered_store() == c.ordered_store()
    &&& data.context() == c.context()
    &&& data.default_secret() == c.default_vault()
    &&& data.secrets() == c.vault_list().map_values(|p: (Seq<char>, Vault)| (p.0, p.1.kind()))
}

/// `c` is what loading `data` with these vault stores builds.
pub open spec fn loaded_as(data: ConfigFileData, stores: Seq<Configuration<String>>, c: Config) -> bool {
    &&& c.store() == data.store()
    &&& c.ordered_store() == data.ordered_store()
    &&& c.context() == data.context()
    &&& c.default_vault() == data.default_secret()
    &&& vaults_match(c.vaults(), assoc_map(loaded_view(data.secrets(), stores)))
}

/// A secret reference that does not resolve in an existing vault is refused with
/// `SecretNotFound`, and every read of the store afterwards gives what it gave before.
pub proof fn lemma_guarded_secret_write(
    before: Config,
    after: Config,
    key: (Seq<Seq<char>>, Seq<char>),
    value: ConfigValue,
    r: Result<Option<ConfigValue>, ConfigError>,
    name: String,
    sref: KeyRef,
)
    requires
        set_outcome(before, after, key, value, r),
        value == ConfigValue::Secret(name, sref),
        before.vaults().contains_key(name@),
        secret_spec(before.vaults(), name@, sref@).is_none(),
    ensures
        r matches Err(ConfigError::SecretNotFound(n, d)) && n@ == name@ && d@ == render_spec(sref@),
        forall|q: (Seq<Seq<char>>, Seq<char>)|
            get_spec(after.store(), q.0, q.1) == #[trigger] get_spec(before.store(), q.0, q.1),
{
}

/// Saving and then loading with the saved vaults' stores gives back an equivalent
/// configuration: the same store, context and default vault, and the same vaults
/// with the same descriptors and stores.
pub proof fn lemma_save_load(
    c: Config,
    data: ConfigFileData,
    stores: Seq<Configuration<String>>,
    loaded: Config,
)
    requires
        c.wf(),
        saved_as(c, data),
        stores.len() == c.vault_list().len(),
        forall|i: int| 0 <= i < stores.len() ==> #[trigger] stores[i] == c.vault_list()[i].1.store(),
        loaded_as(data, stores, loaded),
    ensures
        loaded.store() == c.store(),
        loaded.ordered_store() == c.ordered_store(),
        loaded.context() == c.context(),
        loaded.default_vault() == c.default_vault(),
        loaded.vaults().dom() == c.vaults().dom(),
        forall|n: Seq<char>|
            #[trigger] c.vaults().contains_key(n) ==> loaded.vaults()[n].kind() == c.vaults()[n].kind()
                && loaded.vaults()[n].store() == c.vaults()[n].store(),
{
    let f = |v: Vault| (v.kind(), v.store());
    let lv = loaded_view(data.secrets(), stores);
    assert(lv =~= c.vault_list().map_values(|p: (Seq<char>, Vault)| (p.0, f(p.1))));
    lemma_assoc_map_values(c.vault_list(), f);
    assert(assoc_map(lv) == c.vaults().map_values(f));
    assert(loaded.vaults().dom() =~= c.vaults().dom());
}

/// The names of the first `n` vaults of `list` that are in `dirty`, in order.
pub open spec fn dirty_names(list: Seq<(Seq<char>, Vault)>, dirty: Set<Seq<char>>, n: nat) -> Seq<
    Seq<char>,
>
    decreases n,
{
    if n == 0 {
        Seq::empty()
    } else {
        let prev = dirty_names(list, dirty, (n - 1) as nat);
        if dirty.contains(list[n - 1].0) {
            prev.push(list[n - 1].0)
        } else {
            prev
        }
    }
}

/// With distinct names in `list`, the dirty names are distinct and each is one of
/// the first `n` names.
proof fn lemma_dirty_names(list: Seq<(Seq<char>, Vault)>, dirty: Set<Seq<char>>, n: nat)
    requires
        keys_unique(list),
        n <= list.len(),
    ensures
        forall|x: int|
            0 <= x < dirty_names(list, dirty, n).len() ==> exists|j: int|
                0 <= j < n && #[trigger] dirty_names(list, dirty, n)[x] == list[j].0,
        forall|x: int, y: int|
            0 <= x < y < dirty_names(list, dirty, n).len() ==> dirty_names(list, dirty, n)[x]
                != dirty_names(list, dirty, n)[y],
    decreases n,
{
    if n > 0 {
        let m = (n - 1) as nat;
        lemma_dirty_names(list, dirty, m);
        let prev = dirty_names(list, dirty, m);
        let cur = dirty_names(list, dirty, n);
        if dirty.contains(list[m as int].0) {
            assert forall|x: int| 0 <= x < cur.len() implies exists|j: int|
                0 <= j < n && #[trigger] cur[x] == list[j].0 by {
                if x < prev.len() {
                    let j = choose|j: int| 0 <= j < m && #[trigger] prev[x] == list[j].0;
                    assert(cur[x] == list[j].0);
                } else {
                    assert(cur[x] == list[m as int].0);
                }
            }
            assert forall|x: int, y: int| 0 <= x < y < cur.len() implies cur[x] != cur[y] by {
                if y < prev.len() {
                    assert(cur[x] == prev[x] && cur[y] == prev[y]);
                } else {
                    let j = choose|j: int| 0 <= j < m && #[trigger] prev[x] == list[j].0;
                    assert(cur[x] == prev[x]);
                    assert(list[j].0 != list[m as int].0);
                }
            }
        }
    }
}

/// The vaults that `load` builds, as (name, (descriptor, store)) pairs.
pub open spec fn loaded_view(
    secrets: Seq<(Seq<char>, VaultKind)>,
    stores: Seq<Configuration<String>>,
) -> Seq<(Seq<char>, (VaultKind, Configuration<String>))> {
    Seq::new(secrets.len(), |i: int| (secrets[i].0, (secrets[i].1, stores[i])))
}

/// The registry `m` holds the vaults described by `l`: same names, and for each the
/// same descriptor and store.
pub open spec fn vaults_match(
    m: Map<Seq<char>, Vault>,
    l: Map<Seq<char>, (VaultKind, Configuration<String>)>,
) -> bool {
    &&& m.dom() == l.dom()
    &&& forall|k: Seq<char>| #[trigger]
        m.contains_key(k) ==> m[k].kind() == l[k].0 && m[k].store() == l[k].1
}

} // verus!
