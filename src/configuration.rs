//! The path-scoped key/value store: each context path maps keys to values, and a
//! read at a path falls back to its ancestors up to the root.
use vstd::prelude::*;

use crate::assoc::{
    assoc_map, find_index, keys_unique, lemma_find_absent, lemma_find_found, lemma_find_index, lemma_find_same_keys, lemma_assoc_domain, lemma_assoc_empty, lemma_assoc_lookup,
    lemma_assoc_push, lemma_assoc_remove, lemma_assoc_update,
};
use crate::key_ref::KeyRef;
use crate::path::{is_segment_prefix, path_text, ContextPath};
use crate::tree::{
    branch, branch_glyph, children_text, data_lines, entries_at, has_later_child, indent,
    indent_glyph, is_child_path, node_text, tree_nodes, tree_text, ArenaTree,
};

verus! {

/// The value behind an optional reference.
pub open spec fn deref_opt<T>(o: Option<&T>) -> Option<T> {
    match o {
        Some(v) => Some(*v),
        None => None,
    }
}

/// The entries of one context as (key, value) pairs.
pub open spec fn entries_view<T>(v: Seq<(String, T)>) -> Seq<(Seq<char>, T)> {
    v.map_values(|p: (String, T)| (p.0@, p.1))
}

/// The contexts as (path, map of entries) pairs.
pub open spec fn contexts_view<T>(d: Seq<(ContextPath, Vec<(String, T)>)>) -> Seq<
    (Seq<Seq<char>>, Map<Seq<char>, T>),
> {
    d.map_values(|c: (ContextPath, Vec<(String, T)>)| (c.0@, assoc_map(entries_view(c.1@))))
}

/// The entries of a context in order, after writing `v` for `k`: in place if `k`
/// is there, else at the end.
pub open spec fn ordered_entries_set<T>(e: Seq<(Seq<char>, T)>, k: Seq<char>, v: T) -> Seq<
    (Seq<char>, T),
> {
    match find_index(e, k) {
        Some(j) => e.update(j, (k, v)),
        None => e.push((k, v)),
    }
}

/// The contexts in creation order, each with its entries in creation order, after
/// writing `v` for `k` at `p`; a new context goes at the end.
pub open spec fn ordered_set<T>(
    o: Seq<(Seq<Seq<char>>, Seq<(Seq<char>, T)>)>,
    p: Seq<Seq<char>>,
    k: Seq<char>,
    v: T,
) -> Seq<(Seq<Seq<char>>, Seq<(Seq<char>, T)>)> {
    match find_index(o, p) {
        Some(i) => o.update(i, (p, ordered_entries_set(o[i].1, k, v))),
        None => o.push((p, seq![(k, v)])),
    }
}

/// The contexts in order after removing `k` from `p`; the context itself stays.
pub open spec fn ordered_remove<T>(
    o: Seq<(Seq<Seq<char>>, Seq<(Seq<char>, T)>)>,
    p: Seq<Seq<char>>,
    k: Seq<char>,
) -> Seq<(Seq<Seq<char>>, Seq<(Seq<char>, T)>)> {
    match find_index(o, p) {
        Some(i) => match find_index(o[i].1, k) {
            Some(j) => o.update(i, (p, o[i].1.remove(j))),
            None => o,
        },
        None => o,
    }
}

/// The contexts in order with their values shown as text.
pub open spec fn shown_of<T: Shown>(o: Seq<(Seq<Seq<char>>, Seq<(Seq<char>, T)>)>) -> Seq<
    (Seq<Seq<char>>, Seq<(Seq<char>, Seq<char>)>),
> {
    o.map_values(
        |c: (Seq<Seq<char>>, Seq<(Seq<char>, T)>)|
            (c.0, c.1.map_values(|e: (Seq<char>, T)| (e.0, e.1.text()))),
    )
}

/// The entries held at exactly `p` (none if the context does not exist).
pub open spec fn context_of<T>(m: Map<Seq<Seq<char>>, Map<Seq<char>, T>>, p: Seq<Seq<char>>) -> Map<
    Seq<char>,
    T,
> {
    if m.contains_key(p) {
        m[p]
    } else {
        Map::empty()
    }
}

/// The value of `k` at exactly `p`.
pub open spec fn entry_spec<T>(
    m: Map<Seq<Seq<char>>, Map<Seq<char>, T>>,
    p: Seq<Seq<char>>,
    k: Seq<char>,
) -> Option<T> {
    if m.contains_key(p) && m[p].contains_key(k) {
        Some(m[p][k])
    } else {
        None
    }
}

/// The store after writing `v` for `k` at exactly `p`.
pub open spec fn set_spec<T>(
    m: Map<Seq<Seq<char>>, Map<Seq<char>, T>>,
    p: Seq<Seq<char>>,
    k: Seq<char>,
    v: T,
) -> Map<Seq<Seq<char>>, Map<Seq<char>, T>> {
    m.insert(p, context_of(m, p).insert(k, v))
}

/// The store after removing `k` from exactly `p`; the context itself stays.
pub open spec fn remove_spec<T>(
    m: Map<Seq<Seq<char>>, Map<Seq<char>, T>>,
    p: Seq<Seq<char>>,
    k: Seq<char>,
) -> Map<Seq<Seq<char>>, Map<Seq<char>, T>> {
    if m.contains_key(p) {
        m.insert(p, m[p].remove(k))
    } else {
        m
    }
}

/// The value of `k` at the deepest of the first `n + 1` ancestors of `path`
/// (from `path.take(n)` up to the root) that defines it.
pub open spec fn lookup_from<T>(
    m: Map<Seq<Seq<char>>, Map<Seq<char>, T>>,
    path: Seq<Seq<char>>,
    k: Seq<char>,
    n: nat,
) -> Option<T>
    decreases n,
{
    match entry_spec(m, path.take(n as int), k) {
        Some(v) => Some(v),
        None => if n == 0 {
            None
        } else {
            lookup_from(m, path, k, (n - 1) as nat)
        },
    }
}

/// Ancestor-override read: the value at the most specific context of `path` that
/// defines `k`.
pub open spec fn get_spec<T>(
    m: Map<Seq<Seq<char>>, Map<Seq<char>, T>>,
    path: Seq<Seq<char>>,
    k: Seq<char>,
) -> Option<T> {
    lookup_from(m, path, k, path.len())
}

/// The entries of the contexts from the root down to `path.take(n)`, deeper ones
/// overriding.
pub open spec fn fold_from<T>(
    m: Map<Seq<Seq<char>>, Map<Seq<char>, T>>,
    path: Seq<Seq<char>>,
    n: nat,
) -> Map<Seq<char>, T>
    decreases n,
{
    if n == 0 {
        context_of(m, path.take(0))
    } else {
        fold_from(m, path, (n - 1) as nat).union_prefer_right(context_of(m, path.take(n as int)))
    }
}

/// Every entry visible from `path`, each with its most specific value.
pub open spec fn get_all_spec<T>(
    m: Map<Seq<Seq<char>>, Map<Seq<char>, T>>,
    path: Seq<Seq<char>>,
) -> Map<Seq<char>, T> {
    fold_from(m, path, path.len())
}

/// Pairs of borrowed keys and values, read as (key, value) pairs.
pub open spec fn pairs_view<T>(r: Seq<(&String, &T)>) -> Seq<(Seq<char>, T)> {
    r.map_values(|p: (&String, &T)| (p.0@, *p.1))
}

/// What the fold of `get_all_spec` holds before the context `path.take(n)` is merged.
pub open spec fn folded_before<T>(
    m: Map<Seq<Seq<char>>, Map<Seq<char>, T>>,
    path: Seq<Seq<char>>,
    n: nat,
) -> Map<Seq<char>, T> {
    if n == 0 {
        Map::empty()
    } else {
        fold_from(m, path, (n - 1) as nat)
    }
}

/// The pair (path, key) names an entry of the store under `prefix`.
pub open spec fn entry_under<T>(
    m: Map<Seq<Seq<char>>, Map<Seq<char>, T>>,
    prefix: Seq<Seq<char>>,
    e: (Seq<Seq<char>>, Seq<char>),
) -> bool {
    is_segment_prefix(prefix, e.0) && m.contains_key(e.0) && m[e.0].contains_key(e.1)
}

/// Some reference of `r` names the entry `e`.
pub open spec fn listed(r: Seq<KeyRef>, e: (Seq<Seq<char>>, Seq<char>)) -> bool {
    exists|x: int| 0 <= x < r.len() && #[trigger] r[x]@ == e
}

proof fn lemma_listed_push(r: Seq<KeyRef>, k: KeyRef, e: (Seq<Seq<char>>, Seq<char>))
    requires
        listed(r, e),
    ensures
        listed(r.push(k), e),
{
    let x = choose|x: int| 0 <= x < r.len() && #[trigger] r[x]@ == e;
    assert(r.push(k)[x] == r[x]);
}

/// How a stored value is shown as text.
pub trait Shown {
    spec fn text(&self) -> Seq<char>;

    fn show(&self) -> (r: String)
        ensures
            r@ == self.text(),
    ;
}

impl Shown for String {
    open spec fn text(&self) -> Seq<char> {
        self@
    }

    fn show(&self) -> (r: String) {
        self.clone()
    }
}

/// The entries of one context with their values shown as text.
pub open spec fn shown_entries<T: Shown>(v: Seq<(String, T)>) -> Seq<(Seq<char>, Seq<char>)> {
    v.map_values(|e: (String, T)| (e.0@, e.1.text()))
}

/// A store of values of type `T`, by context path and key.
#[derive(Debug)]
pub struct Configuration<T> {
    data: Vec<(ContextPath, Vec<(String, T)>)>,
}

impl<T> View for Configuration<T> {
    type V = Map<Seq<Seq<char>>, Map<Seq<char>, T>>;

    closed spec fn view(&self) -> Map<Seq<Seq<char>>, Map<Seq<char>, T>> {
        assoc_map(contexts_view(self.data@))
    }
}

impl<T> Configuration<T> {
    /// Context paths are distinct, and so are the keys within each context.
    pub closed spec fn wf(&self) -> bool {
        &&& keys_unique(contexts_view(self.data@))
        &&& forall|i: int|
            0 <= i < self.data@.len() ==> keys_unique(entries_view(#[trigger] self.data@[i].1@))
    }

    /// The contexts in the order they were created, each with its entries in the
    /// order they were created.
    pub closed spec fn ordered(&self) -> Seq<(Seq<Seq<char>>, Seq<(Seq<char>, T)>)> {
        self.data@.map_values(|c: (ContextPath, Vec<(String, T)>)| (c.0@, entries_view(c.1@)))
    }

    /// The ordered contexts have the paths of the context list, at the same places.
    proof fn lemma_ordered_keys(&self)
        ensures
            self.ordered().len() == contexts_view(self.data@).len(),
            forall|i: int|
                0 <= i < self.ordered().len() ==> #[trigger] self.ordered()[i].0 == contexts_view(
                    self.data@,
                )[i].0,
    {
    }

    proof fn lemma_context_at(&self, i: int)
        requires
            self.wf(),
            0 <= i < self.data@.len(),
        ensures
            self@.contains_key(self.data@[i].0@),
            self@[self.data@[i].0@] == assoc_map(entries_view(self.data@[i].1@)),
    {
        lemma_assoc_lookup(contexts_view(self.data@), i);
    }

    /// An empty store.
    pub fn new() -> (r: Self)
        ensures
            r.wf(),
            r@ == Map::<Seq<Seq<char>>, Map<Seq<char>, T>>::empty(),
            r.ordered() == Seq::<(Seq<Seq<char>>, Seq<(Seq<char>, T)>)>::empty(),
    {
        let r = Configuration { data: Vec::new() };
        proof {
            assert(r.ordered() =~= Seq::<(Seq<Seq<char>>, Seq<(Seq<char>, T)>)>::empty());
            assert(contexts_view(r.data@) =~= Seq::<(Seq<Seq<char>>, Map<Seq<char>, T>)>::empty());
        }
        r
    }

    /// The contexts in the order they were created, each with its entries.
    pub fn contexts(&self) -> (r: &Vec<(ContextPath, Vec<(String, T)>)>)
        ensures
            assoc_map(contexts_view(r@)) == self@,
    {
        &self.data
    }

    /// Whether no context exists (a context emptied by removals still counts).
    pub fn is_empty(&self) -> (r: bool)
        ensures
            r == (self@ == Map::<Seq<Seq<char>>, Map<Seq<char>, T>>::empty()),
    {
        proof {
            lemma_assoc_empty(contexts_view(self.data@));
        }
        self.data.len() == 0
    }

    /// The index of the context at exactly `path`.
    fn find_context(&self, path: &ContextPath) -> (r: Option<usize>)
        requires
            self.wf(),
        ensures
            match r {
                Some(i) => i < self.data@.len() && self.data@[i as int].0@ == path@,
                None => !self@.contains_key(path@),
            },
    {
        let mut i: usize = 0;
        while i < self.data.len()
            invariant
                i <= self.data@.len(),
                forall|j: int| 0 <= j < i ==> self.data@[j].0@ != path@,
            decreases self.data@.len() - i,
        {
            if self.data[i].0.same_as(path) {
                return Some(i);
            }
            i = i + 1;
        }
        proof {
            lemma_assoc_domain(contexts_view(self.data@), path@);
            if self@.contains_key(path@) {
                let j = choose|j: int|
                    0 <= j < contexts_view(self.data@).len() && contexts_view(self.data@)[j].0
                        == path@;
                assert(self.data@[j].0@ == path@);
            }
        }
        None
    }

    /// Writes `value` for the key at exactly its context path, creating the context
    /// if needed; returns the value it replaces there.
    pub fn set(&mut self, key: KeyRef, value: T) -> (r: Option<T>)
        requires
            old(self).wf(),
        ensures
            final(self).wf(),
            final(self)@ == set_spec(old(self)@, key@.0, key@.1, value),
            r == entry_spec(old(self)@, key@.0, key@.1),
            final(self).ordered() == ordered_set(old(self).ordered(), key@.0, key@.1, value),
    {
        let ghost m = self@;
        let ghost o0 = self.ordered();
        proof {
            self.lemma_ordered_keys();
            lemma_find_same_keys(o0, contexts_view(self.data@), key@.0);
        }
        let ghost kv = key@;
        let (path, name) = key.into_parts();
        match self.find_context(&path) {
            Some(i) => {
                proof {
                    self.lemma_context_at(i as int);
                    lemma_find_index(o0, i as int);
                    assert(keys_unique(entries_view(self.data@[i as int].1@)));
                }
                let ghost d0 = self.data@;
                let (p, mut entries) = self.data.remove(i);
                let ghost e0 = entries@;
                let found = find_key(&entries, &name);
                let r = match found {
                    Some(j) => {
                        let (k0, previous) = entries.remove(j);
                        entries.insert(j, (k0, value));
                        proof {
                            assert(entries@ =~= e0.update(j as int, (k0, value)));
                            assert(entries_view(entries@) =~= entries_view(e0).update(
                                j as int,
                                (entries_view(e0)[j as int].0, value),
                            ));
                            lemma_assoc_update(entries_view(e0), j as int, value);
                            lemma_assoc_lookup(entries_view(e0), j as int);
                            lemma_find_index(entries_view(e0), j as int);
                            assert(entries_view(entries@) == ordered_entries_set(
                                entries_view(e0),
                                kv.1,
                                value,
                            ));
                        }
                        Some(previous)
                    },
                    None => {
                        entries.push((name, value));
                        proof {
                            assert(entries_view(entries@) =~= entries_view(e0).push((kv.1, value)));
                            lemma_assoc_push(entries_view(e0), kv.1, value);
                            lemma_find_absent(entries_view(e0), kv.1);
                        }
                        None
                    },
                };
                self.data.insert(i, (p, entries));
                proof {
                    assert(self.data@ =~= d0.update(i as int, (p, entries)));
                    assert(contexts_view(self.data@) =~= contexts_view(d0).update(
                        i as int,
                        (contexts_view(d0)[i as int].0, assoc_map(entries_view(entries@))),
                    ));
                    lemma_assoc_update(
                        contexts_view(d0),
                        i as int,
                        assoc_map(entries_view(entries@)),
                    );
                    assert(self@ =~= set_spec(m, kv.0, kv.1, value));
                    assert(o0[i as int].1 == entries_view(e0));
                    assert(self.ordered() =~= o0.update(
                        i as int,
                        (kv.0, ordered_entries_set(o0[i as int].1, kv.1, value)),
                    ));
                    assert forall|x: int| 0 <= x < self.data@.len() implies keys_unique(
                        entries_view(#[trigger] self.data@[x].1@),
                    ) by {
                        if x != i {
                            assert(self.data@[x] == d0[x]);
                        }
                    }
                }
                r
            },
            None => {
                let ghost d0 = self.data@;
                let mut entries: Vec<(String, T)> = Vec::new();
                entries.push((name, value));
                proof {
                    let ev = entries_view(entries@);
                    assert(ev =~= Seq::<(Seq<char>, T)>::empty().push((kv.1, value)));
                    assert(ev.drop_last() =~= Seq::<(Seq<char>, T)>::empty());
                    assert(assoc_map(ev.drop_last()) == Map::<Seq<char>, T>::empty());
                    assert(ev.last() == (kv.1, value));
                    assert(assoc_map(ev) =~= Map::<Seq<char>, T>::empty().insert(kv.1, value));
                }
                self.data.push((path, entries));
                proof {
                    assert(contexts_view(self.data@) =~= contexts_view(d0).push(
                        (kv.0, assoc_map(entries_view(entries@))),
                    ));
                    lemma_assoc_push(contexts_view(d0), kv.0, assoc_map(entries_view(entries@)));
                    assert(self@ =~= set_spec(m, kv.0, kv.1, value));
                    lemma_find_absent(o0, kv.0);
                    assert(entries_view(entries@) =~= seq![(kv.1, value)]);
                    assert(self.ordered() =~= o0.push((kv.0, seq![(kv.1, value)])));
                    assert forall|x: int| 0 <= x < self.data@.len() implies keys_unique(
                        entries_view(#[trigger] self.data@[x].1@),
                    ) by {
                        if x < d0.len() {
                            assert(self.data@[x] == d0[x]);
                        }
                    }
                }
                None
            },
        }
    }

    /// The value of `k` at exactly `path`.
    fn get_exact(&self, path: &ContextPath, k: &String) -> (r: Option<&T>)
        requires
            self.wf(),
        ensures
            deref_opt(r) == entry_spec(self@, path@, k@),
    {
        match self.find_context(path) {
            Some(i) => {
                proof {
                    self.lemma_context_at(i as int);
                }
                match find_key(&self.data[i].1, k) {
                    Some(j) => {
                        proof {
                            lemma_assoc_lookup(entries_view(self.data@[i as int].1@), j as int);
                        }
                        Some(&self.data[i].1[j].1)
                    },
                    None => None,
                }
            },
            None => None,
        }
    }

    /// The value of the key at its context path or, failing that, at the nearest
    /// ancestor that defines it.
    pub fn get(&self, key_ref: &KeyRef) -> (r: Option<&T>)
        requires
            self.wf(),
        ensures
            deref_opt(r) == get_spec(self@, key_ref@.0, key_ref@.1),
    {
        let path = key_ref.path();
        let mut n: usize = path.depth();
        loop
            invariant
                n <= key_ref@.0.len(),
                path@ == key_ref@.0,
                self.wf(),
                get_spec(self@, key_ref@.0, key_ref@.1) == lookup_from(
                    self@,
                    key_ref@.0,
                    key_ref@.1,
                    n as nat,
                ),
            decreases n,
        {
            let ancestor = path.ancestor(n);
            let found = self.get_exact(&ancestor, key_ref.key());
            if found.is_some() {
                return found;
            }
            if n == 0 {
                return None;
            }
            n = n - 1;
        }
    }

    /// Removes the key from exactly its context path (ancestors are not touched);
    /// returns the value removed.
    pub fn remove(&mut self, key: &KeyRef) -> (r: Option<T>)
        requires
            old(self).wf(),
        ensures
            final(self).wf(),
            final(self)@ == remove_spec(old(self)@, key@.0, key@.1),
            r == entry_spec(old(self)@, key@.0, key@.1),
            final(self).ordered() == ordered_remove(old(self).ordered(), key@.0, key@.1),
    {
        let ghost m = self@;
        let ghost o0 = self.ordered();
        proof {
            self.lemma_ordered_keys();
            lemma_find_same_keys(o0, contexts_view(self.data@), key@.0);
        }
        match self.find_context(key.path()) {
            Some(i) => {
                proof {
                    self.lemma_context_at(i as int);
                    lemma_find_index(o0, i as int);
                    assert(keys_unique(entries_view(self.data@[i as int].1@)));
                    assert(o0[i as int].1 == entries_view(self.data@[i as int].1@));
                }
                match find_key(&self.data[i].1, key.key()) {
                    Some(j) => {
                        let ghost d0 = self.data@;
                        let (p, mut entries) = self.data.remove(i);
                        let ghost e0 = entries@;
                        let (_, removed) = entries.remove(j);
                        proof {
                            assert(entries_view(entries@) =~= entries_view(e0).remove(j as int));
                            lemma_assoc_remove(entries_view(e0), j as int);
                            lemma_assoc_lookup(entries_view(e0), j as int);
                            lemma_find_index(entries_view(e0), j as int);
                        }
                        self.data.insert(i, (p, entries));
                        proof {
                            assert(self.data@ =~= d0.update(i as int, (p, entries)));
                            assert(contexts_view(self.data@) =~= contexts_view(d0).update(
                                i as int,
                                (contexts_view(d0)[i as int].0, assoc_map(entries_view(entries@))),
                            ));
                            lemma_assoc_update(
                                contexts_view(d0),
                                i as int,
                                assoc_map(entries_view(entries@)),
                            );
                            assert(self@ =~= remove_spec(m, key@.0, key@.1));
                            assert(self.ordered() =~= o0.update(
                                i as int,
                                (key@.0, o0[i as int].1.remove(j as int)),
                            ));
                            assert forall|x: int| 0 <= x < self.data@.len() implies keys_unique(
                                entries_view(#[trigger] self.data@[x].1@),
                            ) by {
                                if x != i {
                                    assert(self.data@[x] == d0[x]);
                                }
                            }
                        }
                        Some(removed)
                    },
                    None => {
                        proof {
                            lemma_find_absent(o0[i as int].1, key@.1);
                            assert(m[key@.0].remove(key@.1) =~= m[key@.0]);
                            assert(remove_spec(m, key@.0, key@.1) =~= m);
                        }
                        None
                    },
                }
            },
            None => {
                proof {
                    lemma_find_absent(o0, key@.0);
                }
                None
            },
        }
    }

    /// Every key visible from `path`, folded from the root down: a deeper context
    /// overrides an ancestor's value for the same key. Contexts that do not exist
    /// contribute nothing.
    pub fn get_all<'a>(&'a self, path: &ContextPath) -> (r: Vec<(&'a String, &'a T)>)
        requires
            self.wf(),
        ensures
            keys_unique(pairs_view(r@)),
            assoc_map(pairs_view(r@)) == get_all_spec(self@, path@),
    {
        let mut acc: Vec<(&'a String, &'a T)> = Vec::new();
        let depth = path.depth();
        let mut n: usize = 0;
        proof {
            assert(pairs_view(acc@) =~= Seq::<(Seq<char>, T)>::empty());
        }
        loop
            invariant
                n <= depth,
                depth == path@.len(),
                self.wf(),
                keys_unique(pairs_view(acc@)),
                assoc_map(pairs_view(acc@)) == folded_before(self@, path@, n as nat),
            decreases depth - n,
        {
            let ancestor = path.ancestor(n);
            let ghost before = assoc_map(pairs_view(acc@));
            match self.find_context(&ancestor) {
                Some(i) => {
                    proof {
                        self.lemma_context_at(i as int);
                    }
                    merge_into(&mut acc, &self.data[i].1);
                },
                None => {
                    proof {
                        assert(before.union_prefer_right(Map::<Seq<char>, T>::empty()) =~= before);
                    }
                },
            }
            proof {
                let here = context_of(self@, path@.take(n as int));
                assert(assoc_map(pairs_view(acc@)) == before.union_prefer_right(here));
                if n == 0 {
                    assert(Map::<Seq<char>, T>::empty().union_prefer_right(here) =~= here);
                }
                assert(assoc_map(pairs_view(acc@)) == fold_from(self@, path@, n as nat));
            }
            if n == depth {
                return acc;
            }
            n = n + 1;
        }
    }

    /// Every (path, key) entry whose path has `prefix` as a segment-wise prefix:
    /// `/foo` covers `/foo` and `/foo/bar`, never `/foobar`.
    pub fn keys(&self, prefix: &ContextPath) -> (r: Vec<KeyRef>)
        requires
            self.wf(),
        ensures
            forall|x: int| 0 <= x < r@.len() ==> entry_under(self@, prefix@, #[trigger] r@[x]@),
            forall|e: (Seq<Seq<char>>, Seq<char>)|
                entry_under(self@, prefix@, e) ==> #[trigger] listed(r@, e),
            forall|x: int, y: int| 0 <= x < y < r@.len() ==> r@[x]@ != r@[y]@,
    {
        let mut r: Vec<KeyRef> = Vec::new();
        let mut i: usize = 0;
        let ghost mut orig: Seq<(int, int)> = Seq::empty();
        while i < self.data.len()
            invariant
                i <= self.data@.len(),
                self.wf(),
                self.origins(r@, orig, i as int, 0),
                forall|x: int| 0 <= x < r@.len() ==> entry_under(self@, prefix@, #[trigger] r@[x]@),
                forall|a: int, b: int|
                    0 <= a < i && 0 <= b < self.data@[a].1@.len() && is_segment_prefix(
                        prefix@,
                        self.data@[a].0@,
                    ) ==> #[trigger] listed(r@, (self.data@[a].0@, self.data@[a].1@[b].0@)),
            decreases self.data@.len() - i,
        {
            let ghost r_outer = r@;
            if self.data[i].0.starts_with(prefix) {
                let entries = &self.data[i].1;
                let path = &self.data[i].0;
                proof {
                    self.lemma_context_at(i as int);
                }
                let mut j: usize = 0;
                while j < entries.len()
                    invariant
                        i < self.data@.len(),
                        j <= entries@.len(),
                        *entries == self.data@[i as int].1,
                        *path == self.data@[i as int].0,
                        is_segment_prefix(prefix@, path@),
                        self.wf(),
                        self@.contains_key(path@),
                        self@[path@] == assoc_map(entries_view(entries@)),
                        self.origins(r@, orig, i as int, j as int),
                        forall|x: int|
                            0 <= x < r@.len() ==> entry_under(self@, prefix@, #[trigger] r@[x]@),
                        forall|e: (Seq<Seq<char>>, Seq<char>)|
                            listed(r_outer, e) ==> #[trigger] listed(r@, e),
                        forall|b: int|
                            0 <= b < j ==> #[trigger] listed(r@, (path@, entries@[b].0@)),
                    decreases entries@.len() - j,
                {
                    let k = KeyRef::new(path.ancestor(path.depth()), entries[j].0.clone());
                    proof {
                        assert(path@.take(path@.len() as int) =~= path@);
                        lemma_assoc_lookup(entries_view(entries@), j as int);
                        assert(entries_view(entries@)[j as int].0 == entries@[j as int].0@);
                    }
                    let ghost r0 = r@;
                    let ghost o0 = orig;
                    r.push(k);
                    proof {
                        orig = o0.push((i as int, j as int));
                        assert(r@[r0.len() as int] == k);
                        assert forall|x: int| 0 <= x < r@.len() implies {
                            let o = #[trigger] orig[x];
                            &&& (o.0 < i || (o.0 == i && o.1 < j + 1))
                            &&& 0 <= o.0 && 0 <= o.1 < self.data@[o.0].1@.len()
                            &&& r@[x]@ == (self.data@[o.0].0@, self.data@[o.0].1@[o.1].0@)
                        } by {
                            if x < r0.len() {
                                assert(r@[x] == r0[x]);
                                assert(orig[x] == o0[x]);
                            }
                        }
                        assert forall|x: int, y: int| 0 <= x < y < orig.len() implies orig[x]
                            != orig[y] by {
                            if y < o0.len() {
                                assert(orig[x] == o0[x] && orig[y] == o0[y]);
                            } else {
                                assert(orig[x] == o0[x]);
                            }
                        }
                        assert forall|e: (Seq<Seq<char>>, Seq<char>)| listed(r0, e) implies #[trigger] listed(
                            r@,
                            e,
                        ) by {
                            lemma_listed_push(r0, k, e);
                        }
                        assert forall|b: int| 0 <= b < j + 1 implies #[trigger] listed(
                            r@,
                            (path@, entries@[b].0@),
                        ) by {
                            if b < j {
                                lemma_listed_push(r0, k, (path@, entries@[b].0@));
                            } else {
                                assert(r@[r0.len() as int]@ == (path@, entries@[b].0@));
                            }
                        }
                    }
                    j = j + 1;
                }
            }
            proof {
                assert forall|x: int| 0 <= x < r@.len() implies {
                    let o = #[trigger] orig[x];
                    &&& (o.0 < i + 1 || (o.0 == i + 1 && o.1 < 0))
                    &&& 0 <= o.0 && 0 <= o.1 < self.data@[o.0].1@.len()
                    &&& r@[x]@ == (self.data@[o.0].0@, self.data@[o.0].1@[o.1].0@)
                } by {}
                assert forall|a: int, b: int|
                    0 <= a < i + 1 && 0 <= b < self.data@[a].1@.len() && is_segment_prefix(
                        prefix@,
                        self.data@[a].0@,
                    ) implies #[trigger] listed(r@, (self.data@[a].0@, self.data@[a].1@[b].0@)) by {
                    if a < i {
                        assert(listed(r_outer, (self.data@[a].0@, self.data@[a].1@[b].0@)));
                    }
                }
            }
            i = i + 1;
        }
        proof {
            assert forall|e: (Seq<Seq<char>>, Seq<char>)| entry_under(self@, prefix@, e) implies #[trigger] listed(
                r@,
                e,
            ) by {
                lemma_assoc_domain(contexts_view(self.data@), e.0);
                let a = choose|a: int|
                    0 <= a < contexts_view(self.data@).len() && contexts_view(self.data@)[a].0
                        == e.0;
                self.lemma_context_at(a);
                lemma_assoc_domain(entries_view(self.data@[a].1@), e.1);
                let b = choose|b: int|
                    0 <= b < entries_view(self.data@[a].1@).len() && entries_view(
                        self.data@[a].1@,
                    )[b].0 == e.1;
                assert(self.data@[a].1@[b].0@ == e.1);
                assert(listed(r@, (self.data@[a].0@, self.data@[a].1@[b].0@)));
            }
            assert forall|x: int, y: int| 0 <= x < y < r@.len() implies r@[x]@ != r@[y]@ by {
                let ox = orig[x];
                let oy = orig[y];
                assert(ox != oy);
                if ox.0 != oy.0 {
                    assert(contexts_view(self.data@)[ox.0].0 != contexts_view(self.data@)[oy.0].0);
                } else {
                    assert(keys_unique(entries_view(self.data@[ox.0].1@)));
                    assert(entries_view(self.data@[ox.0].1@)[ox.1].0 != entries_view(
                        self.data@[ox.0].1@,
                    )[oy.1].0);
                }
            }
        }
        r
    }

    /// `orig` records where each reference of `r` comes from: the entry `orig[x].1`
    /// of the context `orig[x].0`, all before entry `j` of context `i`, no two alike.
    spec fn origins(&self, r: Seq<KeyRef>, orig: Seq<(int, int)>, i: int, j: int) -> bool {
        &&& orig.len() == r.len()
        &&& forall|x: int|
            0 <= x < r.len() ==> {
                let o = #[trigger] orig[x];
                &&& (o.0 < i || (o.0 == i && o.1 < j))
                &&& 0 <= o.0 && 0 <= o.1 < self.data@[o.0].1@.len()
                &&& r[x]@ == (self.data@[o.0].0@, self.data@[o.0].1@[o.1].0@)
            }
        &&& forall|x: int, y: int| 0 <= x < y < orig.len() ==> orig[x] != orig[y]
    }
}

/// Merges `entries` into `acc`, the entries overriding equal keys.
fn merge_into<'a, T>(acc: &mut Vec<(&'a String, &'a T)>, entries: &'a Vec<(String, T)>)
    requires
        keys_unique(pairs_view(old(acc)@)),
    ensures
        keys_unique(pairs_view(final(acc)@)),
        assoc_map(pairs_view(final(acc)@)) == assoc_map(pairs_view(old(acc)@)).union_prefer_right(
            assoc_map(entries_view(entries@)),
        ),
{
    let ghost start = assoc_map(pairs_view(acc@));
    let mut j: usize = 0;
    proof {
        assert(entries_view(entries@).take(0) =~= Seq::<(Seq<char>, T)>::empty());
        assert(start.union_prefer_right(Map::<Seq<char>, T>::empty()) =~= start);
    }
    while j < entries.len()
        invariant
            j <= entries@.len(),
            keys_unique(pairs_view(acc@)),
            assoc_map(pairs_view(acc@)) == start.union_prefer_right(
                assoc_map(entries_view(entries@).take(j as int)),
            ),
        decreases entries@.len() - j,
    {
        let k = &entries[j].0;
        let v = &entries[j].1;
        let ghost ev = entries_view(entries@);
        let ghost a0 = pairs_view(acc@);
        proof {
            assert(ev.take(j + 1).drop_last() =~= ev.take(j as int));
            assert(ev.take(j + 1).last() == (k@, *v));
        }
        match find_ref_key(acc, k) {
            Some(x) => {
                acc.set(x, (k, v));
                proof {
                    assert(pairs_view(acc@) =~= a0.update(x as int, (a0[x as int].0, *v)));
                    lemma_assoc_update(a0, x as int, *v);
                }
            },
            None => {
                acc.push((k, v));
                proof {
                    assert(pairs_view(acc@) =~= a0.push((k@, *v)));
                    lemma_assoc_push(a0, k@, *v);
                }
            },
        }
        proof {
            let prev = assoc_map(ev.take(j as int));
            assert(start.union_prefer_right(prev.insert(k@, *v)) =~= start.union_prefer_right(
                prev,
            ).insert(k@, *v));
        }
        j = j + 1;
    }
    proof {
        assert(entries_view(entries@).take(entries@.len() as int) =~= entries_view(entries@));
    }
}

/// The index of `k` among borrowed pairs.
fn find_ref_key<T>(acc: &Vec<(&String, &T)>, k: &String) -> (r: Option<usize>)
    ensures
        match r {
            Some(x) => x < acc@.len() && acc@[x as int].0@ == k@,
            None => !assoc_map(pairs_view(acc@)).contains_key(k@),
        },
{
    let mut x: usize = 0;
    while x < acc.len()
        invariant
            x <= acc@.len(),
            forall|y: int| 0 <= y < x ==> acc@[y].0@ != k@,
        decreases acc@.len() - x,
    {
        if *acc[x].0 == *k {
            return Some(x);
        }
        x = x + 1;
    }
    proof {
        lemma_assoc_domain(pairs_view(acc@), k@);
        if assoc_map(pairs_view(acc@)).contains_key(k@) {
            let y = choose|y: int| 0 <= y < pairs_view(acc@).len() && pairs_view(acc@)[y].0 == k@;
            assert(acc@[y].0@ == k@);
        }
    }
    None
}

/// The index of `k` among `entries`.
fn find_key<T>(entries: &Vec<(String, T)>, k: &String) -> (r: Option<usize>)
    ensures
        match r {
            Some(j) => j < entries@.len() && entries@[j as int].0@ == k@,
            None => !assoc_map(entries_view(entries@)).contains_key(k@),
        },
{
    let mut j: usize = 0;
    while j < entries.len()
        invariant
            j <= entries@.len(),
            forall|x: int| 0 <= x < j ==> entries@[x].0@ != k@,
        decreases entries@.len() - j,
    {
        if entries[j].0 == *k {
            return Some(j);
        }
        j = j + 1;
    }
    proof {
        lemma_assoc_domain(entries_view(entries@), k@);
        if assoc_map(entries_view(entries@)).contains_key(k@) {
            let x = choose|x: int|
                0 <= x < entries_view(entries@).len() && entries_view(entries@)[x].0 == k@;
            assert(entries@[x].0@ == k@);
        }
    }
    None
}

impl<T: Shown> Configuration<T> {
    /// The contexts in the order they were created, each with its entries in the
    /// order they were created and their values shown as text.
    pub closed spec fn shown_contexts(&self) -> Seq<(Seq<Seq<char>>, Seq<(Seq<char>, Seq<char>)>)> {
        self.data@.map_values(
            |c: (ContextPath, Vec<(String, T)>)| (c.0@, shown_entries(c.1@)),
        )
    }

    /// The shown contexts are the ordered contexts with their values shown as text.
    pub proof fn lemma_shown_contexts(&self)
        ensures
            self.shown_contexts() == shown_of(self.ordered()),
    {
        let a = self.shown_contexts();
        let b = shown_of(self.ordered());
        assert forall|i: int| 0 <= i < a.len() implies #[trigger] a[i] == b[i] by {
            let c = self.data@[i];
            assert(shown_entries(c.1@) =~= entries_view(c.1@).map_values(
                |e: (Seq<char>, T)| (e.0, e.1.text()),
            ));
        }
        assert(a =~= b);
    }

    /// The paths of the contexts, in order.
    closed spec fn context_paths(&self) -> Seq<Seq<Seq<char>>> {
        self.shown_contexts().map_values(
            |c: (Seq<Seq<char>>, Seq<(Seq<char>, Seq<char>)>)| c.0,
        )
    }

    /// The store drawn as a tree (see `tree_text`): the root line, then each context
    /// path as a branch labelled by its last segment, with its entries below it.
    pub fn display(&self) -> (r: String)
        requires
            self.wf(),
        ensures
            r@ == tree_text(shown_of(self.ordered())),
    {
        proof {
            self.lemma_shown_contexts();
        }
        let mut tree = ArenaTree::new();
        let ghost paths = self.context_paths();
        let mut i: usize = 0;
        while i < self.data.len()
            invariant
                i <= self.data@.len(),
                paths == self.context_paths(),
                paths.len() == self.data@.len(),
                forall|x: int| 0 <= x < paths.len() ==> #[trigger] paths[x] == self.data@[x].0@,
                tree.wf(),
                tree.rooted(),
                tree.paths() == tree_nodes(paths, i as nat),
            decreases self.data@.len() - i,
        {
            tree.add_path(&self.data[i].0);
            i = i + 1;
        }
        proof {
            assert(paths =~= self.shown_contexts().map_values(
                |c: (Seq<Seq<char>>, Seq<(Seq<char>, Seq<char>)>)| c.0,
            ));
        }
        if tree.len() == 0 {
            return String::new();
        }
        let fuel = tree.len();
        let empty = String::new();
        self.print_node(&tree, 0, &empty, fuel)
    }

    /// The text of node `index` of `tree` under `prefix` (see `node_text`).
    fn print_node(&self, tree: &ArenaTree, index: usize, prefix: &String, fuel: usize) -> (r: String)
        requires
            self.wf(),
            tree.wf(),
            tree.rooted(),
            index < tree.paths().len(),
        ensures
            r@ == node_text(tree.paths(), self.shown_contexts(), index as int, prefix@, fuel as nat),
        decreases fuel,
    {
        if fuel == 0 {
            return String::new();
        }
        let ghost nodes = tree.paths();
        let ghost ctx = self.shown_contexts();
        let q = tree.path_of(index);
        let depth = tree.get_depth(index);
        let mut res = String::new();
        let mut inner = prefix.clone();
        let ghost last = !has_later_child(nodes, q@.drop_last(), index as int);
        proof {
            reveal_strlit("\n");
        }
        if depth == 0 {
            res = q.to_text();
            res.append("\n");
        } else {
            let parent = q.ancestor(depth - 1);
            proof {
                assert(parent@ =~= q@.drop_last());
            }
            let is_last = !tree.has_child_after(&parent, Some(index));
            res.append(branch(is_last));
            res.append(q.segments()[depth - 1].as_str());
            res.append("\n");
            inner.append(indent(is_last));
        }
        let ghost head = res@;
        let ghost inner_text = inner@;
        proof {
            assert(head == if q@.len() == 0 {
                path_text(q@) + seq!['\n']
            } else {
                branch_glyph(last) + q@.last() + seq!['\n']
            });
            assert(inner_text == if q@.len() == 0 {
                prefix@
            } else {
                prefix@ + indent_glyph(last)
            });
        }
        let has_children = tree.has_child_after(q, None);
        let ghost entries_spec = entries_at(ctx, q@);
        proof {
            assert(keys_unique(ctx)) by {
                assert forall|a: int, b: int| 0 <= a < b < ctx.len() implies ctx[a].0 != ctx[b].0 by {
                    assert(ctx[a].0 == contexts_view(self.data@)[a].0);
                    assert(ctx[b].0 == contexts_view(self.data@)[b].0);
                }
            }
        }
        match self.find_context(q) {
            Some(ci) => {
                let entries = &self.data[ci].1;
                proof {
                    lemma_assoc_lookup(ctx, ci as int);
                    assert(ctx[ci as int].0 == q@);
                    assert(entries_spec == shown_entries(entries@));
                }
                let mut j: usize = 0;
                while j < entries.len()
                    invariant
                        j <= entries@.len(),
                        entries_spec == shown_entries(entries@),
                        res@ == head + data_lines(entries_spec, inner_text, has_children, j as nat),
                        inner@ == inner_text,
                    decreases entries@.len() - j,
                {
                    proof {
                        reveal_strlit(": ");
                        reveal_strlit("\n");
                    }
                    let ghost r0 = res@;
                    res.append(inner.as_str());
                    res.append(branch(j + 1 == entries.len() && !has_children));
                    res.append(entries[j].0.as_str());
                    res.append(": ");
                    let shown = entries[j].1.show();
                    res.append(shown.as_str());
                    res.append("\n");
                    proof {
                        assert(entries_spec[j as int] == (entries@[j as int].0@, entries@[j as int].1.text()));
                        let last_line = j == entries_spec.len() - 1 && !has_children;
                        assert(data_lines(entries_spec, inner_text, has_children, (j + 1) as nat)
                            == data_lines(entries_spec, inner_text, has_children, j as nat) + inner_text
                            + branch_glyph(last_line) + entries_spec[j as int].0 + seq![':', ' ']
                            + entries_spec[j as int].1 + seq!['\n']);
                        assert(res@ =~= head + data_lines(entries_spec, inner_text, has_children, (j + 1) as nat));
                    }
                    j = j + 1;
                }
            },
            None => {
                proof {
                    if assoc_map(ctx).contains_key(q@) {
                        lemma_assoc_domain(ctx, q@);
                        let x = choose|x: int| 0 <= x < ctx.len() && ctx[x].0 == q@;
                        assert(contexts_view(self.data@)[x].0 == q@);
                        lemma_assoc_domain(contexts_view(self.data@), q@);
                    }
                    assert(entries_spec =~= Seq::<(Seq<char>, Seq<char>)>::empty());
                    assert(res@ =~= head + data_lines(entries_spec, inner_text, has_children, 0));
                }
            },
        }
        let ghost body = res@;
        let n = tree.len();
        let mut k: usize = 0;
        proof {
            assert(res@ =~= body + children_text(nodes, ctx, index as int, inner_text, (fuel - 1) as nat, 0));
        }
        while k < n
            invariant
                k <= n,
                n == nodes.len(),
                nodes == tree.paths(),
                ctx == self.shown_contexts(),
                index < nodes.len(),
                fuel > 0,
                self.wf(),
                tree.wf(),
                tree.rooted(),
                q@ == nodes[index as int],
                inner@ == inner_text,
                res@ == body + children_text(nodes, ctx, index as int, inner_text, (fuel - 1) as nat, k as nat),
            decreases n - k,
        {
            if is_child_path(tree.path_of(k), q) {
                res.append(inner.as_str());
                let sub = self.print_node(tree, k, &inner, fuel - 1);
                res.append(sub.as_str());
                proof {
                    assert(res@ =~= body + children_text(nodes, ctx, index as int, inner_text, (fuel - 1) as nat, (k + 1) as nat));
                }
            } else {
                proof {
                    assert(res@ =~= body + children_text(nodes, ctx, index as int, inner_text, (fuel - 1) as nat, (k + 1) as nat));
                }
            }
            k = k + 1;
        }
        proof {
            assert(res@ =~= node_text(nodes, ctx, index as int, prefix@, fuel as nat));
        }
        res
    }
}

/// Write-then-read: after writing `v` for `k` at `p`, reading `k` at `p` gives `v`.
pub proof fn lemma_write_then_read<T>(
    m: Map<Seq<Seq<char>>, Map<Seq<char>, T>>,
    p: Seq<Seq<char>>,
    k: Seq<char>,
    v: T,
)
    ensures
        get_spec(set_spec(m, p, k, v), p, k) == Some(v),
{
    assert(p.take(p.len() as int) =~= p);
}

/// Remove locality: removing `k` at `p` leaves every other context untouched, so a
/// read at `p` then falls back to the nearest ancestor that defines `k`.
pub proof fn lemma_remove_falls_back<T>(
    m: Map<Seq<Seq<char>>, Map<Seq<char>, T>>,
    p: Seq<Seq<char>>,
    k: Seq<char>,
)
    requires
        p.len() > 0,
    ensures
        get_spec(remove_spec(m, p, k), p, k) == get_spec(m, p.drop_last(), k),
{
    let m2 = remove_spec(m, p, k);
    assert(p.take(p.len() as int) =~= p);
    assert forall|n: nat| n < p.len() implies #[trigger] lookup_from(m2, p, k, n) == lookup_from(
        m,
        p.drop_last(),
        k,
        n,
    ) by {
        lemma_lookup_prefix(m, p, k, n);
    }
    assert(lookup_from(m2, p, k, (p.len() - 1) as nat) == lookup_from(
        m,
        p.drop_last(),
        k,
        (p.len() - 1) as nat,
    ));
}

proof fn lemma_lookup_prefix<T>(
    m: Map<Seq<Seq<char>>, Map<Seq<char>, T>>,
    p: Seq<Seq<char>>,
    k: Seq<char>,
    n: nat,
)
    requires
        n < p.len(),
    ensures
        lookup_from(remove_spec(m, p, k), p, k, n) == lookup_from(m, p.drop_last(), k, n),
    decreases n,
{
    let m2 = remove_spec(m, p, k);
    assert(p.take(n as int) =~= p.drop_last().take(n as int));
    assert(p.take(n as int) != p) by {
        assert(p.take(n as int).len() != p.len());
    }
    assert(entry_spec(m2, p.take(n as int), k) == entry_spec(m, p.take(n as int), k));
    if n > 0 {
        lemma_lookup_prefix(m, p, k, (n - 1) as nat);
    }
}

/// Showing values commutes with a write: the shown contexts after writing `v` are
/// the shown contexts with `v`'s text written.
pub proof fn lemma_shown_set<T: Shown>(
    o: Seq<(Seq<Seq<char>>, Seq<(Seq<char>, T)>)>,
    p: Seq<Seq<char>>,
    k: Seq<char>,
    v: T,
)
    ensures
        shown_of(ordered_set(o, p, k, v)) == ordered_set(shown_of(o), p, k, v.text()),
{
    let so = shown_of(o);
    lemma_find_same_keys(o, so, p);
    lemma_find_found(o, p);
    match find_index(o, p) {
        Some(i) => {
            let e = o[i].1;
            lemma_find_found(e, k);
            let se = so[i].1;
            assert(se == e.map_values(|x: (Seq<char>, T)| (x.0, x.1.text())));
            lemma_find_same_keys(e, se, k);
            let a = shown_of(ordered_set(o, p, k, v));
            let b = ordered_set(so, p, k, v.text());
            assert(ordered_entries_set(e, k, v).map_values(|x: (Seq<char>, T)| (x.0, x.1.text()))
                =~= ordered_entries_set(se, k, v.text()));
            assert(a[i].1 =~= b[i].1);
            assert(a =~= b);
        },
        None => {
            let a = shown_of(ordered_set(o, p, k, v));
            let b = ordered_set(so, p, k, v.text());
            assert(a[o.len() as int].1 =~= b[o.len() as int].1);
            assert(a =~= b);
        },
    }
}

} // verus!
