//! Key references: the identity of one entry, a context path and a leaf key,
//! written as a dotted string such as `prod.db.password`.
use vstd::prelude::*;

use crate::path::{
    free_of, join_spec, lemma_non_empty_clean, lemma_non_empty_id,
    lemma_split_append, lemma_split_free, lemma_split_join, lemma_split_nonempty, non_empty_spec,
    split_on, split_spec, strings_view, ContextPath,
};

verus! {

/// The message of a dotted string that has no key.
pub open spec fn empty_key_message() -> Seq<char> {
    seq!['k', 'e', 'y', ' ', 'c', 'a', 'n', 'n', 'o', 't', ' ', 'b', 'e', ' ', 'e', 'm', 'p', 't', 'y']
}

/// What a dotted string denotes: the non-empty pieces before the last dot form the
/// path, the piece after it is the key, which must not be empty.
pub open spec fn parse_spec(s: Seq<char>) -> Option<(Seq<Seq<char>>, Seq<char>)> {
    let parts = split_spec(s, '.');
    if parts.last().len() == 0 {
        None
    } else {
        Some((non_empty_spec(parts.drop_last()), parts.last()))
    }
}

/// The dotted form of a reference: path segments joined by `.`, then `.`, then the key.
pub open spec fn render_spec(k: (Seq<Seq<char>>, Seq<char>)) -> Seq<char> {
    join_spec(k.0, '.') + seq!['.'] + k.1
}

/// A reference that a dotted string can denote: segments and key non-empty and dot-free.
pub open spec fn dotted_form(k: (Seq<Seq<char>>, Seq<char>)) -> bool {
    &&& forall|i: int| 0 <= i < k.0.len() ==> (#[trigger] k.0[i]).len() > 0 && free_of(k.0[i], '.')
    &&& k.1.len() > 0
    &&& free_of(k.1, '.')
}

/// One entry's identity: the context path and the key within it.
#[derive(Clone, Debug)]
pub struct KeyRef {
    path: ContextPath,
    key: String,
}

impl View for KeyRef {
    type V = (Seq<Seq<char>>, Seq<char>);

    closed spec fn view(&self) -> (Seq<Seq<char>>, Seq<char>) {
        (self.path@, self.key@)
    }
}

impl KeyRef {
    pub fn new(path: ContextPath, key: String) -> (r: Self)
        ensures
            r@ == (path@, key@),
    {
        KeyRef { path, key }
    }

    pub fn path(&self) -> (r: &ContextPath)
        ensures
            r@ == self@.0,
    {
        &self.path
    }

    pub fn key(&self) -> (r: &String)
        ensures
            r@ == self@.1,
    {
        &self.key
    }

    /// The path and the key, taken apart.
    pub fn into_parts(self) -> (r: (ContextPath, String))
        ensures
            r.0@ == self@.0,
            r.1@ == self@.1,
    {
        (self.path, self.key)
    }

    /// Parses a dotted string; fails when the key (the piece after the last dot) is empty.
    pub fn parse(s: &str) -> (r: Result<KeyRef, String>)
        ensures
            match r {
                Ok(k) => parse_spec(s@) == Some(k@),
                Err(e) => parse_spec(s@).is_none() && e@ == empty_key_message(),
            },
    {
        let mut parts = split_on(s, '.');
        proof {
            lemma_split_nonempty(s@, '.');
        }
        let ghost all = strings_view(parts@);
        let key = match parts.pop() {
            Some(k) => k,
            None => {
                return Err(String::from_str("key cannot be empty"));
            },
        };
        proof {
            assert(strings_view(parts@) =~= all.drop_last());
            reveal_strlit("key cannot be empty");
        }
        if key.as_str().is_empty() {
            return Err(String::from_str("key cannot be empty"));
        }
        let path = ContextPath::from_segments(parts);
        Ok(KeyRef { path, key })
    }

    /// The dotted form, `a.b.key` (`.key` for a key at the root).
    pub fn to_string(&self) -> (r: String)
        ensures
            r@ == render_spec(self@),
    {
        proof {
            reveal_strlit(".");
        }
        let mut r = crate::path::join_strings(self.path.segments(), ".");
        r.append(".");
        r.append(self.key.as_str());
        r
    }

    /// The same reference with `base` put in front of its path.
    pub fn rebased(&self, base: &ContextPath) -> (r: KeyRef)
        ensures
            r@ == (base@ + self@.0, self@.1),
    {
        KeyRef { path: base.join(&self.path), key: self.key.clone() }
    }

    /// The path of the context named by this reference: its path followed by its key.
    pub fn as_context(&self) -> (r: ContextPath)
        ensures
            self@.1.len() > 0 ==> r@ == self@.0.push(self@.1),
            self@.1.len() == 0 ==> r@ == self@.0,
    {
        self.path.child(self.key.clone())
    }
}

impl std::str::FromStr for KeyRef {
    type Err = String;

    fn from_str(s: &str) -> (r: Result<KeyRef, String>)
        ensures
            match r {
                Ok(k) => parse_spec(s@) == Some(k@),
                Err(e) => parse_spec(s@).is_none() && e@ == empty_key_message(),
            },
    {
        KeyRef::parse(s)
    }
}

/// What a dotted string parses to is in dotted form.
pub proof fn lemma_parse_dotted_form(s: Seq<char>)
    requires
        parse_spec(s).is_some(),
    ensures
        dotted_form(parse_spec(s).unwrap()),
{
    let parts = split_spec(s, '.');
    lemma_split_nonempty(s, '.');
    lemma_split_free(s, '.');
    let init = parts.drop_last();
    assert forall|i: int| 0 <= i < init.len() implies free_of(#[trigger] init[i], '.') by {
        assert(init[i] == parts[i]);
    }
    lemma_non_empty_clean(init, '.');
    assert(free_of(parts[parts.len() - 1], '.'));
}

/// The dotted form of a reference parses back to that same reference.
pub proof fn lemma_render_parse(k: (Seq<Seq<char>>, Seq<char>))
    requires
        dotted_form(k),
    ensures
        parse_spec(render_spec(k)) == Some(k),
{
    let s = render_spec(k);
    lemma_split_append(join_spec(k.0, '.'), k.1, '.');
    if k.0.len() == 0 {
        let e = Seq::<char>::empty();
        assert(k.0 =~= Seq::<Seq<char>>::empty());
        assert(join_spec(k.0, '.') =~= e);
        assert(split_spec(e, '.') == seq![e]);
        let parts = seq![e].push(k.1);
        assert(parts.drop_last() =~= seq![e]);
        assert(parts.last() == k.1);
        assert(seq![e].drop_last() =~= Seq::<Seq<char>>::empty());
        assert(non_empty_spec(Seq::<Seq<char>>::empty()) == Seq::<Seq<char>>::empty());
        assert(non_empty_spec(seq![e]) == non_empty_spec(Seq::<Seq<char>>::empty()));
    } else {
        lemma_split_join(k.0, '.');
        lemma_non_empty_id(k.0);
        assert(k.0.push(k.1).drop_last() =~= k.0);
    }
}

/// Round trip: whenever a dotted string parses, rendering the result gives the
/// normalized dotted form, which parses back to the same reference.
pub proof fn lemma_parse_round_trip(s: Seq<char>)
    requires
        parse_spec(s).is_some(),
    ensures
        parse_spec(render_spec(parse_spec(s).unwrap())) == parse_spec(s),
{
    lemma_parse_dotted_form(s);
    lemma_render_parse(parse_spec(s).unwrap());
}

} // verus!
