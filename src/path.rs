//! Context paths: absolute, slash-delimited namespaces that scope a set of keys.
//!
//! A path is modelled as its sequence of non-empty segments; the root `/` is the
//! empty sequence.
use vstd::prelude::*;

verus! {

/// The pieces of `s` between occurrences of `sep` (always at least one piece).
pub open spec fn split_spec(s: Seq<char>, sep: char) -> Seq<Seq<char>>
    decreases s.len(),
{
    if s.len() == 0 {
        seq![Seq::<char>::empty()]
    } else {
        let rest = split_spec(s.drop_last(), sep);
        if s.last() == sep {
            rest.push(Seq::<char>::empty())
        } else {
            rest.update(rest.len() - 1, rest.last().push(s.last()))
        }
    }
}

/// The pieces of `parts` joined with `sep` between consecutive pieces.
pub open spec fn join_spec(parts: Seq<Seq<char>>, sep: char) -> Seq<char>
    decreases parts.len(),
{
    if parts.len() == 0 {
        Seq::<char>::empty()
    } else if parts.len() == 1 {
        parts[0]
    } else {
        join_spec(parts.drop_last(), sep) + seq![sep] + parts.last()
    }
}

/// The pieces of `parts` that are not empty, in order.
pub open spec fn non_empty_spec(parts: Seq<Seq<char>>) -> Seq<Seq<char>>
    decreases parts.len(),
{
    if parts.len() == 0 {
        Seq::<Seq<char>>::empty()
    } else if parts.last().len() > 0 {
        non_empty_spec(parts.drop_last()).push(parts.last())
    } else {
        non_empty_spec(parts.drop_last())
    }
}

/// The character views of a sequence of strings.
pub open spec fn strings_view(v: Seq<String>) -> Seq<Seq<char>> {
    v.map_values(|s: String| s@)
}

pub open spec fn free_of(s: Seq<char>, c: char) -> bool {
    forall|i: int| 0 <= i < s.len() ==> s[i] != c
}

/// Every piece is non-empty and free of `sep`.
pub open spec fn clean_pieces(parts: Seq<Seq<char>>, sep: char) -> bool {
    forall|i: int| 0 <= i < parts.len() ==> parts[i].len() > 0 && free_of(#[trigger] parts[i], sep)
}

/// `prefix` is a segment-wise prefix of `path` (`/foo` is one of `/foo/bar`, not of `/foobar`).
pub open spec fn is_segment_prefix(prefix: Seq<Seq<char>>, path: Seq<Seq<char>>) -> bool {
    prefix.len() <= path.len() && path.take(prefix.len() as int) == prefix
}

/// The textual form of a path: `/` followed by its segments joined with `/`.
pub open spec fn path_text(segments: Seq<Seq<char>>) -> Seq<char> {
    seq!['/'] + join_spec(segments, '/')
}

pub proof fn lemma_split_nonempty(s: Seq<char>, sep: char)
    ensures
        split_spec(s, sep).len() >= 1,
    decreases s.len(),
{
    if s.len() > 0 {
        lemma_split_nonempty(s.drop_last(), sep);
    }
}

/// No piece of a split contains the separator.
pub proof fn lemma_split_free(s: Seq<char>, sep: char)
    ensures
        forall|i: int|
            0 <= i < split_spec(s, sep).len() ==> free_of(#[trigger] split_spec(s, sep)[i], sep),
    decreases s.len(),
{
    if s.len() > 0 {
        lemma_split_free(s.drop_last(), sep);
        lemma_split_nonempty(s.drop_last(), sep);
    }
}

/// Splitting `a`, a separator and a separator-free `b` gives the pieces of `a`, then `b`.
pub proof fn lemma_split_append(a: Seq<char>, b: Seq<char>, sep: char)
    requires
        free_of(b, sep),
    ensures
        split_spec(a + seq![sep] + b, sep) == split_spec(a, sep).push(b),
    decreases b.len(),
{
    let s = a + seq![sep] + b;
    if b.len() == 0 {
        assert(s.drop_last() =~= a);
        assert(b =~= Seq::<char>::empty());
    } else {
        let b0 = b.drop_last();
        lemma_split_append(a, b0, sep);
        assert(s.drop_last() =~= a + seq![sep] + b0);
        assert(b0.push(b.last()) =~= b);
    }
}

/// A separator-free string splits into itself alone.
pub proof fn lemma_split_single(b: Seq<char>, sep: char)
    requires
        free_of(b, sep),
    ensures
        split_spec(b, sep) == seq![b],
    decreases b.len(),
{
    if b.len() > 0 {
        let b0 = b.drop_last();
        lemma_split_single(b0, sep);
        assert(b0.push(b.last()) =~= b);
        assert(seq![b0].update(0, b0.push(b.last())) =~= seq![b]);
    } else {
        assert(b =~= Seq::<char>::empty());
    }
}

/// Joining clean pieces and splitting again gives the pieces back.
pub proof fn lemma_split_join(parts: Seq<Seq<char>>, sep: char)
    requires
        parts.len() >= 1,
        forall|i: int| 0 <= i < parts.len() ==> free_of(#[trigger] parts[i], sep),
    ensures
        split_spec(join_spec(parts, sep), sep) == parts,
    decreases parts.len(),
{
    if parts.len() == 1 {
        lemma_split_single(parts[0], sep);
        assert(seq![parts[0]] =~= parts);
    } else {
        let init = parts.drop_last();
        assert forall|i: int| 0 <= i < init.len() implies free_of(#[trigger] init[i], sep) by {
            assert(init[i] == parts[i]);
        }
        lemma_split_join(init, sep);
        lemma_split_append(join_spec(init, sep), parts.last(), sep);
        assert(init.push(parts.last()) =~= parts);
    }
}

/// Dropping empty pieces keeps clean pieces as they are.
pub proof fn lemma_non_empty_id(parts: Seq<Seq<char>>)
    requires
        forall|i: int| 0 <= i < parts.len() ==> (#[trigger] parts[i]).len() > 0,
    ensures
        non_empty_spec(parts) == parts,
    decreases parts.len(),
{
    if parts.len() > 0 {
        let init = parts.drop_last();
        assert forall|i: int| 0 <= i < init.len() implies (#[trigger] init[i]).len() > 0 by {
            assert(init[i] == parts[i]);
        }
        lemma_non_empty_id(init);
        assert(init.push(parts.last()) =~= parts);
    }
}

/// The non-empty pieces of separator-free pieces are clean.
pub proof fn lemma_non_empty_clean(parts: Seq<Seq<char>>, sep: char)
    requires
        forall|i: int| 0 <= i < parts.len() ==> free_of(#[trigger] parts[i], sep),
    ensures
        clean_pieces(non_empty_spec(parts), sep),
    decreases parts.len(),
{
    if parts.len() > 0 {
        let init = parts.drop_last();
        assert forall|i: int| 0 <= i < init.len() implies free_of(#[trigger] init[i], sep) by {
            assert(init[i] == parts[i]);
        }
        lemma_non_empty_clean(init, sep);
        assert(free_of(parts[parts.len() - 1], sep));
    }
}

/// Splits `s` at every `sep`.
pub fn split_on(s: &str, sep: char) -> (r: Vec<String>)
    ensures
        strings_view(r@) == split_spec(s@, sep),
{
    let n: usize = s.unicode_len();
    let mut pieces: Vec<String> = Vec::new();
    let mut start: usize = 0;
    let mut i: usize = 0;
    proof {
        assert(s@.take(0) =~= Seq::<char>::empty());
        assert(s@.subrange(0, 0) =~= Seq::<char>::empty());
        assert(strings_view(pieces@) =~= Seq::<Seq<char>>::empty());
        assert(Seq::<Seq<char>>::empty().push(Seq::<char>::empty()) =~= seq![Seq::<char>::empty()]);
    }
    while i < n
        invariant
            n == s@.len(),
            start <= i <= n,
            strings_view(pieces@).push(s@.subrange(start as int, i as int)) == split_spec(
                s@.take(i as int),
                sep,
            ),
        decreases n - i,
    {
        let c = s.get_char(i);
        proof {
            assert(s@.take(i + 1).drop_last() =~= s@.take(i as int));
            assert(s@.take(i + 1).last() == c);
            lemma_split_nonempty(s@.take(i as int), sep);
        }
        let ghost before = pieces@;
        if c == sep {
            let piece = s.substring_char(start, i).to_owned();
            pieces.push(piece);
            proof {
                assert(strings_view(pieces@) =~= strings_view(before).push(piece@));
                assert(s@.subrange(i + 1, i + 1) =~= Seq::<char>::empty());
            }
            start = i + 1;
        } else {
            proof {
                assert(s@.subrange(start as int, i + 1) =~= s@.subrange(start as int, i as int).push(
                    c,
                ));
            }
        }
        i = i + 1;
    }
    let ghost before = pieces@;
    let last = s.substring_char(start, n).to_owned();
    pieces.push(last);
    proof {
        assert(s@.take(n as int) =~= s@);
        assert(strings_view(pieces@) =~= strings_view(before).push(last@));
    }
    pieces
}

/// An absolute context path, held as its segments.
#[derive(Clone, Debug)]
pub struct ContextPath {
    segments: Vec<String>,
}

impl View for ContextPath {
    type V = Seq<Seq<char>>;

    closed spec fn view(&self) -> Seq<Seq<char>> {
        strings_view(self.segments@)
    }
}

impl ContextPath {
    /// No segment is empty.
    pub open spec fn wf(&self) -> bool {
        forall|i: int| 0 <= i < self@.len() ==> (#[trigger] self@[i]).len() > 0
    }

    /// The root path `/`.
    pub fn root() -> (r: Self)
        ensures
            r@ == Seq::<Seq<char>>::empty(),
            r.wf(),
    {
        let r = ContextPath { segments: Vec::new() };
        proof {
            assert(r@ =~= Seq::<Seq<char>>::empty());
        }
        r
    }

    /// The path made of the non-empty strings of `parts`, in order.
    pub fn from_segments(parts: Vec<String>) -> (r: Self)
        ensures
            r@ == non_empty_spec(strings_view(parts@)),
            r.wf(),
    {
        let mut segments: Vec<String> = Vec::new();
        let mut i: usize = 0;
        proof {
            assert(strings_view(parts@).take(0) =~= Seq::<Seq<char>>::empty());
            assert(strings_view(segments@) =~= Seq::<Seq<char>>::empty());
        }
        while i < parts.len()
            invariant
                i <= parts@.len(),
                strings_view(segments@) == non_empty_spec(strings_view(parts@).take(i as int)),
            decreases parts@.len() - i,
        {
            proof {
                assert(strings_view(parts@).take(i + 1).drop_last() =~= strings_view(parts@).take(
                    i as int,
                ));
            }
            let ghost before = segments@;
            if !parts[i].as_str().is_empty() {
                segments.push(parts[i].clone());
                proof {
                    assert(strings_view(segments@) =~= strings_view(before).push(parts@[i as int]@));
                }
            }
            i = i + 1;
        }
        proof {
            assert(strings_view(parts@).take(parts@.len() as int) =~= strings_view(parts@));
            lemma_non_empty_all(strings_view(parts@));
        }
        ContextPath { segments }
    }

    /// Parses the slash-delimited form `/a/b`; empty segments are dropped, so the
    /// leading separator is optional.
    pub fn new(text: &str) -> (r: Self)
        ensures
            r@ == non_empty_spec(split_spec(text@, '/')),
            r.wf(),
    {
        ContextPath::from_segments(split_on(text, '/'))
    }

    /// The segments, outermost first.
    pub fn segments(&self) -> (r: &Vec<String>)
        ensures
            strings_view(r@) == self@,
    {
        &self.segments
    }

    /// The number of segments (0 for the root).
    pub fn depth(&self) -> (r: usize)
        ensures
            r == self@.len(),
    {
        self.segments.len()
    }

    /// The ancestor made of the first `n` segments.
    pub fn ancestor(&self, n: usize) -> (r: Self)
        requires
            n <= self@.len(),
        ensures
            r@ == self@.take(n as int),
            self.wf() ==> r.wf(),
    {
        let mut segments: Vec<String> = Vec::new();
        let mut i: usize = 0;
        while i < n
            invariant
                i <= n <= self@.len(),
                strings_view(segments@) == self@.take(i as int),
            decreases n - i,
        {
            let ghost before = segments@;
            segments.push(self.segments[i].clone());
            proof {
                assert(strings_view(segments@) =~= strings_view(before).push(self@[i as int]));
                assert(self@.take(i + 1) =~= self@.take(i as int).push(self@[i as int]));
            }
            i = i + 1;
        }
        let r = ContextPath { segments };
        proof {
            assert(r@ =~= self@.take(n as int));
        }
        r
    }

    /// This path followed by the segment `seg`; an empty `seg` leaves it as it is.
    pub fn child(&self, seg: String) -> (r: Self)
        ensures
            seg@.len() > 0 ==> r@ == self@.push(seg@),
            seg@.len() == 0 ==> r@ == self@,
            self.wf() ==> r.wf(),
    {
        let mut r = self.ancestor(self.depth());
        proof {
            assert(self@.take(self@.len() as int) =~= self@);
        }
        if !seg.as_str().is_empty() {
            let ghost before = r.segments@;
            r.segments.push(seg);
            proof {
                assert(strings_view(r.segments@) =~= strings_view(before).push(seg@));
            }
        }
        r
    }

    /// This path followed by the segments of `other`.
    pub fn join(&self, other: &ContextPath) -> (r: Self)
        ensures
            r@ == self@ + other@,
            self.wf() && other.wf() ==> r.wf(),
    {
        let mut r = self.ancestor(self.depth());
        let mut i: usize = 0;
        proof {
            assert(self@.take(self@.len() as int) =~= self@);
            assert(other@.take(0) =~= Seq::<Seq<char>>::empty());
            assert(self@ + other@.take(0) =~= self@);
        }
        while i < other.segments.len()
            invariant
                i <= other@.len(),
                r@ == self@ + other@.take(i as int),
            decreases other@.len() - i,
        {
            let ghost before = r.segments@;
            r.segments.push(other.segments[i].clone());
            proof {
                assert(strings_view(r.segments@) =~= strings_view(before).push(other@[i as int]));
                assert(self@ + other@.take(i + 1) =~= (self@ + other@.take(i as int)).push(
                    other@[i as int],
                ));
            }
            i = i + 1;
        }
        proof {
            assert(other@.take(other@.len() as int) =~= other@);
        }
        r
    }

    /// Whether `prefix` is a segment-wise prefix of this path.
    pub fn starts_with(&self, prefix: &ContextPath) -> (r: bool)
        ensures
            r == is_segment_prefix(prefix@, self@),
    {
        if prefix.segments.len() > self.segments.len() {
            return false;
        }
        let mut i: usize = 0;
        while i < prefix.segments.len()
            invariant
                i <= prefix@.len() <= self@.len(),
                forall|j: int| 0 <= j < i ==> self@[j] == prefix@[j],
            decreases prefix@.len() - i,
        {
            if self.segments[i] != prefix.segments[i] {
                proof {
                    assert(self@.take(prefix@.len() as int)[i as int] != prefix@[i as int]);
                }
                return false;
            }
            i = i + 1;
        }
        proof {
            assert(self@.take(prefix@.len() as int) =~= prefix@);
        }
        true
    }

    /// Whether both paths have the same segments.
    pub fn same_as(&self, other: &ContextPath) -> (r: bool)
        ensures
            r == (self@ == other@),
    {
        if self.segments.len() != other.segments.len() {
            return false;
        }
        let r = self.starts_with(other);
        proof {
            assert(self@.take(self@.len() as int) =~= self@);
        }
        r
    }

    /// The slash-delimited form: `/` for the root, `/a/b` otherwise.
    pub fn to_text(&self) -> (r: String)
        ensures
            r@ == path_text(self@),
    {
        proof {
            reveal_strlit("/");
        }
        let mut r = String::from_str("/");
        let joined = join_strings(&self.segments, "/");
        r.append(joined.as_str());
        proof {
            reveal_strlit("/");
        }
        r
    }
}

impl PartialEq for ContextPath {
    fn eq(&self, other: &ContextPath) -> (r: bool)
        ensures
            r == (self@ == other@),
    {
        self.same_as(other)
    }
}

impl vstd::std_specs::cmp::PartialEqSpecImpl for ContextPath {
    open spec fn obeys_eq_spec() -> bool {
        true
    }

    open spec fn eq_spec(&self, other: &ContextPath) -> bool {
        self@ == other@
    }
}

impl Eq for ContextPath {

}

/// Every piece left by `non_empty_spec` is non-empty.
pub proof fn lemma_non_empty_all(parts: Seq<Seq<char>>)
    ensures
        forall|i: int|
            0 <= i < non_empty_spec(parts).len() ==> (#[trigger] non_empty_spec(parts)[i]).len()
                > 0,
    decreases parts.len(),
{
    if parts.len() > 0 {
        lemma_non_empty_all(parts.drop_last());
        let init = non_empty_spec(parts.drop_last());
        if parts.last().len() > 0 {
            assert forall|i: int| 0 <= i < init.len() + 1 implies (#[trigger] init.push(
                parts.last(),
            )[i]).len() > 0 by {
                if i < init.len() {
                    assert(init.push(parts.last())[i] == init[i]);
                }
            }
        }
    }
}

/// The strings of `parts` joined with `sep` between consecutive ones.
pub fn join_strings(parts: &Vec<String>, sep: &str) -> (r: String)
    requires
        sep@.len() == 1,
    ensures
        r@ == join_spec(strings_view(parts@), sep@[0]),
{
    let mut r = String::new();
    let mut i: usize = 0;
    proof {
        assert(strings_view(parts@).take(0) =~= Seq::<Seq<char>>::empty());
    }
    while i < parts.len()
        invariant
            sep@.len() == 1,
            i <= parts@.len(),
            r@ == join_spec(strings_view(parts@).take(i as int), sep@[0]),
        decreases parts@.len() - i,
    {
        let ghost pv = strings_view(parts@);
        proof {
            assert(pv.take(i + 1).drop_last() =~= pv.take(i as int));
            assert(pv.take(i + 1).last() == parts@[i as int]@);
            assert(sep@ =~= seq![sep@[0]]);
        }
        if i > 0 {
            r.append(sep);
        }
        r.append(parts[i].as_str());
        proof {
            if i == 0 {
                assert(r@ =~= pv.take(1)[0]);
            }
        }
        i = i + 1;
    }
    proof {
        assert(strings_view(parts@).take(parts@.len() as int) =~= strings_view(parts@));
    }
    r
}

} // verus!
