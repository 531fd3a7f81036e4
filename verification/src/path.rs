//! File paths as the sequence of their components.
//!
//! The root is an empty component at the front. Repeated separators, and `.`
//! but at the front, leave no trace.
use vstd::prelude::*;
use crate::order::{
    is_order, is_strict, lexicographic, lexicographic_is_order, order_texts, text_order, text_order_laws, Kinded,
    Ranked,
};
use crate::text::{chars_of, join, join_texts, same_text, text_of};

verus! {

/// The pieces of a text between the separators.
pub open spec fn split(s: Seq<char>, sep: char) -> Seq<Seq<char>>
    decreases s.len(),
{
    if s.len() == 0 {
        seq![s]
    } else {
        let front = split(s.drop_last(), sep);
        if s.last() == sep {
            front.push(Seq::empty())
        } else {
            front.drop_last().push(front.last().push(s.last()))
        }
    }
}

/// There is always a piece.
pub proof fn split_not_empty(s: Seq<char>, sep: char)
    ensures
        split(s, sep).len() > 0,
    decreases s.len(),
{
    if s.len() > 0 {
        split_not_empty(s.drop_last(), sep);
    }
}

pub fn split_text(text: &str, sep: char) -> (r: Vec<String>)
    ensures
        r.deep_view() == split(text@, sep),
{
    let chars = chars_of(text);
    let ghost all = text@;
    let mut out: Vec<String> = Vec::new();
    let mut piece = String::new();
    let mut i: usize = 0;
    assert(all.take(0) =~= Seq::empty());
    assert(out.deep_view().push(piece@) =~= split(all.take(0), sep));
    while i < chars.len()
        invariant
            i <= chars@.len(),
            chars@ == all,
            out.deep_view().push(piece@) == split(all.take(i as int), sep),
        decreases chars.len() - i,
    {
        let c = chars[i];
        proof {
            let here = all.take(i + 1);
            assert(here.drop_last() =~= all.take(i as int));
            assert(here.last() == c);
        }
        let ghost before = out.deep_view();
        if c == sep {
            let ghost whole = piece@;
            out.push(piece);
            assert(out.deep_view() =~= before.push(whole));
            piece = String::new();
            assert(piece@ =~= Seq::empty());
        } else {
            let ghost whole = piece@;
            piece.push(c);
            assert(before.push(whole).drop_last() =~= before);
        }
        i = i + 1;
    }
    assert(all.take(all.len() as int) =~= all);
    let ghost before = out.deep_view();
    let ghost whole = piece@;
    out.push(piece);
    assert(out.deep_view() =~= before.push(whole));
    out
}

/// Whether a piece behind the first is a component.
pub open spec fn is_component(piece: Seq<char>) -> bool {
    piece.len() > 0 && piece != "."@
}

/// The pieces that are components.
pub open spec fn only_components(pieces: Seq<Seq<char>>) -> Seq<Seq<char>>
    decreases pieces.len(),
{
    if pieces.len() == 0 {
        pieces
    } else if is_component(pieces.last()) {
        only_components(pieces.drop_last()).push(pieces.last())
    } else {
        only_components(pieces.drop_last())
    }
}

/// The components of a path that is given as text.
pub open spec fn components(text: Seq<char>) -> Seq<Seq<char>> {
    if text.len() == 0 {
        Seq::empty()
    } else {
        let pieces = split(text, '/');
        seq![pieces[0]] + only_components(pieces.skip(1))
    }
}

/// What every sequence of components keeps to.
pub open spec fn well_formed(p: Seq<Seq<char>>) -> bool {
    &&& forall|i: int| 0 <= i < p.len() ==> !(#[trigger] p[i]).contains('/')
    &&& forall|i: int| 1 <= i < p.len() ==> is_component(#[trigger] p[i])
}

/// The text of a path.
pub open spec fn path_text(p: Seq<Seq<char>>) -> Seq<char> {
    if p.len() == 1 && p[0].len() == 0 {
        seq!['/']
    } else {
        join(p, seq!['/'])
    }
}

proof fn split_pieces(s: Seq<char>, sep: char)
    ensures
        forall|i: int| 0 <= i < split(s, sep).len() ==> !(#[trigger] split(s, sep)[i]).contains(sep),
    decreases s.len(),
{
    if s.len() > 0 {
        split_pieces(s.drop_last(), sep);
        split_not_empty(s.drop_last(), sep);
        let front = split(s.drop_last(), sep);
        let all = split(s, sep);
        assert forall|i: int| 0 <= i < all.len() implies !(#[trigger] all[i]).contains(sep) by {
            if i < front.len() - 1 {
                assert(all[i] == front[i]);
            } else if s.last() == sep {
                if i == front.len() - 1 {
                    assert(all[i] == front[i]);
                }
            } else {
                let last = front.last();
                assert(!front[front.len() - 1].contains(sep));
                assert(all[i] == last.push(s.last()));
                if all[i].contains(sep) {
                    let k = choose|k: int| 0 <= k < all[i].len() && all[i][k] == sep;
                    assert(last[k] == sep);
                    assert(last.contains(sep));
                }
            }
        }
    }
}

proof fn only_components_kept(pieces: Seq<Seq<char>>)
    ensures
        forall|i: int|
            0 <= i < only_components(pieces).len() ==> is_component(#[trigger] only_components(pieces)[i])
                && pieces.contains(only_components(pieces)[i]),
    decreases pieces.len(),
{
    if pieces.len() > 0 {
        let front = pieces.drop_last();
        only_components_kept(front);
        let kept = only_components(pieces);
        let inner = only_components(front);
        assert forall|i: int| 0 <= i < kept.len() implies is_component(#[trigger] kept[i]) && pieces.contains(
            kept[i],
        ) by {
            if i < inner.len() {
                assert(is_component(inner[i]) && front.contains(inner[i]));
                let k = choose|k: int| 0 <= k < front.len() && front[k] == inner[i];
                assert(pieces[k] == kept[i]);
            } else {
                assert(pieces[pieces.len() - 1] == kept[i]);
            }
        }
    }
}

/// The components of any text are well-formed.
pub proof fn components_well_formed(text: Seq<char>)
    ensures
        well_formed(components(text)),
{
    if text.len() > 0 {
        let pieces = split(text, '/');
        let rest = pieces.skip(1);
        split_pieces(text, '/');
        split_not_empty(text, '/');
        only_components_kept(rest);
        let p = components(text);
        let kept = only_components(rest);
        assert forall|i: int| 0 <= i < p.len() implies !(#[trigger] p[i]).contains('/') && (i >= 1
            ==> is_component(p[i])) by {
            if i >= 1 {
                assert(p[i] == kept[i - 1]);
                assert(is_component(kept[i - 1]) && rest.contains(kept[i - 1]));
                let k = choose|k: int| 0 <= k < rest.len() && rest[k] == kept[i - 1];
                assert(pieces[k + 1] == p[i]);
            }
        }
    }
}

proof fn split_no_separator(s: Seq<char>, sep: char)
    requires
        !s.contains(sep),
    ensures
        split(s, sep) == seq![s],
    decreases s.len(),
{
    if s.len() > 0 {
        let front = s.drop_last();
        assert(!front.contains(sep)) by {
            if front.contains(sep) {
                let k = choose|k: int| 0 <= k < front.len() && front[k] == sep;
                assert(s[k] == sep);
            }
        }
        assert(s[s.len() - 1] == s.last());
        split_no_separator(front, sep);
        assert(front.push(s.last()) =~= s);
        assert(split(s, sep) =~= seq![s]);
    } else {
        assert(split(s, sep) =~= seq![s]);
    }
}

proof fn split_concat(a: Seq<char>, b: Seq<char>, sep: char)
    requires
        !b.contains(sep),
    ensures
        split(a.push(sep) + b, sep) == split(a, sep).push(b),
    decreases b.len(),
{
    let whole = a.push(sep) + b;
    if b.len() == 0 {
        assert(whole =~= a.push(sep));
        assert(whole.drop_last() =~= a);
        assert(b =~= Seq::empty());
    } else {
        let front = b.drop_last();
        assert(!front.contains(sep)) by {
            if front.contains(sep) {
                let k = choose|k: int| 0 <= k < front.len() && front[k] == sep;
                assert(b[k] == sep);
            }
        }
        assert(b[b.len() - 1] == b.last());
        split_concat(a, front, sep);
        assert(whole.drop_last() =~= a.push(sep) + front);
        assert(split(a, sep).push(front).drop_last() =~= split(a, sep));
        assert(front.push(b.last()) =~= b);
    }
}

/// A text that was joined from pieces without the separator splits into them.
pub proof fn split_join(pieces: Seq<Seq<char>>, sep: char)
    requires
        pieces.len() > 0,
        forall|i: int| 0 <= i < pieces.len() ==> !(#[trigger] pieces[i]).contains(sep),
    ensures
        split(join(pieces, seq![sep]), sep) == pieces,
    decreases pieces.len(),
{
    let front = pieces.drop_last();
    assert(!pieces[pieces.len() - 1].contains(sep));
    if pieces.len() == 1 {
        assert(join(pieces, seq![sep]) =~= pieces[0]);
        split_no_separator(pieces[0], sep);
        assert(pieces =~= seq![pieces[0]]);
    } else {
        assert forall|i: int| 0 <= i < front.len() implies !(#[trigger] front[i]).contains(sep) by {
            assert(front[i] == pieces[i]);
        }
        split_join(front, sep);
        split_concat(join(front, seq![sep]), pieces.last(), sep);
        assert(join(pieces, seq![sep]) =~= join(front, seq![sep]).push(sep) + pieces.last());
        assert(front.push(pieces.last()) =~= pieces);
    }
}

proof fn only_components_id(pieces: Seq<Seq<char>>)
    requires
        forall|i: int| 0 <= i < pieces.len() ==> is_component(#[trigger] pieces[i]),
    ensures
        only_components(pieces) == pieces,
    decreases pieces.len(),
{
    if pieces.len() > 0 {
        let front = pieces.drop_last();
        assert forall|i: int| 0 <= i < front.len() implies is_component(#[trigger] front[i]) by {
            assert(front[i] == pieces[i]);
        }
        only_components_id(front);
        assert(is_component(pieces[pieces.len() - 1]));
        assert(front.push(pieces.last()) =~= pieces);
    }
}

/// A path is read back from its text.
pub proof fn path_text_reads_back(p: Seq<Seq<char>>)
    requires
        well_formed(p),
    ensures
        components(path_text(p)) == p,
{
    let text = path_text(p);
    if p.len() == 0 {
        assert(text =~= Seq::empty());
        assert(components(text) =~= p);
    } else if p.len() == 1 && p[0].len() == 0 {
        assert(p[0] =~= Seq::empty());
        let twice = seq![Seq::<char>::empty(), Seq::<char>::empty()];
        assert(text =~= join(twice, seq!['/'])) by {
            assert(twice.drop_last() =~= seq![Seq::<char>::empty()]);
            reveal_with_fuel(join, 3);
        }
        split_join(twice, '/');
        let rest = twice.skip(1);
        assert(rest.drop_last() =~= Seq::empty());
        assert(only_components(rest) =~= Seq::empty()) by {
            reveal_with_fuel(only_components, 2);
        }
        assert(components(text) =~= p);
    } else {
        split_join(p, '/');
        let rest = p.skip(1);
        assert forall|i: int| 0 <= i < rest.len() implies is_component(#[trigger] rest[i]) by {
            assert(rest[i] == p[i + 1]);
        }
        only_components_id(rest);
        assert(text.len() > 0) by {
            if text.len() == 0 {
                assert(text =~= Seq::empty());
                split_no_separator(text, '/');
                assert(p =~= seq![text]);
            }
        }
        assert(components(text) =~= p);
    }
}

/// A path below another one, unless it starts at the root itself.
pub open spec fn path_join(p: Seq<Seq<char>>, q: Seq<Seq<char>>) -> Seq<Seq<char>> {
    if p.len() == 0 || q.len() > 0 && q[0].len() == 0 {
        q
    } else if q.len() > 0 && q[0] == "."@ {
        p + q.skip(1)
    } else {
        p + q
    }
}

/// The path of that text below another one.
pub open spec fn below(p: Seq<Seq<char>>, text: Seq<char>) -> Seq<Seq<char>> {
    path_join(p, components(text))
}

/// The last component, where it is a name.
pub open spec fn file_name(p: Seq<Seq<char>>) -> Option<Seq<char>> {
    if p.len() == 0 || p.last().len() == 0 || p.last() == "."@ || p.last() == ".."@ {
        None
    } else {
        Some(p.last())
    }
}

/// The path without its last component.
pub open spec fn parent(p: Seq<Seq<char>>) -> Option<Seq<Seq<char>>> {
    if p.len() == 0 || p.last().len() == 0 {
        None
    } else {
        Some(p.drop_last())
    }
}

/// The place of the last dot.
pub open spec fn last_dot(name: Seq<char>) -> Option<int>
    decreases name.len(),
{
    if name.len() == 0 {
        None
    } else if name.last() == '.' {
        Some(name.len() - 1)
    } else {
        last_dot(name.drop_last())
    }
}

/// The part of the file name behind the last dot, which is not the first
/// character.
pub open spec fn extension(p: Seq<Seq<char>>) -> Option<Seq<char>> {
    match file_name(p) {
        Some(name) => match last_dot(name) {
            Some(at) => if at == 0 {
                None
            } else {
                Some(name.skip(at + 1))
            },
            None => None,
        },
        None => None,
    }
}

/// The part of the file name before the last dot, unless that is the first
/// character.
pub open spec fn file_stem(p: Seq<Seq<char>>) -> Option<Seq<char>> {
    match file_name(p) {
        Some(name) => match last_dot(name) {
            Some(at) => if at == 0 {
                Some(name)
            } else {
                Some(name.take(at))
            },
            None => Some(name),
        },
        None => None,
    }
}

/// Another name in the place of the last component.
pub open spec fn with_file_name(p: Seq<Seq<char>>, name: Seq<char>) -> Seq<Seq<char>> {
    if file_name(p) is Some {
        path_join(p.drop_last(), components(name))
    } else {
        path_join(p, components(name))
    }
}

/// The path without the extension of its file name.
pub open spec fn without_extension(p: Seq<Seq<char>>) -> Seq<Seq<char>> {
    match file_stem(p) {
        Some(stem) => p.drop_last().push(stem),
        None => p,
    }
}

/// What follows `base` in the path.
pub open spec fn relative_to(p: Seq<Seq<char>>, base: Seq<Seq<char>>) -> Option<Seq<Seq<char>>> {
    if base.len() <= p.len() && p.take(base.len() as int) == base {
        Some(p.skip(base.len() as int))
    } else {
        None
    }
}

/// The root stands before `.`, that before `..`, and that before any name.
pub open spec fn component_class(part: Seq<char>) -> int {
    if part.len() == 0 {
        0
    } else if part == "."@ {
        1
    } else if part == ".."@ {
        2
    } else {
        3
    }
}

pub open spec fn component_order(a: Seq<char>, b: Seq<char>) -> int {
    if component_class(a) != component_class(b) {
        component_class(a) - component_class(b)
    } else {
        text_order(a, b)
    }
}

/// Paths are ordered component by component.
pub open spec fn path_order(a: Seq<Seq<char>>, b: Seq<Seq<char>>) -> int {
    lexicographic(a, b, |x: Seq<char>, y: Seq<char>| component_order(x, y))
}

/// The order of paths is total, and equals under it are equal.
pub proof fn path_order_laws()
    ensures
        is_order(|a: Seq<Seq<char>>, b: Seq<Seq<char>>| path_order(a, b)),
        is_strict(|a: Seq<Seq<char>>, b: Seq<Seq<char>>| path_order(a, b)),
{
    text_order_laws();
    let text = |a: Seq<char>, b: Seq<char>| text_order(a, b);
    let part = |a: Seq<char>, b: Seq<char>| component_order(a, b);
    assert forall|a: Seq<char>, b: Seq<char>| #[trigger] part(a, b) == 0 implies a == b by {
        assert(text(a, b) == 0);
    }
    assert forall|a: Seq<char>, b: Seq<char>| #[trigger] part(a, b) == -part(b, a) by {
        assert(text(a, b) == -text(b, a));
    }
    assert forall|a: Seq<char>, b: Seq<char>, c: Seq<char>|
        #[trigger] part(a, b) <= 0 && #[trigger] part(b, c) <= 0 implies part(a, c) <= 0 by {
        assert(text(a, b) <= 0 && text(b, c) <= 0 ==> text(a, c) <= 0);
    }
    assert forall|a: Seq<char>| #[trigger] part(a, a) == 0 by {
        assert(text(a, a) == 0);
    }
    lexicographic_is_order(part);
    let paths = |a: Seq<Seq<char>>, b: Seq<Seq<char>>| path_order(a, b);
    let plain = |a: Seq<Seq<char>>, b: Seq<Seq<char>>| lexicographic(a, b, part);
    assert(paths =~= plain);
    assert forall|a: Seq<Seq<char>>, b: Seq<Seq<char>>| #[trigger] paths(a, b) == 0 implies a == b by {
        crate::order::lexicographic_zero(a, b, part);
    }
}

/// A path.
pub struct SourcePath {
    pub parts: Vec<String>,
}

impl DeepView for SourcePath {
    type V = Seq<Seq<char>>;

    open spec fn deep_view(&self) -> Seq<Seq<char>> {
        self.parts.deep_view()
    }
}

/// A copy of the texts of a list from one place to another.
fn texts_between(texts: &Vec<String>, from: usize, to: usize) -> (r: Vec<String>)
    requires
        from <= to <= texts@.len(),
    ensures
        r.deep_view() == texts.deep_view().subrange(from as int, to as int),
{
    let mut out: Vec<String> = Vec::new();
    let mut i = from;
    assert(out.deep_view() =~= texts.deep_view().subrange(from as int, from as int));
    while i < to
        invariant
            from <= i <= to <= texts@.len(),
            out.deep_view() == texts.deep_view().subrange(from as int, i as int),
        decreases to - i,
    {
        let ghost before = out.deep_view();
        out.push(texts[i].clone());
        assert(out.deep_view() =~= before.push(texts.deep_view()[i as int]));
        assert(out.deep_view() =~= texts.deep_view().subrange(from as int, i + 1));
        i = i + 1;
    }
    out
}

/// The place of the last dot of a name.
fn find_last_dot(chars: &Vec<char>) -> (r: Option<usize>)
    ensures
        match r {
            Some(at) => last_dot(chars@) == Some(at as int) && at < chars@.len(),
            None => last_dot(chars@) is None,
        },
{
    let mut n = chars.len();
    assert(chars@.take(n as int) =~= chars@);
    while n > 0
        invariant
            n <= chars@.len(),
            last_dot(chars@) == last_dot(chars@.take(n as int)),
        decreases n,
    {
        let ghost here = chars@.take(n as int);
        assert(here.last() == chars@[n - 1]);
        assert(here.drop_last() =~= chars@.take(n - 1));
        if chars[n - 1] == '.' {
            return Some(n - 1);
        }
        n = n - 1;
    }
    None
}

impl SourcePath {
    /// The path that a text names.
    pub fn new(text: &str) -> (r: SourcePath)
        ensures
            r.deep_view() == components(text@),
            well_formed(r.deep_view()),
    {
        let pieces = split_text(text, '/');
        let ghost all = pieces.deep_view();
        let mut parts: Vec<String> = Vec::new();
        proof {
            split_not_empty(text@, '/');
            components_well_formed(text@);
        }
        let is_empty = pieces.len() == 1 && pieces[0].as_str().is_empty();
        proof {
            if text@.len() == 0 {
                assert(split(text@, '/') =~= seq![text@]);
                assert(all[0] == pieces@[0]@);
            }
            if all.len() == 1 && all[0].len() == 0 && text@.len() > 0 {
                let front = split(text@.drop_last(), '/');
                split_not_empty(text@.drop_last(), '/');
                assert(false) by {
                    if text@.last() == '/' {
                        assert(all.len() == front.len() + 1);
                    } else {
                        assert(all.last().len() > 0);
                    }
                }
            }
        }
        if is_empty {
            assert(parts.deep_view() =~= components(text@));
            return SourcePath { parts };
        }
        parts.push(pieces[0].clone());
        assert(parts.deep_view() =~= seq![all[0]]);
        let mut i: usize = 1;
        let ghost rest = all.skip(1);
        assert(rest.take(0) =~= Seq::empty());
        assert(parts.deep_view() =~= seq![all[0]] + only_components(rest.take(0)));
        while i < pieces.len()
            invariant
                1 <= i <= pieces@.len(),
                all == pieces.deep_view(),
                rest == all.skip(1),
                parts.deep_view() == seq![all[0]] + only_components(rest.take(i - 1)),
            decreases pieces.len() - i,
        {
            let ghost before = parts.deep_view();
            assert(rest.take(i as int).drop_last() =~= rest.take(i - 1));
            assert(rest.take(i as int).last() == pieces@[i as int]@);
            if !pieces[i].as_str().is_empty() && !same_text(pieces[i].as_str(), ".") {
                parts.push(pieces[i].clone());
                assert(parts.deep_view() =~= before.push(pieces@[i as int]@));
                assert(before.push(pieces@[i as int]@) =~= seq![all[0]] + only_components(
                    rest.take(i - 1),
                ).push(pieces@[i as int]@));
            }
            i = i + 1;
        }
        assert(rest.take(rest.len() as int) =~= rest);
        SourcePath { parts }
    }

    /// The text of the path.
    pub fn text(&self) -> (r: String)
        ensures
            r@ == path_text(self.deep_view()),
    {
        assert(self.parts@.len() > 0 ==> self.deep_view()[0] == self.parts@[0]@);
        proof {
            reveal_strlit("/");
            assert("/"@ =~= seq!['/']);
        }
        if self.parts.len() == 1 && self.parts[0].as_str().is_empty() {
            "/".to_owned()
        } else {
            join_texts(&self.parts, "/")
        }
    }

    pub fn copy(&self) -> (r: SourcePath)
        ensures
            r.deep_view() == self.deep_view(),
    {
        let parts = texts_between(&self.parts, 0, self.parts.len());
        assert(parts.deep_view() =~= self.deep_view());
        SourcePath { parts }
    }

    /// The path of that text below this one.
    pub fn join(&self, text: &str) -> (r: SourcePath)
        ensures
            r.deep_view() == below(self.deep_view(), text@),
    {
        let below = SourcePath::new(text);
        self.join_path(below)
    }

    fn join_path(&self, below: SourcePath) -> (r: SourcePath)
        ensures
            r.deep_view() == path_join(self.deep_view(), below.deep_view()),
    {
        let ghost p = self.deep_view();
        let ghost q = below.deep_view();
        assert(q.len() > 0 ==> q[0] == below.parts@[0]@);
        if self.parts.len() == 0 || below.parts.len() > 0 && below.parts[0].as_str().is_empty() {
            return below;
        }
        let from: usize = if below.parts.len() > 0 && same_text(below.parts[0].as_str(), ".") {
            1
        } else {
            0
        };
        let mut parts = texts_between(&self.parts, 0, self.parts.len());
        let mut i = from;
        assert(parts.deep_view() =~= p + q.subrange(from as int, i as int));
        while i < below.parts.len()
            invariant
                from <= i <= below.parts@.len(),
                p == self.deep_view(),
                q == below.deep_view(),
                parts.deep_view() == p + q.subrange(from as int, i as int),
            decreases below.parts.len() - i,
        {
            let ghost before = parts.deep_view();
            parts.push(below.parts[i].clone());
            assert(parts.deep_view() =~= before.push(q[i as int]));
            assert(parts.deep_view() =~= p + q.subrange(from as int, i + 1));
            i = i + 1;
        }
        assert(parts.deep_view() =~= path_join(p, q));
        SourcePath { parts }
    }

    /// The last component, where it is a name.
    pub fn file_name(&self) -> (r: Option<&str>)
        ensures
            r.deep_view() == file_name(self.deep_view()),
    {
        let n = self.parts.len();
        if n == 0 {
            return None;
        }
        assert(self.deep_view().last() == self.parts@[n - 1]@);
        let last = self.parts[n - 1].as_str();
        if last.is_empty() || same_text(last, ".") || same_text(last, "..") {
            None
        } else {
            Some(last)
        }
    }

    /// Whether the file name is that one.
    pub fn is_named(&self, name: &str) -> (r: bool)
        ensures
            r == (file_name(self.deep_view()) == Some(name@)),
    {
        match self.file_name() {
            Some(own) => same_text(own, name),
            None => false,
        }
    }

    /// The path without its last component.
    pub fn parent(&self) -> (r: Option<SourcePath>)
        ensures
            r.deep_view() == parent(self.deep_view()),
    {
        let n = self.parts.len();
        if n == 0 {
            return None;
        }
        assert(self.deep_view().last() == self.parts@[n - 1]@);
        if self.parts[n - 1].as_str().is_empty() {
            None
        } else {
            let parts = texts_between(&self.parts, 0, n - 1);
            assert(parts.deep_view() =~= self.deep_view().drop_last());
            Some(SourcePath { parts })
        }
    }

    /// The part of the file name behind the last dot.
    pub fn extension(&self) -> (r: Option<String>)
        ensures
            r.deep_view() == extension(self.deep_view()),
    {
        match self.file_name() {
            Some(name) => {
                let chars = chars_of(name);
                let n = chars.len();
                match find_last_dot(&chars) {
                    Some(at) => if at == 0 {
                        None
                    } else {
                        assert(chars@.subrange(at + 1, chars@.len() as int) =~= chars@.skip(at + 1));
                        Some(text_of(&chars, at + 1, n))
                    },
                    None => None,
                }
            },
            None => None,
        }
    }

    /// Whether the extension is that one.
    pub fn has_extension(&self, wanted: &str) -> (r: bool)
        ensures
            r == (extension(self.deep_view()) == Some(wanted@)),
    {
        match self.extension() {
            Some(own) => same_text(own.as_str(), wanted),
            None => false,
        }
    }

    /// The part of the file name before the last dot.
    pub fn file_stem(&self) -> (r: Option<String>)
        ensures
            r.deep_view() == file_stem(self.deep_view()),
    {
        match self.file_name() {
            Some(name) => {
                let chars = chars_of(name);
                match find_last_dot(&chars) {
                    Some(at) => if at == 0 {
                        Some(name.to_owned())
                    } else {
                        assert(chars@.subrange(0, at as int) =~= chars@.take(at as int));
                        Some(text_of(&chars, 0, at))
                    },
                    None => Some(name.to_owned()),
                }
            },
            None => None,
        }
    }

    /// The path with another name in the place of its last component.
    pub fn with_file_name(&self, name: &str) -> (r: SourcePath)
        ensures
            r.deep_view() == with_file_name(self.deep_view(), name@),
    {
        let named = self.file_name().is_some();
        if named {
            let parts = texts_between(&self.parts, 0, self.parts.len() - 1);
            assert(parts.deep_view() =~= self.deep_view().drop_last());
            let directory = SourcePath { parts };
            directory.join(name)
        } else {
            self.join(name)
        }
    }

    /// The path without the extension of its file name.
    pub fn without_extension(&self) -> (r: SourcePath)
        ensures
            r.deep_view() == without_extension(self.deep_view()),
    {
        match self.file_stem() {
            Some(stem) => {
                let mut parts = texts_between(&self.parts, 0, self.parts.len() - 1);
                assert(parts.deep_view() =~= self.deep_view().drop_last());
                let ghost before = parts.deep_view();
                let ghost name = stem@;
                parts.push(stem);
                assert(parts.deep_view() =~= before.push(name));
                SourcePath { parts }
            },
            None => self.copy(),
        }
    }

    /// What follows `base` in the path.
    pub fn relative_to(&self, base: &SourcePath) -> (r: Option<SourcePath>)
        ensures
            r.deep_view() == relative_to(self.deep_view(), base.deep_view()),
    {
        let ghost p = self.deep_view();
        let ghost b = base.deep_view();
        let n = base.parts.len();
        if n > self.parts.len() {
            return None;
        }
        let front = SourcePath { parts: texts_between(&self.parts, 0, n) };
        assert(front.deep_view() =~= p.take(b.len() as int));
        if front.is_like(base) {
            let parts = texts_between(&self.parts, n, self.parts.len());
            assert(parts.deep_view() =~= p.skip(b.len() as int));
            Some(SourcePath { parts })
        } else {
            None
        }
    }
}

impl Kinded for SourcePath {
    open spec fn alike(a: Seq<Seq<char>>, b: Seq<Seq<char>>) -> bool {
        a == b
    }

    proof fn alike_is_equivalence() {
    }

    fn is_like(&self, other: &SourcePath) -> (r: bool) {
        let ghost a = self.deep_view();
        let ghost b = other.deep_view();
        assert(SourcePath::alike(self.deep_view(), other.deep_view()) == (a == b));
        if self.parts.len() != other.parts.len() {
            assert(a.len() != b.len());
            return false;
        }
        let mut i: usize = 0;
        while i < self.parts.len()
            invariant
                i <= self.parts@.len(),
                self.parts@.len() == other.parts@.len(),
                a == self.deep_view(),
                b == other.deep_view(),
                forall|k: int| 0 <= k < i ==> a[k] == b[k],
            decreases self.parts.len() - i,
        {
            if self.parts[i] != other.parts[i] {
                assert(a[i as int] != b[i as int]);
                assert(SourcePath::alike(self.deep_view(), other.deep_view()) == (a == b));
                return false;
            }
            assert(a[i as int] == b[i as int]);
            i = i + 1;
        }
        assert(a =~= b);
        true
    }
}

fn component_class_of(part: &str) -> (r: i8)
    ensures
        r == component_class(part@),
{
    if part.is_empty() {
        0
    } else if same_text(part, ".") {
        1
    } else if same_text(part, "..") {
        2
    } else {
        3
    }
}

fn order_components(a: &str, b: &str) -> (r: i8)
    ensures
        r == crate::order::sign(component_order(a@, b@)),
{
    let x = component_class_of(a);
    let y = component_class_of(b);
    if x < y {
        -1
    } else if x > y {
        1
    } else {
        order_texts(a, b)
    }
}

impl Ranked for SourcePath {
    open spec fn rank(a: Seq<Seq<char>>, b: Seq<Seq<char>>) -> int {
        path_order(a, b)
    }

    fn rank_with(&self, other: &SourcePath) -> (r: i8) {
        let ghost order = |x: Seq<char>, y: Seq<char>| component_order(x, y);
        let ghost a = self.deep_view();
        let ghost b = other.deep_view();
        let mut i: usize = 0;
        assert(SourcePath::rank(self.deep_view(), other.deep_view()) == lexicographic(a, b, order));
        assert(a.skip(0) =~= a);
        assert(b.skip(0) =~= b);
        while i < self.parts.len() && i < other.parts.len()
            invariant
                order == (|x: Seq<char>, y: Seq<char>| component_order(x, y)),
                a == self.deep_view(),
                b == other.deep_view(),
                i <= a.len(),
                i <= b.len(),
                lexicographic(a, b, order) == lexicographic(a.skip(i as int), b.skip(i as int), order),
            decreases self.parts.len() - i,
        {
            let step = order_components(self.parts[i].as_str(), other.parts[i].as_str());
            assert(a.skip(i as int)[0] == self.parts@[i as int]@);
            assert(b.skip(i as int)[0] == other.parts@[i as int]@);
            if step != 0 {
                assert(SourcePath::rank(self.deep_view(), other.deep_view()) == lexicographic(a, b, order));
                return step;
            }
            assert(a.skip(i as int).skip(1) =~= a.skip(i + 1));
            assert(b.skip(i as int).skip(1) =~= b.skip(i + 1));
            i = i + 1;
        }
        if i < self.parts.len() {
            1
        } else if i < other.parts.len() {
            -1
        } else {
            0
        }
    }
}

/// Whether a file name is that one.
pub open spec fn is_named(p: Seq<Seq<char>>, name: Seq<char>) -> bool {
    file_name(p) == Some(name)
}

/// Whether a directory and the one above it have these names.
pub open spec fn ends_in(p: Seq<Seq<char>>, above: Seq<char>, name: Seq<char>) -> bool {
    &&& is_named(p, name)
    &&& parent(p) matches Some(up) && is_named(up, above)
}

impl SourcePath {
    /// Whether a directory and the one above it have these names.
    pub fn ends_in(&self, above: &str, name: &str) -> (r: bool)
        ensures
            r == ends_in(self.deep_view(), above@, name@),
    {
        self.is_named(name) && match self.parent() {
            Some(up) => up.is_named(above),
            None => false,
        }
    }
}

/// The path of a plain name below another one ends in that name, and leads back to the
/// other one.
pub proof fn names_go_below(p: Seq<Seq<char>>, name: Seq<char>)
    requires
        p.len() > 0,
        name.len() > 0,
        !name.contains('/'),
        name != "."@,
    ensures
        below(p, name) == p.push(name),
        parent(below(p, name)) == Some(p),
        name != ".."@ ==> file_name(below(p, name)) == Some(name),
{
    split_no_separator(name, '/');
    let pieces = split(name, '/');
    assert(pieces.skip(1) =~= Seq::empty());
    assert(components(name) =~= seq![name]);
    assert(p + seq![name] =~= p.push(name));
    assert(p.push(name).drop_last() =~= p);
}

/// What goes below a path by a slash goes below step by step.
pub proof fn slashes_go_below_step_by_step(p: Seq<Seq<char>>, a: Seq<char>, b: Seq<char>)
    requires
        p.len() > 0,
        a.len() > 0,
        b.len() > 0,
        !a.contains('/'),
        !b.contains('/'),
        a != "."@,
        b != "."@,
    ensures
        below(p, a.push('/') + b) == p.push(a).push(b),
{
    split_no_separator(a, '/');
    split_concat(a, b, '/');
    let text = a.push('/') + b;
    assert(split(text, '/') =~= seq![a, b]);
    let rest = split(text, '/').skip(1);
    assert(rest =~= seq![b]);
    assert(only_components(rest.drop_last()) =~= Seq::empty());
    assert(only_components(rest) =~= seq![b]);
    assert(components(text) =~= seq![a, b]);
    assert(p + seq![a, b] =~= p.push(a).push(b));
}

proof fn last_dot_is(stem: Seq<char>, ext: Seq<char>)
    requires
        !ext.contains('.'),
    ensures
        last_dot(stem.push('.') + ext) == Some(stem.len() as int),
        last_dot(ext) is None,
    decreases ext.len(),
{
    let name = stem.push('.') + ext;
    if ext.len() == 0 {
        assert(name =~= stem.push('.'));
    } else {
        let front = ext.drop_last();
        assert(ext[ext.len() - 1] == ext.last());
        assert(ext.contains(ext.last()));
        assert(!front.contains('.')) by {
            if front.contains('.') {
                let k = choose|k: int| 0 <= k < front.len() && front[k] == '.';
                assert(ext[k] == '.');
            }
        }
        last_dot_is(stem, front);
        assert(name.drop_last() =~= stem.push('.') + front);
    }
}

/// The extension of a file is what follows the last dot of its name, and the stem what
/// precedes it; a name without a dot, or with none but in front, is all stem.
pub proof fn names_part_at_the_last_dot(p: Seq<Seq<char>>, stem: Seq<char>, ext: Seq<char>)
    requires
        !ext.contains('.'),
        file_name(p) is Some,
    ensures
        stem.len() > 0 && p.last() == stem.push('.') + ext ==> extension(p) == Some(ext) && file_stem(p) == Some(stem),
        p.last() == ext ==> extension(p) is None && file_stem(p) == Some(ext),
        p.last() == seq!['.'] + ext ==> extension(p) is None && file_stem(p) == Some(p.last()),
        stem.len() > 0 && p.last() == stem.push('.') + ext ==> without_extension(p) == p.drop_last().push(stem),
{
    last_dot_is(stem, ext);
    last_dot_is(Seq::empty(), ext);
    assert(Seq::<char>::empty().push('.') =~= seq!['.']);
    let name = stem.push('.') + ext;
    assert(name.skip(stem.len() as int + 1) =~= ext);
    assert(name.take(stem.len() as int) =~= stem);
}

/// What follows a base in a path that begins with it is the rest, and nothing follows a
/// base that the path does not begin with.
pub proof fn paths_go_on_behind_their_base(base: Seq<Seq<char>>, rest: Seq<Seq<char>>, p: Seq<Seq<char>>)
    ensures
        relative_to(base + rest, base) == Some(rest),
        relative_to(p, base) matches Some(r) ==> p == base + r,
{
    let all = base + rest;
    assert(all.take(base.len() as int) =~= base);
    assert(all.skip(base.len() as int) =~= rest);
    if let Some(r) = relative_to(p, base) {
        assert(p =~= p.take(base.len() as int) + r);
    }
}

/// A directory comes before what stands in it, and of two names in one directory the one
/// that comes first in the order of texts comes first.
pub proof fn paths_are_in_the_order_of_their_names(
    p: Seq<Seq<char>>,
    a: Seq<char>,
    b: Seq<char>,
    x: Seq<Seq<char>>,
    y: Seq<Seq<char>>,
)
    requires
        a.len() > 0 && a != "."@ && a != ".."@,
        b.len() > 0 && b != "."@ && b != ".."@,
    ensures
        path_order(p, p.push(a) + x) < 0,
        text_order(a, b) < 0 ==> path_order(p.push(a) + x, p.push(b) + y) < 0,
    decreases p.len(),
{
    let q = p.push(a) + x;
    let r = p.push(b) + y;
    if p.len() > 0 {
        paths_are_in_the_order_of_their_names(p.skip(1), a, b, x, y);
        assert(q.skip(1) =~= p.skip(1).push(a) + x);
        assert(r.skip(1) =~= p.skip(1).push(b) + y);
        crate::order::text_order_laws();
        let text = |s: Seq<char>, u: Seq<char>| text_order(s, u);
        assert(text(p[0], p[0]) == 0);
        assert(component_order(p[0], p[0]) == 0);
    }
}

/// Another name in the place of the last one stands in the same directory.
pub proof fn other_names_stand_beside(dir: Seq<Seq<char>>, a: Seq<char>, b: Seq<char>)
    requires
        dir.len() > 0,
        a.len() > 0 && a != "."@ && a != ".."@,
        b.len() > 0 && b != "."@ && !b.contains('/'),
    ensures
        with_file_name(dir.push(a), b) == dir.push(b),
{
    assert(dir.push(a).drop_last() =~= dir);
    names_go_below(dir, b);
}

} // verus!
