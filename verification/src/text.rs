//! Text as a sequence of characters: comparison, trimming and joining.
use vstd::prelude::*;
use vstd::utf8::{decode_utf8, encode_utf8, valid_utf8};

verus! {

/// `String::push` puts one character behind the text.
pub assume_specification[ String::push ](text: &mut String, c: char)
    ensures
        final(text)@ == old(text)@.push(c),
;

/// The error that `String::from_utf8` returns for bytes that are not UTF-8.
#[verifier::external_type_specification]
#[verifier::external_body]
pub struct ExFromUtf8Error(std::string::FromUtf8Error);

/// `String::from_utf8` takes bytes over as text: it succeeds exactly on valid
/// UTF-8 and gives back the characters that the bytes encode.
pub assume_specification[ String::from_utf8 ](bytes: Vec<u8>) -> (r: Result<
    String,
    std::string::FromUtf8Error,
>)
    ensures
        r is Ok <==> valid_utf8(bytes@),
        r matches Ok(text) ==> text@ == decode_utf8(bytes@),
;

/// The characters of a text, one by one.
pub fn chars_of(text: &str) -> (r: Vec<char>)
    ensures
        r@ == text@,
{
    let mut out: Vec<char> = Vec::new();
    for c in it: text.chars()
        invariant
            it.seq() == text@,
            out@ == text@.take(it.index() as int),
    {
        assert(text@.take(it.index() + 1) =~= text@.take(it.index() as int).push(c));
        out.push(c);
    }
    assert(text@.take(text@.len() as int) =~= text@);
    out
}

/// The characters `from .. to` of a list, as a text.
pub fn text_of(chars: &Vec<char>, from: usize, to: usize) -> (r: String)
    requires
        from <= to <= chars@.len(),
    ensures
        r@ == chars@.subrange(from as int, to as int),
{
    let mut out = String::new();
    let mut i: usize = from;
    while i < to
        invariant
            from <= i <= to <= chars@.len(),
            out@ == chars@.subrange(from as int, i as int),
        decreases to - i,
    {
        out.push(chars[i]);
        i = i + 1;
        assert(chars@.subrange(from as int, i as int) =~= chars@.subrange(
            from as int,
            i - 1,
        ).push(chars@[i - 1]));
    }
    out
}

/// Whether two texts hold the same characters.
pub fn same_text(a: &str, b: &str) -> (r: bool)
    ensures
        r == (a@ == b@),
{
    let x = a.as_bytes();
    let y = b.as_bytes();
    proof {
        vstd::utf8::encode_utf8_decode_utf8(a@);
        vstd::utf8::encode_utf8_decode_utf8(b@);
    }
    if x.len() != y.len() {
        return false;
    }
    let mut i: usize = 0;
    while i < x.len()
        invariant
            x@ == encode_utf8(a@),
            y@ == encode_utf8(b@),
            x@.len() == y@.len(),
            i <= x@.len(),
            forall|k: int| 0 <= k < i ==> x@[k] == y@[k],
        decreases x.len() - i,
    {
        if x[i] != y[i] {
            return false;
        }
        i = i + 1;
    }
    assert(x@ =~= y@);
    true
}

/// Puts `more` behind `out`.
pub fn push_text(out: &mut String, more: &str)
    ensures
        final(out)@ == old(out)@ + more@,
{
    let chars = chars_of(more);
    let ghost start = out@;
    let mut i: usize = 0;
    while i < chars.len()
        invariant
            chars@ == more@,
            i <= chars@.len(),
            out@ == start + more@.take(i as int),
        decreases chars.len() - i,
    {
        out.push(chars[i]);
        i = i + 1;
        assert(more@.take(i as int) =~= more@.take(i - 1).push(more@[i - 1]));
        assert(out@ =~= start + more@.take(i as int));
    }
    assert(more@.take(more@.len() as int) =~= more@);
    assert(out@ =~= start + more@);
}

/// Two texts, one behind the other.
pub fn cat(a: &str, b: &str) -> (r: String)
    ensures
        r@ == a@ + b@,
{
    let mut out = a.to_owned();
    push_text(&mut out, b);
    out
}

/// Three texts, one behind the other.
pub fn cat3(a: &str, b: &str, c: &str) -> (r: String)
    ensures
        r@ == a@ + b@ + c@,
{
    let mut out = cat(a, b);
    push_text(&mut out, c);
    out
}

/// The characters with the Unicode property White_Space.
pub open spec fn is_white(c: char) -> bool {
    ||| '\u{9}' <= c && c <= '\u{d}'
    ||| c == '\u{20}'
    ||| c == '\u{85}'
    ||| c == '\u{a0}'
    ||| c == '\u{1680}'
    ||| '\u{2000}' <= c && c <= '\u{200a}'
    ||| c == '\u{2028}'
    ||| c == '\u{2029}'
    ||| c == '\u{202f}'
    ||| c == '\u{205f}'
    ||| c == '\u{3000}'
}

pub fn white(c: char) -> (r: bool)
    ensures
        r == is_white(c),
{
    ('\u{9}' <= c && c <= '\u{d}') || c == '\u{20}' || c == '\u{85}' || c == '\u{a0}' || c == '\u{1680}'
        || ('\u{2000}' <= c && c <= '\u{200a}') || c == '\u{2028}' || c == '\u{2029}' || c == '\u{202f}'
        || c == '\u{205f}' || c == '\u{3000}'
}

/// A text without its leading white space.
pub open spec fn trim_start(s: Seq<char>) -> Seq<char>
    decreases s.len(),
{
    if s.len() > 0 && is_white(s[0]) {
        trim_start(s.skip(1))
    } else {
        s
    }
}

/// A text without its trailing white space.
pub open spec fn trim_end(s: Seq<char>) -> Seq<char>
    decreases s.len(),
{
    if s.len() > 0 && is_white(s.last()) {
        trim_end(s.drop_last())
    } else {
        s
    }
}

/// A text without the white space at either end.
pub open spec fn trim(s: Seq<char>) -> Seq<char> {
    trim_start(trim_end(s))
}

/// A text of white space alone, the empty text among them.
pub open spec fn blank(s: Seq<char>) -> bool {
    forall|i: int| 0 <= i < s.len() ==> is_white(#[trigger] s[i])
}

/// Trimming leaves nothing exactly of a blank text.
pub proof fn trim_empty_iff_blank(s: Seq<char>)
    ensures
        trim(s).len() == 0 <==> blank(s),
{
    trim_end_blank(s);
    trim_start_blank(trim_end(s));
    if blank(s) {
        assert(trim_end(s).len() == 0);
    }
}

proof fn trim_end_blank(s: Seq<char>)
    ensures
        blank(s) <==> blank(trim_end(s)),
        blank(s) ==> trim_end(s).len() == 0,
    decreases s.len(),
{
    if s.len() > 0 && is_white(s.last()) {
        trim_end_blank(s.drop_last());
        assert(blank(s) <==> blank(s.drop_last())) by {
            if blank(s.drop_last()) {
                assert forall|i: int| 0 <= i < s.len() implies is_white(#[trigger] s[i]) by {
                    if i < s.len() - 1 {
                        assert(s.drop_last()[i] == s[i]);
                    }
                }
            }
        }
    } else if s.len() > 0 {
        assert(!is_white(s[s.len() - 1]));
    }
}

proof fn trim_start_blank(s: Seq<char>)
    ensures
        trim_start(s).len() == 0 <==> blank(s),
    decreases s.len(),
{
    if s.len() > 0 && is_white(s[0]) {
        trim_start_blank(s.skip(1));
        assert(blank(s) <==> blank(s.skip(1))) by {
            if blank(s.skip(1)) {
                assert forall|i: int| 0 <= i < s.len() implies is_white(#[trigger] s[i]) by {
                    if i > 0 {
                        assert(s.skip(1)[i - 1] == s[i]);
                    }
                }
            }
        }
    } else if s.len() > 0 {
        assert(!is_white(s[0]));
    }
}

/// Whether a text is blank.
pub fn is_blank(text: &str) -> (r: bool)
    ensures
        r == blank(text@),
{
    let chars = chars_of(text);
    let mut i: usize = 0;
    while i < chars.len()
        invariant
            chars@ == text@,
            i <= chars@.len(),
            forall|k: int| 0 <= k < i ==> is_white(#[trigger] text@[k]),
        decreases chars.len() - i,
    {
        if !white(chars[i]) {
            assert(!is_white(text@[i as int]));
            return false;
        }
        i = i + 1;
    }
    true
}

/// The text without the white space at either end.
pub fn trimmed(text: &str) -> (r: String)
    ensures
        r@ == trim(text@),
{
    let chars = chars_of(text);
    let mut to: usize = chars.len();
    assert(chars@.take(to as int) =~= chars@);
    while to > 0 && white(chars[to - 1])
        invariant
            to <= chars@.len(),
            trim_end(chars@) == trim_end(chars@.take(to as int)),
        decreases to,
    {
        assert(chars@.take(to as int).drop_last() =~= chars@.take(to - 1));
        to = to - 1;
    }
    let ghost body = chars@.take(to as int);
    assert(trim_end(chars@) == body);
    let mut from: usize = 0;
    assert(body.skip(0) =~= body);
    while from < to && white(chars[from])
        invariant
            from <= to <= chars@.len(),
            body == chars@.take(to as int),
            trim_start(body) == trim_start(body.skip(from as int)),
        decreases to - from,
    {
        assert(body.skip(from as int).skip(1) =~= body.skip(from + 1));
        from = from + 1;
    }
    assert(body.skip(from as int) =~= chars@.subrange(from as int, to as int));
    text_of(&chars, from, to)
}

/// Where `needle` stands in `hay` at position `i`.
pub open spec fn occurs_at(hay: Seq<char>, needle: Seq<char>, i: int) -> bool {
    &&& 0 <= i
    &&& i + needle.len() <= hay.len()
    &&& hay.subrange(i, i + needle.len()) == needle
}

/// Whether `needle` stands somewhere in `hay`.
pub open spec fn has_text(hay: Seq<char>, needle: Seq<char>) -> bool {
    exists|i: int| occurs_at(hay, needle, i)
}

/// The first position of `needle` in `hay` at or behind `from`.
pub open spec fn find_from(hay: Seq<char>, needle: Seq<char>, from: int) -> Option<int>
    decreases hay.len() + 1 - from,
{
    if from < 0 || from + needle.len() > hay.len() {
        None
    } else if occurs_at(hay, needle, from) {
        Some(from)
    } else {
        find_from(hay, needle, from + 1)
    }
}

pub proof fn find_from_sound(hay: Seq<char>, needle: Seq<char>, from: int)
    requires
        0 <= from,
    ensures
        find_from(hay, needle, from) matches Some(i) ==> from <= i && occurs_at(hay, needle, i),
        find_from(hay, needle, from) is None ==> forall|i: int| from <= i ==> !occurs_at(hay, needle, i),
    decreases hay.len() + 1 - from,
{
    if from + needle.len() <= hay.len() && !occurs_at(hay, needle, from) {
        find_from_sound(hay, needle, from + 1);
        if find_from(hay, needle, from) is None {
            assert forall|i: int| from <= i implies !occurs_at(hay, needle, i) by {
                if i > from {
                    assert(!occurs_at(hay, needle, i));
                }
            }
        }
    }
}

/// Whether `needle` stands in `hay` at position `at`.
pub fn matches_at(hay: &Vec<char>, needle: &Vec<char>, at: usize) -> (r: bool)
    ensures
        r == occurs_at(hay@, needle@, at as int),
{
    if at > hay.len() || needle.len() > hay.len() - at {
        return false;
    }
    let mut k: usize = 0;
    while k < needle.len()
        invariant
            at + needle.len() <= hay.len(),
            k <= needle@.len(),
            forall|j: int| 0 <= j < k ==> hay@[at + j] == needle@[j],
        decreases needle.len() - k,
    {
        if hay[at + k] != needle[k] {
            assert(hay@.subrange(at as int, at + needle@.len())[k as int] != needle@[k as int]);
            return false;
        }
        k = k + 1;
    }
    assert(hay@.subrange(at as int, at + needle@.len()) =~= needle@);
    true
}

/// The first position of `needle` in `hay` at or behind `from`.
pub fn position_from(hay: &Vec<char>, needle: &Vec<char>, from: usize) -> (r: Option<usize>)
    ensures
        match r {
            Some(i) => find_from(hay@, needle@, from as int) == Some(i as int) && i + needle@.len() <= hay@.len(),
            None => find_from(hay@, needle@, from as int) is None,
        },
{
    let mut i: usize = from;
    while i <= hay.len() && needle.len() <= hay.len() - i
        invariant
            from <= i,
            find_from(hay@, needle@, from as int) == find_from(hay@, needle@, i as int),
        decreases hay.len() + 1 - i,
    {
        if matches_at(hay, needle, i) {
            return Some(i);
        }
        if i == hay.len() {
            assert(find_from(hay@, needle@, i + 1) is None);
            return None;
        }
        i = i + 1;
    }
    None
}

/// Whether `needle` stands somewhere in `hay`.
pub fn contains_text(hay: &str, needle: &str) -> (r: bool)
    ensures
        r == has_text(hay@, needle@),
{
    let h = chars_of(hay);
    let n = chars_of(needle);
    proof {
        find_from_sound(h@, n@, 0);
    }
    match position_from(&h, &n, 0) {
        Some(i) => {
            assert(occurs_at(hay@, needle@, i as int));
            true
        },
        None => {
            assert forall|i: int| !occurs_at(hay@, needle@, i) by {
                if i >= 0 {
                    assert(!occurs_at(h@, n@, i));
                }
            }
            false
        },
    }
}

/// Whether `s` begins with `prefix`.
pub open spec fn starts(s: Seq<char>, prefix: Seq<char>) -> bool {
    prefix.len() <= s.len() && s.take(prefix.len() as int) == prefix
}

/// Whether `s` ends in `suffix`.
pub open spec fn ends(s: Seq<char>, suffix: Seq<char>) -> bool {
    suffix.len() <= s.len() && s.skip(s.len() - suffix.len()) == suffix
}

pub fn starts_with(text: &str, prefix: &str) -> (r: bool)
    ensures
        r == starts(text@, prefix@),
{
    let t = chars_of(text);
    let p = chars_of(prefix);
    let r = matches_at(&t, &p, 0);
    proof {
        if prefix@.len() <= text@.len() {
            assert(text@.subrange(0, prefix@.len() as int) =~= text@.take(prefix@.len() as int));
        }
    }
    r
}

pub fn ends_with(text: &str, suffix: &str) -> (r: bool)
    ensures
        r == ends(text@, suffix@),
{
    let t = chars_of(text);
    let p = chars_of(suffix);
    if p.len() > t.len() {
        return false;
    }
    let r = matches_at(&t, &p, t.len() - p.len());
    assert(text@.subrange(text@.len() - suffix@.len(), text@.len() as int) =~= text@.skip(
        text@.len() - suffix@.len(),
    ));
    r
}

/// What is left of `s` behind `prefix`.
pub open spec fn behind_prefix(s: Seq<char>, prefix: Seq<char>) -> Option<Seq<char>> {
    if starts(s, prefix) {
        Some(s.skip(prefix.len() as int))
    } else {
        None
    }
}

/// What is left of `s` before `suffix`.
pub open spec fn before_suffix(s: Seq<char>, suffix: Seq<char>) -> Option<Seq<char>> {
    if ends(s, suffix) {
        Some(s.take(s.len() - suffix.len()))
    } else {
        None
    }
}

pub fn strip_prefix(text: &str, prefix: &str) -> (r: Option<String>)
    ensures
        r.deep_view() == behind_prefix(text@, prefix@),
{
    if starts_with(text, prefix) {
        let t = chars_of(text);
        let p = chars_of(prefix);
        assert(text@.subrange(prefix@.len() as int, text@.len() as int) =~= text@.skip(
            prefix@.len() as int,
        ));
        Some(text_of(&t, p.len(), t.len()))
    } else {
        None
    }
}

pub fn strip_suffix(text: &str, suffix: &str) -> (r: Option<String>)
    ensures
        r.deep_view() == before_suffix(text@, suffix@),
{
    if ends_with(text, suffix) {
        let t = chars_of(text);
        let p = chars_of(suffix);
        assert(text@.subrange(0, text@.len() - suffix@.len()) =~= text@.take(
            text@.len() - suffix@.len(),
        ));
        Some(text_of(&t, 0, t.len() - p.len()))
    } else {
        None
    }
}

/// What stands before the first `sep`, and what stands behind it.
pub open spec fn parted(s: Seq<char>, sep: Seq<char>) -> Option<(Seq<char>, Seq<char>)> {
    match find_from(s, sep, 0) {
        Some(i) => Some((s.take(i), s.skip(i + sep.len()))),
        None => None,
    }
}

pub fn split_once(text: &str, sep: &str) -> (r: Option<(String, String)>)
    ensures
        match r {
            Some(p) => parted(text@, sep@) == Some((p.0@, p.1@)),
            None => parted(text@, sep@) is None,
        },
{
    let t = chars_of(text);
    let s = chars_of(sep);
    let total = t.len();
    match position_from(&t, &s, 0) {
        Some(i) => {
            proof {
                find_from_sound(t@, s@, 0);
                assert(text@.subrange(0, i as int) =~= text@.take(i as int));
                assert(text@.subrange(i + sep@.len(), total as int) =~= text@.skip(i + sep@.len()));
            }
            Some((text_of(&t, 0, i), text_of(&t, i + s.len(), total)))
        },
        None => None,
    }
}

/// The first `n` characters, or all of them where there are fewer.
pub open spec fn head(s: Seq<char>, n: int) -> Seq<char> {
    if s.len() <= n {
        s
    } else {
        s.take(n)
    }
}

pub fn take_chars(text: &str, n: usize) -> (r: String)
    ensures
        r@ == head(text@, n as int),
{
    let chars = chars_of(text);
    let to: usize = if chars.len() <= n {
        chars.len()
    } else {
        n
    };
    assert(chars@.subrange(0, to as int) =~= head(text@, n as int));
    text_of(&chars, 0, to)
}

/// Texts put together with `sep` between neighbours.
pub open spec fn join(parts: Seq<Seq<char>>, sep: Seq<char>) -> Seq<char>
    decreases parts.len(),
{
    if parts.len() == 0 {
        Seq::empty()
    } else if parts.len() == 1 {
        parts[0]
    } else {
        join(parts.drop_last(), sep) + sep + parts.last()
    }
}

pub fn join_texts(parts: &Vec<String>, sep: &str) -> (r: String)
    ensures
        r@ == join(parts.deep_view(), sep@),
{
    let mut out = String::new();
    let mut i: usize = 0;
    while i < parts.len()
        invariant
            i <= parts@.len(),
            out@ == join(parts.deep_view().take(i as int), sep@),
        decreases parts.len() - i,
    {
        if i > 0 {
            push_text(&mut out, sep);
        }
        push_text(&mut out, parts[i].as_str());
        proof {
            let all = parts.deep_view();
            assert(all.take(i + 1).drop_last() =~= all.take(i as int));
            assert(all.take(i + 1).last() == parts@[i as int]@);
            assert(out@ =~= join(all.take(i + 1), sep@));
        }
        i = i + 1;
    }
    assert(parts.deep_view().take(parts@.len() as int) =~= parts.deep_view());
    out
}

/// A text in lower case, as Unicode has it.
pub uninterp spec fn lowercased(text: Seq<char>) -> Seq<char>;

/// A character of ASCII in lower case.
pub open spec fn ascii_lower(c: char) -> char {
    if 'A' <= c <= 'Z' {
        (c as u32 + 32) as char
    } else {
        c
    }
}

/// `str::to_lowercase`: of a text that is ASCII, each capital letter becomes the
/// small one.
#[verifier::external_body]
pub(crate) fn lowercase(text: &str) -> (r: String)
    ensures
        r@ == lowercased(text@),
        (forall|i: int| 0 <= i < text@.len() ==> (#[trigger] text@[i] as u32) < 128) ==> r@ == text@.map_values(
            |c: char| ascii_lower(c),
        ),
{
    text.to_lowercase()
}

/// A text that is there and not blank, as a list.
pub open spec fn if_said(t: Option<Seq<char>>) -> Seq<Seq<char>> {
    match t {
        Some(t) => if blank(t) {
            Seq::empty()
        } else {
            seq![t]
        },
        None => Seq::empty(),
    }
}

/// Texts can be put together in two steps: those before any place, those from it on,
/// and the separator between the two.
pub proof fn join_in_two_steps(a: Seq<Seq<char>>, b: Seq<Seq<char>>, sep: Seq<char>)
    requires
        a.len() > 0,
        b.len() > 0,
    ensures
        join(a + b, sep) == join(a, sep) + sep + join(b, sep),
    decreases b.len(),
{
    let all = a + b;
    if b.len() == 1 {
        assert(all.drop_last() =~= a);
    } else {
        assert(all.drop_last() =~= a + b.drop_last());
        join_in_two_steps(a, b.drop_last(), sep);
        assert(join(all, sep) =~= join(a, sep) + sep + join(b, sep));
    }
}

/// Each text stands whole in what is put together: behind it, where others follow, the
/// separator and those, and before it, where others precede, those and the separator.
pub proof fn join_holds_each(parts: Seq<Seq<char>>, sep: Seq<char>, i: int)
    requires
        0 <= i < parts.len(),
    ensures
        ({
            let before = if i == 0 {
                Seq::empty()
            } else {
                join(parts.take(i), sep) + sep
            };
            let behind = if i + 1 == parts.len() {
                Seq::empty()
            } else {
                sep + join(parts.skip(i + 1), sep)
            };
            &&& join(parts, sep) == before + parts[i] + behind
            &&& occurs_at(join(parts, sep), parts[i], before.len() as int)
        }),
{
    let before = if i == 0 {
        Seq::empty()
    } else {
        join(parts.take(i), sep) + sep
    };
    let behind = if i + 1 == parts.len() {
        Seq::empty()
    } else {
        sep + join(parts.skip(i + 1), sep)
    };
    let upto = parts.take(i + 1);
    if i > 0 {
        assert(upto =~= parts.take(i) + seq![parts[i]]);
        join_in_two_steps(parts.take(i), seq![parts[i]], sep);
    }
    assert(join(upto, sep) =~= before + parts[i]);
    if i + 1 < parts.len() {
        assert(parts =~= upto + parts.skip(i + 1));
        join_in_two_steps(upto, parts.skip(i + 1), sep);
    } else {
        assert(parts =~= upto);
    }
    assert(join(parts, sep) =~= before + parts[i] + behind);
    assert(join(parts, sep).subrange(before.len() as int, (before.len() + parts[i].len()) as int) =~= parts[i]);
}

/// How many characters texts hold together.
pub open spec fn total_length(parts: Seq<Seq<char>>) -> int
    decreases parts.len(),
{
    if parts.len() == 0 {
        0
    } else {
        parts[0].len() + total_length(parts.skip(1))
    }
}

/// What is put together is as long as the texts and the separators between them.
pub proof fn join_length(parts: Seq<Seq<char>>, sep: Seq<char>)
    ensures
        join(parts, sep).len() == total_length(parts) + if parts.len() == 0 {
            0
        } else {
            (parts.len() - 1) * sep.len()
        },
    decreases parts.len(),
{
    if parts.len() > 1 {
        let rest = parts.skip(1);
        join_length(rest, sep);
        assert(parts =~= seq![parts[0]] + rest);
        join_in_two_steps(seq![parts[0]], rest, sep);
        assert((parts.len() - 1) * sep.len() == sep.len() + (rest.len() - 1) * sep.len()) by (nonlinear_arith)
            requires
                rest.len() == parts.len() - 1,
        ;
    } else if parts.len() == 1 {
        assert(total_length(parts.skip(1)) == 0);
        assert(0 * sep.len() == 0);
    }
}

proof fn trim_end_keeps_beginning(s: Seq<char>)
    ensures
        trim_end(s).len() <= s.len(),
        trim_end(s) == s.take(trim_end(s).len() as int),
        blank(s.skip(trim_end(s).len() as int)),
        trim_end(s).len() > 0 ==> !is_white(trim_end(s).last()),
    decreases s.len(),
{
    if s.len() > 0 && is_white(s.last()) {
        let front = s.drop_last();
        let n = trim_end(front).len() as int;
        trim_end_keeps_beginning(front);
        assert(front.take(n) =~= s.take(n));
        assert forall|i: int| 0 <= i < s.skip(n).len() implies is_white(#[trigger] s.skip(n)[i]) by {
            if i < front.skip(n).len() {
                assert(front.skip(n)[i] == s.skip(n)[i]);
            }
        }
    } else {
        assert(s.take(s.len() as int) =~= s);
    }
}

proof fn trim_start_keeps_end(s: Seq<char>)
    ensures
        trim_start(s).len() <= s.len(),
        trim_start(s) == s.skip(s.len() - trim_start(s).len()),
        blank(s.take(s.len() - trim_start(s).len())),
        trim_start(s).len() > 0 ==> !is_white(trim_start(s)[0]),
    decreases s.len(),
{
    if s.len() > 0 && is_white(s[0]) {
        let rest = s.skip(1);
        let n = rest.len() - trim_start(rest).len();
        trim_start_keeps_end(rest);
        assert(rest.skip(n) =~= s.skip(n + 1));
        assert forall|i: int| 0 <= i < s.take(n + 1).len() implies is_white(#[trigger] s.take(n + 1)[i]) by {
            if i > 0 {
                assert(rest.take(n)[i - 1] == s.take(n + 1)[i]);
            }
        }
    } else {
        assert(s.skip(0) =~= s);
    }
}

/// Trimming takes white space off both ends and nothing else: what is left stands
/// between two blank texts, and neither begins nor ends in white space.
pub proof fn trim_takes_white_off_both_ends(s: Seq<char>) -> (n: int)
    ensures
        0 <= n <= n + trim(s).len() <= s.len(),
        trim(s) == s.subrange(n, n + trim(s).len()),
        blank(s.take(n)),
        blank(s.skip(n + trim(s).len())),
        trim(s).len() > 0 ==> !is_white(trim(s)[0]) && !is_white(trim(s).last()),
{
    let e = trim_end(s);
    trim_end_keeps_beginning(s);
    trim_start_keeps_end(e);
    let n = e.len() - trim(s).len();
    assert(trim(s) =~= s.subrange(n, n + trim(s).len()));
    assert(e.take(n) =~= s.take(n));
    if trim(s).len() > 0 {
        assert(trim(s).last() == e.last());
    }
    n
}

/// Spaces, tabs and line breaks are white space; letters, digits and signs are not.
pub proof fn white_space_of_ascii(c: char)
    ensures
        c == ' ' || c == '\t' || c == '\n' || c == '\r' ==> is_white(c),
        0x21 <= c as u32 <= 0x7e ==> !is_white(c),
        (c as u32) < 9 ==> !is_white(c),
{
}

/// The head of a text is a beginning of it: all of it where it is short enough, and
/// else as many characters as are allowed.
pub proof fn head_is_beginning(s: Seq<char>, n: int)
    requires
        0 <= n,
    ensures
        s.len() <= n ==> head(s, n) == s,
        s.len() > n ==> head(s, n).len() == n,
        forall|i: int| 0 <= i < head(s, n).len() ==> head(s, n)[i] == s[i],
{
}

/// A text is found in another at the first place, from a given one on, where it stands.
pub proof fn first_occurrences_are_found(hay: Seq<char>, needle: Seq<char>, from: int, at: int)
    requires
        0 <= from <= at,
        occurs_at(hay, needle, at),
        forall|i: int| from <= i < at ==> !occurs_at(hay, needle, i),
    ensures
        find_from(hay, needle, from) == Some(at),
    decreases at - from,
{
    if from < at {
        first_occurrences_are_found(hay, needle, from + 1, at);
    }
}

/// What stands before the first separator and what stands behind it make up the text with
/// it, and no separator stands before that.
pub proof fn parting_is_at_the_first_separator(s: Seq<char>, sep: Seq<char>)
    ensures
        parted(s, sep) matches Some(p) ==> s == p.0 + sep + p.1 && forall|i: int|
            0 <= i < p.0.len() ==> !occurs_at(s, sep, i),
        parted(s, sep) is None ==> !has_text(s, sep),
{
    find_from_sound(s, sep, 0);
    if let Some(at) = find_from(s, sep, 0) {
        assert(s =~= s.take(at) + sep + s.skip(at + sep.len())) by {
            assert(s.subrange(at, at + sep.len()) == sep);
            assert forall|i: int| 0 <= i < s.len() implies s[i] == (s.take(at) + sep + s.skip(at + sep.len()))[i] by {
                if at <= i < at + sep.len() {
                    assert(s.subrange(at, at + sep.len())[i - at] == s[i]);
                }
            }
        }
        find_from_is_first(s, sep, 0);
    }
}

proof fn find_from_is_first(hay: Seq<char>, needle: Seq<char>, from: int)
    requires
        0 <= from,
    ensures
        find_from(hay, needle, from) matches Some(at) ==> forall|i: int| from <= i < at ==> !occurs_at(hay, needle, i),
    decreases hay.len() + 1 - from,
{
    if from + needle.len() <= hay.len() && !occurs_at(hay, needle, from) {
        find_from_is_first(hay, needle, from + 1);
        if let Some(at) = find_from(hay, needle, from) {
            assert forall|i: int| from <= i < at implies !occurs_at(hay, needle, i) by {
                if i > from {
                    assert(from + 1 <= i < at);
                }
            }
        }
    }
}

/// What is left of a text behind its beginning, or before its end, is the rest of it.
pub proof fn beginnings_and_ends_are_taken_off(a: Seq<char>, b: Seq<char>)
    ensures
        starts(a + b, a) && behind_prefix(a + b, a) == Some(b),
        ends(a + b, b) && before_suffix(a + b, b) == Some(a),
        has_text(a + b, a) && has_text(a + b, b),
{
    let s = a + b;
    assert(s.take(a.len() as int) =~= a);
    assert(s.skip(a.len() as int) =~= b);
    assert(s.skip(s.len() - b.len()) =~= b);
    assert(s.take(s.len() - b.len()) =~= a);
    assert(s.subrange(0, a.len() as int) =~= a);
    assert(s.subrange(a.len() as int, s.len() as int) =~= b);
    assert(occurs_at(s, a, 0));
    assert(occurs_at(s, b, a.len() as int));
}

} // verus!
