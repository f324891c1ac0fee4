//! Text helpers.
use vstd::prelude::*;
use vstd::std_specs::iter::IteratorSpec;

verus! {

/// Whether `c` has the Unicode `White_Space` property, which is what
/// `char::is_whitespace` tells.
pub open spec fn white_space(c: char) -> bool {
    let n = c as u32;
    ||| 0x9 <= n <= 0xd
    ||| n == 0x20
    ||| n == 0x85
    ||| n == 0xa0
    ||| n == 0x1680
    ||| 0x2000 <= n <= 0x200a
    ||| n == 0x2028
    ||| n == 0x2029
    ||| n == 0x202f
    ||| n == 0x205f
    ||| n == 0x3000
}

/// Whether `char::is_alphanumeric` holds of `c`: whether it is alphabetic or
/// numeric in the Unicode sense.
pub uninterp spec fn alphanumeric(c: char) -> bool;

/// The first character of `char::to_lowercase` of `c`.
pub uninterp spec fn lowercase(c: char) -> char;

/// Whether `c` has the `White_Space` property, as `char::is_whitespace`
/// tells.
pub(crate) fn is_whitespace(c: char) -> (r: bool)
    ensures
        r == white_space(c),
{
    let n = c as u32;
    (0x9 <= n && n <= 0xd) || n == 0x20 || n == 0x85 || n == 0xa0 || n == 0x1680 || (0x2000 <= n && n
        <= 0x200a) || n == 0x2028 || n == 0x2029 || n == 0x202f || n == 0x205f || n == 0x3000
}

/// `char::is_alphanumeric`.
#[verifier::external_body]
fn is_alphanumeric(c: char) -> (r: bool)
    ensures
        r == alphanumeric(c),
{
    c.is_alphanumeric()
}

/// `char::to_lowercase`, of which the first character is taken; the
/// lowercase mapping of a character is one or more characters.
#[verifier::external_body]
fn to_lowercase(c: char) -> (r: char)
    ensures
        r == lowercase(c),
{
    c.to_lowercase().next().unwrap()
}

/// `String::push`: appends `c` to `s`.
#[verifier::external_body]
pub(crate) fn push_char(s: &mut String, c: char)
    ensures
        final(s)@ == old(s)@.push(c),
{
    s.push(c)
}

/// What a character becomes in a slug: whitespace becomes a hyphen, a
/// letter or digit its lowercase form, and anything else is dropped.
pub open spec fn slug_char(c: char) -> Option<char> {
    if white_space(c) {
        Some('-')
    } else if alphanumeric(c) {
        Some(lowercase(c))
    } else {
        None
    }
}

/// The slug of a text: its characters, each as `slug_char` makes it.
pub open spec fn slug(s: Seq<char>) -> Seq<char>
    decreases s.len(),
{
    if s.len() == 0 {
        Seq::empty()
    } else {
        let rest = slug(s.drop_last());
        match slug_char(s.last()) {
            Some(c) => rest.push(c),
            None => rest,
        }
    }
}

/// Turns a text into a slug for a URL: `"Hello World!"` becomes
/// `"hello-world"`.
pub fn slugify(s: &str) -> (r: String)
    ensures
        r@ == slug(s@),
{
    let mut result = String::new();
    for c in it: s.chars()
        invariant
            it.seq() == s@,
            result@ == slug(s@.take(it.index() as int)),
    {
        let ghost i = it.index() as int;
        proof {
            assert(s@.take(i + 1).drop_last() == s@.take(i));
            assert(s@.take(i + 1).last() == c);
        }
        let is_ws = is_whitespace(c);
        if is_alphanumeric(c) || is_ws {
            if is_ws {
                push_char(&mut result, '-');
            } else {
                push_char(&mut result, to_lowercase(c));
            }
        }
    }
    assert(s@.take(s@.len() as int) == s@);
    result
}

} // verus!
