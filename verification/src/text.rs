//! Small text routines on paths and names.
use vstd::prelude::*;

verus! {

/// The characters of `s`, in order.
pub fn to_chars(s: &str) -> (v: Vec<char>)
    ensures
        v@ == s@,
{
    let n = s.unicode_len();
    let mut v: Vec<char> = Vec::new();
    let mut i: usize = 0;
    while i < n
        invariant
            n == s@.len(),
            0 <= i <= n,
            v@ == s@.subrange(0, i as int),
        decreases n - i,
    {
        let c = s.get_char(i);
        v.push(c);
        i = i + 1;
        assert(v@ =~= s@.subrange(0, i as int));
    }
    assert(v@ =~= s@);
    v
}

/// The last segment of a slash-separated path: what follows the last slash,
/// or the whole path when it has none.
pub open spec fn path_tail(s: Seq<char>) -> Seq<char>
    decreases s.len(),
{
    if s.len() == 0 {
        s
    } else if s.last() == '/' {
        Seq::empty()
    } else {
        path_tail(s.drop_last()).push(s.last())
    }
}

/// Where the last segment of `s` begins.
pub open spec fn tail_start(s: Seq<char>) -> int
    decreases s.len(),
{
    if s.len() == 0 {
        0
    } else if s.last() == '/' {
        s.len() as int
    } else {
        tail_start(s.drop_last())
    }
}

pub proof fn lemma_path_tail_subrange(s: Seq<char>)
    ensures
        0 <= tail_start(s) <= s.len(),
        path_tail(s) == s.subrange(tail_start(s), s.len() as int),
        forall|j: int| tail_start(s) <= j < s.len() ==> s[j] != '/',
        tail_start(s) > 0 ==> s[tail_start(s) - 1] == '/',
    decreases s.len(),
{
    if s.len() == 0 {
        assert(s.subrange(0, 0) =~= s);
    } else if s.last() == '/' {
        assert(s.subrange(s.len() as int, s.len() as int) =~= Seq::<char>::empty());
    } else {
        lemma_path_tail_subrange(s.drop_last());
        assert(path_tail(s) =~= s.subrange(tail_start(s), s.len() as int));
        assert forall|j: int| tail_start(s) <= j < s.len() implies s[j] != '/' by {
            if j < s.len() - 1 {
                assert(s.drop_last()[j] == s[j]);
            }
        }
        if tail_start(s) > 0 {
            assert(s.drop_last()[tail_start(s) - 1] == s[tail_start(s) - 1]);
        }
    }
}

/// The default name of a node made for `widget_path`: the last segment of the path.
pub fn default_blueprint_node_name(widget_path: &str) -> (r: String)
    ensures
        r@ == path_tail(widget_path@),
{
    let chars = to_chars(widget_path);
    let n = chars.len();
    let mut i = n;
    proof {
        lemma_path_tail_subrange(widget_path@);
    }
    while i > 0 && chars[i - 1] != '/'
        invariant
            chars@ == widget_path@,
            n == chars@.len(),
            0 <= i <= n,
            tail_start(widget_path@) <= i,
            forall|j: int| i <= j < n ==> chars@[j] != '/',
        decreases i,
    {
        proof {
            if tail_start(widget_path@) == i {
                lemma_path_tail_subrange(widget_path@);
            }
        }
        i = i - 1;
    }
    proof {
        lemma_path_tail_subrange(widget_path@);
        if i > tail_start(widget_path@) {
            if i > 0 {
                assert(chars@[i - 1] == '/');
            }
            assert(i == 0 || chars@[i - 1] == '/');
            if i == 0 {
                assert(false);
            }
        }
    }
    let tail = widget_path.substring_char(i, n);
    String::from_str(tail)
}

/// A character with the Unicode `White_Space` property.
pub open spec fn is_white_space(c: char) -> bool {
    let u = c as u32;
    ||| 0x09 <= u <= 0x0D
    ||| u == 0x20
    ||| u == 0x85
    ||| u == 0xA0
    ||| u == 0x1680
    ||| 0x2000 <= u <= 0x200A
    ||| u == 0x2028
    ||| u == 0x2029
    ||| u == 0x202F
    ||| u == 0x205F
    ||| u == 0x3000
}

/// Whether `c` has the Unicode `White_Space` property.
pub fn char_is_whitespace(c: char) -> (r: bool)
    ensures
        r == is_white_space(c),
{
    let u = c as u32;
    (0x09 <= u && u <= 0x0D) || u == 0x20 || u == 0x85 || u == 0xA0 || u == 0x1680 || (0x2000 <= u
        && u <= 0x200A) || u == 0x2028 || u == 0x2029 || u == 0x202F || u == 0x205F || u == 0x3000
}

/// Every character is white space: what is left after trimming is empty.
pub open spec fn all_whitespace(s: Seq<char>) -> bool {
    forall|i: int| 0 <= i < s.len() ==> is_white_space(#[trigger] s[i])
}

/// Whether `s` is empty once trimmed.
pub fn is_blank(s: &str) -> (r: bool)
    ensures
        r == all_whitespace(s@),
{
    let chars = to_chars(s);
    let mut i: usize = 0;
    while i < chars.len()
        invariant
            chars@ == s@,
            0 <= i <= chars@.len(),
            forall|j: int| 0 <= j < i ==> is_white_space(#[trigger] chars@[j]),
        decreases chars@.len() - i,
    {
        if !char_is_whitespace(chars[i]) {
            return false;
        }
        i = i + 1;
    }
    true
}

/// Whether `c` has the Unicode `Uppercase` property, as `char::is_uppercase` answers.
pub uninterp spec fn char_is_uppercase(c: char) -> bool;

/// `char::is_uppercase`: whether the character has the Unicode `Uppercase`
/// property. What that property holds is Unicode's table; the contract only
/// names the answer.
#[verifier::external_body]
fn is_uppercase(c: char) -> (r: bool)
    ensures
        r == char_is_uppercase(c),
{
    c.is_uppercase()
}

/// A variant name spelled out: a space before each capital but the first
/// character.
pub open spec fn humanized(s: Seq<char>) -> Seq<char>
    decreases s.len(),
{
    if s.len() == 0 {
        s
    } else if s.len() > 1 && char_is_uppercase(s.last()) {
        humanized(s.drop_last()).push(' ').push(s.last())
    } else {
        humanized(s.drop_last()).push(s.last())
    }
}

/// `String::from_iter`: the string of the given characters, in order.
#[verifier::external_body]
pub(crate) fn string_of(chars: Vec<char>) -> (r: String)
    ensures
        r@ == chars@,
{
    String::from_iter(chars)
}

/// `TitleCase` becomes `Title Case`.
pub fn humanize_variant_name(name: &str) -> (r: String)
    ensures
        r@ == humanized(name@),
{
    let chars = to_chars(name);
    let mut result: Vec<char> = Vec::new();
    let mut i: usize = 0;
    while i < chars.len()
        invariant
            chars@ == name@,
            0 <= i <= chars@.len(),
            result@ == humanized(chars@.take(i as int)),
        decreases chars@.len() - i,
    {
        let ch = chars[i];
        proof {
            assert(chars@.take(i + 1).drop_last() =~= chars@.take(i as int));
            assert(chars@.take(i + 1).last() == ch);
        }
        if i > 0 && is_uppercase(ch) {
            result.push(' ');
        }
        result.push(ch);
        i = i + 1;
    }
    assert(chars@.take(chars@.len() as int) =~= chars@);
    string_of(result)
}

/// What `char::to_uppercase` gives for `c`: its uppercase mapping, which
/// Unicode may spell with more than one character.
pub uninterp spec fn char_uppercase(c: char) -> Seq<char>;

/// `char::to_uppercase`, collected: the characters of the uppercase mapping
/// of `c`. The mapping is Unicode's table; the contract only names it.
#[verifier::external_body]
fn uppercase_of(c: char) -> (r: Vec<char>)
    ensures
        r@ == char_uppercase(c),
{
    c.to_uppercase().collect()
}

/// What the character at `i` of a field name becomes: an underscore a
/// space, the first character of each word in capitals, any other as is.
pub open spec fn field_piece(s: Seq<char>, i: int) -> Seq<char> {
    if s[i] == '_' {
        seq![' ']
    } else if i == 0 || s[i - 1] == '_' {
        char_uppercase(s[i])
    } else {
        seq![s[i]]
    }
}

/// A field name spelled out, piece by piece.
pub open spec fn humanized_field(s: Seq<char>) -> Seq<char>
    decreases s.len(),
{
    if s.len() == 0 {
        s
    } else {
        humanized_field(s.drop_last()) + field_piece(s, s.len() - 1)
    }
}

/// `snake_case` becomes `Snake Case`.
pub fn humanize_field_name(name: &str) -> (r: String)
    ensures
        r@ == humanized_field(name@),
{
    let chars = to_chars(name);
    let mut result: Vec<char> = Vec::new();
    let mut uppercase_next = true;
    let mut i: usize = 0;
    while i < chars.len()
        invariant
            chars@ == name@,
            0 <= i <= chars@.len(),
            result@ == humanized_field(chars@.take(i as int)),
            uppercase_next == (i == 0 || chars@[i - 1] == '_'),
        decreases chars@.len() - i,
    {
        let ch = chars[i];
        let ghost before = result@;
        proof {
            let t = chars@.take(i + 1);
            assert(t.drop_last() =~= chars@.take(i as int));
            assert(t[i as int] == ch);
            assert(i > 0 ==> t[i - 1] == chars@[i - 1]);
            assert(field_piece(t, i as int) == field_piece(chars@, i as int));
        }
        if ch == '_' {
            result.push(' ');
            uppercase_next = true;
        } else if uppercase_next {
            let upper = uppercase_of(ch);
            let mut j: usize = 0;
            while j < upper.len()
                invariant
                    0 <= j <= upper@.len(),
                    result@ == before + upper@.take(j as int),
                decreases upper@.len() - j,
            {
                result.push(upper[j]);
                j = j + 1;
                assert(result@ =~= before + upper@.take(j as int));
            }
            assert(upper@.take(upper@.len() as int) =~= upper@);
            uppercase_next = false;
        } else {
            result.push(ch);
        }
        proof {
            assert(result@ =~= before + field_piece(chars@, i as int));
        }
        i = i + 1;
    }
    assert(chars@.take(chars@.len() as int) =~= chars@);
    string_of(result)
}

} // verus!
