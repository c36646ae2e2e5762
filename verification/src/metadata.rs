//! The metadata a widget declares about itself, as text: its path
//! ("category/name"), the children it accepts ("any", "exact(n)" or
//! "max(n)"), and its child slots (a comma-separated list).
use vstd::prelude::*;
use crate::registry::WidgetChildRule;
use crate::text::{is_white_space, char_is_whitespace, to_chars};

verus! {

/// `s` without leading and trailing white space.
pub open spec fn trim_spec(s: Seq<char>) -> Seq<char>
    decreases s.len(),
{
    if s.len() > 0 && is_white_space(s[0]) {
        trim_spec(s.drop_first())
    } else if s.len() > 0 && is_white_space(s.last()) {
        trim_spec(s.drop_last())
    } else {
        s
    }
}

/// `c` with ASCII capitals made small; every other character unchanged.
pub open spec fn ascii_lower(c: char) -> char {
    if 'A' <= c <= 'Z' { ((c as u32) + 32) as char } else { c }
}

pub open spec fn lower_spec(s: Seq<char>) -> Seq<char> {
    s.map_values(|c: char| ascii_lower(c))
}

pub open spec fn is_digit(c: char) -> bool {
    '0' <= c <= '9'
}

/// The number the decimal digits `s` write.
pub open spec fn digits_value(s: Seq<char>) -> nat
    decreases s.len(),
{
    if s.len() == 0 {
        0
    } else {
        digits_value(s.drop_last()) * 10 + ((s.last() as u32) - ('0' as u32)) as nat
    }
}

/// Every character is a decimal digit.
pub open spec fn all_digits(s: Seq<char>) -> bool {
    forall|i: int| 0 <= i < s.len() ==> is_digit(#[trigger] s[i])
}

/// `s` without a leading plus sign.
pub open spec fn unsigned_body(s: Seq<char>) -> Seq<char> {
    if s.len() > 0 && s[0] == '+' { s.drop_first() } else { s }
}

/// What reading `s` as a `usize` gives: an optional plus sign, then one or
/// more decimal digits whose number fits.
pub open spec fn spec_parse_usize(s: Seq<char>) -> Option<usize> {
    let body = unsigned_body(s);
    if body.len() > 0 && all_digits(body) && digits_value(body) <= usize::MAX {
        Some(digits_value(body) as usize)
    } else {
        None
    }
}

/// What a child rule reads as: "any", "exact(n)" or "max(n)", in any case
/// and with white space around the whole and around the number; none for
/// anything else.
pub open spec fn child_rule_spec(raw: Seq<char>) -> Option<WidgetChildRule> {
    let v = lower_spec(trim_spec(raw));
    if v == "any"@ {
        Some(WidgetChildRule::Any)
    } else if v.len() >= 7 && v.take(6) == "exact("@ && v.last() == ')' {
        match spec_parse_usize(trim_spec(v.subrange(6, v.len() - 1))) {
            Some(n) => Some(WidgetChildRule::Exact(n)),
            None => None,
        }
    } else if v.len() >= 5 && v.take(4) == "max("@ && v.last() == ')' {
        match spec_parse_usize(trim_spec(v.subrange(4, v.len() - 1))) {
            Some(n) => Some(WidgetChildRule::Range { max: Some(n) }),
            None => None,
        }
    } else {
        None
    }
}

/// `s` cut at each `sep`: the pieces between separators, empty ones included.
pub open spec fn split_on(s: Seq<char>, sep: char) -> Seq<Seq<char>>
    decreases s.len(),
{
    if s.len() == 0 {
        seq![Seq::empty()]
    } else {
        let rest = split_on(s.drop_last(), sep);
        if s.last() == sep {
            rest.push(Seq::empty())
        } else {
            rest.update(rest.len() - 1, rest.last().push(s.last()))
        }
    }
}

/// The pieces that are not empty, in order.
pub open spec fn keep_nonempty(parts: Seq<Seq<char>>) -> Seq<Seq<char>>
    decreases parts.len(),
{
    if parts.len() == 0 {
        Seq::empty()
    } else if parts.last().len() > 0 {
        keep_nonempty(parts.drop_last()).push(parts.last())
    } else {
        keep_nonempty(parts.drop_last())
    }
}

/// The slot names a slot list declares: the comma-separated pieces,
/// trimmed, the empty ones left out.
pub open spec fn slots_spec(raw: Seq<char>) -> Seq<Seq<char>> {
    keep_nonempty(split_on(raw, ',').map_values(|p: Seq<char>| trim_spec(p)))
}

proof fn lemma_split_on_nonempty(s: Seq<char>, sep: char)
    ensures
        split_on(s, sep).len() >= 1,
    decreases s.len(),
{
    if s.len() > 0 {
        lemma_split_on_nonempty(s.drop_last(), sep);
    }
}

/// Where `trim_spec` of `chars[lo..hi]` begins and ends.
fn trimmed_bounds(chars: &Vec<char>, lo: usize, hi: usize) -> (r: (usize, usize))
    requires
        lo <= hi <= chars@.len(),
    ensures
        lo <= r.0 <= r.1 <= hi,
        trim_spec(chars@.subrange(lo as int, hi as int)) == chars@.subrange(r.0 as int, r.1 as int),
{
    let ghost whole = chars@.subrange(lo as int, hi as int);
    let mut a = lo;
    let mut b = hi;
    while a < b && char_is_whitespace(chars[a])
        invariant
            lo <= a <= b,
            b == hi,
            hi <= chars@.len(),
            trim_spec(chars@.subrange(a as int, b as int)) == trim_spec(whole),
        decreases b - a,
    {
        proof {
            let sub = chars@.subrange(a as int, b as int);
            assert(sub[0] == chars@[a as int]);
            assert(sub.drop_first() =~= chars@.subrange(a + 1, b as int));
        }
        a = a + 1;
    }
    while a < b && char_is_whitespace(chars[b - 1])
        invariant
            lo <= a <= b <= hi,
            hi <= chars@.len(),
            a < b ==> !is_white_space(chars@[a as int]),
            trim_spec(chars@.subrange(a as int, b as int)) == trim_spec(whole),
        decreases b - a,
    {
        proof {
            let sub = chars@.subrange(a as int, b as int);
            assert(sub[0] == chars@[a as int]);
            assert(sub.last() == chars@[b - 1]);
            assert(sub.drop_last() =~= chars@.subrange(a as int, b - 1));
        }
        b = b - 1;
    }
    proof {
        let sub = chars@.subrange(a as int, b as int);
        if sub.len() > 0 {
            assert(sub[0] == chars@[a as int]);
            assert(sub.last() == chars@[b - 1]);
        }
    }
    (a, b)
}

/// The characters of `chars[lo..hi]` with ASCII capitals made small.
fn lower_range(chars: &Vec<char>, lo: usize, hi: usize) -> (r: Vec<char>)
    requires
        lo <= hi <= chars@.len(),
    ensures
        r@ == lower_spec(chars@.subrange(lo as int, hi as int)),
{
    let mut r: Vec<char> = Vec::new();
    let mut i = lo;
    while i < hi
        invariant
            lo <= i <= hi <= chars@.len(),
            r@ == lower_spec(chars@.subrange(lo as int, i as int)),
        decreases hi - i,
    {
        let c = chars[i];
        let l = if 'A' <= c && c <= 'Z' { ((c as u32) + 32) as u8 as char } else { c };
        proof {
            if 'A' <= c && c <= 'Z' {
                assert(((c as u32) + 32) as u8 as char == ascii_lower(c));
            }
        }
        r.push(l);
        i = i + 1;
        assert(r@ =~= lower_spec(chars@.subrange(lo as int, i as int)));
    }
    r
}

proof fn lemma_digits_value_step(s: Seq<char>, i: int)
    requires
        0 <= i < s.len(),
    ensures
        digits_value(s.take(i + 1)) == digits_value(s.take(i)) * 10 + ((s[i] as u32) - ('0' as u32)) as nat,
{
    assert(s.take(i + 1).drop_last() =~= s.take(i));
}

/// Reads `chars[lo..hi]` as a `usize`, as `str::parse` does.
fn parse_usize_range(chars: &Vec<char>, lo: usize, hi: usize) -> (r: Option<usize>)
    requires
        lo <= hi <= chars@.len(),
    ensures
        r == spec_parse_usize(chars@.subrange(lo as int, hi as int)),
{
    let ghost s = chars@.subrange(lo as int, hi as int);
    let start = if lo < hi && chars[lo] == '+' { lo + 1 } else { lo };
    let ghost body = chars@.subrange(start as int, hi as int);
    proof {
        if lo < hi && chars@[lo as int] == '+' {
            assert(s[0] == '+');
            assert(s.drop_first() =~= body);
        } else {
            assert(s =~= body);
        }
    }
    if start == hi {
        return None;
    }
    let mut value: usize = 0;
    let mut i = start;
    while i < hi
        invariant
            lo <= start <= i <= hi <= chars@.len(),
            start < hi,
            body == chars@.subrange(start as int, hi as int),
            s == chars@.subrange(lo as int, hi as int),
            body == unsigned_body(s),
            forall|j: int| 0 <= j < i - start ==> is_digit(#[trigger] body[j]),
            value == digits_value(body.take(i - start)),
        decreases hi - i,
    {
        let c = chars[i];
        assert(body[i - start] == c);
        if !('0' <= c && c <= '9') {
            proof {
                assert(!is_digit(body[i - start]));
                assert(!all_digits(body));
            }
            return None;
        }
        let d = (c as u32 - '0' as u32) as usize;
        proof {
            lemma_digits_value_step(body, i - start);
        }
        let next = match value.checked_mul(10) {
            Some(v) => v.checked_add(d),
            None => None,
        };
        match next {
            Some(v) => {
                value = v;
            },
            None => {
                proof {
                    assert(digits_value(body.take(i - start + 1)) > usize::MAX);
                    if all_digits(body) {
                        lemma_digits_monotone(body, i - start + 1);
                    }
                }
                return None;
            },
        }
        i = i + 1;
    }
    proof {
        assert(body.take(body.len() as int) =~= body);
    }
    Some(value)
}

/// A run of digits is worth at least as much as any of its starts.
proof fn lemma_digits_monotone(s: Seq<char>, n: int)
    requires
        0 <= n <= s.len(),
        forall|i: int| 0 <= i < s.len() ==> is_digit(#[trigger] s[i]),
    ensures
        digits_value(s.take(n)) <= digits_value(s),
    decreases s.len() - n,
{
    if n < s.len() {
        lemma_digits_monotone(s, n + 1);
        lemma_digits_value_step(s, n);
        assert(is_digit(s[n]));
    } else {
        assert(s.take(n) =~= s);
    }
}

/// Whether `v` begins with the characters of `lit`.
fn starts_with_text(v: &Vec<char>, lit: &str) -> (r: bool)
    ensures
        r == (lit@.len() <= v@.len() && v@.take(lit@.len() as int) == lit@),
{
    let n = lit.unicode_len();
    if n > v.len() {
        return false;
    }
    let mut i: usize = 0;
    while i < n
        invariant
            n == lit@.len(),
            n <= v@.len(),
            0 <= i <= n,
            forall|j: int| 0 <= j < i ==> v@[j] == lit@[j],
        decreases n - i,
    {
        if v[i] != lit.get_char(i) {
            proof {
                assert(v@.take(n as int)[i as int] != lit@[i as int]);
            }
            return false;
        }
        i = i + 1;
    }
    assert(v@.take(n as int) =~= lit@);
    true
}

/// Whether `v` holds exactly the characters of `lit`.
fn equals_text(v: &Vec<char>, lit: &str) -> (r: bool)
    ensures
        r == (v@ == lit@),
{
    let same = lit.unicode_len() == v.len() && starts_with_text(v, lit);
    proof {
        if same {
            assert(v@.take(v@.len() as int) =~= v@);
        }
        if v@ == lit@ {
            assert(v@.take(v@.len() as int) =~= v@);
        }
    }
    same
}

/// Reads the children a widget accepts: "any", "exact(n)" or "max(n)",
/// in any case, with white space around the whole and around the number.
/// Anything else is not a child rule.
pub fn parse_child_rule(raw: &str) -> (r: Option<WidgetChildRule>)
    ensures
        r == child_rule_spec(raw@),
{
    let chars = to_chars(raw);
    let (a, b) = trimmed_bounds(&chars, 0, chars.len());
    let v = lower_range(&chars, a, b);
    proof {
        assert(chars@.subrange(0, chars@.len() as int) =~= raw@);
        assert(v@ == lower_spec(trim_spec(raw@)));
    }
    if equals_text(&v, "any") {
        return Some(WidgetChildRule::Any);
    }
    let len = v.len();
    if len >= 7 && starts_with_text(&v, "exact(") && v[len - 1] == ')' {
        proof {
            reveal_strlit("exact(");
        }
        let (x, y) = trimmed_bounds(&v, 6, len - 1);
        return match parse_usize_range(&v, x, y) {
            Some(n) => Some(WidgetChildRule::Exact(n)),
            None => None,
        };
    }
    proof {
        reveal_strlit("exact(");
        if len >= 7 && v@.take(6) == "exact("@ && v@.last() == ')' {
            assert(v@.take(6) == "exact("@);
        }
    }
    if len >= 5 && starts_with_text(&v, "max(") && v[len - 1] == ')' {
        proof {
            reveal_strlit("max(");
        }
        let (x, y) = trimmed_bounds(&v, 4, len - 1);
        return match parse_usize_range(&v, x, y) {
            Some(n) => Some(WidgetChildRule::Range { max: Some(n) }),
            None => None,
        };
    }
    proof {
        reveal_strlit("max(");
    }
    None
}

proof fn lemma_split_step(s: Seq<char>, sep: char, i: int, done: Seq<Seq<char>>, seg: int)
    requires
        0 <= seg <= i < s.len(),
        split_on(s.take(i), sep) == done.push(s.subrange(seg, i)),
    ensures
        s[i] == sep ==> split_on(s.take(i + 1), sep) == done.push(s.subrange(seg, i)).push(s.subrange(i + 1, i + 1)),
        s[i] != sep ==> split_on(s.take(i + 1), sep) == done.push(s.subrange(seg, i + 1)),
{
    let t = s.take(i + 1);
    assert(t.drop_last() =~= s.take(i));
    assert(t.last() == s[i]);
    assert(s.subrange(i + 1, i + 1) =~= Seq::<char>::empty());
    if s[i] != sep {
        assert(s.subrange(seg, i).push(s[i]) =~= s.subrange(seg, i + 1));
        assert(done.push(s.subrange(seg, i)).update(done.len() as int, s.subrange(seg, i + 1)) =~= done.push(s.subrange(seg, i + 1)));
    }
}

/// `raw` cut at each `sep`, as `str::split` cuts it.
pub fn split_text(raw: &str, sep: char) -> (r: Vec<String>)
    ensures
        r@.map_values(|p: String| p@) == split_on(raw@, sep),
{
    let chars = to_chars(raw);
    let n = chars.len();
    let mut out: Vec<String> = Vec::new();
    let ghost mut done: Seq<Seq<char>> = Seq::empty();
    let mut seg: usize = 0;
    let mut i: usize = 0;
    proof {
        assert(chars@.take(0) =~= Seq::<char>::empty());
        assert(chars@.subrange(0, 0) =~= Seq::<char>::empty());
        assert(split_on(Seq::<char>::empty(), sep) == seq![Seq::<char>::empty()]);
        assert(done.push(chars@.subrange(0, 0)) =~= seq![Seq::<char>::empty()]);
    }
    while i < n
        invariant
            chars@ == raw@,
            n == chars@.len(),
            0 <= seg <= i <= n,
            split_on(chars@.take(i as int), sep) == done.push(chars@.subrange(seg as int, i as int)),
            out@.map_values(|p: String| p@) == done,
        decreases n - i,
    {
        proof {
            lemma_split_step(chars@, sep, i as int, done, seg as int);
        }
        if chars[i] == sep {
            let piece = String::from_str(raw.substring_char(seg, i));
            let ghost before = out@.map_values(|p: String| p@);
            out.push(piece);
            proof {
                assert(out@.map_values(|p: String| p@) =~= before.push(chars@.subrange(seg as int, i as int)));
                done = done.push(chars@.subrange(seg as int, i as int));
            }
            seg = i + 1;
        }
        i = i + 1;
    }
    let piece = String::from_str(raw.substring_char(seg, n));
    let ghost before = out@.map_values(|p: String| p@);
    out.push(piece);
    proof {
        assert(out@.map_values(|p: String| p@) =~= before.push(chars@.subrange(seg as int, n as int)));
        assert(chars@.take(n as int) =~= raw@);
    }
    out
}

proof fn lemma_keep_nonempty_push(parts: Seq<Seq<char>>, x: Seq<char>)
    ensures
        keep_nonempty(parts.push(x)) == (if x.len() > 0 { keep_nonempty(parts).push(x) } else { keep_nonempty(parts) }),
{
    assert(parts.push(x).drop_last() =~= parts);
}

/// The slot names of a slot list: the comma-separated pieces, trimmed, the
/// empty ones left out.
pub fn parse_slots(raw: &str) -> (r: Vec<String>)
    ensures
        r@.map_values(|p: String| p@) == slots_spec(raw@),
{
    let pieces = split_text(raw, ',');
    let ghost all = split_on(raw@, ',');
    let mut out: Vec<String> = Vec::new();
    let mut i: usize = 0;
    while i < pieces.len()
        invariant
            pieces@.map_values(|p: String| p@) == all,
            all == split_on(raw@, ','),
            0 <= i <= pieces@.len(),
            out@.map_values(|p: String| p@) == keep_nonempty(all.take(i as int).map_values(|p: Seq<char>| trim_spec(p))),
        decreases pieces@.len() - i,
    {
        let piece = pieces[i].as_str();
        let chars = to_chars(piece);
        let (a, b) = trimmed_bounds(&chars, 0, chars.len());
        let ghost trimmed = trim_spec(all[i as int]);
        proof {
            assert(all[i as int] == pieces@[i as int]@);
            assert(chars@.subrange(0, chars@.len() as int) =~= chars@);
            assert(all.take(i + 1).map_values(|p: Seq<char>| trim_spec(p)) =~= all.take(i as int).map_values(|p: Seq<char>| trim_spec(p)).push(trimmed));
            lemma_keep_nonempty_push(all.take(i as int).map_values(|p: Seq<char>| trim_spec(p)), trimmed);
        }
        if a < b {
            let ghost before = out@.map_values(|p: String| p@);
            out.push(String::from_str(piece.substring_char(a, b)));
            proof {
                assert(out@.map_values(|p: String| p@) =~= before.push(trimmed));
            }
        }
        i = i + 1;
    }
    proof {
        assert(all.take(all.len() as int) =~= all);
    }
    out
}

/// A widget path names a category and a widget: exactly two pieces around
/// one slash.
pub open spec fn widget_path_spec(path: Seq<char>) -> Option<(Seq<char>, Seq<char>)> {
    let segs = split_on(path, '/');
    if segs.len() == 2 { Some((segs[0], segs[1])) } else { None }
}

/// Splits a widget path into its category and its name; none unless the
/// path has exactly one slash.
pub fn parse_widget_path(path: &str) -> (r: Option<(String, String)>)
    ensures
        match r {
            Some((c, n)) => widget_path_spec(path@) == Some((c@, n@)),
            None => widget_path_spec(path@) is None,
        },
{
    let segs = split_text(path, '/');
    if segs.len() != 2 {
        return None;
    }
    proof {
        assert(segs@.map_values(|p: String| p@)[0] == segs@[0]@);
        assert(segs@.map_values(|p: String| p@)[1] == segs@[1]@);
    }
    Some((segs[0].clone(), segs[1].clone()))
}

} // verus!
