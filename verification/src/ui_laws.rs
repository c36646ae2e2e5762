//! What holds across calls of the widget and hierarchy functions.
use vstd::prelude::*;
use crate::inputs::{Checkbox, DropdownView, clicked, header_clicked};
use crate::tree::{TreeView, tree_wf, ancestor_chain, rank, lemma_chain_step};
use crate::messages::decimal_spec;
use crate::metadata::{spec_parse_usize, digits_value, all_digits, unsigned_body, is_digit};
use crate::messages::digit_char;

verus! {

/// Clicking a checkbox twice leaves it as it was.
pub proof fn lemma_checkbox_click_twice(c: Checkbox)
    ensures
        clicked(clicked(c)) == c,
{
}

/// Clicking a dropdown's header twice leaves it as it was.
pub proof fn lemma_header_click_twice(d: DropdownView)
    ensures
        header_clicked(header_clicked(d)) == d,
{
}

/// The last entity on a chain of ancestors has no parent.
proof fn lemma_chain_ends_at_root(t: TreeView, x: u64)
    requires
        tree_wf(t),
    ensures
        !t.parent.contains_key(ancestor_chain(t, x).last()),
    decreases rank(t, x),
{
    lemma_chain_step(t, x);
    if t.parent.contains_key(x) {
        let p = t.parent[x];
        lemma_chain_step(t, p);
        lemma_chain_ends_at_root(t, p);
        assert((seq![x] + ancestor_chain(t, p)).last() == ancestor_chain(t, p).last());
    }
}

/// Every entity lies below its topmost ancestor, and the topmost ancestor
/// of that one is itself.
pub proof fn lemma_topmost_is_root(t: TreeView, x: u64)
    requires
        tree_wf(t),
    ensures
        ancestor_chain(t, x).contains(ancestor_chain(t, x).last()),
        ancestor_chain(t, ancestor_chain(t, x).last()).last() == ancestor_chain(t, x).last(),
{
    lemma_chain_step(t, x);
    let top = ancestor_chain(t, x).last();
    assert(ancestor_chain(t, x)[ancestor_chain(t, x).len() - 1] == top);
    lemma_chain_ends_at_root(t, x);
    lemma_chain_step(t, top);
}

proof fn lemma_digit_char_value(d: nat)
    requires
        d < 10,
    ensures
        (digit_char(d) as u32) == ('0' as u32) + d,
        is_digit(digit_char(d)),
{
    assert(('0' as u32) == 48);
}

proof fn lemma_decimal_digits(n: nat)
    ensures
        decimal_spec(n).len() > 0,
        all_digits(decimal_spec(n)),
        digits_value(decimal_spec(n)) == n,
    decreases n,
{
    if n < 10 {
        let s = decimal_spec(n);
        assert(s == seq![digit_char(n)]);
        lemma_digit_char_value(n);
        assert(s.drop_last() =~= Seq::<char>::empty());
        assert(is_digit(s[0]));
        assert(digits_value(s.drop_last()) == 0);
        assert(s.last() == digit_char(n));
        assert(digits_value(s) == digits_value(s.drop_last()) * 10 + ((s.last() as u32) - ('0' as u32)) as nat);
    } else {
        lemma_decimal_digits(n / 10);
        let s = decimal_spec(n);
        let head = decimal_spec(n / 10);
        assert(s == head.push(digit_char(n % 10)));
        lemma_digit_char_value(n % 10);
        assert(s.drop_last() =~= head);
        assert forall|i: int| 0 <= i < s.len() implies is_digit(#[trigger] s[i]) by {
            if i < head.len() {
                assert(s[i] == head[i]);
            }
        }
        assert(s.last() == digit_char(n % 10));
        assert(digits_value(s) == digits_value(head) * 10 + ((s.last() as u32) - ('0' as u32)) as nat);
        assert(digits_value(s) == (n / 10) * 10 + n % 10);
        assert((n / 10) * 10 + n % 10 == n);
    }
}

/// A number written in decimal reads back as the same number.
pub proof fn lemma_decimal_reads_back(n: usize)
    ensures
        spec_parse_usize(decimal_spec(n as nat)) == Some(n),
{
    lemma_decimal_digits(n as nat);
    let s = decimal_spec(n as nat);
    assert(is_digit(s[0]));
    assert(unsigned_body(s) == s);
}

} // verus!
