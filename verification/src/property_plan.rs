//! How the inspector lays out a widget's property entries: a field becomes a
//! row, a header opens a foldout that holds what follows up to its end
//! marker, and a header that closes the previous one implicitly does so when
//! that one may be closed implicitly too.
use vstd::prelude::*;

verus! {

/// One entry of a widget's inspector list, as far as its layout goes: a
/// header (whether its foldout starts open, and whether it closes an open
/// header of the same sort before opening), a field, or the end of the
/// innermost open header.
#[derive(Clone, Copy, Debug, PartialEq, Eq, Structural)]
pub enum PropertyEntryKind {
    Header { default_open: bool, implicit_close_previous: bool },
    Field,
    EndHeader,
}

/// One piece of the layout: the entry it shows (a field's row, or a
/// header's foldout, open when `expanded`), and the header whose foldout
/// holds it (none at the top level). Pieces come in the order they are
/// made: a row when its field is met, a foldout when its header closes.
#[derive(Clone, Copy, Debug, PartialEq, Eq, Structural)]
pub struct RowPlan {
    pub entry: usize,
    pub foldout: bool,
    pub expanded: bool,
    pub group: Option<usize>,
}

/// The innermost open header, if any.
pub open spec fn innermost(stack: Seq<usize>) -> Option<usize> {
    if stack.len() == 0 { None } else { Some(stack.last()) }
}

/// Whether the entry is a header that opens its foldout.
pub open spec fn opens_expanded(k: PropertyEntryKind) -> bool {
    match k {
        PropertyEntryKind::Header { default_open, .. } => default_open,
        _ => false,
    }
}

/// Whether the entry is a header that closes the previous one implicitly.
pub open spec fn closes_implicitly(k: PropertyEntryKind) -> bool {
    match k {
        PropertyEntryKind::Header { implicit_close_previous, .. } => implicit_close_previous,
        _ => false,
    }
}

/// Closes the innermost open header: its foldout goes into the one around
/// it, or to the top level.
pub open spec fn close_innermost(entries: Seq<PropertyEntryKind>, out: Seq<RowPlan>, stack: Seq<usize>) -> (Seq<RowPlan>, Seq<usize>) {
    let rest = stack.drop_last();
    (out.push(RowPlan { entry: stack.last(), foldout: true, expanded: opens_expanded(entries[stack.last() as int]), group: innermost(rest) }), rest)
}

/// The pieces made and the headers open after the first `n` entries.
pub open spec fn plan_prefix(entries: Seq<PropertyEntryKind>, n: nat) -> (Seq<RowPlan>, Seq<usize>)
    decreases n,
{
    if n == 0 {
        (Seq::empty(), Seq::empty())
    } else {
        let (out, stack) = plan_prefix(entries, (n - 1) as nat);
        let i = (n - 1) as usize;
        match entries[n - 1] {
            PropertyEntryKind::Header { implicit_close_previous, .. } => {
                let (out1, stack1) = if implicit_close_previous && stack.len() > 0 && closes_implicitly(entries[stack.last() as int]) {
                    close_innermost(entries, out, stack)
                } else {
                    (out, stack)
                };
                (out1, stack1.push(i))
            },
            PropertyEntryKind::Field => (out.push(RowPlan { entry: i, foldout: false, expanded: false, group: innermost(stack) }), stack),
            PropertyEntryKind::EndHeader => if stack.len() == 0 { (out, stack) } else { close_innermost(entries, out, stack) },
        }
    }
}

/// The pieces made once every header still open is closed, innermost first.
pub open spec fn close_all(entries: Seq<PropertyEntryKind>, out: Seq<RowPlan>, stack: Seq<usize>) -> Seq<RowPlan>
    decreases stack.len(),
{
    if stack.len() == 0 {
        out
    } else {
        let (out1, stack1) = close_innermost(entries, out, stack);
        close_all(entries, out1, stack1)
    }
}

/// The layout of a whole entry list.
pub open spec fn spec_plan(entries: Seq<PropertyEntryKind>) -> Seq<RowPlan> {
    let (out, stack) = plan_prefix(entries, entries.len());
    close_all(entries, out, stack)
}

/// The layout of the inspector's entries: one row per field, in entry
/// order; one foldout per header, open as the header says, holding the rows
/// and foldouts that come after it up to its end marker (or up to the next
/// header when both close implicitly, or up to the end of the list).
pub fn plan_property_rows(entries: &Vec<PropertyEntryKind>) -> (r: Vec<RowPlan>)
    ensures
        r@ == spec_plan(entries@),
{
    let mut out: Vec<RowPlan> = Vec::new();
    let mut stack: Vec<usize> = Vec::new();
    let mut i: usize = 0;
    while i < entries.len()
        invariant
            0 <= i <= entries@.len(),
            (out@, stack@) == plan_prefix(entries@, i as nat),
            forall|j: int| 0 <= j < stack@.len() ==> #[trigger] stack@[j] < i,
        decreases entries@.len() - i,
    {
        match entries[i] {
            PropertyEntryKind::Header { implicit_close_previous, .. } => {
                if implicit_close_previous && stack.len() > 0 {
                    let top = stack[stack.len() - 1];
                    if closes_implicitly_now(entries[top]) {
                        close_one(entries, &mut out, &mut stack);
                    }
                }
                stack.push(i);
            },
            PropertyEntryKind::Field => {
                let group = if stack.len() > 0 { Some(stack[stack.len() - 1]) } else { None };
                out.push(RowPlan { entry: i, foldout: false, expanded: false, group });
            },
            PropertyEntryKind::EndHeader => {
                if stack.len() > 0 {
                    close_one(entries, &mut out, &mut stack);
                }
            },
        }
        i = i + 1;
    }
    while stack.len() > 0
        invariant
            close_all(entries@, out@, stack@) == spec_plan(entries@),
            forall|j: int| 0 <= j < stack@.len() ==> #[trigger] stack@[j] < entries@.len(),
        decreases stack@.len(),
    {
        close_one(entries, &mut out, &mut stack);
    }
    out
}

fn closes_implicitly_now(k: PropertyEntryKind) -> (r: bool)
    ensures
        r == closes_implicitly(k),
{
    match k {
        PropertyEntryKind::Header { implicit_close_previous, .. } => implicit_close_previous,
        _ => false,
    }
}

/// Closes the innermost open header.
fn close_one(entries: &Vec<PropertyEntryKind>, out: &mut Vec<RowPlan>, stack: &mut Vec<usize>)
    requires
        old(stack)@.len() > 0,
        forall|j: int| 0 <= j < old(stack)@.len() ==> #[trigger] old(stack)@[j] < entries@.len(),
    ensures
        (final(out)@, final(stack)@) == close_innermost(entries@, old(out)@, old(stack)@),
        forall|j: int| 0 <= j < final(stack)@.len() ==> #[trigger] final(stack)@[j] == old(stack)@[j],
{
    let top = stack.pop().unwrap();
    let expanded = match entries[top] {
        PropertyEntryKind::Header { default_open, .. } => default_open,
        _ => false,
    };
    let group = if stack.len() > 0 { Some(stack[stack.len() - 1]) } else { None };
    out.push(RowPlan { entry: top, foldout: true, expanded, group });
}

/// The entries shown as rows, in the order of the layout.
pub open spec fn rows_of(out: Seq<RowPlan>) -> Seq<usize>
    decreases out.len(),
{
    if out.len() == 0 {
        Seq::empty()
    } else if out.last().foldout {
        rows_of(out.drop_last())
    } else {
        rows_of(out.drop_last()).push(out.last().entry)
    }
}

/// The entries shown as foldouts, in the order of the layout.
pub open spec fn foldouts_of(out: Seq<RowPlan>) -> Seq<usize>
    decreases out.len(),
{
    if out.len() == 0 {
        Seq::empty()
    } else if out.last().foldout {
        foldouts_of(out.drop_last()).push(out.last().entry)
    } else {
        foldouts_of(out.drop_last())
    }
}

/// The places of the fields among the first `n` entries, in order.
pub open spec fn field_indices(entries: Seq<PropertyEntryKind>, n: nat) -> Seq<usize>
    decreases n,
{
    if n == 0 {
        Seq::empty()
    } else if entries[n - 1] is Field {
        field_indices(entries, (n - 1) as nat).push((n - 1) as usize)
    } else {
        field_indices(entries, (n - 1) as nat)
    }
}

/// The places of the headers among the first `n` entries, in order.
pub open spec fn header_indices(entries: Seq<PropertyEntryKind>, n: nat) -> Seq<usize>
    decreases n,
{
    if n == 0 {
        Seq::empty()
    } else if entries[n - 1] is Header {
        header_indices(entries, (n - 1) as nat).push((n - 1) as usize)
    } else {
        header_indices(entries, (n - 1) as nat)
    }
}

proof fn lemma_push_piece(out: Seq<RowPlan>, x: RowPlan)
    ensures
        rows_of(out.push(x)) == (if x.foldout { rows_of(out) } else { rows_of(out).push(x.entry) }),
        foldouts_of(out.push(x)) == (if x.foldout { foldouts_of(out).push(x.entry) } else { foldouts_of(out) }),
{
    assert(out.push(x).drop_last() =~= out);
}

proof fn lemma_close_innermost(entries: Seq<PropertyEntryKind>, out: Seq<RowPlan>, stack: Seq<usize>)
    requires
        stack.len() > 0,
    ensures
        rows_of(close_innermost(entries, out, stack).0) == rows_of(out),
        foldouts_of(close_innermost(entries, out, stack).0).to_multiset().add(close_innermost(entries, out, stack).1.to_multiset())
            == foldouts_of(out).to_multiset().add(stack.to_multiset()),
{
    broadcast use vstd::seq_lib::group_seq_properties;
    let rest = stack.drop_last();
    let x = RowPlan { entry: stack.last(), foldout: true, expanded: opens_expanded(entries[stack.last() as int]), group: innermost(rest) };
    lemma_push_piece(out, x);
    assert(rest.push(stack.last()) =~= stack);
    vstd::seq_lib::to_multiset_build(rest, stack.last());
    vstd::seq_lib::to_multiset_build(foldouts_of(out), stack.last());
    assert(foldouts_of(out).push(stack.last()).to_multiset().add(rest.to_multiset())
        =~= foldouts_of(out).to_multiset().add(stack.to_multiset()));
}

proof fn lemma_plan_prefix(entries: Seq<PropertyEntryKind>, n: nat)
    requires
        n <= entries.len(),
    ensures
        rows_of(plan_prefix(entries, n).0) == field_indices(entries, n),
        foldouts_of(plan_prefix(entries, n).0).to_multiset().add(plan_prefix(entries, n).1.to_multiset())
            == header_indices(entries, n).to_multiset(),
    decreases n,
{
    broadcast use vstd::seq_lib::group_seq_properties;
    if n > 0 {
        lemma_plan_prefix(entries, (n - 1) as nat);
        let (out, stack) = plan_prefix(entries, (n - 1) as nat);
        let i = (n - 1) as usize;
        match entries[n - 1] {
            PropertyEntryKind::Header { implicit_close_previous, .. } => {
                let (out1, stack1) = if implicit_close_previous && stack.len() > 0 && closes_implicitly(entries[stack.last() as int]) {
                    lemma_close_innermost(entries, out, stack);
                    close_innermost(entries, out, stack)
                } else {
                    (out, stack)
                };
                vstd::seq_lib::to_multiset_build(stack1, i);
                vstd::seq_lib::to_multiset_build(header_indices(entries, (n - 1) as nat), i);
                assert(foldouts_of(out1).to_multiset().add(stack1.push(i).to_multiset())
                    =~= foldouts_of(out1).to_multiset().add(stack1.to_multiset()).insert(i));
            },
            PropertyEntryKind::Field => {
                lemma_push_piece(out, RowPlan { entry: i, foldout: false, expanded: false, group: innermost(stack) });
            },
            PropertyEntryKind::EndHeader => {
                if stack.len() > 0 {
                    lemma_close_innermost(entries, out, stack);
                }
            },
        }
    }
}

proof fn lemma_close_all(entries: Seq<PropertyEntryKind>, out: Seq<RowPlan>, stack: Seq<usize>)
    ensures
        rows_of(close_all(entries, out, stack)) == rows_of(out),
        foldouts_of(close_all(entries, out, stack)).to_multiset() == foldouts_of(out).to_multiset().add(stack.to_multiset()),
    decreases stack.len(),
{
    broadcast use vstd::seq_lib::group_seq_properties;
    if stack.len() == 0 {
        assert(foldouts_of(out).to_multiset().add(stack.to_multiset()) =~= foldouts_of(out).to_multiset());
    } else {
        lemma_close_innermost(entries, out, stack);
        let (out1, stack1) = close_innermost(entries, out, stack);
        lemma_close_all(entries, out1, stack1);
    }
}

/// The layout shows every field as a row, once and in entry order, and
/// every header as a foldout, once.
pub proof fn lemma_plan_shows_each_entry(entries: Seq<PropertyEntryKind>)
    ensures
        rows_of(spec_plan(entries)) == field_indices(entries, entries.len()),
        foldouts_of(spec_plan(entries)).to_multiset() == header_indices(entries, entries.len()).to_multiset(),
{
    lemma_plan_prefix(entries, entries.len());
    let (out, stack) = plan_prefix(entries, entries.len());
    lemma_close_all(entries, out, stack);
}

/// A header opens its foldout as the innermost one. It first closes the
/// innermost open header only when both it and that header close
/// implicitly; that foldout is then made, open as its header says, inside
/// the header around it (or at the top level). Any other header closes
/// nothing and nests inside the header that is open.
pub proof fn lemma_header_closes_only_its_own_sort(entries: Seq<PropertyEntryKind>, i: nat)
    requires
        i < entries.len(),
        entries[i as int] is Header,
    ensures
        ({
            let (out, stack) = plan_prefix(entries, i);
            let (out2, stack2) = plan_prefix(entries, i + 1);
            let closes = entries[i as int] matches PropertyEntryKind::Header { implicit_close_previous: true, .. }
                && stack.len() > 0
                && entries[stack.last() as int] matches PropertyEntryKind::Header { implicit_close_previous: true, .. };
            &&& stack2.len() > 0 && stack2.last() == i as usize
            &&& !closes ==> out2 == out && stack2 == stack.push(i as usize)
            &&& closes ==> stack2 == stack.drop_last().push(i as usize) && out2 == out.push(RowPlan {
                entry: stack.last(),
                foldout: true,
                expanded: entries[stack.last() as int] matches PropertyEntryKind::Header { default_open: true, .. },
                group: if stack.len() > 1 { Some(stack[stack.len() - 2]) } else { None },
            })
        }),
{
    let (out, stack) = plan_prefix(entries, i);
    assert(plan_prefix(entries, i + 1) == {
        let (o, st) = plan_prefix(entries, i);
        match entries[i as int] {
            PropertyEntryKind::Header { implicit_close_previous, .. } => {
                let (out1, stack1) = if implicit_close_previous && st.len() > 0 && closes_implicitly(entries[st.last() as int]) {
                    close_innermost(entries, o, st)
                } else {
                    (o, st)
                };
                (out1, stack1.push(i as usize))
            },
            PropertyEntryKind::Field => (o.push(RowPlan { entry: i as usize, foldout: false, expanded: false, group: innermost(st) }), st),
            PropertyEntryKind::EndHeader => if st.len() == 0 { (o, st) } else { close_innermost(entries, o, st) },
        }
    });
    if stack.len() > 1 {
        assert(stack.drop_last().last() == stack[stack.len() - 2]);
    }
    let (out2, stack2) = plan_prefix(entries, i + 1);
    let ci = entries[i as int] matches PropertyEntryKind::Header { implicit_close_previous: true, .. };
    assert(ci == closes_implicitly(entries[i as int]));
    if stack.len() > 0 {
        let top = entries[stack.last() as int];
        assert((top matches PropertyEntryKind::Header { implicit_close_previous: true, .. }) == closes_implicitly(top));
        assert((top matches PropertyEntryKind::Header { default_open: true, .. }) == opens_expanded(top));
    }
    assert(stack2.len() > 0 && stack2.last() == i as usize);
}

/// A field's row is made where the field stands, inside the innermost open
/// header (or at the top level), and opens or closes nothing. An end marker
/// closes the innermost open header, if any: its foldout is made, open as
/// its header says, inside the header around it; with none open it does
/// nothing.
pub proof fn lemma_fields_and_end_markers(entries: Seq<PropertyEntryKind>, i: nat)
    requires
        i < entries.len(),
        !(entries[i as int] is Header),
    ensures
        ({
            let (out, stack) = plan_prefix(entries, i);
            let (out2, stack2) = plan_prefix(entries, i + 1);
            let inner = if stack.len() > 0 { Some(stack.last()) } else { None };
            &&& entries[i as int] is Field ==> stack2 == stack
                && out2 == out.push(RowPlan { entry: i as usize, foldout: false, expanded: false, group: inner })
            &&& entries[i as int] is EndHeader && stack.len() == 0 ==> out2 == out && stack2 == stack
            &&& entries[i as int] is EndHeader && stack.len() > 0 ==> stack2 == stack.drop_last() && out2 == out.push(RowPlan {
                entry: stack.last(),
                foldout: true,
                expanded: entries[stack.last() as int] matches PropertyEntryKind::Header { default_open: true, .. },
                group: if stack.len() > 1 { Some(stack[stack.len() - 2]) } else { None },
            })
        }),
{
    let (out, stack) = plan_prefix(entries, i);
    if stack.len() > 1 {
        assert(stack.drop_last().last() == stack[stack.len() - 2]);
    }
    if stack.len() > 0 {
        let top = entries[stack.last() as int];
        assert((top matches PropertyEntryKind::Header { default_open: true, .. }) == opens_expanded(top));
    }
}

} // verus!
