//! The kinds of number a number field edits and the units a length is
//! given in, with the names and list positions the inspector shows them by.
use vstd::prelude::*;

verus! {

/// The kinds of number a number field can hold.
#[derive(Clone, Copy, Debug, PartialEq, Eq, Structural)]
pub enum NumberKind {
    I8,
    I16,
    I32,
    I64,
    Isize,
    U8,
    U16,
    U32,
    U64,
    Usize,
    F32,
    F64,
}

/// The name of each kind, as the kind is written.
pub open spec fn kind_name(k: NumberKind) -> Seq<char> {
    match k {
        NumberKind::I8 => "I8"@,
        NumberKind::I16 => "I16"@,
        NumberKind::I32 => "I32"@,
        NumberKind::I64 => "I64"@,
        NumberKind::Isize => "Isize"@,
        NumberKind::U8 => "U8"@,
        NumberKind::U16 => "U16"@,
        NumberKind::U32 => "U32"@,
        NumberKind::U64 => "U64"@,
        NumberKind::Usize => "Usize"@,
        NumberKind::F32 => "F32"@,
        NumberKind::F64 => "F64"@,
    }
}

/// The place of each kind in the inspector's list of kinds.
pub open spec fn kind_index(k: NumberKind) -> usize {
    match k {
        NumberKind::I8 => 0,
        NumberKind::I16 => 1,
        NumberKind::I32 => 2,
        NumberKind::I64 => 3,
        NumberKind::Isize => 4,
        NumberKind::U8 => 5,
        NumberKind::U16 => 6,
        NumberKind::U32 => 7,
        NumberKind::U64 => 8,
        NumberKind::Usize => 9,
        NumberKind::F32 => 10,
        NumberKind::F64 => 11,
    }
}

/// The kind at each place of the inspector's list.
pub open spec fn kind_at(index: usize) -> Option<NumberKind> {
    if index == 0 { Some(NumberKind::I8) }
    else if index == 1 { Some(NumberKind::I16) }
    else if index == 2 { Some(NumberKind::I32) }
    else if index == 3 { Some(NumberKind::I64) }
    else if index == 4 { Some(NumberKind::Isize) }
    else if index == 5 { Some(NumberKind::U8) }
    else if index == 6 { Some(NumberKind::U16) }
    else if index == 7 { Some(NumberKind::U32) }
    else if index == 8 { Some(NumberKind::U64) }
    else if index == 9 { Some(NumberKind::Usize) }
    else if index == 10 { Some(NumberKind::F32) }
    else if index == 11 { Some(NumberKind::F64) }
    else { None }
}

/// The kind named `name`, if any.
pub open spec fn kind_named(name: Seq<char>) -> Option<NumberKind> {
    if name == "I8"@ { Some(NumberKind::I8) }
    else if name == "I16"@ { Some(NumberKind::I16) }
    else if name == "I32"@ { Some(NumberKind::I32) }
    else if name == "I64"@ { Some(NumberKind::I64) }
    else if name == "Isize"@ { Some(NumberKind::Isize) }
    else if name == "U8"@ { Some(NumberKind::U8) }
    else if name == "U16"@ { Some(NumberKind::U16) }
    else if name == "U32"@ { Some(NumberKind::U32) }
    else if name == "U64"@ { Some(NumberKind::U64) }
    else if name == "Usize"@ { Some(NumberKind::Usize) }
    else if name == "F32"@ { Some(NumberKind::F32) }
    else if name == "F64"@ { Some(NumberKind::F64) }
    else { None }
}

/// Whether two strings hold the same characters.
fn same_text(a: &str, b: &str) -> (r: bool)
    ensures
        r == (a@ == b@),
{
    let x = a.to_owned();
    let y = b.to_owned();
    x.eq(&y)
}

impl NumberKind {
    pub fn name(self) -> (r: &'static str)
        ensures
            r@ == kind_name(self),
    {
        match self {
            NumberKind::I8 => "I8",
            NumberKind::I16 => "I16",
            NumberKind::I32 => "I32",
            NumberKind::I64 => "I64",
            NumberKind::Isize => "Isize",
            NumberKind::U8 => "U8",
            NumberKind::U16 => "U16",
            NumberKind::U32 => "U32",
            NumberKind::U64 => "U64",
            NumberKind::Usize => "Usize",
            NumberKind::F32 => "F32",
            NumberKind::F64 => "F64",
        }
    }

    /// The kind whose name is `name`; none for any other text.
    pub fn from_name(name: &str) -> (r: Option<NumberKind>)
        ensures
            r == kind_named(name@),
    {
        if same_text(name, "I8") { Some(NumberKind::I8) }
        else if same_text(name, "I16") { Some(NumberKind::I16) }
        else if same_text(name, "I32") { Some(NumberKind::I32) }
        else if same_text(name, "I64") { Some(NumberKind::I64) }
        else if same_text(name, "Isize") { Some(NumberKind::Isize) }
        else if same_text(name, "U8") { Some(NumberKind::U8) }
        else if same_text(name, "U16") { Some(NumberKind::U16) }
        else if same_text(name, "U32") { Some(NumberKind::U32) }
        else if same_text(name, "U64") { Some(NumberKind::U64) }
        else if same_text(name, "Usize") { Some(NumberKind::Usize) }
        else if same_text(name, "F32") { Some(NumberKind::F32) }
        else if same_text(name, "F64") { Some(NumberKind::F64) }
        else { None }
    }

    /// What an empty field shows: a decimal point for the floating kinds.
    pub fn placeholder(self) -> (r: &'static str)
        ensures
            r@ == (if self == NumberKind::F32 || self == NumberKind::F64 { "0.0"@ } else { "0"@ }),
    {
        match self {
            NumberKind::F32 | NumberKind::F64 => "0.0",
            _ => "0",
        }
    }
}

pub fn number_kind_index(kind: NumberKind) -> (r: usize)
    ensures
        r == kind_index(kind),
{
    match kind {
        NumberKind::I8 => 0,
        NumberKind::I16 => 1,
        NumberKind::I32 => 2,
        NumberKind::I64 => 3,
        NumberKind::Isize => 4,
        NumberKind::U8 => 5,
        NumberKind::U16 => 6,
        NumberKind::U32 => 7,
        NumberKind::U64 => 8,
        NumberKind::Usize => 9,
        NumberKind::F32 => 10,
        NumberKind::F64 => 11,
    }
}

pub fn number_kind_from_index(index: usize) -> (r: Option<NumberKind>)
    ensures
        r == kind_at(index),
{
    match index {
        0 => Some(NumberKind::I8),
        1 => Some(NumberKind::I16),
        2 => Some(NumberKind::I32),
        3 => Some(NumberKind::I64),
        4 => Some(NumberKind::Isize),
        5 => Some(NumberKind::U8),
        6 => Some(NumberKind::U16),
        7 => Some(NumberKind::U32),
        8 => Some(NumberKind::U64),
        9 => Some(NumberKind::Usize),
        10 => Some(NumberKind::F32),
        11 => Some(NumberKind::F64),
        _ => None,
    }
}

/// Every kind, in the inspector's order.
pub open spec fn all_kinds() -> Seq<NumberKind> {
    seq![
        NumberKind::I8, NumberKind::I16, NumberKind::I32, NumberKind::I64, NumberKind::Isize,
        NumberKind::U8, NumberKind::U16, NumberKind::U32, NumberKind::U64, NumberKind::Usize,
        NumberKind::F32, NumberKind::F64,
    ]
}

/// The names of every kind, in the inspector's order.
pub fn number_kind_options() -> (r: Vec<String>)
    ensures
        r@.len() == 12,
        forall|i: int| 0 <= i < 12 ==> #[trigger] r@[i]@ == kind_name(all_kinds()[i]),
{
    let kinds: Vec<NumberKind> = vec![
        NumberKind::I8, NumberKind::I16, NumberKind::I32, NumberKind::I64, NumberKind::Isize,
        NumberKind::U8, NumberKind::U16, NumberKind::U32, NumberKind::U64, NumberKind::Usize,
        NumberKind::F32, NumberKind::F64,
    ];
    assert(kinds@ =~= all_kinds());
    let mut r: Vec<String> = Vec::new();
    let mut i: usize = 0;
    while i < kinds.len()
        invariant
            kinds@ == all_kinds(),
            0 <= i <= 12,
            r@.len() == i,
            forall|j: int| 0 <= j < i ==> #[trigger] r@[j]@ == kind_name(all_kinds()[j]),
        decreases 12 - i,
    {
        r.push(kinds[i].name().to_owned());
        i = i + 1;
    }
    r
}

/// Each kind's name reads back as that kind, and each kind's place in the
/// list gives back that kind, whose option text is its name.
pub proof fn lemma_kind_round_trips(k: NumberKind)
    ensures
        kind_named(kind_name(k)) == Some(k),
        kind_at(kind_index(k)) == Some(k),
        kind_index(k) < 12,
        all_kinds()[kind_index(k) as int] == k,
{
    reveal_strlit("I8");
    reveal_strlit("I16");
    reveal_strlit("I32");
    reveal_strlit("I64");
    reveal_strlit("Isize");
    reveal_strlit("U8");
    reveal_strlit("U16");
    reveal_strlit("U32");
    reveal_strlit("U64");
    reveal_strlit("Usize");
    reveal_strlit("F32");
    reveal_strlit("F64");
    assert("I8"@.len() == 2);
    assert("I8"@[0] == 'I');
    assert("I8"@[1] == '8');
    assert("I16"@.len() == 3);
    assert("I16"@[0] == 'I');
    assert("I16"@[1] == '1');
    assert("I16"@[2] == '6');
    assert("I32"@.len() == 3);
    assert("I32"@[0] == 'I');
    assert("I32"@[1] == '3');
    assert("I32"@[2] == '2');
    assert("I64"@.len() == 3);
    assert("I64"@[0] == 'I');
    assert("I64"@[1] == '6');
    assert("I64"@[2] == '4');
    assert("Isize"@.len() == 5);
    assert("Isize"@[0] == 'I');
    assert("Isize"@[1] == 's');
    assert("Isize"@[2] == 'i');
    assert("Isize"@[3] == 'z');
    assert("Isize"@[4] == 'e');
    assert("U8"@.len() == 2);
    assert("U8"@[0] == 'U');
    assert("U8"@[1] == '8');
    assert("U16"@.len() == 3);
    assert("U16"@[0] == 'U');
    assert("U16"@[1] == '1');
    assert("U16"@[2] == '6');
    assert("U32"@.len() == 3);
    assert("U32"@[0] == 'U');
    assert("U32"@[1] == '3');
    assert("U32"@[2] == '2');
    assert("U64"@.len() == 3);
    assert("U64"@[0] == 'U');
    assert("U64"@[1] == '6');
    assert("U64"@[2] == '4');
    assert("Usize"@.len() == 5);
    assert("Usize"@[0] == 'U');
    assert("Usize"@[1] == 's');
    assert("Usize"@[2] == 'i');
    assert("Usize"@[3] == 'z');
    assert("Usize"@[4] == 'e');
    assert("F32"@.len() == 3);
    assert("F32"@[0] == 'F');
    assert("F32"@[1] == '3');
    assert("F32"@[2] == '2');
    assert("F64"@.len() == 3);
    assert("F64"@[0] == 'F');
    assert("F64"@[1] == '6');
    assert("F64"@[2] == '4');
}

/// Each kind sits in the list at the place of its own name, and each place
/// of the list holds the kind written there.
pub proof fn lemma_kind_places_match_names(k: NumberKind, i: usize)
    ensures
        kind_index(k) < all_kinds().len(),
        kind_name(all_kinds()[kind_index(k) as int]) == kind_name(k),
        i < all_kinds().len() ==> kind_at(i) == Some(all_kinds()[i as int]),
{
}

/// Every place in the list below twelve holds a kind, whose place it is.
pub proof fn lemma_index_round_trips(index: usize)
    ensures
        kind_at(index) is Some <==> index < 12,
        kind_at(index) matches Some(k) ==> kind_index(k) == index,
{
}

/// The unit of a length as the inspector offers it.
#[derive(Clone, Copy, Debug, PartialEq, Eq, Structural)]
pub enum InspectorValUnit {
    Auto,
    Px,
    Percent,
    Vw,
    Vh,
    VMin,
    VMax,
}

pub open spec fn unit_index(u: InspectorValUnit) -> usize {
    match u {
        InspectorValUnit::Auto => 0,
        InspectorValUnit::Px => 1,
        InspectorValUnit::Percent => 2,
        InspectorValUnit::Vw => 3,
        InspectorValUnit::Vh => 4,
        InspectorValUnit::VMin => 5,
        InspectorValUnit::VMax => 6,
    }
}

/// The unit at each place of the list; pixels past its end.
pub open spec fn unit_at(index: usize) -> InspectorValUnit {
    if index == 0 { InspectorValUnit::Auto }
    else if index == 2 { InspectorValUnit::Percent }
    else if index == 3 { InspectorValUnit::Vw }
    else if index == 4 { InspectorValUnit::Vh }
    else if index == 5 { InspectorValUnit::VMin }
    else if index == 6 { InspectorValUnit::VMax }
    else { InspectorValUnit::Px }
}

pub fn val_unit_index(unit: InspectorValUnit) -> (r: usize)
    ensures
        r == unit_index(unit),
{
    match unit {
        InspectorValUnit::Auto => 0,
        InspectorValUnit::Px => 1,
        InspectorValUnit::Percent => 2,
        InspectorValUnit::Vw => 3,
        InspectorValUnit::Vh => 4,
        InspectorValUnit::VMin => 5,
        InspectorValUnit::VMax => 6,
    }
}

pub fn val_unit_from_index(index: usize) -> (r: InspectorValUnit)
    ensures
        r == unit_at(index),
{
    match index {
        0 => InspectorValUnit::Auto,
        1 => InspectorValUnit::Px,
        2 => InspectorValUnit::Percent,
        3 => InspectorValUnit::Vw,
        4 => InspectorValUnit::Vh,
        5 => InspectorValUnit::VMin,
        6 => InspectorValUnit::VMax,
        _ => InspectorValUnit::Px,
    }
}

/// The unit names the inspector lists, in order.
pub open spec fn unit_names() -> Seq<Seq<char>> {
    seq!["Auto"@, "Px"@, "%"@, "Vw"@, "Vh"@, "VMin"@, "VMax"@]
}

pub fn val_unit_options() -> (r: Vec<String>)
    ensures
        r@.len() == 7,
        forall|i: int| 0 <= i < 7 ==> #[trigger] r@[i]@ == unit_names()[i],
{
    let mut r: Vec<String> = Vec::new();
    r.push("Auto".to_owned());
    r.push("Px".to_owned());
    r.push("%".to_owned());
    r.push("Vw".to_owned());
    r.push("Vh".to_owned());
    r.push("VMin".to_owned());
    r.push("VMax".to_owned());
    r
}

/// How each unit is written in the inspector's list.
pub open spec fn unit_label(u: InspectorValUnit) -> Seq<char> {
    match u {
        InspectorValUnit::Auto => "Auto"@,
        InspectorValUnit::Px => "Px"@,
        InspectorValUnit::Percent => "%"@,
        InspectorValUnit::Vw => "Vw"@,
        InspectorValUnit::Vh => "Vh"@,
        InspectorValUnit::VMin => "VMin"@,
        InspectorValUnit::VMax => "VMax"@,
    }
}

/// Each unit sits in the list at the place of its own name, and each place
/// of the list holds the unit written there: the dropdown shows a length's
/// own unit, and picking an option gives the unit it names.
pub proof fn lemma_unit_places_match_names(u: InspectorValUnit, i: usize)
    ensures
        unit_index(u) < unit_names().len(),
        unit_names()[unit_index(u) as int] == unit_label(u),
        i < unit_names().len() ==> unit_label(unit_at(i)) == unit_names()[i as int],
{
}

/// A unit's place in the list gives back that unit; every place past the
/// list gives pixels.
pub proof fn lemma_unit_round_trips(u: InspectorValUnit, index: usize)
    ensures
        unit_at(unit_index(u)) == u,
        unit_index(u) < 7,
        index >= 7 ==> unit_at(index) == InspectorValUnit::Px,
{
}

} // verus!
