//! The messages the editor shows for a refused command or an asset that
//! could not be read.
use vstd::prelude::*;
use crate::document::{BlueprintCommandError, CommandErrorView};
use crate::asset::{VistaUiAssetError, AssetErrorView};
use crate::text::{to_chars, string_of};

verus! {

/// The decimal digit for `d` (below ten).
pub open spec fn digit_char(d: nat) -> char {
    (('0' as u32) + d) as char
}

/// `n` written in decimal, without leading zeros ("0" for zero).
pub open spec fn decimal_spec(n: nat) -> Seq<char>
    decreases n,
{
    if n < 10 {
        seq![digit_char(n)]
    } else {
        decimal_spec(n / 10).push(digit_char(n % 10))
    }
}

/// `{:?}` of an optional id: `Some(n)` or `None`.
pub open spec fn option_debug_spec(o: Option<u64>) -> Seq<char> {
    match o {
        Some(n) => "Some("@ + decimal_spec(n as nat) + ")"@,
        None => "None"@,
    }
}

pub(crate) fn append(v: &mut Vec<char>, s: &str)
    ensures
        final(v)@ == old(v)@ + s@,
{
    let chars = to_chars(s);
    let ghost start = v@;
    let mut i: usize = 0;
    while i < chars.len()
        invariant
            0 <= i <= chars@.len(),
            chars@ == s@,
            v@ == start + chars@.take(i as int),
        decreases chars@.len() - i,
    {
        v.push(chars[i]);
        i = i + 1;
        assert(v@ =~= start + chars@.take(i as int));
    }
    assert(chars@.take(chars@.len() as int) =~= chars@);
}

fn append_decimal(v: &mut Vec<char>, n: u64)
    ensures
        final(v)@ == old(v)@ + decimal_spec(n as nat),
    decreases n,
{
    if n >= 10 {
        append_decimal(v, n / 10);
    }
    let d = (n % 10) as u8;
    let c = (48u8 + d) as char;
    proof {
        assert(c == digit_char((n % 10) as nat));
    }
    let ghost before = v@;
    v.push(c);
    proof {
        if n >= 10 {
            assert(decimal_spec(n as nat) == decimal_spec((n / 10) as nat).push(digit_char((n % 10) as nat)));
        }
    }
}

fn append_option(v: &mut Vec<char>, o: Option<u64>)
    ensures
        final(v)@ == old(v)@ + option_debug_spec(o),
{
    match o {
        Some(n) => {
            let ghost start = v@;
            append(v, "Some(");
            append_decimal(v, n);
            append(v, ")");
            assert(v@ =~= start + option_debug_spec(o));
        },
        None => append(v, "None"),
    }
}

/// What a refused command says.
pub open spec fn command_error_text(e: CommandErrorView) -> Seq<char> {
    match e {
        CommandErrorView::UnknownWidgetPath(path) => "unknown widget path: "@ + path,
        CommandErrorView::ParentNotFound(p) => "parent node not found: "@ + decimal_spec(p as nat),
        CommandErrorView::NodeNotFound(n) => "node not found: "@ + decimal_spec(n as nat),
        CommandErrorView::InvalidMove => "invalid node move"@,
        CommandErrorView::ChildConstraintViolated { parent, parent_widget } =>
            "child constraint violated for parent "@ + decimal_spec(parent as nat) + " ("@ + parent_widget + ")"@,
    }
}

impl BlueprintCommandError {
    /// The sentence that describes the refusal.
    pub fn message(&self) -> (r: String)
        ensures
            r@ == command_error_text(self@),
    {
        let mut v: Vec<char> = Vec::new();
        match self {
            BlueprintCommandError::UnknownWidgetPath(path) => {
                append(&mut v, "unknown widget path: ");
                append(&mut v, path.as_str());
            },
            BlueprintCommandError::ParentNotFound(p) => {
                append(&mut v, "parent node not found: ");
                append_decimal(&mut v, *p);
            },
            BlueprintCommandError::NodeNotFound(n) => {
                append(&mut v, "node not found: ");
                append_decimal(&mut v, *n);
            },
            BlueprintCommandError::InvalidMove => {
                append(&mut v, "invalid node move");
            },
            BlueprintCommandError::ChildConstraintViolated { parent, parent_widget } => {
                append(&mut v, "child constraint violated for parent ");
                append_decimal(&mut v, *parent);
                append(&mut v, " (");
                append(&mut v, parent_widget.as_str());
                append(&mut v, ")");
            },
        }
        proof {
            assert(v@ =~= command_error_text(self@));
        }
        string_of(v)
    }
}

/// What an asset that could not be read says.
pub open spec fn asset_error_text(e: AssetErrorView) -> Seq<char> {
    match e {
        AssetErrorView::UnsupportedVersion(v) => "unsupported asset version "@ + decimal_spec(v as nat),
        AssetErrorView::DuplicateNodeId(id) => "duplicate node id "@ + decimal_spec(id as nat),
        AssetErrorView::MissingNode(id) => "missing node "@ + decimal_spec(id as nat),
        AssetErrorView::MissingChild { parent, child } =>
            "missing child "@ + decimal_spec(child as nat) + " referenced by "@ + decimal_spec(parent as nat),
        AssetErrorView::InvalidParentLink { child, expected_parent, actual_parent } =>
            "invalid parent link for node "@ + decimal_spec(child as nat) + ": expected "@ + option_debug_spec(expected_parent)
                + ", actual "@ + option_debug_spec(actual_parent),
        AssetErrorView::CycleDetected(id) => "cycle detected at node "@ + decimal_spec(id as nat),
        AssetErrorView::RonDecode(m) => m,
        AssetErrorView::RonEncode(m) => m,
    }
}

/// The sentence that says why an asset could not be read or written.
pub fn asset_error_to_string(error: VistaUiAssetError) -> (r: String)
    ensures
        r@ == asset_error_text(error@),
{
    let mut v: Vec<char> = Vec::new();
    match error {
        VistaUiAssetError::UnsupportedVersion(version) => {
            append(&mut v, "unsupported asset version ");
            append_decimal(&mut v, version as u64);
        },
        VistaUiAssetError::DuplicateNodeId(id) => {
            append(&mut v, "duplicate node id ");
            append_decimal(&mut v, id);
        },
        VistaUiAssetError::MissingNode(id) => {
            append(&mut v, "missing node ");
            append_decimal(&mut v, id);
        },
        VistaUiAssetError::MissingChild { parent, child } => {
            append(&mut v, "missing child ");
            append_decimal(&mut v, child);
            append(&mut v, " referenced by ");
            append_decimal(&mut v, parent);
        },
        VistaUiAssetError::InvalidParentLink { child, expected_parent, actual_parent } => {
            append(&mut v, "invalid parent link for node ");
            append_decimal(&mut v, child);
            append(&mut v, ": expected ");
            append_option(&mut v, expected_parent);
            append(&mut v, ", actual ");
            append_option(&mut v, actual_parent);
        },
        VistaUiAssetError::CycleDetected(id) => {
            append(&mut v, "cycle detected at node ");
            append_decimal(&mut v, id);
        },
        VistaUiAssetError::RonDecode(message) => {
            return message;
        },
        VistaUiAssetError::RonEncode(message) => {
            return message;
        },
    }
    proof {
        assert(v@ =~= asset_error_text(error@));
    }
    string_of(v)
}

} // verus!
