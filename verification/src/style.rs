//! Plain-valued forms of the style and measure types that widgets carry.
use vstd::prelude::*;
use bevy::platform::collections::HashMap;
use crate::tables::{string_table, string_table_new, string_table_clone, string_table_is_empty};

verus! {

/// A widget's style, held as the fields that differ from the default style:
/// field path to serialized value. The default style has no entry.
pub struct WidgetStyle {
    pub overrides: HashMap<String, String>,
}

impl View for WidgetStyle {
    type V = Map<Seq<char>, Seq<char>>;

    open spec fn view(&self) -> Map<Seq<char>, Seq<char>> {
        string_table(self.overrides)
    }
}

impl WidgetStyle {
    /// The default style.
    pub fn default() -> (r: Self)
        ensures
            r@ == Map::<Seq<char>, Seq<char>>::empty(),
    {
        WidgetStyle { overrides: string_table_new() }
    }

    /// A style with the same fields.
    pub fn clone(&self) -> (r: Self)
        ensures
            r@ == self@,
    {
        WidgetStyle { overrides: string_table_clone(&self.overrides) }
    }

    /// Whether this is the default style.
    pub fn is_default(&self) -> (r: bool)
        ensures
            r == (self@.dom() == Set::<Seq<char>>::empty()),
    {
        string_table_is_empty(&self.overrides)
    }
}

} // verus!
