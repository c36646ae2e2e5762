//! The widget registry: which widgets exist, under which path, and what
//! children each one accepts.
use vstd::prelude::*;
use bevy::platform::collections::HashMap;
use crate::tables::{registration_table, path_table, registration_table_new, registration_table_get, registration_table_insert, registration_table_keys, path_table_new, path_table_get, path_table_insert};

verus! {

/// A widget's name pair: category and name.
pub type WidgetId = (&'static str, &'static str);

/// How many children a widget accepts.
#[derive(Debug, Clone, Copy, PartialEq, Eq, Structural)]
pub enum WidgetChildRule {
    Any,
    Exact(usize),
    Range { max: Option<usize> },
}

/// Whether a widget under `rule` accepts `next_count` children in all.
pub open spec fn rule_allows(rule: WidgetChildRule, next_count: int) -> bool {
    match rule {
        WidgetChildRule::Any => true,
        WidgetChildRule::Exact(n) => next_count <= n,
        WidgetChildRule::Range { max } => match max {
            Some(m) => next_count <= m,
            None => true,
        },
    }
}

impl WidgetChildRule {
    /// The rule a widget has when it declares none.
    pub fn default() -> (r: Self)
        ensures
            r == WidgetChildRule::Any,
    {
        WidgetChildRule::Any
    }

    /// Whether a widget under this rule that has `current` children accepts one more.
    pub fn allows_one_more(&self, current: usize) -> (r: bool)
        ensures
            r == rule_allows(*self, current + 1),
    {
        match self {
            WidgetChildRule::Any => true,
            WidgetChildRule::Exact(n) => current < *n,
            WidgetChildRule::Range { max } => match max {
                Some(m) => current < *m,
                None => true,
            },
        }
    }
}

/// The slot a child at `index` fills, given the widget's slot names: no
/// slot when there are none, the only slot when there is one, else the slot
/// at that index, if any.
pub open spec fn slot_at(slots: Seq<Seq<char>>, index: int) -> Option<Seq<char>> {
    if slots.len() == 0 {
        None
    } else if slots.len() == 1 {
        Some(slots[0])
    } else if 0 <= index < slots.len() {
        Some(slots[index])
    } else {
        None
    }
}

/// A registered widget: its category and name, the key of its type, the
/// children it accepts and the names of its child slots.
pub struct WidgetRegistration {
    category: &'static str,
    name: &'static str,
    type_key: u64,
    child_rule: WidgetChildRule,
    child_slots: &'static [&'static str],
}

/// What a registration holds, as plain values.
pub struct RegistrationView {
    pub category: Seq<char>,
    pub name: Seq<char>,
    pub type_key: u64,
    pub child_rule: WidgetChildRule,
    pub child_slots: Seq<Seq<char>>,
}

impl View for WidgetRegistration {
    type V = RegistrationView;

    closed spec fn view(&self) -> RegistrationView {
        RegistrationView {
            category: self.category@,
            name: self.name@,
            type_key: self.type_key,
            child_rule: self.child_rule,
            child_slots: self.child_slots@.map_values(|s: &str| s@),
        }
    }
}

/// The full path of a widget: its category, a slash, its name.
pub open spec fn widget_full_path(category: Seq<char>, name: Seq<char>) -> Seq<char> {
    category.push('/') + name
}

impl RegistrationView {
    pub open spec fn full_path(self) -> Seq<char> {
        widget_full_path(self.category, self.name)
    }
}

impl WidgetRegistration {
    /// A registration of the type with key `type_key` as `category/name`,
    /// accepting any children and having no slots.
    pub fn of(type_key: u64, category: &'static str, name: &'static str) -> (r: Self)
        ensures
            r@.category == category@,
            r@.name == name@,
            r@.type_key == type_key,
            r@.child_rule == WidgetChildRule::Any,
            r@.child_slots == Seq::<Seq<char>>::empty(),
    {
        let r = WidgetRegistration {
            category,
            name,
            type_key,
            child_rule: WidgetChildRule::Any,
            child_slots: &[],
        };
        assert(r@.child_slots =~= Seq::<Seq<char>>::empty());
        r
    }

    pub fn category(&self) -> (r: &'static str)
        ensures
            r@ == self@.category,
    {
        self.category
    }

    pub fn name(&self) -> (r: &'static str)
        ensures
            r@ == self@.name,
    {
        self.name
    }

    pub fn type_key(&self) -> (r: u64)
        ensures
            r == self@.type_key,
    {
        self.type_key
    }

    pub fn child_rule(&self) -> (r: WidgetChildRule)
        ensures
            r == self@.child_rule,
    {
        self.child_rule
    }

    /// The slot that the child at `index` fills.
    pub fn child_slot_at(&self, index: usize) -> (r: Option<&'static str>)
        ensures
            r is Some == slot_at(self@.child_slots, index as int) is Some,
            r matches Some(s) ==> s@ == slot_at(self@.child_slots, index as int)->0,
    {
        let slots = self.child_slots;
        if slots.len() == 0 {
            None
        } else if slots.len() == 1 {
            Some(slots[0])
        } else if index < slots.len() {
            Some(slots[index])
        } else {
            None
        }
    }

    /// The same registration with the child rule `rule`.
    pub fn child_rule_config(self, rule: WidgetChildRule) -> (r: Self)
        ensures
            r@ == (RegistrationView { child_rule: rule, ..self@ }),
    {
        WidgetRegistration { child_rule: rule, ..self }
    }

    /// The same registration with the child slots `slots`.
    pub fn child_slots(self, slots: &'static [&'static str]) -> (r: Self)
        ensures
            r@ == (RegistrationView { child_slots: slots@.map_values(|s: &str| s@), ..self@ }),
    {
        WidgetRegistration { child_slots: slots, ..self }
    }

    /// `category/name`.
    pub fn full_path(&self) -> (r: String)
        ensures
            r@ == self@.full_path(),
    {
        let mut r = String::from_str(self.category);
        r.append("/");
        r.append(self.name);
        proof {
            reveal_strlit("/");
            assert(r@ =~= self@.full_path());
        }
        r
    }
}

/// The type keys of the built-in widgets.
pub const BUTTON_WIDGET_KEY: u64 = 0x7669_7374_6100_0001u64;
pub const LABEL_WIDGET_KEY: u64 = 0x7669_7374_6100_0002u64;
pub const IMAGE_WIDGET_KEY: u64 = 0x7669_7374_6100_0003u64;
pub const SPLIT_VIEW_WIDGET_KEY: u64 = 0x7669_7374_6100_0004u64;
pub const NUMBER_FIELD_WIDGET_KEY: u64 = 0x7669_7374_6100_0005u64;
pub const DROPDOWN_WIDGET_KEY: u64 = 0x7669_7374_6100_0006u64;
pub const CHECKBOX_WIDGET_KEY: u64 = 0x7669_7374_6100_0007u64;
pub const DIVIDER_WIDGET_KEY: u64 = 0x7669_7374_6100_0008u64;

/// A registration with no child slots, as plain values.
pub open spec fn builtin(key: u64, category: Seq<char>, name: Seq<char>, rule: WidgetChildRule) -> RegistrationView {
    RegistrationView { category, name, type_key: key, child_rule: rule, child_slots: Seq::empty() }
}

/// The built-in widgets: buttons and labels take any children, a split view
/// exactly two (in its slots "first" and "second"), the others none.
pub open spec fn builtin_widgets() -> Seq<RegistrationView> {
    seq![
        builtin(BUTTON_WIDGET_KEY, "common"@, "button"@, WidgetChildRule::Any),
        builtin(LABEL_WIDGET_KEY, "common"@, "label"@, WidgetChildRule::Any),
        builtin(IMAGE_WIDGET_KEY, "common"@, "image"@, WidgetChildRule::Exact(0)),
        RegistrationView {
            category: "layout"@,
            name: "split_view"@,
            type_key: SPLIT_VIEW_WIDGET_KEY,
            child_rule: WidgetChildRule::Exact(2),
            child_slots: seq!["first"@, "second"@],
        },
        builtin(NUMBER_FIELD_WIDGET_KEY, "input"@, "number_field"@, WidgetChildRule::Exact(0)),
        builtin(DROPDOWN_WIDGET_KEY, "input"@, "dropdown"@, WidgetChildRule::Exact(0)),
        builtin(CHECKBOX_WIDGET_KEY, "input"@, "checkbox"@, WidgetChildRule::Exact(0)),
        builtin(DIVIDER_WIDGET_KEY, "layout"@, "divider"@, WidgetChildRule::Exact(0)),
    ]
}

/// The registry of widgets: registrations keyed by type, and an index from
/// full path to type.
pub struct WidgetRegistry {
    registrations: HashMap<u64, WidgetRegistration>,
    full_path_to_id: HashMap<String, u64>,
}

impl WidgetRegistry {
    pub closed spec fn entries(self) -> Map<u64, WidgetRegistration> {
        registration_table(self.registrations)
    }

    pub closed spec fn path_index(self) -> Map<Seq<char>, u64> {
        path_table(self.full_path_to_id)
    }

    /// The registration found under `path`, if any.
    pub open spec fn lookup(self, path: Seq<char>) -> Option<RegistrationView> {
        if self.path_index().contains_key(path) && self.entries().contains_key(self.path_index()[path]) {
            Some(self.entries()[self.path_index()[path]]@)
        } else {
            None
        }
    }

    /// Every indexed path leads to a registration of that path, and every
    /// registration is stored under its own type key and has its path indexed.
    pub open spec fn wf(self) -> bool {
        &&& forall|p: Seq<char>| #[trigger] self.path_index().contains_key(p) ==> {
            &&& self.entries().contains_key(self.path_index()[p])
            &&& self.entries()[self.path_index()[p]]@.full_path() == p
        }
        &&& forall|k: u64| #[trigger] self.entries().contains_key(k) ==> {
            &&& self.entries()[k]@.type_key == k
            &&& self.path_index().contains_key(self.entries()[k]@.full_path())
        }
    }

    /// A registry without any widget.
    fn empty() -> (r: Self)
        ensures
            r.wf(),
            r.entries() == Map::<u64, WidgetRegistration>::empty(),
            r.path_index() == Map::<Seq<char>, u64>::empty(),
    {
        WidgetRegistry { registrations: registration_table_new(), full_path_to_id: path_table_new() }
    }

    /// A registry holding the built-in widgets, each found under its path:
    /// common/button, common/label, common/image, layout/split_view,
    /// input/number_field, input/dropdown, input/checkbox and layout/divider.
    pub fn new() -> (r: Self)
        ensures
            r.wf(),
            r.entries().dom() == builtin_widgets().map_values(|b: RegistrationView| b.type_key).to_set(),
            r.path_index().dom() == builtin_widgets().map_values(|b: RegistrationView| b.full_path()).to_set(),
            forall|i: int| 0 <= i < builtin_widgets().len() ==> r.lookup(#[trigger] builtin_widgets()[i].full_path()) == Some(builtin_widgets()[i]),
    {
        let mut r = WidgetRegistry::empty();
        let button = WidgetRegistration::of(BUTTON_WIDGET_KEY, "common", "button");
        let label = WidgetRegistration::of(LABEL_WIDGET_KEY, "common", "label");
        let image = WidgetRegistration::of(IMAGE_WIDGET_KEY, "common", "image").child_rule_config(WidgetChildRule::Exact(0));
        let split_view = WidgetRegistration::of(SPLIT_VIEW_WIDGET_KEY, "layout", "split_view")
            .child_rule_config(WidgetChildRule::Exact(2))
            .child_slots(&["first", "second"]);
        let number_field = WidgetRegistration::of(NUMBER_FIELD_WIDGET_KEY, "input", "number_field").child_rule_config(WidgetChildRule::Exact(0));
        let dropdown = WidgetRegistration::of(DROPDOWN_WIDGET_KEY, "input", "dropdown").child_rule_config(WidgetChildRule::Exact(0));
        let checkbox = WidgetRegistration::of(CHECKBOX_WIDGET_KEY, "input", "checkbox").child_rule_config(WidgetChildRule::Exact(0));
        let divider = WidgetRegistration::of(DIVIDER_WIDGET_KEY, "layout", "divider").child_rule_config(WidgetChildRule::Exact(0));
        proof {
            reveal_strlit("common");
            reveal_strlit("button");
            reveal_strlit("label");
            reveal_strlit("image");
            reveal_strlit("layout");
            reveal_strlit("split_view");
            reveal_strlit("input");
            reveal_strlit("number_field");
            reveal_strlit("dropdown");
            reveal_strlit("checkbox");
            reveal_strlit("divider");
            reveal_strlit("first");
            reveal_strlit("second");
            let b = builtin_widgets();
            assert(button@ == b[0]);
            assert(label@ == b[1]);
            assert(image@ == b[2]);
            assert(split_view@.child_slots =~= b[3].child_slots);
            assert(split_view@ == b[3]);
            assert(number_field@ == b[4]);
            assert(dropdown@ == b[5]);
            assert(checkbox@ == b[6]);
            assert(divider@ == b[7]);
            assert(b[0].full_path().len() == 13 && b[0].full_path()[0] == 'c');
            assert(b[1].full_path().len() == 12 && b[1].full_path()[0] == 'c' && b[1].full_path()[7] == 'l');
            assert(b[2].full_path().len() == 12 && b[2].full_path()[0] == 'c' && b[2].full_path()[7] == 'i');
            assert(b[3].full_path().len() == 17 && b[3].full_path()[0] == 'l');
            assert(b[4].full_path().len() == 18 && b[4].full_path()[0] == 'i');
            assert(b[5].full_path().len() == 14 && b[5].full_path()[0] == 'i' && b[5].full_path()[6] == 'd');
            assert(b[6].full_path().len() == 14 && b[6].full_path()[0] == 'i' && b[6].full_path()[6] == 'c');
            assert(b[7].full_path().len() == 14 && b[7].full_path()[0] == 'l');
        }
        r.register(button);
        r.register(label);
        r.register(image);
        r.register(split_view);
        r.register(number_field);
        r.register(dropdown);
        r.register(checkbox);
        r.register(divider);
        proof {
            let b = builtin_widgets();
            let keys = b.map_values(|w: RegistrationView| w.type_key);
            let paths = b.map_values(|w: RegistrationView| w.full_path());
            assert forall|k: u64| #[trigger] r.entries().dom().contains(k) <==> keys.to_set().contains(k) by {
                if r.entries().dom().contains(k) {
                    let i = if k == BUTTON_WIDGET_KEY { 0int } else if k == LABEL_WIDGET_KEY { 1int } else if k == IMAGE_WIDGET_KEY { 2int }
                        else if k == SPLIT_VIEW_WIDGET_KEY { 3int } else if k == NUMBER_FIELD_WIDGET_KEY { 4int } else if k == DROPDOWN_WIDGET_KEY { 5int }
                        else if k == CHECKBOX_WIDGET_KEY { 6int } else { 7int };
                    assert(keys[i] == k);
                    assert(keys.contains(k));
                }
                if keys.to_set().contains(k) {
                    let i = choose|i: int| 0 <= i < keys.len() && keys[i] == k;
                    assert(r.entries().contains_key(b[i].type_key));
                }
            }
            assert forall|p: Seq<char>| #[trigger] r.path_index().dom().contains(p) <==> paths.to_set().contains(p) by {
                if r.path_index().dom().contains(p) {
                    let i = if p == b[0].full_path() { 0int } else if p == b[1].full_path() { 1int } else if p == b[2].full_path() { 2int }
                        else if p == b[3].full_path() { 3int } else if p == b[4].full_path() { 4int } else if p == b[5].full_path() { 5int }
                        else if p == b[6].full_path() { 6int } else { 7int };
                    assert(paths[i] == p);
                    assert(paths.contains(p));
                }
                if paths.to_set().contains(p) {
                    let i = choose|i: int| 0 <= i < paths.len() && paths[i] == p;
                    assert(r.path_index().contains_key(b[i].full_path()));
                }
            }
            assert(keys.to_set() =~= r.entries().dom());
            assert(paths.to_set() =~= r.path_index().dom());
            assert forall|i: int| 0 <= i < b.len() implies r.lookup(#[trigger] b[i].full_path()) == Some(b[i]) by {
                assert(r.path_index()[b[i].full_path()] == b[i].type_key);
            }
        }
        r
    }

    /// Registers `registration` unless its type is registered already; says
    /// whether it did. A new registration takes over its path.
    pub fn register(&mut self, registration: WidgetRegistration) -> (r: bool)
        requires
            old(self).wf(),
        ensures
            final(self).wf(),
            r == !old(self).entries().contains_key(registration@.type_key),
            r ==> final(self).entries() == old(self).entries().insert(registration@.type_key, registration),
            r ==> final(self).path_index() == old(self).path_index().insert(registration@.full_path(), registration@.type_key),
            !r ==> *final(self) == *old(self),
            r || old(self).entries()[registration@.type_key]@.full_path() == registration@.full_path()
                ==> (final(self).lookup(registration@.full_path()) matches Some(v) && v.full_path() == registration@.full_path()),
    {
        let key = registration.type_key;
        if registration_table_get(&self.registrations, key).is_some() {
            return false;
        }
        let path = registration.full_path();
        path_table_insert(&mut self.full_path_to_id, path, key);
        registration_table_insert(&mut self.registrations, key, registration);
        proof {
            let ghost s = *self;
            assert forall|p: Seq<char>| #[trigger] s.path_index().contains_key(p) implies {
                &&& s.entries().contains_key(s.path_index()[p])
                &&& s.entries()[s.path_index()[p]]@.full_path() == p
            } by {
                if p != registration@.full_path() {
                    assert(old(self).path_index().contains_key(p));
                }
            }
            assert forall|k: u64| #[trigger] s.entries().contains_key(k) implies {
                &&& s.entries()[k]@.type_key == k
                &&& s.path_index().contains_key(s.entries()[k]@.full_path())
            } by {
                if k != key {
                    assert(old(self).entries().contains_key(k));
                }
            }
        }
        true
    }

    /// The registration under `path`, if any.
    pub fn get_widget_by_path(&self, path: &str) -> (r: Option<&WidgetRegistration>)
        ensures
            r is Some == self.lookup(path@) is Some,
            r matches Some(g) ==> g@ == self.lookup(path@)->0,
    {
        match path_table_get(&self.full_path_to_id, path) {
            Some(key) => registration_table_get(&self.registrations, key),
            None => None,
        }
    }

    /// The registration of the type with key `type_key`, if any.
    pub fn get_widget(&self, type_key: u64) -> (r: Option<&WidgetRegistration>)
        ensures
            r is Some == self.entries().contains_key(type_key),
            r matches Some(g) ==> *g == self.entries()[type_key],
    {
        registration_table_get(&self.registrations, type_key)
    }

    /// The full path of the type with key `type_key`, if it is registered.
    pub fn widget_path(&self, type_key: u64) -> (r: Option<String>)
        ensures
            r is Some == self.entries().contains_key(type_key),
            r matches Some(p) ==> p@ == self.entries()[type_key]@.full_path(),
    {
        match self.get_widget(type_key) {
            Some(g) => Some(g.full_path()),
            None => None,
        }
    }

    /// Every registration once, in the registry's own order.
    pub fn get_all_widgets(&self) -> (r: Vec<&WidgetRegistration>)
        requires
            self.wf(),
        ensures
            r@.len() == self.entries().dom().len(),
            forall|i: int| 0 <= i < r@.len() ==> {
                &&& self.entries().contains_key(#[trigger] r@[i]@.type_key)
                &&& *r@[i] == self.entries()[r@[i]@.type_key]
            },
            forall|k: u64| #[trigger] self.entries().contains_key(k) ==> exists|i: int| 0 <= i < r@.len() && r@[i]@.type_key == k,
            forall|i: int, j: int| 0 <= i < r@.len() && 0 <= j < r@.len() && i != j ==> r@[i]@.type_key != r@[j]@.type_key,
    {
        let keys = registration_table_keys(&self.registrations);
        let mut out: Vec<&WidgetRegistration> = Vec::new();
        let mut i: usize = 0;
        proof {
            keys@.unique_seq_to_set();
        }
        while i < keys.len()
            invariant
                self.wf(),
                keys@.no_duplicates(),
                keys@.to_set() == self.entries().dom(),
                keys@.len() == self.entries().dom().len(),
                0 <= i <= keys@.len(),
                out@.len() == i,
                forall|j: int| 0 <= j < i ==> out@[j]@.type_key == keys@[j],
                forall|j: int| 0 <= j < i ==> *out@[j] == self.entries()[keys@[j]],
            decreases keys@.len() - i,
        {
            let k = keys[i];
            assert(keys@.to_set().contains(k)) by {
                assert(keys@.contains(k));
            }
            let g = registration_table_get(&self.registrations, k).unwrap();
            out.push(g);
            i = i + 1;
        }
        proof {
            assert forall|k: u64| #[trigger] self.entries().contains_key(k) implies exists|i: int| 0 <= i < out@.len() && out@[i]@.type_key == k by {
                assert(keys@.to_set().contains(k));
                let j = choose|j: int| 0 <= j < keys@.len() && keys@[j] == k;
                assert(out@[j]@.type_key == k);
            }
            assert forall|i: int| 0 <= i < out@.len() implies {
                &&& self.entries().contains_key(#[trigger] out@[i]@.type_key)
                &&& *out@[i] == self.entries()[out@[i]@.type_key]
            } by {
                assert(keys@.to_set().contains(keys@[i]));
            }
        }
        out
    }
}

/// A registered widget is found under its full path: after `register`
/// took it, the path gives back what was registered; after `register`
/// refused it because its type was there already with the same path, the
/// path still leads to a registration of that path, and nothing changed.
pub proof fn lemma_registered_widget_found(before: WidgetRegistry, after: WidgetRegistry, registration: WidgetRegistration, r: bool)
    requires
        before.wf(),
        r == !before.entries().contains_key(registration@.type_key),
        r ==> after.entries() == before.entries().insert(registration@.type_key, registration),
        r ==> after.path_index() == before.path_index().insert(registration@.full_path(), registration@.type_key),
        !r ==> after == before,
        !r ==> before.entries()[registration@.type_key]@.full_path() == registration@.full_path(),
    ensures
        after.lookup(registration@.full_path()) matches Some(v) && v.full_path() == registration@.full_path(),
        r ==> after.lookup(registration@.full_path()) == Some(registration@),
{
    if !r {
        assert(before.entries().contains_key(registration@.type_key));
        assert(before.path_index().contains_key(registration@.full_path()));
    }
}

} // verus!
