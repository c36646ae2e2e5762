use bevy_vista::kinds::{
    number_kind_from_index, number_kind_index, number_kind_options, val_unit_from_index, val_unit_index, val_unit_options,
    InspectorValUnit, NumberKind,
};

const ALL: [NumberKind; 12] = [
    NumberKind::I8, NumberKind::I16, NumberKind::I32, NumberKind::I64, NumberKind::Isize,
    NumberKind::U8, NumberKind::U16, NumberKind::U32, NumberKind::U64, NumberKind::Usize,
    NumberKind::F32, NumberKind::F64,
];

#[test]
fn kind_names_read_back() {
    for k in ALL {
        assert_eq!(NumberKind::from_name(k.name()), Some(k));
        assert_eq!(number_kind_from_index(number_kind_index(k)), Some(k));
    }
    assert_eq!(NumberKind::Usize.name(), "Usize");
    assert_eq!(NumberKind::from_name("u8"), None);
    assert_eq!(NumberKind::from_name(""), None);
    assert_eq!(number_kind_index(NumberKind::F64), 11);
    assert_eq!(number_kind_from_index(12), None);
}

#[test]
fn placeholders_show_a_point_for_floats() {
    assert_eq!(NumberKind::F32.placeholder(), "0.0");
    assert_eq!(NumberKind::F64.placeholder(), "0.0");
    assert_eq!(NumberKind::I32.placeholder(), "0");
}

#[test]
fn kind_options_list_the_names_in_order() {
    let names = number_kind_options();
    assert_eq!(names.len(), 12);
    for k in ALL {
        assert_eq!(names[number_kind_index(k)], k.name());
    }
}

#[test]
fn units_read_back_and_default_to_pixels() {
    let all = [
        InspectorValUnit::Auto, InspectorValUnit::Px, InspectorValUnit::Percent, InspectorValUnit::Vw,
        InspectorValUnit::Vh, InspectorValUnit::VMin, InspectorValUnit::VMax,
    ];
    for u in all {
        assert_eq!(val_unit_from_index(val_unit_index(u)), u);
    }
    assert_eq!(val_unit_from_index(7), InspectorValUnit::Px);
    assert_eq!(val_unit_options(), vec!["Auto", "Px", "%", "Vw", "Vh", "VMin", "VMax"]);
    assert_eq!(val_unit_index(InspectorValUnit::Percent), 2);
}
