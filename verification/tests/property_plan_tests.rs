use bevy_vista::property_plan::PropertyEntryKind::{EndHeader, Field, Header};
use bevy_vista::property_plan::{plan_property_rows, RowPlan};

fn row(entry: usize, group: Option<usize>) -> RowPlan {
    RowPlan { entry, foldout: false, expanded: false, group }
}

fn foldout(entry: usize, expanded: bool, group: Option<usize>) -> RowPlan {
    RowPlan { entry, foldout: true, expanded, group }
}

#[test]
fn headers_that_close_implicitly_close_each_other() {
    let entries = vec![
        Field,
        Header { default_open: true, implicit_close_previous: true },
        Field,
        Header { default_open: false, implicit_close_previous: true },
        Field,
        EndHeader,
        Field,
        Header { default_open: true, implicit_close_previous: false },
        Field,
    ];
    assert_eq!(
        plan_property_rows(&entries),
        vec![
            row(0, None),
            row(2, Some(1)),
            foldout(1, true, None),
            row(4, Some(3)),
            foldout(3, false, None),
            row(6, None),
            row(8, Some(7)),
            foldout(7, true, None),
        ]
    );
}

#[test]
fn headers_nest_up_to_their_end_markers() {
    let entries = vec![
        Header { default_open: true, implicit_close_previous: false },
        Header { default_open: false, implicit_close_previous: false },
        Field,
        EndHeader,
        Field,
        EndHeader,
        EndHeader,
    ];
    assert_eq!(
        plan_property_rows(&entries),
        vec![row(2, Some(1)), foldout(1, false, Some(0)), row(4, Some(0)), foldout(0, true, None)]
    );
    assert_eq!(plan_property_rows(&Vec::new()), Vec::new());
}
