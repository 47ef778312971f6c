use linediff::patch::{Change, Patch};

#[test]
fn test_from_fs() {}

#[test]
fn patch_from_vec_keeps_changes() {
    let changes = vec![Change {
        old_start: 1,
        removed_count: 1,
        new_start: 1,
        added_count: 2,
        removed_lines: vec![String::from("b")],
        added_lines: vec![String::from("x"), String::from("y")],
    }];
    let patch = Patch::from_vec(changes);
    let vec_ref = patch.as_vec_ref();
    assert_eq!(vec_ref.len(), 1);
    assert_eq!(vec_ref[0].old_start, 1);
    assert_eq!(vec_ref[0].removed_count, 1);
    assert_eq!(vec_ref[0].new_start, 1);
    assert_eq!(vec_ref[0].added_count, 2);
    assert_eq!(vec_ref[0].removed_lines, vec![String::from("b")]);
    assert_eq!(
        vec_ref[0].added_lines,
        vec![String::from("x"), String::from("y")]
    );
}
