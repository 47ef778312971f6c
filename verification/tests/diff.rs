use linediff::diff::{Differ, apply_patch};

#[test]
fn test_mid() {
    let old = "a\nb\nc\nd\ne\nf\ng\n";
    let new = "a\nb\nx\ny\nz\nd\ne\nf\ng\n";
    let mut differ = Differ::new(old, new);
    if let Some(patch_file) = differ.gen_patch() {
        assert_eq!(
            apply_patch(String::from(old), patch_file).unwrap(),
            String::from(new)
        );
    }
}

#[test]
fn test_remove_start() {
    let old = "a\na\nb\nc\nd\ne\nf";
    let new = "a\nb\nc\nd\ne\nf\n";
    let mut differ = Differ::new(old, new);
    if let Some(patch_file) = differ.gen_patch() {
        assert_eq!(
            apply_patch(String::from(old), patch_file).unwrap(),
            String::from(new)
        );
    }
}

#[test]
fn test_add_tail() {
    let old = "a\nb\nc\nd\n";
    let new = "a\nb\nc\nd\nf\ng\nh\n";
    let mut differ = Differ::new(old, new);
    if let Some(patch_file) = differ.gen_patch() {
        assert_eq!(
            apply_patch(String::from(old), patch_file).unwrap(),
            String::from(new)
        );
    }
}

#[test]
fn test_reverse() {
    let old = "a\nb\nc\nd\ne\nf\n";
    let new = "d\ne\nf\na\nb\nc\n";
    let mut differ = Differ::new(old, new);
    if let Some(patch_file) = differ.gen_patch() {
        assert_eq!(
            apply_patch(String::from(old), patch_file).unwrap(),
            String::from(new)
        );
    }
}

#[test]
fn test_new_file() {
    let old = "";
    let new = "a\nc\nd\n";
    let mut differ = Differ::new(old, new);
    if let Some(patch_file) = differ.gen_patch() {
        assert_eq!(
            apply_patch(String::from(old), patch_file).unwrap(),
            String::from(new)
        );
    }
}

#[test]
fn test_change_all() {
    let old = "a\nb\n";
    let new = "c\nd\n";
    let mut differ = Differ::new(old, new);
    if let Some(patch_file) = differ.gen_patch() {
        assert_eq!(
            apply_patch(String::from(old), patch_file).unwrap(),
            String::from(new)
        );
    }
}

#[test]
fn test_blank_line() {
    let old = "a\nb\n\n\n";
    let new = "c\nd\n\n";
    let mut differ = Differ::new(old, new);
    if let Some(patch_file) = differ.gen_patch() {
        assert_eq!(
            apply_patch(String::from(old), patch_file).unwrap(),
            String::from(new)
        );
    }
}

#[test]
fn test_complicated() {
    let old = "a\nb\nc\nd\ne\nf\ng\nh\n";
    let new = "a\nb\nx\nd\ny\ny\ne\nf\ng\nh\nk\nl\n";
    let mut differ = Differ::new(old, new);
    if let Some(patch_file) = differ.gen_patch() {
        assert_eq!(
            apply_patch(String::from(old), patch_file).unwrap(),
            String::from(new)
        );
    }
}
