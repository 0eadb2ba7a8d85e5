//! Where offsets lie in a file.
use i18n_tasks_rs::lineindex::LineIndex;

#[test]
fn locates_offsets() {
    let src = b"one\ntwo\nthree";
    let ix = LineIndex::new(src);
    assert_eq!(ix.locate(0), (1, 0));
    assert_eq!(ix.locate(3), (1, 3));
    assert_eq!(ix.locate(4), (2, 0));
    assert_eq!(ix.locate(9), (3, 1));
    assert_eq!(ix.line_text(src, 5), b"two");
    assert_eq!(ix.line_text(src, 12), b"three");
}
