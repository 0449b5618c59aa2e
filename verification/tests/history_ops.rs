use papirs_core::history::History;
use papirs_core::recorder::Recorder;

#[test]
fn fresh_edit_clears_redo_branch() {
    let mut h: History<i32> = History::new();
    h.push(1);
    assert_eq!(h.start_undo(), Some(1));
    h.push(-1); // the inverse of 1, redirected to the redo stack
    assert_eq!(h.redo_commands().as_slice(), &[-1]);
    // a fresh edit while idle discards the redo branch
    h.push(2);
    assert_eq!(h.undo_commands().as_slice(), &[2]);
    assert_eq!(h.redo_commands().as_slice(), &[] as &[i32]);
    assert!(h.idle());
}

#[test]
fn undo_then_pushing_inverse_returns_to_idle() {
    let mut h: History<i32> = History::new();
    h.push(7);
    assert!(h.idle());
    let popped = h.start_undo();
    assert_eq!(popped, Some(7));
    assert!(!h.idle());
    assert_eq!(h.undo_commands().len(), 0);
    h.push(-7);
    assert!(h.idle());
    assert_eq!(h.redo_commands().as_slice(), &[-7]);
    assert_eq!(h.undo_commands().len(), 0);
}

#[test]
fn redo_moves_inverse_back_to_undo() {
    let mut h: History<i32> = History::new();
    h.push(7);
    let c = h.start_undo().unwrap();
    h.push(-c);
    let r = h.start_redo();
    assert_eq!(r, Some(-7));
    h.push(7);
    assert_eq!(h.undo_commands().as_slice(), &[7]);
    assert_eq!(h.redo_commands().len(), 0);
    assert!(h.idle());
}

#[test]
fn start_undo_on_empty_stack_is_a_no_op() {
    let mut h: History<i32> = History::default();
    assert_eq!(h.start_undo(), None);
    assert!(h.idle());
    assert_eq!(h.start_redo(), None);
    assert!(h.idle());
}

#[test]
fn recorder_tracks_modification() {
    let mut r = Recorder::new(41);
    assert_eq!(*r.get(), 41);
    assert!(!r.is_updated());
    *r.get_mut() = 42;
    assert_eq!(*r.get(), 42);
    assert!(r.is_updated());
    r.resolve();
    assert!(!r.is_updated());
}

#[test]
fn recorder_update_marks_iff_function_says_so() {
    let mut r = Recorder::new(5);
    r.update(|v| (*v, false));
    assert!(!r.is_updated());
    assert_eq!(*r.get(), 5);
    r.update(|v| (*v + 1, true));
    assert!(r.is_updated());
    assert_eq!(*r.get(), 6);
    // once marked, it stays marked until resolved
    r.update(|v| (*v, false));
    assert!(r.is_updated());
}

#[test]
fn recorder_default_is_unmodified() {
    let r: Recorder<u32> = Recorder::default();
    assert_eq!(*r.get(), 0);
    assert!(!r.is_updated());
}
