use neoutl::history::{HistoryCommand, HistoryStack};

struct AddCmd(i32);

impl HistoryCommand<i32> for AddCmd {
    fn applies(&self, before: i32, after: i32) -> bool {
        after == before + self.0
    }
    fn reverts(&self, before: i32, after: i32) -> bool {
        after == before - self.0
    }
    fn description(&self) -> &str {
        "add"
    }
    fn apply(&mut self, world: &mut i32) {
        *world += self.0;
    }
    fn revert(&mut self, world: &mut i32) {
        *world -= self.0;
    }
}

#[test]
fn history_stack_push_undo_redo_max_depth() {
    let mut world: i32 = 0;
    let mut stack = HistoryStack::with_max_depth(2);

    let mut cmd1 = AddCmd(10);
    cmd1.apply(&mut world);
    stack.push(cmd1);

    let mut cmd2 = AddCmd(20);
    cmd2.apply(&mut world);
    stack.push(cmd2);

    assert_eq!(world, 30);
    assert_eq!(stack.done_len(), 2);

    assert!(stack.undo(&mut world));
    assert_eq!(world, 10);
    assert_eq!(stack.done_len(), 1);
    assert_eq!(stack.undone_len(), 1);

    assert!(stack.redo(&mut world));
    assert_eq!(world, 30);
    assert_eq!(stack.done_len(), 2);
    assert_eq!(stack.undone_len(), 0);

    let mut cmd3 = AddCmd(30);
    cmd3.apply(&mut world);
    stack.push(cmd3);

    let mut cmd4 = AddCmd(40);
    cmd4.apply(&mut world);
    stack.push(cmd4);

    assert_eq!(stack.done_len(), 2);
}

#[test]
fn undo_and_redo_on_empty_stacks_do_nothing() {
    let mut world: i32 = 5;
    let mut stack: HistoryStack<AddCmd> = HistoryStack::new();
    assert!(!stack.can_undo());
    assert!(!stack.can_redo());
    assert!(!stack.undo(&mut world));
    assert!(!stack.redo(&mut world));
    assert_eq!(world, 5);
}

#[test]
fn push_after_undo_clears_redo() {
    let mut world: i32 = 0;
    let mut stack = HistoryStack::new();
    let mut c = AddCmd(1);
    c.apply(&mut world);
    stack.push(c);
    assert!(stack.undo(&mut world));
    assert_eq!(world, 0);
    assert!(stack.can_redo());
    let mut d = AddCmd(7);
    d.apply(&mut world);
    stack.push(d);
    assert!(!stack.can_redo());
    assert_eq!(stack.done_len(), 1);
    // undo then redo returns to the same state
    assert!(stack.undo(&mut world));
    assert!(stack.redo(&mut world));
    assert_eq!(world, 7);
    stack.clear();
    assert_eq!(stack.done_len(), 0);
    assert_eq!(stack.undone_len(), 0);
}

#[test]
fn zero_depth_keeps_one_command() {
    let mut stack: HistoryStack<AddCmd> = HistoryStack::with_max_depth(0);
    stack.push(AddCmd(1));
    stack.push(AddCmd(2));
    assert_eq!(stack.done_len(), 1);
}
