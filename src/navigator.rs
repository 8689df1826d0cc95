use vstd::prelude::*;
use crate::codec::{
    decode, empty_root, encode, entries_of, parse_record, push_all, record, run_end, trim_start,
    well_nested,
};
use crate::text::{chars_of, string_of};
use crate::todo::{
    by_priority, decrease, fresh, increase, lemma_model_children, lowered, models, raised, Task,
    ToDo,
};

verus! {

/// What focusing on a sub-task leaves behind: the node that was being browsed,
/// without the focused sub-task; where that sub-task sat; which entry was
/// selected.
pub struct Frame {
    parent: ToDo,
    index: usize,
    selection: Option<usize>,
}

impl Frame {
    /// The value of the node left behind, without the focused sub-task.
    pub closed spec fn parent_task(&self) -> Task {
        self.parent.model()
    }

    /// Where the focused sub-task sat among its siblings.
    pub closed spec fn index(&self) -> nat {
        self.index as nat
    }

    /// The selection to restore on the way back.
    pub closed spec fn saved_selection(&self) -> Option<usize> {
        self.selection
    }
}

/// The navigation state over a task tree: the node being browsed (its
/// sub-tasks are the visible list), the selected entry of that list, and the
/// frames that focusing left behind, outermost first.
pub struct Navigator {
    current: ToDo,
    selection: Option<usize>,
    stack: Vec<Frame>,
}

/// A selection that is empty or points into a list of `n` entries.
pub open spec fn selects_into(sel: Option<usize>, n: nat) -> bool {
    match sel {
        Some(i) => i < n,
        None => true,
    }
}

/// `t` put back at `index` among the children of `parent`.
pub open spec fn reattach(parent: Task, index: int, t: Task) -> Task {
    Task { children: parent.children.insert(index, t), ..parent }
}

/// The whole tree: `t` put back into every frame, innermost first.
pub open spec fn plug(frames: Seq<Frame>, t: Task) -> Task
    decreases frames.len(),
{
    if frames.len() == 0 {
        t
    } else {
        let f = frames.last();
        plug(frames.drop_last(), reattach(f.parent_task(), f.index() as int, t))
    }
}

/// Where a move of the selection leads: from nothing to the first entry, if
/// there is one; else one step up or down, wrapping past either end.
pub open spec fn moved_selection(sel: Option<usize>, n: nat, up: bool) -> Option<usize> {
    match sel {
        None => if n == 0 {
            None
        } else {
            Some(0)
        },
        Some(i) => if up {
            if i == 0 {
                Some((n - 1) as usize)
            } else {
                Some((i - 1) as usize)
            }
        } else {
            if i + 1 >= n {
                Some((i + 1 - n) as usize)
            } else {
                Some((i + 1) as usize)
            }
        },
    }
}

/// The neighbour of entry `i` of `n` in the given direction, wrapping past
/// either end.
pub open spec fn neighbour(i: nat, n: nat, up: bool) -> nat {
    if up {
        if i == 0 {
            (n - 1) as nat
        } else {
            (i - 1) as nat
        }
    } else {
        if i + 1 == n {
            0
        } else {
            i + 1
        }
    }
}

/// The sequence with the entries at `i` and `j` exchanged.
pub open spec fn swapped(s: Seq<Task>, i: int, j: int) -> Seq<Task> {
    s.update(i, s[j]).update(j, s[i])
}

/// A task's own fields with another list of children.
pub open spec fn with_list(t: Task, s: Seq<Task>) -> Task {
    Task { children: s, ..t }
}

/// The list with `f` applied to the selected entry; unchanged when nothing is
/// selected.
pub open spec fn on_selected(s: Seq<Task>, sel: Option<usize>, f: spec_fn(Task) -> Task) -> Seq<Task> {
    match sel {
        Some(i) => s.update(i as int, f(s[i as int])),
        None => s,
    }
}

/// The task with its completion flipped.
pub open spec fn toggled() -> spec_fn(Task) -> Task {
    |t: Task| Task { complete: !t.complete, ..t }
}

/// The task one step up the priority ladder.
pub open spec fn promoted() -> spec_fn(Task) -> Task {
    |t: Task| Task { priority: raised(t.priority), ..t }
}

/// The task one step down the priority ladder.
pub open spec fn demoted() -> spec_fn(Task) -> Task {
    |t: Task| Task { priority: lowered(t.priority), ..t }
}

/// The task with another text.
pub open spec fn retexted(text: Seq<char>) -> spec_fn(Task) -> Task {
    |t: Task| Task { text, ..t }
}

/// The answer that a key gives to a yes/no question: `y` confirms; `n`, `q`
/// and `b` (back) cancel; any other key leaves the question open.
pub open spec fn answer(key: char) -> Option<bool> {
    if key == 'y' {
        Some(true)
    } else if key == 'n' || key == 'q' || key == 'b' {
        Some(false)
    } else {
        None
    }
}

/// The answer that a key gives to a yes/no question (see `answer`).
pub fn confirm_choice(key: char) -> (r: Option<bool>)
    ensures
        r == answer(key),
{
    if key == 'y' {
        Some(true)
    } else if key == 'n' || key == 'q' || key == 'b' {
        Some(false)
    } else {
        None
    }
}

/// The breadcrumb parts joined with `": "` between them.
pub open spec fn joined(parts: Seq<Seq<char>>) -> Seq<char>
    decreases parts.len(),
{
    if parts.len() == 0 {
        Seq::empty()
    } else if parts.len() == 1 {
        parts[0]
    } else {
        joined(parts.drop_last()) + seq![':', ' '] + parts.last()
    }
}

/// A command of the interactive session, with the text that the add and edit
/// dialogues produced. Deleting is confirmed by the caller beforehand.
pub enum Command {
    Quit,
    Back,
    Save,
    Add(String),
    Edit(String),
    Delete,
    TaskUp,
    TaskDown,
    Focus,
    Complete,
    SelectUp,
    SelectDown,
    Increase,
    Decrease,
    Sort,
}

/// What the session does after a command: go on, stop, or write the given
/// save-file text and go on.
pub enum Step {
    Continue,
    Quit,
    Write(String),
}

/// `b` is `a` with the selection moved one entry (see `moved_selection`).
pub open spec fn selection_moved(a: Navigator, b: Navigator, up: bool) -> bool {
    &&& b.wf()
    &&& b.sel() == moved_selection(a.sel(), a.list().len(), up)
    &&& b.current_task() == a.current_task()
    &&& b.frames() == a.frames()
}

/// `b` is `a` with `t` appended to the visible list and selected.
pub open spec fn task_appended(a: Navigator, b: Navigator, t: Task) -> bool {
    &&& b.wf()
    &&& b.current_task() == with_list(a.current_task(), a.list().push(t))
    &&& b.sel() == Some(a.list().len() as usize)
    &&& b.frames() == a.frames()
}

/// `b` is `a` with `f` applied to the selected entry, and nothing else
/// changed; with nothing selected, `b` is `a`.
pub open spec fn selected_changed(a: Navigator, b: Navigator, f: spec_fn(Task) -> Task) -> bool {
    &&& b.wf()
    &&& b.current_task() == with_list(a.current_task(), on_selected(a.list(), a.sel(), f))
    &&& b.sel() == a.sel()
    &&& b.frames() == a.frames()
}

/// `b` is `a` without the selected entry and with nothing selected.
pub open spec fn selected_deleted(a: Navigator, b: Navigator) -> bool {
    &&& b.wf()
    &&& b.current_task() == with_list(
        a.current_task(),
        match a.sel() {
            Some(i) => a.list().remove(i as int),
            None => a.list(),
        },
    )
    &&& b.sel() is None
    &&& b.frames() == a.frames()
}

/// `b` is `a` with the selected entry swapped with its neighbour (wrapping
/// past either end) and the selection following it.
pub open spec fn selected_moved(a: Navigator, b: Navigator, up: bool) -> bool {
    &&& b.wf()
    &&& b.frames() == a.frames()
    &&& match a.sel() {
        Some(i) => {
            let j = neighbour(i as nat, a.list().len(), up);
            &&& b.current_task() == with_list(a.current_task(), swapped(a.list(), i as int, j as int))
            &&& b.sel() == Some(j as usize)
        },
        None => b.current_task() == a.current_task() && b.sel() is None,
    }
}

/// `b` is `a` with the visible list sorted by priority (see `by_priority`).
pub open spec fn list_sorted(a: Navigator, b: Navigator) -> bool {
    &&& b.wf()
    &&& b.current_task() == with_list(a.current_task(), by_priority(a.list()))
    &&& b.sel() == a.sel()
    &&& b.frames() == a.frames()
}

/// `b` browses the entry that `a` had selected, whose first sub-task (if
/// any) is selected; `a`'s view is kept in a new innermost frame. The tree is
/// the same. With nothing selected, `b` is `a`.
pub open spec fn focused(a: Navigator, b: Navigator) -> bool {
    &&& b.wf()
    &&& b.tree() == a.tree()
    &&& match a.sel() {
        Some(i) => {
            &&& b.current_task() == a.list()[i as int]
            &&& b.sel() == (if a.list()[i as int].children.len() > 0 {
                Some(0usize)
            } else {
                None
            })
            &&& b.frames().len() == a.frames().len() + 1
            &&& b.frames().drop_last() == a.frames()
            &&& b.frames().last().saved_selection() == a.sel()
            &&& b.frames().last().index() == i
            &&& reattach(b.frames().last().parent_task(), i as int, b.current_task())
                == a.current_task()
        },
        None => b.current_task() == a.current_task() && b.sel() == a.sel() && b.frames()
            == a.frames(),
    }
}

/// `b` browses the list that `a`'s innermost frame kept, with that frame's
/// selection; the tree is the same. At the top level `b` is `a`.
pub open spec fn went_back(a: Navigator, b: Navigator) -> bool {
    &&& b.wf()
    &&& b.tree() == a.tree()
    &&& if a.frames().len() > 0 {
        let f = a.frames().last();
        &&& b.frames() == a.frames().drop_last()
        &&& b.current_task() == reattach(f.parent_task(), f.index() as int, a.current_task())
        &&& b.sel() == f.saved_selection()
    } else {
        b.current_task() == a.current_task() && b.sel() == a.sel() && b.frames() == a.frames()
    }
}

/// Going back right after focusing returns to the same list with the same
/// selection and the same frames.
pub proof fn lemma_focus_then_back(a: Navigator, b: Navigator, c: Navigator)
    requires
        a.sel() is Some,
        focused(a, b),
        went_back(b, c),
    ensures
        c.current_task() == a.current_task(),
        c.sel() == a.sel(),
        c.frames() == a.frames(),
{
}

proof fn lemma_models_update(v: Seq<ToDo>, i: int, x: ToDo)
    requires
        0 <= i < v.len(),
    ensures
        models(v.update(i, x)) == models(v).update(i, x.model()),
{
    assert(models(v.update(i, x)) =~= models(v).update(i, x.model()));
}

proof fn lemma_models_insert(v: Seq<ToDo>, i: int, x: ToDo)
    requires
        0 <= i <= v.len(),
    ensures
        models(v.insert(i, x)) == models(v).insert(i, x.model()),
{
    assert(models(v.insert(i, x)) =~= models(v).insert(i, x.model()));
}

proof fn lemma_models_remove(v: Seq<ToDo>, i: int)
    requires
        0 <= i < v.len(),
    ensures
        models(v.remove(i)) == models(v).remove(i),
{
    assert(models(v.remove(i)) =~= models(v).remove(i));
}

proof fn lemma_models_push(v: Seq<ToDo>, x: ToDo)
    ensures
        models(v.push(x)) == models(v).push(x.model()),
{
    assert(models(v.push(x)) =~= models(v).push(x.model()));
}

/// A node with no text, flags or children, to hold a place while a sub-task is
/// taken out and put back.
fn placeholder() -> (r: ToDo)
    ensures
        r.model() == empty_root(),
{
    let r = ToDo { task: String::new(), complete: false, priority: None, sub_tasks: Vec::new() };
    assert(r.model().children =~= Seq::<Task>::empty());
    assert(r.model().text =~= Seq::<char>::empty());
    r
}

impl Navigator {
    /// Every selection points into its list and every frame can take its
    /// sub-task back.
    pub closed spec fn wf(&self) -> bool {
        &&& selects_into(self.selection, self.current.sub_tasks.len() as nat)
        &&& forall|k: int|
            0 <= k < self.stack.len() ==> {
                let f = #[trigger] self.stack@[k];
                &&& f.index <= f.parent.sub_tasks.len()
                &&& selects_into(f.selection, (f.parent.sub_tasks.len() + 1) as nat)
            }
    }

    /// The node being browsed.
    pub closed spec fn current_task(&self) -> Task {
        self.current.model()
    }

    /// The visible list: the sub-tasks of the node being browsed.
    pub open spec fn list(&self) -> Seq<Task> {
        self.current_task().children
    }

    /// The selected entry of the visible list, if any.
    pub closed spec fn sel(&self) -> Option<usize> {
        self.selection
    }

    /// The frames that focusing left behind, outermost first.
    pub closed spec fn frames(&self) -> Seq<Frame> {
        self.stack@
    }

    /// The whole tree, with the node being browsed in its place.
    pub open spec fn tree(&self) -> Task {
        plug(self.frames(), self.current_task())
    }

    /// A view of a new, empty list.
    pub fn new() -> (r: Navigator)
        ensures
            r.wf(),
            r.tree() == empty_root(),
            r.current_task() == empty_root(),
            r.frames().len() == 0,
            r.sel() is None,
    {
        let r = Navigator { current: placeholder(), selection: None, stack: Vec::new() };
        r
    }

    /// A view of the tree that a save file describes; an unreadable file gives
    /// an empty list instead, with nothing of it kept.
    pub fn new_from_save(text: &str) -> (r: Navigator)
        ensures
            r.wf(),
            r.frames().len() == 0,
            r.sel() is None,
            well_nested(entries_of(text@)) ==> r.tree() == decode(text@),
            !well_nested(entries_of(text@)) ==> r.tree() == empty_root(),
    {
        match ToDo::load(text) {
            Ok(root) => Navigator { current: root, selection: None, stack: Vec::new() },
            Err(_) => Navigator::new(),
        }
    }

    /// The selected entry of the visible list, if any.
    pub fn selection(&self) -> (r: Option<usize>)
        ensures
            r == self.sel(),
    {
        self.selection
    }

    /// Whether the top-level list is being browsed.
    pub fn is_root(&self) -> (r: bool)
        ensures
            r == (self.frames().len() == 0),
    {
        self.stack.len() == 0
    }

    /// The node being browsed.
    pub fn current(&self) -> (r: &ToDo)
        ensures
            r.model() == self.current_task(),
    {
        &self.current
    }

    /// Moves the selection one entry up or down, wrapping past either end;
    /// with nothing selected, selects the first entry if there is one.
    pub fn move_selection(&mut self, up: bool)
        requires
            old(self).wf(),
        ensures
            selection_moved(*old(self), *final(self), up),
    {
        proof {
            lemma_model_children(self.current);
        }
        let n = self.current.sub_tasks.len();
        self.selection = match self.selection {
            None => if n == 0 {
                None
            } else {
                Some(0)
            },
            Some(i) => if up {
                if i == 0 {
                    Some(n - 1)
                } else {
                    Some(i - 1)
                }
            } else {
                if i + 1 >= n {
                    Some(i + 1 - n)
                } else {
                    Some(i + 1)
                }
            },
        };
    }

    /// Appends a new task with the given text to the visible list and selects it.
    pub fn add(&mut self, text: &str)
        requires
            old(self).wf(),
        ensures
            task_appended(*old(self), *final(self), fresh(text@)),
    {
        self.push_child(ToDo::new(text));
    }

    /// Appends the task that a save-file line describes (indentation dropped)
    /// to the visible list and selects it.
    pub fn add_from_line(&mut self, line: &str)
        requires
            old(self).wf(),
        ensures
            task_appended(*old(self), *final(self), record(trim_start(line@))),
    {
        let chars = chars_of(line);
        let start = run_end(&chars, 0, chars.len(), false);
        let node = parse_record(&chars, start, chars.len());
        proof {
            assert(chars@.subrange(0, chars@.len() as int) =~= line@);
            assert(chars@.subrange(start as int, chars@.len() as int) =~= trim_start(line@));
        }
        self.push_child(node);
    }

    fn push_child(&mut self, node: ToDo)
        requires
            old(self).wf(),
        ensures
            task_appended(*old(self), *final(self), node.model()),
    {
        proof {
            lemma_model_children(self.current);
            lemma_models_push(self.current.sub_tasks@, node);
        }
        let n = self.current.sub_tasks.len();
        self.current.sub_tasks.push(node);
        self.selection = Some(n);
        proof {
            lemma_model_children(self.current);
        }
    }

    /// The texts from the top of the tree down to the node being browsed; the
    /// root's text is left out when it is empty.
    pub closed spec fn trail(&self) -> Seq<Seq<char>> {
        let texts = Seq::new(self.stack.len() as nat, |k: int| self.stack@[k].parent.task@).push(
            self.current.task@,
        );
        if texts[0].len() == 0 {
            texts.drop_first()
        } else {
            texts
        }
    }

    /// Takes out the sub-task at `i`, leaving a placeholder.
    fn take_child(&mut self, i: usize) -> (c: ToDo)
        requires
            old(self).wf(),
            i < old(self).current.sub_tasks.len(),
        ensures
            final(self).wf(),
            c.model() == old(self).list()[i as int],
            final(self).current.sub_tasks.len() == old(self).current.sub_tasks.len(),
            final(self).list() == old(self).list().update(i as int, empty_root()),
            final(self).current.task == old(self).current.task,
            final(self).current.complete == old(self).current.complete,
            final(self).current.priority == old(self).current.priority,
            final(self).sel() == old(self).sel(),
            final(self).frames() == old(self).frames(),
    {
        proof {
            lemma_model_children(self.current);
        }
        let mut c = placeholder();
        proof {
            lemma_models_update(self.current.sub_tasks@, i as int, c);
        }
        self.current.sub_tasks.set_and_swap(i, &mut c);
        proof {
            lemma_model_children(self.current);
        }
        c
    }

    /// Puts `c` at `i` in the visible list.
    fn put_child(&mut self, i: usize, c: ToDo)
        requires
            old(self).wf(),
            i < old(self).current.sub_tasks.len(),
        ensures
            final(self).wf(),
            final(self).list() == old(self).list().update(i as int, c.model()),
            final(self).current.sub_tasks.len() == old(self).current.sub_tasks.len(),
            final(self).current.task == old(self).current.task,
            final(self).current.complete == old(self).current.complete,
            final(self).current.priority == old(self).current.priority,
            final(self).sel() == old(self).sel(),
            final(self).frames() == old(self).frames(),
    {
        proof {
            lemma_model_children(self.current);
            lemma_models_update(self.current.sub_tasks@, i as int, c);
        }
        self.current.sub_tasks.set(i, c);
        proof {
            lemma_model_children(self.current);
        }
    }

    /// Replaces the text of the selected task; does nothing when nothing is
    /// selected.
    pub fn edit(&mut self, text: &str)
        requires
            old(self).wf(),
        ensures
            selected_changed(*old(self), *final(self), retexted(text@)),
    {
        if let Some(i) = self.selection {
            let mut c = self.take_child(i);
            c.task = text.to_owned();
            self.put_child(i, c);
            proof {
                assert(self.list() =~= on_selected(old(self).list(), old(self).sel(), retexted(text@)));
            }
        }
    }

    /// Flips the completion of the selected task; does nothing when nothing
    /// is selected.
    pub fn toggle_complete(&mut self)
        requires
            old(self).wf(),
        ensures
            selected_changed(*old(self), *final(self), toggled()),
    {
        if let Some(i) = self.selection {
            let mut c = self.take_child(i);
            c.complete = !c.complete;
            self.put_child(i, c);
            proof {
                assert(self.list() =~= on_selected(old(self).list(), old(self).sel(), toggled()));
            }
        }
    }

    /// Raises the priority of the selected task one step, saturating at
    /// `High`; does nothing when nothing is selected.
    pub fn increase_priority(&mut self)
        requires
            old(self).wf(),
        ensures
            selected_changed(*old(self), *final(self), promoted()),
    {
        if let Some(i) = self.selection {
            let mut c = self.take_child(i);
            c.priority = increase(c.priority);
            self.put_child(i, c);
            proof {
                assert(self.list() =~= on_selected(old(self).list(), old(self).sel(), promoted()));
            }
        }
    }

    /// Lowers the priority of the selected task one step, saturating at no
    /// priority; does nothing when nothing is selected.
    pub fn decrease_priority(&mut self)
        requires
            old(self).wf(),
        ensures
            selected_changed(*old(self), *final(self), demoted()),
    {
        if let Some(i) = self.selection {
            let mut c = self.take_child(i);
            c.priority = decrease(c.priority);
            self.put_child(i, c);
            proof {
                assert(self.list() =~= on_selected(old(self).list(), old(self).sel(), demoted()));
            }
        }
    }

    /// Removes the selected task, and everything below it, and clears the
    /// selection; does nothing when nothing is selected. Asking the user
    /// first is the caller's part.
    pub fn delete(&mut self)
        requires
            old(self).wf(),
        ensures
            selected_deleted(*old(self), *final(self)),
    {
        proof {
            lemma_model_children(self.current);
        }
        if let Some(i) = self.selection {
            proof {
                lemma_models_remove(self.current.sub_tasks@, i as int);
            }
            self.current.sub_tasks.remove(i);
            self.selection = None;
            proof {
                lemma_model_children(self.current);
            }
        }
        self.selection = None;
    }

    /// Swaps the selected task with its neighbour above or below, wrapping
    /// past either end; the selection follows the task. Does nothing when
    /// nothing is selected.
    pub fn move_task(&mut self, up: bool)
        requires
            old(self).wf(),
        ensures
            selected_moved(*old(self), *final(self), up),
    {
        proof {
            lemma_model_children(self.current);
        }
        if let Some(i) = self.selection {
            let n = self.current.sub_tasks.len();
            let j = if up {
                if i == 0 {
                    n - 1
                } else {
                    i - 1
                }
            } else {
                if i == n - 1 {
                    0
                } else {
                    i + 1
                }
            };
            if i != j {
                let a = self.take_child(i);
                let b = self.take_child(j);
                self.put_child(i, b);
                self.put_child(j, a);
            }
            self.selection = Some(j);
            proof {
                assert(self.list() =~= swapped(old(self).list(), i as int, j as int));
            }
        }
    }

    /// Sorts the visible list by descending priority, stably (see
    /// `ToDo::sort_by_priority`). The selection keeps its index.
    pub fn sort_by_priority(&mut self)
        requires
            old(self).wf(),
        ensures
            list_sorted(*old(self), *final(self)),
    {
        proof {
            lemma_model_children(self.current);
        }
        self.current.sort_by_priority();
        proof {
            lemma_model_children(self.current);
            assert(self.current.sub_tasks.len() == models(self.current.sub_tasks@).len());
        }
    }

    /// Focuses on the selected task: its sub-tasks become the visible list,
    /// with the first selected if there is one. Does nothing when nothing is
    /// selected. The tree itself does not change.
    pub fn focus(&mut self)
        requires
            old(self).wf(),
        ensures
            focused(*old(self), *final(self)),
    {
        proof {
            lemma_model_children(self.current);
        }
        if let Some(i) = self.selection {
            let ghost before = self.current.model();
            let ghost subs = self.current.sub_tasks@;
            let mut child = self.current.sub_tasks.remove(i);
            proof {
                lemma_models_remove(subs, i as int);
                lemma_model_children(self.current);
                lemma_models_insert(subs.remove(i as int), i as int, child);
                assert(subs.remove(i as int).insert(i as int, child) =~= subs);
            }
            std::mem::swap(&mut self.current, &mut child);
            let has_children = self.current.sub_tasks.len() > 0;
            self.stack.push(Frame { parent: child, index: i, selection: Some(i) });
            self.selection = if has_children {
                Some(0)
            } else {
                None
            };
            proof {
                lemma_model_children(self.current);
                let f = self.stack@.last();
                assert(self.stack@.drop_last() =~= old(self).stack@);
                assert(reattach(f.parent_task(), i as int, self.current.model()) =~= before);
                assert forall|k: int| 0 <= k < self.stack.len() implies {
                    let f = #[trigger] self.stack@[k];
                    &&& f.index <= f.parent.sub_tasks.len()
                    &&& selects_into(f.selection, (f.parent.sub_tasks.len() + 1) as nat)
                } by {
                    if k < old(self).stack.len() {
                        assert(self.stack@[k] == old(self).stack@[k]);
                    }
                }
            }
        }
    }

    /// Returns to the list that was browsed before the last focus, with its
    /// selection as it was; at the top level does nothing. Tells whether it
    /// moved. The tree itself does not change.
    pub fn back(&mut self) -> (moved: bool)
        requires
            old(self).wf(),
        ensures
            went_back(*old(self), *final(self)),
            moved == (old(self).frames().len() > 0),
    {
        match self.stack.pop() {
            None => false,
            Some(frame) => {
                let Frame { parent, index, selection } = frame;
                let mut node = parent;
                proof {
                    assert(old(self).stack@[old(self).stack.len() - 1] == frame);
                    lemma_model_children(node);
                    lemma_models_insert(node.sub_tasks@, index as int, self.current);
                }
                let ghost inner = self.current;
                std::mem::swap(&mut self.current, &mut node);
                self.current.sub_tasks.insert(index, node);
                self.selection = selection;
                proof {
                    lemma_model_children(self.current);
                    assert(self.current.model() =~= reattach(frame.parent_task(), index as int, inner.model()));
                    assert forall|k: int| 0 <= k < self.stack.len() implies {
                        let f = #[trigger] self.stack@[k];
                        &&& f.index <= f.parent.sub_tasks.len()
                        &&& selects_into(f.selection, (f.parent.sub_tasks.len() + 1) as nat)
                    } by {
                        assert(self.stack@[k] == old(self).stack@[k]);
                    }
                }
                true
            },
        }
    }

    /// The save-file text of the whole tree.
    pub fn save(&self) -> (r: String)
        requires
            self.wf(),
        ensures
            r@ == encode(self.tree()),
    {
        let mut t = self.current.duplicate();
        let mut k = self.stack.len();
        assert(self.stack@.take(k as int) =~= self.stack@);
        while k > 0
            invariant
                self.wf(),
                k <= self.stack.len(),
                plug(self.stack@.take(k as int), t.model()) == self.tree(),
            decreases k,
        {
            k -= 1;
            let f = &self.stack[k];
            let mut p = f.parent.duplicate();
            proof {
                assert(self.stack@[k as int] == *f);
                lemma_model_children(p);
                lemma_models_insert(p.sub_tasks@, f.index as int, t);
            }
            let ghost tm = t.model();
            p.sub_tasks.insert(f.index, t);
            proof {
                lemma_model_children(p);
                let q = self.stack@.take(k + 1);
                assert(q.drop_last() =~= self.stack@.take(k as int));
                assert(q.last() == *f);
                assert(p.model() =~= reattach(f.parent_task(), f.index() as int, tm));
            }
            t = p;
        }
        assert(self.stack@.take(0) =~= Seq::<Frame>::empty());
        t.save()
    }

    /// The breadcrumb of the node being browsed: the texts from the top of
    /// the tree down to it, joined by `": "`; the root's text is left out
    /// when it is empty.
    pub fn task_path(&self) -> (r: String)
        ensures
            r@ == joined(self.trail()),
    {
        let ghost texts = Seq::new(self.stack.len() as nat, |k: int| self.stack@[k].parent.task@).push(
            self.current.task@,
        );
        let mut parts: Vec<Vec<char>> = Vec::new();
        let mut k: usize = 0;
        while k < self.stack.len()
            invariant
                k <= self.stack.len(),
                texts.len() == self.stack.len() + 1,
                forall|j: int| 0 <= j < self.stack.len() ==> #[trigger] texts[j] == self.stack@[j].parent.task@,
                texts[self.stack.len() as int] == self.current.task@,
                parts.len() == k,
                forall|j: int| 0 <= j < k ==> #[trigger] parts@[j]@ == texts[j],
            decreases self.stack.len() - k,
        {
            parts.push(chars_of(self.stack[k].parent.task.as_str()));
            k += 1;
        }
        parts.push(chars_of(self.current.task.as_str()));
        let start: usize = if parts[0].len() == 0 {
            1
        } else {
            0
        };
        assert(texts.skip(start as int) =~= self.trail());
        let mut out: Vec<char> = Vec::new();
        let mut i: usize = start;
        assert(texts.subrange(start as int, start as int) =~= Seq::<Seq<char>>::empty());
        while i < parts.len()
            invariant
                start <= i <= parts.len(),
                start <= 1,
                parts.len() == texts.len(),
                forall|j: int| 0 <= j < parts.len() ==> #[trigger] parts@[j]@ == texts[j],
                out@ == joined(texts.subrange(start as int, i as int)),
            decreases parts.len() - i,
        {
            let ghost before = texts.subrange(start as int, i as int);
            if i > start {
                out.push(':');
                out.push(' ');
            }
            push_all(&mut out, &parts[i]);
            proof {
                let now = texts.subrange(start as int, i + 1);
                assert(now.drop_last() =~= before);
                assert(now.last() == texts[i as int]);
                if i == start {
                    assert(out@ =~= joined(now));
                } else {
                    assert(out@ =~= joined(now));
                }
            }
            i += 1;
        }
        assert(texts.subrange(start as int, texts.len() as int) =~= texts.skip(start as int));
        string_of(&out)
    }

    /// Carries out one command of the session. Quitting stops the session
    /// from any depth; going back at the top level does nothing; saving hands
    /// back the text of the whole tree; every other command changes the view
    /// as its method says.
    pub fn apply(&mut self, cmd: Command) -> (step: Step)
        requires
            old(self).wf(),
        ensures
            final(self).wf(),
            match cmd {
                Command::Quit => step is Quit && *final(self) == *old(self),
                Command::Save => *final(self) == *old(self) && (match step {
                    Step::Write(t) => t@ == encode(old(self).tree()),
                    _ => false,
                }),
                Command::Back => step is Continue && went_back(*old(self), *final(self)),
                Command::Add(t) => step is Continue && task_appended(*old(self), *final(self), fresh(t@)),
                Command::Edit(t) => step is Continue && selected_changed(
                    *old(self),
                    *final(self),
                    retexted(t@),
                ),
                Command::Delete => step is Continue && selected_deleted(*old(self), *final(self)),
                Command::TaskUp => step is Continue && selected_moved(*old(self), *final(self), true),
                Command::TaskDown => step is Continue && selected_moved(*old(self), *final(self), false),
                Command::Focus => step is Continue && focused(*old(self), *final(self)),
                Command::Complete => step is Continue && selected_changed(
                    *old(self),
                    *final(self),
                    toggled(),
                ),
                Command::SelectUp => step is Continue && selection_moved(*old(self), *final(self), true),
                Command::SelectDown => step is Continue && selection_moved(
                    *old(self),
                    *final(self),
                    false,
                ),
                Command::Increase => step is Continue && selected_changed(
                    *old(self),
                    *final(self),
                    promoted(),
                ),
                Command::Decrease => step is Continue && selected_changed(
                    *old(self),
                    *final(self),
                    demoted(),
                ),
                Command::Sort => step is Continue && list_sorted(*old(self), *final(self)),
            },
    {
        match cmd {
            Command::Quit => Step::Quit,
            Command::Save => Step::Write(self.save()),
            Command::Back => {
                self.back();
                Step::Continue
            },
            Command::Add(t) => {
                self.add(t.as_str());
                Step::Continue
            },
            Command::Edit(t) => {
                self.edit(t.as_str());
                Step::Continue
            },
            Command::Delete => {
                self.delete();
                Step::Continue
            },
            Command::TaskUp => {
                self.move_task(true);
                Step::Continue
            },
            Command::TaskDown => {
                self.move_task(false);
                Step::Continue
            },
            Command::Focus => {
                self.focus();
                Step::Continue
            },
            Command::Complete => {
                self.toggle_complete();
                Step::Continue
            },
            Command::SelectUp => {
                self.move_selection(true);
                Step::Continue
            },
            Command::SelectDown => {
                self.move_selection(false);
                Step::Continue
            },
            Command::Increase => {
                self.increase_priority();
                Step::Continue
            },
            Command::Decrease => {
                self.decrease_priority();
                Step::Continue
            },
            Command::Sort => {
                self.sort_by_priority();
                Step::Continue
            },
        }
    }
}

} // verus!
